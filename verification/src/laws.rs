//! What holds of the joins: a joined text is one line within the cap, joins go
//! innermost first, and no block that holds a comment or a multi-line token is
//! ever joined.

use vstd::prelude::*;
use crate::text::{is_ws, has_char};
use crate::join::{
    body_text, closes_body, first_in, first_non_ws, has_multiline_block, has_multiline_leaf, join_cap, join_limit,
    joined, joined_lines, lemma_first_in, lines_from, multiline_block_at, multiline_leaf_at, needs_space,
    piece, strip_cr, trim_start, width_after, width_before,
};
use crate::text::byte_len;
use crate::syntax::{NodeView, named_child_count, parent, subtree_end, tree_ok};

verus! {

pub proof fn lemma_first_non_ws(l: Seq<char>, k: int)
    requires
        0 <= k <= l.len(),
    ensures
        k <= first_non_ws(l, k) <= l.len(),
        forall|j: int| k <= j < first_non_ws(l, k) ==> is_ws(#[trigger] l[j]),
    decreases l.len() - k,
{
    if k < l.len() && is_ws(l[k]) {
        lemma_first_non_ws(l, k + 1);
    }
}

/// A text of whitespace only.
pub open spec fn blank(x: Seq<char>) -> bool {
    forall|k: int| 0 <= k < x.len() ==> is_ws(#[trigger] x[k])
}

/// `x` holds no line break.
pub open spec fn one_line(x: Seq<char>) -> bool {
    forall|k: int| 0 <= k < x.len() ==> #[trigger] x[k] != '\n'
}

proof fn lemma_one_line_concat(a: Seq<char>, b: Seq<char>)
    requires
        one_line(a),
        one_line(b),
    ensures
        one_line(a + b),
{
    assert forall|k: int| 0 <= k < (a + b).len() implies #[trigger] (a + b)[k] != '\n' by {
        if k < a.len() {
            assert((a + b)[k] == a[k]);
        } else {
            assert((a + b)[k] == b[k - a.len()]);
        }
    }
}

proof fn lemma_lines_one_line(s: Seq<char>, p: int, b: int)
    requires
        0 <= p <= b <= s.len(),
    ensures
        forall|k: int| 0 <= k < lines_from(s, p, b).len() ==> one_line(#[trigger] lines_from(s, p, b)[k]),
    decreases b - p,
{
    if p < b {
        lemma_first_in(s, p, b, '\n');
        let k = first_in(s, p, b, '\n');
        let raw = s.subrange(p, if k >= b { b } else { k });
        assert(one_line(raw)) by {
            assert forall|j: int| 0 <= j < raw.len() implies #[trigger] raw[j] != '\n' by {
                assert(raw[j] == s[p + j]);
            }
        }
        if k >= b {
            assert(lines_from(s, p, b) == seq![raw]);
        } else {
            let line = strip_cr(raw);
            assert(one_line(line)) by {
                assert forall|j: int| 0 <= j < line.len() implies #[trigger] line[j] != '\n' by {
                    assert(line[j] == raw[j]);
                }
            }
            lemma_lines_one_line(s, k + 1, b);
            let rest = lines_from(s, k + 1, b);
            assert(lines_from(s, p, b) == seq![line] + rest);
            assert forall|j: int| 0 <= j < (seq![line] + rest).len() implies one_line(#[trigger] (seq![line] + rest)[j]) by {
                if j > 0 {
                    assert((seq![line] + rest)[j] == rest[j - 1]);
                }
            }
        }
    }
}

proof fn lemma_joined_lines_one_line(ls: Seq<Seq<char>>)
    requires
        forall|k: int| 0 <= k < ls.len() ==> one_line(#[trigger] ls[k]),
    ensures
        one_line(joined_lines(ls)),
    decreases ls.len(),
{
    if ls.len() > 0 {
        let front = ls.drop_last();
        assert forall|k: int| 0 <= k < front.len() implies one_line(#[trigger] front[k]) by {
            assert(front[k] == ls[k]);
        }
        lemma_joined_lines_one_line(front);
        let l = ls.last();
        assert(one_line(l)) by {
            assert(l == ls[ls.len() - 1]);
        }
        let pc = piece(ls.len() - 1, l);
        assert(one_line(pc)) by {
            if ls.len() - 1 != 0 {
                let tl = trim_start(l);
                assert(one_line(tl)) by {
                    assert forall|j: int| 0 <= j < tl.len() implies #[trigger] tl[j] != '\n' by {
                        lemma_first_non_ws(l, 0);
                        assert(tl[j] == l[j + first_non_ws(l, 0)]);
                    }
                }
                if needs_space(tl) {
                    assert(one_line(seq![' ']));
                    lemma_one_line_concat(seq![' '], tl);
                }
            }
        }
        let fr = joined_lines(front);
        if closes_body(ls.len() - 1, l) && fr.len() > 0 && fr.last() == ',' {
            assert(one_line(fr.drop_last())) by {
                assert forall|j: int| 0 <= j < fr.drop_last().len() implies #[trigger] fr.drop_last()[j] != '\n' by {
                    assert(fr.drop_last()[j] == fr[j]);
                }
            }
            lemma_one_line_concat(fr.drop_last(), pc);
        } else {
            lemma_one_line_concat(fr, pc);
        }
    }
}

/// A node joins onto one line, and the whole line that results fits the cap:
/// from the start of the node's line (after the last line break before it, or
/// the start of the text) to the end of its last line (the next line break, or
/// the end of the text), at most `join_cap(width)` bytes, and never more than 105.
pub proof fn law_joined_one_line(t: Seq<NodeView>, s: Seq<char>, width: usize, i: int)
    requires
        0 <= i < t.len(),
        tree_ok(t, s.len()),
        joined(t, s, width, i) is Some,
    ensures
        one_line(joined(t, s, width, i).unwrap()),
        width_before(s, t[i].start as int) + byte_len(joined(t, s, width, i).unwrap()) + width_after(
            s,
            t[i].end as int,
        ) <= join_cap(width) <= 105,
{
    let u = body_text(t, s, i);
    lemma_lines_one_line(u, 0, u.len() as int);
    lemma_joined_lines_one_line(lines_from(u, 0, u.len() as int));
}

/// No node joins that holds a comment or a multi-line token anywhere in its
/// subtree, so such a token and every block around it keep their lines.
pub proof fn law_comment_blocks_join(t: Seq<NodeView>, s: Seq<char>, width: usize, j: int, k: int)
    requires
        0 <= j <= k < subtree_end(t, j),
        multiline_leaf_at(t, s, k),
    ensures
        joined(t, s, width, j) is None,
{
    assert(has_multiline_leaf(t, s, j));
}

/// Joins go innermost first: a node joins only once every block below it
/// already sits on one line, so an outer body waits for a later round.
pub proof fn law_joins_innermost_first(t: Seq<NodeView>, s: Seq<char>, width: usize, i: int, k: int)
    requires
        0 <= i < k < subtree_end(t, i),
        t[k].kind == "block"@,
        joined(t, s, width, i) is Some,
    ensures
        !has_char(s, t[k].start as int, t[k].end as int, '\n'),
{
    if has_char(s, t[k].start as int, t[k].end as int, '\n') {
        assert(multiline_block_at(t, s, k));
        assert(has_multiline_block(t, s, i));
    }
}

/// Only a node of a joinable kind joins, and only when it has few enough
/// named children: one for a block (a fn, if or loop body) or an impl body,
/// three for a match, struct or enum body; a block that is a match arm's
/// body never joins.
pub proof fn law_joined_is_small(t: Seq<NodeView>, s: Seq<char>, width: usize, i: int)
    requires
        0 <= i < t.len(),
        joined(t, s, width, i) is Some,
    ensures
        join_limit(t, i) is Some,
        named_child_count(t, i) <= join_limit(t, i).unwrap() <= 3,
        t[i].kind == "block"@ || t[i].kind == "match_block"@ || t[i].kind == "field_declaration_list"@
            || t[i].kind == "enum_variant_list"@ || t[i].kind == "declaration_list"@,
        t[i].kind == "block"@ ==> named_child_count(t, i) <= 1,
        t[i].kind == "declaration_list"@ ==> named_child_count(t, i) <= 1,
        named_child_count(t, i) <= 3,
        t[i].kind == "block"@ ==> join_limit(t, i) == Some(1nat),
        t[i].kind == "block"@ && parent(t, i) >= 0 ==> t[parent(t, i)].kind != "match_arm"@,
{
    reveal_strlit("function_item");
    reveal_strlit("match_arm");
    reveal_strlit("block");
    reveal_strlit("match_block");
    reveal_strlit("field_declaration_list");
    reveal_strlit("enum_variant_list");
    reveal_strlit("declaration_list");
    assert("function_item"@.len() != "match_arm"@.len());
    let k = t[i].kind;
    if k == "declaration_list"@ {
        assert(k.len() == 16);
        assert(k != "block"@ && k != "match_block"@ && k != "field_declaration_list"@ && k
            != "enum_variant_list"@);
        assert(join_limit(t, i) == Some(1nat));
    }
}

} // verus!
