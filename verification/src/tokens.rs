//! Compaction moves whitespace and drops trailing commas, and does nothing
//! else: with whitespace and trailing commas left out, its result reads as its
//! input. A trailing comma is one after which, past whitespace and other
//! commas, a `}` comes.

use vstd::prelude::*;
use crate::text::is_ws;
use crate::syntax::{NodeView, field_child, lemma_scan_field, lemma_scan_named, lemma_subtree_end, subtree_end, syntax_of, tree_ok};
use crate::edits::{EditView, apply_edits, apply_from, sort_desc};
use crate::join::{
    body_text, closes_body, comma_before_brace, first_in, first_non_ws, join_step, joined, joined_lines, lemma_first_in, lines_from,
    needs_space, piece, round, round_edits, strip_cr, trim_start, uncomma,
};
use crate::elses::{break_before, chain, gap_edit, lemma_chain_step, next_branch, split_edits, split_elses, statement_if};
use crate::laws::{blank, lemma_first_non_ws};
use crate::settle::{lemma_round_settles, lemma_sort_members, newlines};
use crate::{compacted, settled};

verus! {

/// Whether, in `s` followed by a text for which it is `after`, the first
/// character that is neither whitespace nor a comma is `}`.
pub open spec fn brace_next(s: Seq<char>, after: bool) -> bool
    decreases s.len(),
{
    if s.len() == 0 {
        after
    } else {
        let c = s.last();
        brace_next(s.drop_last(), if is_ws(c) || c == ',' { after } else { c == '}' })
    }
}

/// The characters of `s`, followed by a text for which `brace_next` is
/// `after`, other than whitespace and trailing commas.
pub open spec fn tokens(s: Seq<char>, after: bool) -> Seq<char>
    decreases s.len(),
{
    if s.len() == 0 {
        Seq::empty()
    } else {
        let c = s.last();
        if is_ws(c) {
            tokens(s.drop_last(), after)
        } else if c == ',' {
            if after {
                tokens(s.drop_last(), after)
            } else {
                tokens(s.drop_last(), after).push(c)
            }
        } else {
            tokens(s.drop_last(), c == '}').push(c)
        }
    }
}

/// `x` and `y` read the same, with whitespace and trailing commas left out,
/// whatever text follows them.
pub open spec fn same_tokens(x: Seq<char>, y: Seq<char>) -> bool {
    &&& tokens(x, true) == tokens(y, true)
    &&& tokens(x, false) == tokens(y, false)
    &&& brace_next(x, true) == brace_next(y, true)
    &&& brace_next(x, false) == brace_next(y, false)
}

proof fn lemma_tokens_concat(a: Seq<char>, b: Seq<char>, after: bool)
    ensures
        tokens(a + b, after) == tokens(a, brace_next(b, after)) + tokens(b, after),
        brace_next(a + b, after) == brace_next(a, brace_next(b, after)),
    decreases b.len(),
{
    if b.len() == 0 {
        assert(a + b =~= a);
    } else {
        let c = b.last();
        let n = if is_ws(c) || c == ',' { after } else { c == '}' };
        lemma_tokens_concat(a, b.drop_last(), n);
        assert((a + b).drop_last() =~= a + b.drop_last());
        assert((a + b).last() == c);
        if is_ws(c) {
        } else if c == ',' {
            if !after {
                assert(tokens(a + b, after) =~= tokens(a, brace_next(b, after)) + tokens(b, after));
            }
        } else {
            assert(tokens(a + b, after) =~= tokens(a, brace_next(b, after)) + tokens(b, after));
        }
    }
}

proof fn lemma_blank_tokens(x: Seq<char>, after: bool)
    requires
        blank(x),
    ensures
        tokens(x, after) == Seq::<char>::empty(),
        brace_next(x, after) == after,
    decreases x.len(),
{
    if x.len() > 0 {
        assert(is_ws(x[x.len() - 1]));
        assert(blank(x.drop_last())) by {
            assert forall|k: int| 0 <= k < x.drop_last().len() implies is_ws(#[trigger] x.drop_last()[k]) by {
                assert(x.drop_last()[k] == x[k]);
            }
        }
        lemma_blank_tokens(x.drop_last(), after);
    }
}

proof fn lemma_same_blank(x: Seq<char>, y: Seq<char>)
    requires
        blank(x),
        blank(y),
    ensures
        same_tokens(x, y),
{
    lemma_blank_tokens(x, true);
    lemma_blank_tokens(x, false);
    lemma_blank_tokens(y, true);
    lemma_blank_tokens(y, false);
}

proof fn lemma_same_concat(x: Seq<char>, y: Seq<char>, z: Seq<char>, w: Seq<char>)
    requires
        same_tokens(x, y),
        same_tokens(z, w),
    ensures
        same_tokens(x + z, y + w),
{
    lemma_tokens_concat(x, z, true);
    lemma_tokens_concat(x, z, false);
    lemma_tokens_concat(y, w, true);
    lemma_tokens_concat(y, w, false);
}

proof fn lemma_blank_concat(x: Seq<char>, y: Seq<char>)
    requires
        blank(x),
        blank(y),
    ensures
        blank(x + y),
{
    assert forall|k: int| 0 <= k < (x + y).len() implies is_ws(#[trigger] (x + y)[k]) by {
        if k < x.len() {
            assert((x + y)[k] == x[k]);
        } else {
            assert((x + y)[k] == y[k - x.len()]);
        }
    }
}

/// The lines with one space between each two.
pub open spec fn spaced(ls: Seq<Seq<char>>) -> Seq<char>
    decreases ls.len(),
{
    if ls.len() == 0 {
        Seq::empty()
    } else if ls.len() == 1 {
        ls[0]
    } else {
        spaced(ls.drop_last()) + seq![' '] + ls.last()
    }
}

proof fn lemma_spaced_cons(l: Seq<char>, rest: Seq<Seq<char>>)
    requires
        rest.len() > 0,
    ensures
        spaced(seq![l] + rest) == l + seq![' '] + spaced(rest),
    decreases rest.len(),
{
    let ls = seq![l] + rest;
    assert(ls.drop_last() =~= seq![l] + rest.drop_last());
    assert(ls.last() == rest.last());
    if rest.len() == 1 {
        assert(ls.drop_last() =~= seq![l]);
        assert(spaced(seq![l]) == l);
    } else {
        lemma_spaced_cons(l, rest.drop_last());
        assert(l + seq![' '] + spaced(rest.drop_last()) + seq![' '] + rest.last() =~= l + seq![' ']
            + (spaced(rest.drop_last()) + seq![' '] + rest.last()));
    }
}

proof fn lemma_lines_same(s: Seq<char>, p: int, b: int)
    requires
        0 <= p <= b <= s.len(),
    ensures
        same_tokens(spaced(lines_from(s, p, b)), s.subrange(p, b)),
    decreases b - p,
{
    if p < b {
        lemma_first_in(s, p, b, '\n');
        let k = first_in(s, p, b, '\n');
        if k >= b {
            assert(lines_from(s, p, b) == seq![s.subrange(p, b)]);
        } else {
            let line = strip_cr(s.subrange(p, k));
            let rest = lines_from(s, k + 1, b);
            assert(lines_from(s, p, b) == seq![line] + rest);
            let w = s.subrange(p + line.len(), k + 1);
            assert(line =~= s.subrange(p, p + line.len()));
            assert(blank(w)) by {
                assert forall|j: int| 0 <= j < w.len() implies is_ws(#[trigger] w[j]) by {
                    assert(w[j] == s[p + line.len() + j]);
                    assert(is_ws('\r'));
                    assert(is_ws('\n'));
                }
            }
            if k + 1 >= b {
                assert(rest == Seq::<Seq<char>>::empty());
                assert(seq![line] + rest =~= seq![line]);
                assert(s.subrange(p, b) =~= line + w);
                assert(blank(Seq::<char>::empty()));
                lemma_same_blank(Seq::<char>::empty(), w);
                lemma_same_concat(line, line, Seq::<char>::empty(), w);
                assert(line + Seq::<char>::empty() =~= line);
            } else {
                lemma_lines_same(s, k + 1, b);
                lemma_spaced_cons(line, rest);
                assert(blank(seq![' ']));
                lemma_same_blank(seq![' '], w);
                lemma_same_concat(line, line, seq![' '], w);
                lemma_same_concat(line + seq![' '], line + w, spaced(rest), s.subrange(k + 1, b));
                assert(s.subrange(p, b) =~= line + w + s.subrange(k + 1, b));
            }
        }
    } else {
        assert(s.subrange(p, b) =~= Seq::<char>::empty());
        assert(lines_from(s, p, b) == Seq::<Seq<char>>::empty());
    }
}

/// `brace_next` of a text that starts, past whitespace, with `}`.
proof fn lemma_brace_first(pre: Seq<char>, tl: Seq<char>, after: bool)
    requires
        blank(pre),
        tl.len() > 0,
        tl[0] == '}',
    ensures
        brace_next(pre + tl, after),
{
    lemma_tokens_concat(pre, tl, after);
    lemma_blank_tokens(pre, brace_next(tl, after));
    assert(tl =~= seq!['}'] + tl.skip(1));
    lemma_tokens_concat(seq!['}'], tl.skip(1), after);
    assert(seq!['}'].drop_last() =~= Seq::<char>::empty());
    assert(seq!['}'].last() == '}');
    assert(!is_ws('}'));
    assert(brace_next(seq!['}'], brace_next(tl.skip(1), after))) by {
        reveal_with_fuel(brace_next, 2);
    }
    assert(brace_next(tl, after));
}

proof fn lemma_piece_same(i: int, l: Seq<char>)
    requires
        i > 0,
    ensures
        same_tokens(piece(i, l), seq![' '] + l),
        exists|pre: Seq<char>| blank(pre) && piece(i, l) == pre + trim_start(l),
{
    lemma_first_non_ws(l, 0);
    let f = first_non_ws(l, 0);
    let tl = trim_start(l);
    assert(l =~= l.take(f) + tl);
    assert(blank(l.take(f))) by {
        assert forall|j: int| 0 <= j < l.take(f).len() implies is_ws(#[trigger] l.take(f)[j]) by {
            assert(l.take(f)[j] == l[j]);
        }
    }
    assert(blank(seq![' ']));
    lemma_blank_concat(seq![' '], l.take(f));
    assert(seq![' '] + l =~= (seq![' '] + l.take(f)) + tl);
    let pre = if needs_space(tl) { seq![' '] } else { Seq::<char>::empty() };
    assert(blank(pre));
    assert(piece(i, l) =~= pre + tl);
    lemma_same_blank(pre, seq![' '] + l.take(f));
    lemma_same_concat(pre, seq![' '] + l.take(f), tl, tl);
}

/// A comma that a `}` follows, past whitespace and other commas, is a
/// trailing one: it reads as nothing.
proof fn lemma_comma_before(pc: Seq<char>)
    requires
        brace_next(pc, true),
        brace_next(pc, false),
    ensures
        same_tokens(seq![','] + pc, pc),
{
    lemma_tokens_concat(seq![','], pc, true);
    lemma_tokens_concat(seq![','], pc, false);
    assert(seq![','].drop_last() =~= Seq::<char>::empty());
    assert(seq![','].last() == ',');
    assert(!is_ws(','));
    assert(tokens(seq![','], true) == Seq::<char>::empty()) by {
        reveal_with_fuel(tokens, 2);
    }
    assert(brace_next(seq![','], true)) by {
        reveal_with_fuel(brace_next, 2);
    }
    assert(Seq::<char>::empty() + tokens(pc, true) =~= tokens(pc, true));
    assert(Seq::<char>::empty() + tokens(pc, false) =~= tokens(pc, false));
}

/// Leaving out the commas before ` }` leaves out trailing commas only.
proof fn lemma_uncomma_same(t: Seq<NodeView>, s: Seq<char>, i: int, a: int, k: int, b: int)
    requires
        0 <= a <= k <= b <= s.len(),
    ensures
        same_tokens(uncomma(t, s, i, a, k, b) + s.subrange(k, b), s.subrange(a, b)),
    decreases k - a,
{
    if k == a {
        assert(uncomma(t, s, i, a, k, b) + s.subrange(k, b) =~= s.subrange(a, b));
    } else {
        lemma_uncomma_same(t, s, i, a, k - 1, b);
        let u = uncomma(t, s, i, a, k - 1, b);
        assert(s.subrange(k - 1, b) =~= seq![s[k - 1]] + s.subrange(k, b));
        if comma_before_brace(t, s, i, k - 1, b) {
            let rest = s.subrange(k, b);
            assert(rest =~= seq![' '] + s.subrange(k + 1, b));
            assert(blank(seq![' ']));
            lemma_brace_first(seq![' '], s.subrange(k + 1, b), true);
            lemma_brace_first(seq![' '], s.subrange(k + 1, b), false);
            lemma_comma_before(rest);
            lemma_same_concat(u, u, rest, seq![','] + rest);
            assert(uncomma(t, s, i, a, k, b) =~= u);
            assert(u + (seq![','] + rest) =~= u + s.subrange(k - 1, b));
        } else {
            assert(uncomma(t, s, i, a, k, b) + s.subrange(k, b) =~= u + s.subrange(k - 1, b));
        }
    }
}

#[verifier::spinoff_prover]
proof fn lemma_joined_lines_same(ls: Seq<Seq<char>>)
    ensures
        same_tokens(joined_lines(ls), spaced(ls)),
    decreases ls.len(),
{
    if ls.len() == 1 {
        assert(ls.drop_last() =~= Seq::<Seq<char>>::empty());
        assert(joined_lines(ls.drop_last()) == Seq::<char>::empty());
        assert(ls.last() == ls[0]);
        assert(!closes_body(0, ls[0]));
        assert(join_step(Seq::<char>::empty(), 0, ls[0]) =~= ls[0]);
        assert(joined_lines(ls) =~= ls[0]);
    } else if ls.len() > 1 {
        let i = ls.len() - 1;
        let l = ls.last();
        let front = joined_lines(ls.drop_last());
        let pc = piece(i, l);
        lemma_joined_lines_same(ls.drop_last());
        lemma_piece_same(i, l);
        lemma_same_concat(front, spaced(ls.drop_last()), pc, seq![' '] + l);
        assert(spaced(ls) =~= spaced(ls.drop_last()) + (seq![' '] + l));
        if closes_body(i, l) && front.len() > 0 && front.last() == ',' {
            let d = front.drop_last();
            let pre = choose|pre: Seq<char>| blank(pre) && pc == pre + trim_start(l);
            lemma_brace_first(pre, trim_start(l), true);
            lemma_brace_first(pre, trim_start(l), false);
            let cp = seq![','] + pc;
            lemma_comma_before(pc);
            lemma_same_concat(d, d, pc, cp);
            assert(d + cp =~= front + pc);
            assert(joined_lines(ls) == d + pc);
        }
    }
}

/// A node's one-line text reads as the node's text, apart from whitespace and
/// trailing commas, whatever text follows it.
pub proof fn law_joined_keeps_tokens(t: Seq<NodeView>, s: Seq<char>, width: usize, i: int)
    requires
        0 <= i < t.len(),
        tree_ok(t, s.len()),
        joined(t, s, width, i) is Some,
    ensures
        same_tokens(joined(t, s, width, i).unwrap(), s.subrange(t[i].start as int, t[i].end as int)),
{
    let a = t[i].start as int;
    let b = t[i].end as int;
    let u = body_text(t, s, i);
    lemma_joined_lines_same(lines_from(u, 0, u.len() as int));
    lemma_lines_same(u, 0, u.len() as int);
    assert(u.subrange(0, u.len() as int) =~= u);
    lemma_uncomma_same(t, s, i, a, b, b);
    assert(u + s.subrange(b, b) =~= u);
}

/// Edit `e`, if it stays inside `s`, puts text that reads the same, without
/// whitespace and trailing commas, in place of the text it replaces.
pub open spec fn edit_same(s: Seq<char>, e: EditView) -> bool {
    e.start <= e.end <= s.len() ==> same_tokens(e.text, s.subrange(e.start as int, e.end as int))
}

proof fn lemma_apply_same(s: Seq<char>, cur: Seq<char>, es: Seq<EditView>, bound: int)
    requires
        forall|k: int| 0 <= k < es.len() ==> edit_same(s, #[trigger] es[k]),
        0 <= bound <= s.len(),
        bound <= cur.len(),
        cur.take(bound) == s.take(bound),
        same_tokens(cur, s),
    ensures
        same_tokens(apply_from(cur, es, bound), s),
    decreases es.len(),
{
    if es.len() > 0 {
        let e = es[0];
        let rest = es.drop_first();
        assert forall|k: int| 0 <= k < rest.len() implies edit_same(s, #[trigger] rest[k]) by {
            assert(rest[k] == es[k + 1]);
        }
        if e.start <= e.end <= bound {
            let a = e.start as int;
            let b = e.end as int;
            assert(edit_same(s, es[0]));
            assert(cur.subrange(a, b) =~= s.subrange(a, b)) by {
                assert forall|j: int| a <= j < b implies cur[j] == s[j] by {
                    assert(cur.take(bound)[j] == cur[j]);
                    assert(s.take(bound)[j] == s[j]);
                }
            }
            let next = cur.take(a) + e.text + cur.skip(b);
            assert(cur =~= cur.take(a) + cur.subrange(a, b) + cur.skip(b));
            lemma_same_concat(cur.take(a), cur.take(a), e.text, cur.subrange(a, b));
            lemma_same_concat(cur.take(a) + e.text, cur.take(a) + cur.subrange(a, b), cur.skip(b), cur.skip(b));
            assert(next.take(a) =~= s.take(a)) by {
                assert forall|j: int| 0 <= j < a implies next.take(a)[j] == s.take(a)[j] by {
                    assert(cur.take(bound)[j] == s.take(bound)[j]);
                }
            }
            lemma_apply_same(s, next, rest, a);
        } else {
            lemma_apply_same(s, cur, rest, bound);
        }
    }
}

proof fn lemma_apply_edits_same(s: Seq<char>, es: Seq<EditView>)
    requires
        forall|k: int| 0 <= k < es.len() ==> edit_same(s, #[trigger] es[k]),
    ensures
        same_tokens(apply_edits(s, es), s),
{
    lemma_sort_members(es);
    assert forall|k: int| 0 <= k < sort_desc(es).len() implies edit_same(s, #[trigger] sort_desc(es)[k]) by {
        assert(es.contains(sort_desc(es)[k]));
        let j = choose|j: int| 0 <= j < es.len() && es[j] == sort_desc(es)[k];
        assert(edit_same(s, es[j]));
    }
    assert(s.take(s.len() as int) =~= s);
    lemma_apply_same(s, s, sort_desc(es), s.len() as int);
}

proof fn lemma_round_edits_same(t: Seq<NodeView>, s: Seq<char>, width: usize, i: int)
    requires
        tree_ok(t, s.len()),
        0 <= i,
    ensures
        forall|k: int| 0 <= k < round_edits(t, s, width, i).len() ==>
            edit_same(s, #[trigger] round_edits(t, s, width, i)[k]),
    decreases t.len() - i,
{
    if i < t.len() {
        lemma_subtree_end(t, i);
        match joined(t, s, width, i) {
            Some(j) => {
                lemma_round_edits_same(t, s, width, subtree_end(t, i));
                let a = t[i].start as int;
                let b = t[i].end as int;
                assert(a <= b <= s.len());
                law_joined_keeps_tokens(t, s, width, i);
                let e = EditView { start: t[i].start, end: t[i].end, text: j };
                assert(edit_same(s, e));
                let rest = round_edits(t, s, width, subtree_end(t, i));
                let r = seq![e] + rest;
                assert(round_edits(t, s, width, i) == r);
                assert forall|k: int| 0 <= k < r.len() implies edit_same(s, #[trigger] r[k]) by {
                    if k > 0 {
                        assert(r[k] == rest[k - 1]);
                    }
                }
            },
            None => {
                lemma_round_edits_same(t, s, width, i + 1);
                assert(round_edits(t, s, width, i) == round_edits(t, s, width, i + 1));
            },
        }
    } else {
        assert(round_edits(t, s, width, i).len() == 0);
    }
}

/// A round of joining moves whitespace and drops trailing commas only.
pub proof fn law_round_keeps_tokens(s: Seq<char>, width: usize)
    ensures
        same_tokens(round(s, width), s),
{
    reveal(round);
    match syntax_of(s) {
        None => {},
        Some(t) => {
            lemma_round_edits_same(t, s, width, 0);
            lemma_apply_edits_same(s, round_edits(t, s, width, 0));
        },
    }
}

proof fn lemma_chain_same(t: Seq<NodeView>, s: Seq<char>, b: int, ind: Seq<char>)
    requires
        blank(ind),
    ensures
        forall|k: int| 0 <= k < chain(t, s, b, ind).len() ==> edit_same(s, #[trigger] chain(t, s, b, ind)[k]),
    decreases t.len() - b,
{
    if 0 <= b < t.len() {
        lemma_chain_step(t, s, b, ind);
        let c = field_child(t, b, "consequence"@);
        let a = field_child(t, b, "alternative"@);
        lemma_scan_field(t, b, b + 1, "consequence"@);
        lemma_scan_field(t, b, b + 1, "alternative"@);
        if c >= 0 && a >= 0 {
            let g = gap_edit(t, s, c, a, ind);
            assert forall|k: int| 0 <= k < g.len() implies edit_same(s, #[trigger] g[k]) by {
                let e = g[k];
                if e.start <= e.end <= s.len() {
                    let r = s.subrange(e.start as int, e.end as int);
                    assert(blank(r)) by {
                        assert forall|j: int| 0 <= j < r.len() implies is_ws(#[trigger] r[j]) by {
                            assert(r[j] == s[e.start + j]);
                        }
                    }
                    lemma_same_blank(ind, r);
                }
            }
            let n = next_branch(t, a);
            lemma_scan_named(t, a, a + 1);
            if n >= 0 {
                lemma_chain_same(t, s, n, ind);
                let rest = chain(t, s, n, ind);
                let r = g + rest;
                assert forall|k: int| 0 <= k < r.len() implies edit_same(s, #[trigger] r[k]) by {
                    if k < g.len() {
                        assert(r[k] == g[k]);
                    } else {
                        assert(r[k] == rest[k - g.len()]);
                    }
                }
            }
        }
    } else {
        reveal(chain);
    }
}

proof fn lemma_split_edits_same(t: Seq<NodeView>, s: Seq<char>, i: int)
    ensures
        forall|k: int| 0 <= k < split_edits(t, s, i).len() ==> edit_same(s, #[trigger] split_edits(t, s, i)[k]),
    decreases t.len() - i,
{
    if 0 <= i < t.len() {
        lemma_split_edits_same(t, s, i + 1);
        let rest = split_edits(t, s, i + 1);
        let here = if t[i].kind == "if_expression"@ && statement_if(t, s, i) {
            let ind = break_before(s, t[i].start as int);
            assert(blank(ind)) by {
                assert forall|k: int| 0 <= k < ind.len() implies is_ws(#[trigger] ind[k]) by {
                    if k == 0 {
                        assert(ind[k] == '\n');
                    } else {
                        assert(ind[k] == ' ');
                    }
                }
            }
            lemma_chain_same(t, s, i, ind);
            chain(t, s, i, ind)
        } else {
            Seq::empty()
        };
        let r = here + rest;
        assert(split_edits(t, s, i) == r);
        assert forall|k: int| 0 <= k < r.len() implies edit_same(s, #[trigger] r[k]) by {
            if k < here.len() {
                assert(r[k] == here[k]);
            } else {
                assert(r[k] == rest[k - here.len()]);
            }
        }
    } else {
        assert(split_edits(t, s, i).len() == 0);
    }
}

/// Moving `else`s onto lines of their own moves whitespace only.
pub proof fn law_split_keeps_tokens(s: Seq<char>)
    ensures
        same_tokens(split_elses(s), s),
{
    reveal(split_elses);
    match syntax_of(s) {
        None => {},
        Some(t) => {
            lemma_split_edits_same(t, s, 0);
            lemma_apply_edits_same(s, split_edits(t, s, 0));
        },
    }
}

proof fn lemma_settled_same(s: Seq<char>, width: usize)
    ensures
        same_tokens(settled(s, width), s),
    decreases newlines(s),
{
    lemma_round_settles(s, width);
    if round(s, width) != s {
        law_round_keeps_tokens(s, width);
        lemma_settled_same(round(s, width), width);
    }
}

/// `compact` moves whitespace and drops trailing commas, and changes nothing
/// else: with both left out, its result reads exactly as its input.
pub proof fn law_compact_keeps_tokens(s: Seq<char>, width: usize)
    ensures
        tokens(compacted(s, width), false) == tokens(s, false),
{
    lemma_settled_same(s, width);
    law_split_keeps_tokens(settled(s, width));
}

} // verus!
