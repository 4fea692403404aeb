//! Joining rounds run to a fixpoint: a round that changes the text takes at
//! least one line break out of it, so repeating rounds until one changes
//! nothing comes to an end, and where it ends a further round changes nothing.

use vstd::prelude::*;
use crate::text::has_char;
use crate::syntax::{NodeView, lemma_subtree_end, subtree_end, syntax_of, tree_ok};
use crate::edits::{EditView, apply_from, insert_desc, sort_desc};
use crate::join::{joined, round, round_edits};
use crate::laws::{law_joined_one_line, one_line};
use crate::settled;

verus! {

/// The number of line breaks in `s`.
pub open spec fn newlines(s: Seq<char>) -> nat
    decreases s.len(),
{
    if s.len() == 0 {
        0
    } else {
        newlines(s.drop_last()) + if s.last() == '\n' {
            1nat
        } else {
            0nat
        }
    }
}

proof fn lemma_newlines_concat(a: Seq<char>, b: Seq<char>)
    ensures
        newlines(a + b) == newlines(a) + newlines(b),
    decreases b.len(),
{
    if b.len() == 0 {
        assert(a + b =~= a);
    } else {
        lemma_newlines_concat(a, b.drop_last());
        assert((a + b).drop_last() =~= a + b.drop_last());
        assert((a + b).last() == b.last());
    }
}

proof fn lemma_newlines_one_line(s: Seq<char>)
    requires
        one_line(s),
    ensures
        newlines(s) == 0,
    decreases s.len(),
{
    if s.len() > 0 {
        assert(s.last() == s[s.len() - 1]);
        assert(one_line(s.drop_last())) by {
            assert forall|k: int| 0 <= k < s.drop_last().len() implies #[trigger] s.drop_last()[k] != '\n' by {
                assert(s.drop_last()[k] == s[k]);
            }
        }
        lemma_newlines_one_line(s.drop_last());
    }
}

proof fn lemma_newlines_has_break(s: Seq<char>, a: int, b: int)
    requires
        0 <= a <= b <= s.len(),
        has_char(s, a, b, '\n'),
    ensures
        newlines(s.subrange(a, b)) >= 1,
{
    let k = choose|k: int| a <= k < b && #[trigger] s[k] == '\n';
    assert(s.subrange(a, b) =~= s.subrange(a, k) + seq!['\n'] + s.subrange(k + 1, b));
    lemma_newlines_concat(s.subrange(a, k) + seq!['\n'], s.subrange(k + 1, b));
    lemma_newlines_concat(s.subrange(a, k), seq!['\n']);
    assert(seq!['\n'].drop_last() =~= Seq::<char>::empty());
}

/// Edit `e`, if it stays inside `s`, puts fewer line breaks in place of the
/// text it replaces.
pub open spec fn drops_break(s: Seq<char>, e: EditView) -> bool {
    e.start <= e.end <= s.len() ==> newlines(e.text) < newlines(s.subrange(e.start as int, e.end as int))
}

proof fn lemma_insert_members(sorted: Seq<EditView>, e: EditView)
    ensures
        forall|k: int| 0 <= k < insert_desc(sorted, e).len() ==>
            #[trigger] insert_desc(sorted, e)[k] == e || sorted.contains(insert_desc(sorted, e)[k]),
    decreases sorted.len(),
{
    if sorted.len() > 0 && !(sorted[0].start < e.start) {
        let rest = sorted.drop_first();
        lemma_insert_members(rest, e);
        let r = insert_desc(sorted, e);
        assert forall|k: int| 0 <= k < r.len() implies #[trigger] r[k] == e || sorted.contains(r[k]) by {
            if k == 0 {
                assert(sorted[0] == r[0]);
            } else {
                assert(r[k] == insert_desc(rest, e)[k - 1]);
                if rest.contains(r[k]) {
                    let j = choose|j: int| 0 <= j < rest.len() && rest[j] == r[k];
                    assert(sorted[j + 1] == r[k]);
                }
            }
        }
    } else if sorted.len() > 0 {
        let r = insert_desc(sorted, e);
        assert forall|k: int| 0 <= k < r.len() implies #[trigger] r[k] == e || sorted.contains(r[k]) by {
            if k > 0 {
                assert(r[k] == sorted[k - 1]);
            }
        }
    }
}

pub proof fn lemma_sort_members(es: Seq<EditView>)
    ensures
        forall|k: int| 0 <= k < sort_desc(es).len() ==> es.contains(#[trigger] sort_desc(es)[k]),
    decreases es.len(),
{
    if es.len() > 0 {
        let front = es.drop_last();
        lemma_sort_members(front);
        lemma_insert_members(sort_desc(front), es.last());
        let r = sort_desc(es);
        assert forall|k: int| 0 <= k < r.len() implies es.contains(#[trigger] r[k]) by {
            if r[k] == es.last() {
                assert(es[es.len() - 1] == r[k]);
            } else {
                assert(sort_desc(front).contains(r[k]));
                let j = choose|j: int| 0 <= j < sort_desc(front).len() && sort_desc(front)[j] == r[k];
                assert(front.contains(sort_desc(front)[j]));
                let i = choose|i: int| 0 <= i < front.len() && front[i] == sort_desc(front)[j];
                assert(es[i] == r[k]);
            }
        }
    }
}

proof fn lemma_apply_drops(s: Seq<char>, cur: Seq<char>, es: Seq<EditView>, bound: int)
    requires
        forall|k: int| 0 <= k < es.len() ==> drops_break(s, #[trigger] es[k]),
        0 <= bound <= s.len(),
        bound <= cur.len(),
        cur.take(bound) == s.take(bound),
    ensures
        apply_from(cur, es, bound) == cur || newlines(apply_from(cur, es, bound)) < newlines(cur),
    decreases es.len(),
{
    if es.len() > 0 {
        let e = es[0];
        let rest = es.drop_first();
        assert forall|k: int| 0 <= k < rest.len() implies drops_break(s, #[trigger] rest[k]) by {
            assert(rest[k] == es[k + 1]);
        }
        if e.start <= e.end <= bound {
            let a = e.start as int;
            let b = e.end as int;
            assert(drops_break(s, es[0]));
            assert(cur.subrange(a, b) =~= s.subrange(a, b)) by {
                assert forall|j: int| a <= j < b implies cur[j] == s[j] by {
                    assert(cur.take(bound)[j] == cur[j]);
                    assert(s.take(bound)[j] == s[j]);
                }
            }
            let next = cur.take(a) + e.text + cur.skip(b);
            assert(cur =~= cur.take(a) + cur.subrange(a, b) + cur.skip(b));
            lemma_newlines_concat(cur.take(a) + cur.subrange(a, b), cur.skip(b));
            lemma_newlines_concat(cur.take(a), cur.subrange(a, b));
            lemma_newlines_concat(cur.take(a) + e.text, cur.skip(b));
            lemma_newlines_concat(cur.take(a), e.text);
            assert(next.take(a) =~= s.take(a)) by {
                assert forall|j: int| 0 <= j < a implies next.take(a)[j] == s.take(a)[j] by {
                    assert(cur.take(bound)[j] == s.take(bound)[j]);
                }
            }
            lemma_apply_drops(s, next, rest, a);
        } else {
            lemma_apply_drops(s, cur, rest, bound);
        }
    }
}

proof fn lemma_round_edits_drop(t: Seq<NodeView>, s: Seq<char>, width: usize, i: int)
    requires
        tree_ok(t, s.len()),
        0 <= i,
    ensures
        forall|k: int| 0 <= k < round_edits(t, s, width, i).len() ==>
            drops_break(s, #[trigger] round_edits(t, s, width, i)[k]),
    decreases t.len() - i,
{
    if i < t.len() {
        lemma_subtree_end(t, i);
        match joined(t, s, width, i) {
            Some(j) => {
                lemma_round_edits_drop(t, s, width, subtree_end(t, i));
                law_joined_one_line(t, s, width, i);
                lemma_newlines_one_line(j);
                assert(t[i].start <= t[i].end <= s.len());
                assert(has_char(s, t[i].start as int, t[i].end as int, '\n'));
                lemma_newlines_has_break(s, t[i].start as int, t[i].end as int);
                let e = EditView { start: t[i].start, end: t[i].end, text: j };
                assert(drops_break(s, e));
                let rest = round_edits(t, s, width, subtree_end(t, i));
                let r = seq![e] + rest;
                assert(round_edits(t, s, width, i) == r);
                assert forall|k: int| 0 <= k < r.len() implies drops_break(s, #[trigger] r[k]) by {
                    if k > 0 {
                        assert(r[k] == rest[k - 1]);
                    }
                }
            },
            None => {
                lemma_round_edits_drop(t, s, width, i + 1);
                assert(round_edits(t, s, width, i) == round_edits(t, s, width, i + 1));
            },
        }
    } else {
        assert(round_edits(t, s, width, i).len() == 0);
    }
}

/// A round either leaves the text as it is or takes line breaks out of it.
pub proof fn lemma_round_settles(s: Seq<char>, width: usize)
    ensures
        round(s, width) == s || newlines(round(s, width)) < newlines(s),
{
    reveal(round);
    match syntax_of(s) {
        None => {},
        Some(t) => {
            let es = round_edits(t, s, width, 0);
            lemma_round_edits_drop(t, s, width, 0);
            lemma_sort_members(es);
            assert forall|k: int| 0 <= k < sort_desc(es).len() implies drops_break(s, #[trigger] sort_desc(es)[k]) by {
                assert(es.contains(sort_desc(es)[k]));
                let j = choose|j: int| 0 <= j < es.len() && es[j] == sort_desc(es)[k];
                assert(drops_break(s, es[j]));
            }
            assert(s.take(s.len() as int) =~= s);
            lemma_apply_drops(s, s, sort_desc(es), s.len() as int);
        },
    }
}

/// The rounds run to a fixpoint: on the text where `compact` stops joining,
/// a further round changes nothing.
pub proof fn law_compact_reaches_fixpoint(s: Seq<char>, width: usize)
    ensures
        round(settled(s, width), width) == settled(s, width),
    decreases newlines(s),
{
    lemma_round_settles(s, width);
    if round(s, width) != s {
        law_compact_reaches_fixpoint(round(s, width), width);
    }
}

} // verus!
