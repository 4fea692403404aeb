//! Replacements of ranges of a text, applied the way the passes apply them:
//! sorted by start, last first, each replacing its range with
//! `String::replace_range`.

use vstd::prelude::*;

verus! {

/// Replace the characters `start..end` with `text`.
pub struct Edit {
    pub start: usize,
    pub end: usize,
    pub text: Vec<char>,
}

pub struct EditView {
    pub start: usize,
    pub end: usize,
    pub text: Seq<char>,
}

impl DeepView for Edit {
    type V = EditView;

    open spec fn deep_view(&self) -> EditView {
        EditView { start: self.start, end: self.end, text: self.text@ }
    }
}

/// `e` put into `sorted` (by start, largest first) after every edit that starts
/// at or after `e`: one step of a stable sort by descending start.
pub open spec fn insert_desc(sorted: Seq<EditView>, e: EditView) -> Seq<EditView>
    decreases sorted.len(),
{
    if sorted.len() == 0 {
        seq![e]
    } else if sorted[0].start < e.start {
        seq![e] + sorted
    } else {
        seq![sorted[0]] + insert_desc(sorted.drop_first(), e)
    }
}

/// The edits sorted by descending start, edits with equal starts in their
/// original order (`sort_by(|a, b| b.start.cmp(&a.start))`, which is stable).
pub open spec fn sort_desc(es: Seq<EditView>) -> Seq<EditView>
    decreases es.len(),
{
    if es.len() == 0 {
        Seq::empty()
    } else {
        insert_desc(sort_desc(es.drop_last()), es.last())
    }
}

/// Applies `es` in order to `cur`; `bound` is the start of the last edit applied,
/// and nothing at or after it may be replaced again. An edit that would reach
/// past `bound`, or whose end lies before its start, is passed over.
pub open spec fn apply_from(cur: Seq<char>, es: Seq<EditView>, bound: int) -> Seq<char>
    decreases es.len(),
{
    if es.len() == 0 {
        cur
    } else {
        let e = es[0];
        if e.start <= e.end <= bound {
            apply_from(cur.take(e.start as int) + e.text + cur.skip(e.end as int), es.drop_first(), e.start as int)
        } else {
            apply_from(cur, es.drop_first(), bound)
        }
    }
}

/// `s` with the edits applied, last start first.
pub open spec fn apply_edits(s: Seq<char>, es: Seq<EditView>) -> Seq<char> {
    apply_from(s, sort_desc(es), s.len() as int)
}

/// `insert_desc` as an insertion at the first position whose edit starts before `e`.
proof fn lemma_insert_desc(sorted: Seq<EditView>, e: EditView, k: int)
    requires
        0 <= k <= sorted.len(),
        forall|j: int| 0 <= j < k ==> #[trigger] sorted[j].start >= e.start,
        k < sorted.len() ==> sorted[k].start < e.start,
    ensures
        insert_desc(sorted, e) == sorted.insert(k, e),
    decreases sorted.len(),
{
    if sorted.len() == 0 {
        assert(sorted.insert(k, e) =~= seq![e]);
    } else if k == 0 {
        assert(sorted.insert(k, e) =~= seq![e] + sorted);
    } else {
        let rest = sorted.drop_first();
        assert forall|j: int| 0 <= j < k - 1 implies #[trigger] rest[j].start >= e.start by {
            assert(rest[j] == sorted[j + 1]);
        }
        lemma_insert_desc(rest, e, k - 1);
        assert(sorted.insert(k, e) =~= seq![sorted[0]] + rest.insert(k - 1, e));
    }
}

fn sort_edits(es: Vec<Edit>) -> (r: Vec<Edit>)
    ensures
        r.deep_view() == sort_desc(es.deep_view()),
{
    let ghost ev = es.deep_view();
    let mut rest = es;
    let mut rev: Vec<Edit> = Vec::new();
    while rest.len() > 0
        invariant
            rest.deep_view() + rev.deep_view().reverse() == ev,
        decreases rest@.len(),
    {
        let ghost before = rest.deep_view();
        let e = rest.pop().unwrap();
        let ghost rv = rev.deep_view();
        rev.push(e);
        assert(rest.deep_view() =~= before.drop_last());
        assert(rev.deep_view() =~= rv.push(e.deep_view()));
        assert(rev.deep_view().reverse() =~= seq![e.deep_view()] + rv.reverse());
        assert(before =~= before.drop_last() + seq![before.last()]);
        assert(rest.deep_view() + rev.deep_view().reverse() =~= ev);
    }
    assert(rev.deep_view().reverse() =~= ev);
    let mut sorted: Vec<Edit> = Vec::new();
    let ghost n = ev.len();
    while rev.len() > 0
        invariant
            rev.deep_view().reverse() == ev.skip(n - rev@.len()),
            rev@.len() <= n,
            n == ev.len(),
            sorted.deep_view() == sort_desc(ev.take(n - rev@.len())),
        decreases rev@.len(),
    {
        let ghost i = n - rev@.len();
        let ghost rv = rev.deep_view();
        let e = rev.pop().unwrap();
        assert(rv.reverse()[0] == e.deep_view());
        assert(ev[i] == e.deep_view()) by {
            assert(ev.skip(i)[0] == ev[i]);
        }
        assert(rev.deep_view() =~= rv.drop_last());
        assert(rev.deep_view().reverse() =~= ev.skip(i + 1)) by {
            assert(rv.drop_last().reverse() =~= rv.reverse().drop_first());
            assert(ev.skip(i).drop_first() =~= ev.skip(i + 1));
        }
        let ghost sv = sorted.deep_view();
        let mut k: usize = 0;
        while k < sorted.len() && sorted[k].start >= e.start
            invariant
                k <= sorted@.len(),
                sv == sorted.deep_view(),
                forall|j: int| 0 <= j < k ==> #[trigger] sv[j].start >= e.start,
            decreases sorted@.len() - k,
        {
            k = k + 1;
        }
        proof {
            lemma_insert_desc(sv, e.deep_view(), k as int);
            assert(ev.take(i + 1).drop_last() =~= ev.take(i));
        }
        sorted.insert(k, e);
        assert(sorted.deep_view() =~= sv.insert(k as int, e.deep_view()));
    }
    assert(ev.take(n as int) =~= ev);
    sorted
}

/// `s[..a] + text + s[b..]`.
fn splice(s: &Vec<char>, a: usize, b: usize, text: &Vec<char>) -> (r: Vec<char>)
    requires
        a <= b <= s@.len(),
    ensures
        r@ == s@.take(a as int) + text@ + s@.skip(b as int),
{
    let mut r: Vec<char> = Vec::new();
    let mut k: usize = 0;
    while k < a
        invariant
            k <= a <= s@.len(),
            r@ == s@.take(k as int),
        decreases a - k,
    {
        r.push(s[k]);
        k = k + 1;
        assert(r@ =~= s@.take(k as int));
    }
    let mut k: usize = 0;
    while k < text.len()
        invariant
            k <= text@.len(),
            r@ == s@.take(a as int) + text@.take(k as int),
        decreases text@.len() - k,
    {
        r.push(text[k]);
        k = k + 1;
        assert(r@ =~= s@.take(a as int) + text@.take(k as int));
    }
    let mut k: usize = b;
    while k < s.len()
        invariant
            b <= k <= s@.len(),
            r@ == s@.take(a as int) + text@ + s@.subrange(b as int, k as int),
        decreases s@.len() - k,
    {
        r.push(s[k]);
        k = k + 1;
        assert(r@ =~= s@.take(a as int) + text@ + s@.subrange(b as int, k as int));
    }
    assert(s@.subrange(b as int, s@.len() as int) =~= s@.skip(b as int));
    assert(text@.take(text@.len() as int) =~= text@);
    r
}

/// `s` with the edits applied as `apply_edits` says.
pub fn apply_edits_to(s: &Vec<char>, es: Vec<Edit>) -> (r: Vec<char>)
    ensures
        r@ == apply_edits(s@, es.deep_view()),
{
    let ghost ev = es.deep_view();
    let sorted = sort_edits(es);
    let ghost sv = sorted.deep_view();
    assert(sv.skip(0) =~= sv);
    let mut cur: Vec<char> = s.clone();
    assert(cur@ =~= s@);
    let mut bound: usize = s.len();
    let mut i: usize = 0;
    while i < sorted.len()
        invariant
            sv == sorted.deep_view(),
            sv.len() == sorted@.len(),
            i <= sorted@.len(),
            bound <= cur@.len(),
            apply_edits(s@, ev) == apply_from(cur@, sv.skip(i as int), bound as int),
        decreases sorted@.len() - i,
    {
        let e = &sorted[i];
        assert(sv.skip(i as int)[0] == e.deep_view());
        assert(sv.skip(i as int).drop_first() =~= sv.skip(i + 1));
        if e.start <= e.end && e.end <= bound {
            cur = splice(&cur, e.start, e.end, &e.text);
            bound = e.start;
        }
        i = i + 1;
    }
    cur
}

} // verus!
