//! Each `else` of an if/else chain in statement position goes on a line of
//! its own, indented like the `if`; an if/else used as a value stays as it is.

use vstd::prelude::*;
use crate::text::{
    is_ws, all_ws, all_ws_in, byte_len, byte_len_between, chars_of, has_char, has_char_in, is_whitespace,
    last_before, find_last_before, str_is, string_from_chars,
};
use crate::syntax::{
    NodeView, SyntaxNode, field_child, field_child_of, first_named_child, first_named_child_of,
    has_next_named_sibling, has_next_named_sibling_of, lemma_scan_field, lemma_scan_named,
    lemma_scan_parent, parent, parent_of, syntax_of, syntax_tree, tree_ok,
};
use crate::edits::{Edit, EditView, apply_edits, apply_edits_to};

verus! {

/// The text in `s[a..b]`, with whitespace trimmed from its end, ends in `;`.
pub open spec fn ends_with_semicolon(s: Seq<char>, a: int, b: int) -> bool {
    exists|k: int| a <= k < b && #[trigger] s[k] == ';' && all_ws(s, k + 1, b)
}

pub fn ends_with_semicolon_in(v: &Vec<char>, a: usize, b: usize) -> (r: bool)
    requires
        a <= b <= v@.len(),
    ensures
        r == ends_with_semicolon(v@, a as int, b as int),
{
    let mut k = b;
    while k > a && is_whitespace(v[k - 1])
        invariant
            a <= k <= b <= v@.len(),
            all_ws(v@, k as int, b as int),
        decreases k,
    {
        k = k - 1;
    }
    if k > a && v[k - 1] == ';' {
        assert(v@[k - 1] == ';' && all_ws(v@, k as int, b as int));
        true
    } else {
        assert forall|j: int| a <= j < b && #[trigger] v@[j] == ';' implies !all_ws(v@, j + 1, b as int) by {
            if j < k {
                if j < k - 1 {
                    assert(!crate::text::is_ws(v@[k - 1]));
                } else {
                    assert(v@[j] != ';');
                }
            } else {
                assert(crate::text::is_ws(v@[j]));
                assert(!crate::text::is_ws(';'));
            }
        }
        false
    }
}

/// Node `cur` is an `if` in statement position: going up through enclosing
/// `if` expressions one reaches an expression statement that a named sibling
/// follows, or whose text ends in `;`.
pub open spec fn statement_if(t: Seq<NodeView>, s: Seq<char>, cur: int) -> bool
    decreases cur + 1,
{
    if cur < 0 || cur >= t.len() {
        false
    } else {
        let p = parent(t, cur);
        proof {
            lemma_scan_parent(t, cur, cur - 1);
        }
        if p < 0 {
            false
        } else if t[p].kind == "expression_statement"@ {
            has_next_named_sibling(t, p) || ends_with_semicolon(s, t[p].start as int, t[p].end as int)
        } else if t[p].kind != "if_expression"@ {
            false
        } else {
            statement_if(t, s, p)
        }
    }
}

pub fn statement_if_of(t: &Vec<SyntaxNode>, s: &Vec<char>, i: usize) -> (r: bool)
    requires
        i < t@.len(),
        tree_ok(t.deep_view(), s@.len()),
    ensures
        r == statement_if(t.deep_view(), s@, i as int),
{
    let ghost tv = t.deep_view();
    let mut cur = i;
    loop
        invariant
            tv == t.deep_view(),
            tv.len() == t@.len(),
            tree_ok(tv, s@.len()),
            cur < t@.len(),
            statement_if(tv, s@, i as int) == statement_if(tv, s@, cur as int),
        decreases cur,
    {
        match parent_of(t, cur) {
            None => {
                return false;
            },
            Some(p) => {
                assert(tv[p as int] == t@[p as int].deep_view());
                if str_is(&t[p].kind, "expression_statement") {
                    let sib = has_next_named_sibling_of(t, p);
                    return sib || ends_with_semicolon_in(s, t[p].start, t[p].end);
                }
                if !str_is(&t[p].kind, "if_expression") {
                    return false;
                }
                cur = p;
            },
        }
    }
}

/// A line break followed by the indentation of the `if` that starts at `a`:
/// as many spaces as bytes from the start of its line.
pub open spec fn break_before(s: Seq<char>, a: int) -> Seq<char> {
    seq!['\n'] + Seq::new(byte_len(s.subrange(last_before(s, a, '\n') + 1, a)), |k: int| ' ')
}

/// The replacement of the whitespace between the block `c` of an `if` and its
/// `else` clause `a` by `ind`, when that whitespace holds no line break.
pub open spec fn gap_edit(t: Seq<NodeView>, s: Seq<char>, c: int, a: int, ind: Seq<char>) -> Seq<EditView> {
    let g0 = t[c].end;
    let g1 = t[a].start;
    if g0 <= g1 && !has_char(s, g0 as int, g1 as int, '\n') && all_ws(s, g0 as int, g1 as int) {
        seq![EditView { start: g0, end: g1, text: ind }]
    } else {
        Seq::empty()
    }
}

/// The `if` of an `else if` clause `a`, or -1.
pub open spec fn next_branch(t: Seq<NodeView>, a: int) -> int {
    let n = first_named_child(t, a);
    if n >= 0 && t[n].kind == "if_expression"@ {
        n
    } else {
        -1
    }
}

/// The replacements for the if/else chain headed by node `b`: for each `if`
/// with an `else`, the whitespace between its block and the `else`, when it
/// holds no line break, becomes `ind`; the chain goes on through an `else if`.
#[verifier::opaque]
pub open spec fn chain(t: Seq<NodeView>, s: Seq<char>, b: int, ind: Seq<char>) -> Seq<EditView>
    decreases t.len() - b,
{
    if b < 0 || b >= t.len() {
        Seq::empty()
    } else {
        let c = field_child(t, b, "consequence"@);
        let a = field_child(t, b, "alternative"@);
        proof {
            lemma_scan_field(t, b, b + 1, "consequence"@);
            lemma_scan_field(t, b, b + 1, "alternative"@);
        }
        if c < 0 || a < 0 {
            Seq::empty()
        } else {
            let n = next_branch(t, a);
            proof {
                lemma_scan_named(t, a, a + 1);
            }
            if n >= 0 {
                gap_edit(t, s, c, a, ind) + chain(t, s, n, ind)
            } else {
                gap_edit(t, s, c, a, ind)
            }
        }
    }
}


pub proof fn lemma_chain_step(t: Seq<NodeView>, s: Seq<char>, b: int, ind: Seq<char>)
    requires
        0 <= b < t.len(),
    ensures
        ({
            let c = field_child(t, b, "consequence"@);
            let a = field_child(t, b, "alternative"@);
            if c < 0 || a < 0 {
                chain(t, s, b, ind) == Seq::<EditView>::empty()
            } else if next_branch(t, a) >= 0 {
                chain(t, s, b, ind) == gap_edit(t, s, c, a, ind) + chain(t, s, next_branch(t, a), ind)
            } else {
                chain(t, s, b, ind) == gap_edit(t, s, c, a, ind)
            }
        }),
{
    reveal(chain);
}

/// An `else if` keeps the chain going: when the `else` clause `a` of the
/// `if` at `b` holds an `if` as its first named child, the replacements of the
/// chain are those of the gap before `a` and then those of the chain that
/// starts at that inner `if`, so the `else` after an `else if` gets its own
/// line too.
pub proof fn law_else_if_continues(t: Seq<NodeView>, s: Seq<char>, b: int, ind: Seq<char>)
    requires
        0 <= b < t.len(),
        field_child(t, b, "consequence"@) >= 0,
        field_child(t, b, "alternative"@) >= 0,
        first_named_child(t, field_child(t, b, "alternative"@)) >= 0,
        t[first_named_child(t, field_child(t, b, "alternative"@))].kind == "if_expression"@,
    ensures
        chain(t, s, b, ind) == gap_edit(
            t,
            s,
            field_child(t, b, "consequence"@),
            field_child(t, b, "alternative"@),
            ind,
        ) + chain(t, s, first_named_child(t, field_child(t, b, "alternative"@)), ind),
{
    lemma_chain_step(t, s, b, ind);
}

/// The chain ends at an `else` clause whose first named child is not an `if`:
/// then only the gap before that clause is replaced.
pub proof fn law_else_chain_ends(t: Seq<NodeView>, s: Seq<char>, b: int, ind: Seq<char>)
    requires
        0 <= b < t.len(),
        field_child(t, b, "consequence"@) >= 0,
        field_child(t, b, "alternative"@) >= 0,
        first_named_child(t, field_child(t, b, "alternative"@)) < 0
            || t[first_named_child(t, field_child(t, b, "alternative"@))].kind != "if_expression"@,
    ensures
        chain(t, s, b, ind) == gap_edit(t, s, field_child(t, b, "consequence"@), field_child(t, b, "alternative"@), ind),
{
    lemma_chain_step(t, s, b, ind);
}

/// The gap between an `if`'s block `c` and its `else` clause `a` is replaced by
/// the line break and indentation `ind` exactly when it is whitespace without
/// a line break; a gap that already holds a line break is left alone.
pub proof fn law_else_gap(t: Seq<NodeView>, s: Seq<char>, c: int, a: int, ind: Seq<char>)
    requires
        0 <= c < t.len(),
        0 <= a < t.len(),
        t[c].end <= t[a].start <= s.len(),
    ensures
        (forall|k: int| t[c].end <= k < t[a].start ==> is_ws(#[trigger] s[k]) && s[k] != '\n')
            ==> gap_edit(t, s, c, a, ind) == seq![EditView { start: t[c].end, end: t[a].start, text: ind }],
        (exists|k: int| t[c].end <= k < t[a].start && #[trigger] s[k] == '\n')
            ==> gap_edit(t, s, c, a, ind) == Seq::<EditView>::empty(),
{
}

fn gap_edit_of(t: &Vec<SyntaxNode>, s: &Vec<char>, c: usize, a: usize, ind: &Vec<char>, edits: &mut Vec<Edit>)
    requires
        c < t@.len(),
        a < t@.len(),
        tree_ok(t.deep_view(), s@.len()),
    ensures
        final(edits).deep_view() == old(edits).deep_view() + gap_edit(t.deep_view(), s@, c as int, a as int, ind@),
{
    let ghost tv = t.deep_view();
    let ghost before = edits.deep_view();
    assert(tv[c as int] == t@[c as int].deep_view());
    assert(tv[a as int] == t@[a as int].deep_view());
    let g0 = t[c].end;
    let g1 = t[a].start;
    assert(tv[a as int].start <= tv[a as int].end <= s@.len());
    if g0 <= g1 && !has_char_in(s, g0, g1, '\n') && all_ws_in(s, g0, g1) {
        let gap = Edit { start: g0, end: g1, text: ind.clone() };
        edits.push(gap);
        assert(edits.deep_view() =~= before + gap_edit(tv, s@, c as int, a as int, ind@));
    } else {
        assert(edits.deep_view() =~= before + gap_edit(tv, s@, c as int, a as int, ind@));
    }
}

fn next_branch_of(t: &Vec<SyntaxNode>, a: usize) -> (r: Option<usize>)
    requires
        a < t@.len(),
    ensures
        match r {
            Some(n) => n == next_branch(t.deep_view(), a as int) && a < n < t@.len(),
            None => next_branch(t.deep_view(), a as int) == -1,
        },
{
    let ghost tv = t.deep_view();
    match first_named_child_of(t, a) {
        Some(n) => {
            assert(tv[n as int] == t@[n as int].deep_view());
            if str_is(&t[n].kind, "if_expression") {
                Some(n)
            } else {
                None
            }
        },
        None => None,
    }
}

/// The replacements for every statement-position `if` from node `i` on, in preorder.
pub open spec fn split_edits(t: Seq<NodeView>, s: Seq<char>, i: int) -> Seq<EditView>
    decreases t.len() - i,
{
    if i < 0 || i >= t.len() {
        Seq::empty()
    } else {
        let here = if t[i].kind == "if_expression"@ && statement_if(t, s, i) {
            chain(t, s, i, break_before(s, t[i].start as int))
        } else {
            Seq::empty()
        };
        here + split_edits(t, s, i + 1)
    }
}

/// Every `else` of a statement-position if/else chain moved to its own line.
/// Where `s` has no syntax tree, it is returned unchanged.
#[verifier::opaque]
pub open spec fn split_elses(s: Seq<char>) -> Seq<char> {
    match syntax_of(s) {
        None => s,
        Some(t) => apply_edits(s, split_edits(t, s, 0)),
    }
}

#[verifier::spinoff_prover]
fn chain_of(t: &Vec<SyntaxNode>, s: &Vec<char>, i: usize, ind: &Vec<char>, edits: &mut Vec<Edit>)
    requires
        i < t@.len(),
        tree_ok(t.deep_view(), s@.len()),
    ensures
        final(edits).deep_view() == old(edits).deep_view() + chain(t.deep_view(), s@, i as int, ind@),
{
    let ghost tv = t.deep_view();
    let ghost start = edits.deep_view();
    let mut b = i;
    assert(start + chain(tv, s@, i as int, ind@) =~= edits.deep_view() + chain(tv, s@, b as int, ind@));
    loop
        invariant
            tv == t.deep_view(),
            tv.len() == t@.len(),
            tree_ok(tv, s@.len()),
            b < t@.len(),
            start == old(edits).deep_view(),
            start + chain(tv, s@, i as int, ind@) == edits.deep_view() + chain(tv, s@, b as int, ind@),
        decreases t@.len() - b,
    {
        let ghost before = edits.deep_view();
        proof {
            lemma_chain_step(tv, s@, b as int, ind@);
        }
        let c = match field_child_of(t, b, "consequence") {
            Some(c) => c,
            None => {
                assert(chain(tv, s@, b as int, ind@) == Seq::<EditView>::empty());
                assert(edits.deep_view() =~= start + chain(tv, s@, i as int, ind@));
                return;
            },
        };
        let a = match field_child_of(t, b, "alternative") {
            Some(a) => a,
            None => {
                assert(chain(tv, s@, b as int, ind@) == Seq::<EditView>::empty());
                assert(edits.deep_view() =~= start + chain(tv, s@, i as int, ind@));
                return;
            },
        };
        gap_edit_of(t, s, c, a, ind, edits);
        let ghost e = gap_edit(tv, s@, c as int, a as int, ind@);
        match next_branch_of(t, a) {
            Some(n) => {
                assert(chain(tv, s@, b as int, ind@) == e + chain(tv, s@, n as int, ind@));
                assert(edits.deep_view() + chain(tv, s@, n as int, ind@) =~= before + chain(
                    tv,
                    s@,
                    b as int,
                    ind@,
                ));
                b = n;
            },
            None => {
                assert(chain(tv, s@, b as int, ind@) == e);
                assert(edits.deep_view() =~= start + chain(tv, s@, i as int, ind@));
                return;
            },
        }
    }
}

/// `split_elses` over a character vector.
pub fn split_of(s: &Vec<char>) -> (r: Vec<char>)
    ensures
        r@ == split_elses(s@),
{
    reveal(split_elses);
    match syntax_tree(s) {
        Some(t) => split_with(&t, s),
        None => s.clone(),
    }
}

/// The `else` split of `s` with its syntax tree `t` in hand.
pub fn split_with(t: &Vec<SyntaxNode>, s: &Vec<char>) -> (r: Vec<char>)
    requires
        tree_ok(t.deep_view(), s@.len()),
        byte_len(s@) < u32::MAX,
    ensures
        r@ == apply_edits(s@, split_edits(t.deep_view(), s@, 0)),
{
    let ghost tv = t.deep_view();
    let mut edits: Vec<Edit> = Vec::new();
    let mut i: usize = 0;
    assert(split_edits(tv, s@, 0) == edits.deep_view() + split_edits(tv, s@, 0)) by {
        assert(edits.deep_view() =~= Seq::<EditView>::empty());
        assert(Seq::<EditView>::empty() + split_edits(tv, s@, 0) =~= split_edits(tv, s@, 0));
    }
    while i < t.len()
        invariant
            tv == t.deep_view(),
            tv.len() == t@.len(),
            tree_ok(tv, s@.len()),
            byte_len(s@) < u32::MAX,
            i <= t@.len(),
            split_edits(tv, s@, 0) == edits.deep_view() + split_edits(tv, s@, i as int),
        decreases t@.len() - i,
    {
        assert(tv[i as int] == t@[i as int].deep_view());
        let ghost ev = edits.deep_view();
        if str_is(&t[i].kind, "if_expression") && statement_if_of(t, s, i) {
            let a = t[i].start;
            let ls = match find_last_before(s, a, '\n') {
                Some(p) => p + 1,
                None => 0,
            };
            let col = byte_len_between(s, ls, a);
            let mut ind: Vec<char> = Vec::new();
            ind.push('\n');
            let mut k: usize = 0;
            while k < col
                invariant
                    k <= col,
                    ind@ == seq!['\n'] + Seq::new(k as nat, |j: int| ' '),
                decreases col - k,
            {
                ind.push(' ');
                k = k + 1;
                assert(ind@ =~= seq!['\n'] + Seq::new(k as nat, |j: int| ' '));
            }
            assert(ind@ == break_before(s@, a as int));
            chain_of(t, s, i, &ind, &mut edits);
        } else {
            assert(edits.deep_view() =~= ev);
        }
        assert(split_edits(tv, s@, i as int) == (if tv[i as int].kind == "if_expression"@
            && statement_if(tv, s@, i as int) {
            chain(tv, s@, i as int, break_before(s@, tv[i as int].start as int))
        } else {
            Seq::empty()
        }) + split_edits(tv, s@, i + 1));
        assert(edits.deep_view() + split_edits(tv, s@, i + 1) =~= ev + split_edits(tv, s@, i as int));
        i = i + 1;
    }
    assert(split_edits(tv, s@, i as int) =~= Seq::<EditView>::empty());
    assert(edits.deep_view() + Seq::<EditView>::empty() =~= edits.deep_view());
    apply_edits_to(s, edits)
}

/// Puts each `else` in a statement-position if/else chain on its own line.
pub fn split_statement_elses(src: &str) -> (r: String)
    ensures
        r@ == split_elses(src@),
{
    let s = chars_of(src);
    let out = split_of(&s);
    string_from_chars(&out)
}

} // verus!
