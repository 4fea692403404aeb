//! Joining: a block that rustfmt spread over several lines is put back onto
//! one line when it is small, holds no comment and no multi-line token, and the
//! line it ends up on fits the width cap. One round joins every joinable block
//! that no joinable block encloses.

use vstd::prelude::*;
use crate::text::{
    byte_len, byte_len_capped, capped, chars_of, first_from, find_first_from,
    find_last_before, has_char, has_char_in, is_whitespace, is_ws, last_before, occurs_in,
    contains_chars, str_is, string_from_chars, lemma_first_from_bounds,
};
use crate::syntax::{
    NodeView, SyntaxNode, is_leaf, lemma_subtree_end,
    named_child_count, named_child_count_of, parent, parent_of, subtree_end, subtree_end_of,
    syntax_of, syntax_tree, tree_ok,
};
use crate::edits::{Edit, EditView, apply_edits, apply_edits_to};

verus! {

/// The widest line that a join may produce: `width`, but never more than 105
/// columns, the tighter cap for joined one-liners.
pub open spec fn join_cap(width: usize) -> usize {
    if width < 105 {
        width
    } else {
        105
    }
}

/// How many named children a node of this kind may have and still join, or
/// `None` where it never joins: function and other block bodies hold one
/// statement or expression, match arms stay expanded, match, struct and enum
/// bodies hold up to three arms, fields or variants, impl bodies one item.
pub open spec fn join_limit(t: Seq<NodeView>, i: int) -> Option<nat> {
    let k = t[i].kind;
    let p = parent(t, i);
    if k == "block"@ {
        if p >= 0 && t[p].kind == "function_item"@ {
            Some(1)
        } else if p >= 0 && t[p].kind == "match_arm"@ {
            None
        } else {
            Some(1)
        }
    } else if k == "match_block"@ || k == "field_declaration_list"@ || k == "enum_variant_list"@ {
        Some(3)
    } else if k == "declaration_list"@ {
        Some(1)
    } else {
        None
    }
}

pub fn join_limit_of(t: &Vec<SyntaxNode>, i: usize) -> (r: Option<usize>)
    requires
        i < t@.len(),
    ensures
        match r {
            Some(n) => join_limit(t.deep_view(), i as int) == Some(n as nat),
            None => join_limit(t.deep_view(), i as int) is None,
        },
{
    let ghost tv = t.deep_view();
    assert(tv[i as int] == t@[i as int].deep_view());
    let k = &t[i].kind;
    if str_is(k, "block") {
        match parent_of(t, i) {
            Some(p) => {
                assert(tv[p as int] == t@[p as int].deep_view());
                if str_is(&t[p].kind, "function_item") {
                    Some(1)
                } else if str_is(&t[p].kind, "match_arm") {
                    None
                } else {
                    Some(1)
                }
            },
            None => Some(1),
        }
    } else if str_is(k, "match_block") || str_is(k, "field_declaration_list") || str_is(
        k,
        "enum_variant_list",
    ) {
        Some(3)
    } else if str_is(k, "declaration_list") {
        Some(1)
    } else {
        None
    }
}

/// Node `k` is a comment, or a childless node whose text runs over a line break.
pub open spec fn multiline_leaf_at(t: Seq<NodeView>, s: Seq<char>, k: int) -> bool {
    (is_leaf(t, k) && has_char(s, t[k].start as int, t[k].end as int, '\n')) || occurs_in(
        t[k].kind,
        "comment"@,
    )
}

/// Node `k` is a block whose text runs over a line break.
pub open spec fn multiline_block_at(t: Seq<NodeView>, s: Seq<char>, k: int) -> bool {
    t[k].kind == "block"@ && has_char(s, t[k].start as int, t[k].end as int, '\n')
}

/// Some node of `i`'s subtree (`i` itself included) is a comment, or a
/// childless node whose text runs over a line break.
pub open spec fn has_multiline_leaf(t: Seq<NodeView>, s: Seq<char>, i: int) -> bool {
    exists|k: int| i <= k < subtree_end(t, i) && #[trigger] multiline_leaf_at(t, s, k)
}

/// Some block strictly below `i` still spans several lines.
pub open spec fn has_multiline_block(t: Seq<NodeView>, s: Seq<char>, i: int) -> bool {
    exists|k: int| i < k < subtree_end(t, i) && #[trigger] multiline_block_at(t, s, k)
}

pub fn has_multiline_leaf_of(t: &Vec<SyntaxNode>, s: &Vec<char>, i: usize) -> (r: bool)
    requires
        i < t@.len(),
        tree_ok(t.deep_view(), s@.len()),
    ensures
        r == has_multiline_leaf(t.deep_view(), s@, i as int),
{
    let ghost tv = t.deep_view();
    let end = subtree_end_of(t, i);
    let comment = chars_of("comment");
    let mut k = i;
    while k < end
        invariant
            tv == t.deep_view(),
            tv.len() == t@.len(),
            tree_ok(tv, s@.len()),
            i <= k <= end <= t@.len(),
            end == subtree_end(tv, i as int),
            comment@ == "comment"@,
            forall|j: int| i <= j < k ==> !#[trigger] multiline_leaf_at(tv, s@, j),
        decreases end - k,
    {
        assert(tv[k as int] == t@[k as int].deep_view());
        assert(tv[k as int].start <= tv[k as int].end <= s@.len());
        let leaf = k + 1 >= t.len() || t[k + 1].depth <= t[k].depth;
        if k + 1 < t.len() {
            assert(tv[k + 1] == t@[k + 1].deep_view());
        }
        let kind = chars_of(t[k].kind.as_str());
        if (leaf && has_char_in(s, t[k].start, t[k].end, '\n')) || contains_chars(&kind, &comment) {
            assert(multiline_leaf_at(tv, s@, k as int));
            return true;
        }
        assert(!multiline_leaf_at(tv, s@, k as int));
        k = k + 1;
    }
    false
}

pub fn has_multiline_block_of(t: &Vec<SyntaxNode>, s: &Vec<char>, i: usize) -> (r: bool)
    requires
        i < t@.len(),
        tree_ok(t.deep_view(), s@.len()),
    ensures
        r == has_multiline_block(t.deep_view(), s@, i as int),
{
    let ghost tv = t.deep_view();
    let end = subtree_end_of(t, i);
    let mut k = i + 1;
    while k < end
        invariant
            tv == t.deep_view(),
            tv.len() == t@.len(),
            tree_ok(tv, s@.len()),
            i < k <= end <= t@.len(),
            end == subtree_end(tv, i as int),
            forall|j: int| i < j < k ==> !#[trigger] multiline_block_at(tv, s@, j),
        decreases end - k,
    {
        assert(tv[k as int] == t@[k as int].deep_view());
        assert(tv[k as int].start <= tv[k as int].end <= s@.len());
        if str_is(&t[k].kind, "block") && has_char_in(s, t[k].start, t[k].end, '\n') {
            assert(multiline_block_at(tv, s@, k as int));
            return true;
        }
        assert(!multiline_block_at(tv, s@, k as int));
        k = k + 1;
    }
    false
}

/// Node `j` is a string, raw string or character literal.
pub open spec fn is_literal(t: Seq<NodeView>, j: int) -> bool {
    t[j].kind == "string_literal"@ || t[j].kind == "raw_string_literal"@ || t[j].kind == "char_literal"@
}

/// Position `k` of the text lies inside a literal of `i`'s subtree.
pub open spec fn in_literal(t: Seq<NodeView>, i: int, k: int) -> bool {
    exists|j: int| i <= j < subtree_end(t, i) && #[trigger] is_literal(t, j) && t[j].start <= k < t[j].end
}

fn in_literal_of(t: &Vec<SyntaxNode>, i: usize, k: usize) -> (r: bool)
    requires
        i < t@.len(),
    ensures
        r == in_literal(t.deep_view(), i as int, k as int),
{
    let ghost tv = t.deep_view();
    let end = subtree_end_of(t, i);
    let mut j = i;
    while j < end
        invariant
            tv == t.deep_view(),
            tv.len() == t@.len(),
            i <= j <= end <= t@.len(),
            end == subtree_end(tv, i as int),
            forall|m: int| i <= m < j ==> !(#[trigger] is_literal(tv, m) && tv[m].start <= k < tv[m].end),
        decreases end - j,
    {
        assert(tv[j as int] == t@[j as int].deep_view());
        let lit = str_is(&t[j].kind, "string_literal") || str_is(&t[j].kind, "raw_string_literal")
            || str_is(&t[j].kind, "char_literal");
        if lit && t[j].start <= k && k < t[j].end {
            assert(is_literal(tv, j as int));
            return true;
        }
        j = j + 1;
    }
    false
}

/// The comma at `k` is followed on its line by ` }` before `b`, outside any
/// literal of `i`'s subtree: the `", }"` that a joined text turns into `" }"`.
pub open spec fn comma_before_brace(t: Seq<NodeView>, s: Seq<char>, i: int, k: int, b: int) -> bool {
    &&& k + 2 < b
    &&& s[k] == ','
    &&& s[k + 1] == ' '
    &&& s[k + 2] == '}'
    &&& !in_literal(t, i, k)
}

/// `s[a..k]` with each comma before ` }` (as `comma_before_brace` says, up to `b`) left out.
pub open spec fn uncomma(t: Seq<NodeView>, s: Seq<char>, i: int, a: int, k: int, b: int) -> Seq<char>
    decreases k - a,
{
    if k <= a {
        Seq::empty()
    } else {
        uncomma(t, s, i, a, k - 1, b) + if comma_before_brace(t, s, i, k - 1, b) {
            Seq::<char>::empty()
        } else {
            seq![s[k - 1]]
        }
    }
}

/// The text of node `i` with each comma before ` }` on its line, outside literals, left out.
pub open spec fn body_text(t: Seq<NodeView>, s: Seq<char>, i: int) -> Seq<char> {
    uncomma(t, s, i, t[i].start as int, t[i].end as int, t[i].end as int)
}

fn body_text_of(t: &Vec<SyntaxNode>, s: &Vec<char>, i: usize) -> (r: Vec<char>)
    requires
        i < t@.len(),
        tree_ok(t.deep_view(), s@.len()),
    ensures
        r@ == body_text(t.deep_view(), s@, i as int),
{
    let ghost tv = t.deep_view();
    assert(tv[i as int] == t@[i as int].deep_view());
    let a = t[i].start;
    let b = t[i].end;
    assert(a <= b <= s@.len());
    let mut out: Vec<char> = Vec::new();
    let mut k = a;
    while k < b
        invariant
            tv == t.deep_view(),
            i < t@.len(),
            a <= k <= b <= s@.len(),
            out@ == uncomma(tv, s@, i as int, a as int, k as int, b as int),
        decreases b - k,
    {
        let drop = b - k > 2 && s[k] == ',' && s[k + 1] == ' ' && s[k + 2] == '}' && !in_literal_of(t, i, k);
        assert(drop == comma_before_brace(tv, s@, i as int, k as int, b as int));
        if !drop {
            out.push(s[k]);
        }
        k = k + 1;
        assert(out@ =~= uncomma(tv, s@, i as int, a as int, k as int, b as int));
    }
    out
}

/// Index of the first `c` in `s[p..b]`, or `b`.
pub open spec fn first_in(s: Seq<char>, p: int, b: int, c: char) -> int
    decreases b - p,
{
    if p >= b {
        b
    } else if s[p] == c {
        p
    } else {
        first_in(s, p + 1, b, c)
    }
}

pub proof fn lemma_first_in(s: Seq<char>, p: int, b: int, c: char)
    ensures
        p < b ==> p <= first_in(s, p, b, c) <= b,
        first_in(s, p, b, c) < b ==> s[first_in(s, p, b, c)] == c,
        forall|k: int| p <= k < first_in(s, p, b, c) ==> s[k] != c,
    decreases b - p,
{
    if p < b && s[p] != c {
        lemma_first_in(s, p + 1, b, c);
        if p + 1 >= b {
            assert(first_in(s, p + 1, b, c) == b);
        }
    }
}

/// `line` without a `'\r'` at its end.
pub open spec fn strip_cr(line: Seq<char>) -> Seq<char> {
    if line.len() > 0 && line.last() == '\r' {
        line.drop_last()
    } else {
        line
    }
}

/// `str::lines` of `s[p..b]`: pieces cut at each `'\n'`, a `'\r'` before the
/// `'\n'` dropped, no empty piece after a final `'\n'`.
pub open spec fn lines_from(s: Seq<char>, p: int, b: int) -> Seq<Seq<char>>
    decreases b - p,
{
    if p >= b {
        Seq::empty()
    } else {
        let k = first_in(s, p, b, '\n');
        proof {
            lemma_first_in(s, p, b, '\n');
        }
        if k >= b {
            seq![s.subrange(p, b)]
        } else {
            seq![strip_cr(s.subrange(p, k))] + lines_from(s, k + 1, b)
        }
    }
}

/// Index of the first non-whitespace character of `l` from `k` on, or its length.
pub open spec fn first_non_ws(l: Seq<char>, k: int) -> int
    decreases l.len() - k,
{
    if k >= l.len() {
        l.len() as int
    } else if !is_ws(l[k]) {
        k
    } else {
        first_non_ws(l, k + 1)
    }
}

/// `str::trim_start`.
pub open spec fn trim_start(l: Seq<char>) -> Seq<char> {
    l.skip(first_non_ws(l, 0))
}

/// A continuation line is glued to the previous one with a space, unless it
/// starts with `.`, `,`, `;`, `?`, `)` or `]`.
pub open spec fn needs_space(l: Seq<char>) -> bool {
    !(l.len() > 0 && (l[0] == '.' || l[0] == ',' || l[0] == ';' || l[0] == '?' || l[0] == ')'
        || l[0] == ']'))
}

/// What line `i` contributes to the joined text.
pub open spec fn piece(i: int, line: Seq<char>) -> Seq<char> {
    if i == 0 {
        line
    } else {
        let tl = trim_start(line);
        if needs_space(tl) {
            seq![' '] + tl
        } else {
            tl
        }
    }
}

/// A continuation line that starts with `}` closes the body.
pub open spec fn closes_body(i: int, line: Seq<char>) -> bool {
    let tl = trim_start(line);
    i > 0 && tl.len() > 0 && tl[0] == '}'
}

/// The lines put onto one line. A comma that ends a line is dropped when the
/// next line starts with `}`; a comma before ` }` within a line is left out
/// beforehand, by `body_text`.
pub open spec fn joined_lines(ls: Seq<Seq<char>>) -> Seq<char>
    decreases ls.len(),
{
    if ls.len() == 0 {
        Seq::empty()
    } else {
        join_step(joined_lines(ls.drop_last()), ls.len() - 1, ls.last())
    }
}

/// Bytes from the start of `a`'s line (after the last line break before `a`,
/// or the start of the text) to `a`.
pub open spec fn width_before(s: Seq<char>, a: int) -> nat {
    byte_len(s.subrange(last_before(s, a, '\n') + 1, a))
}

/// Bytes from `b` to the end of its line (the next line break, or the end of
/// the text).
pub open spec fn width_after(s: Seq<char>, b: int) -> nat {
    byte_len(s.subrange(b, first_from(s, b, '\n')))
}

/// The one-line text of node `i`, if it joins: a joinable kind, text over
/// several lines, few enough named children, no comment or multi-line token in
/// it, no multi-line block below it, and the resulting line within the cap.
/// Its lines are glued together, and a trailing comma is dropped: one that
/// ends a line before a line that starts with `}`, or one followed by ` }` on
/// its line outside any string or character literal.
pub open spec fn joined(t: Seq<NodeView>, s: Seq<char>, width: usize, i: int) -> Option<Seq<char>> {
    let a = t[i].start as int;
    let b = t[i].end as int;
    match join_limit(t, i) {
        None => None,
        Some(limit) => {
            if !has_char(s, a, b, '\n') {
                None
            } else if named_child_count(t, i) > limit {
                None
            } else if has_multiline_leaf(t, s, i) {
                None
            } else if has_multiline_block(t, s, i) {
                None
            } else {
                let u = body_text(t, s, i);
                let out = joined_lines(lines_from(u, 0, u.len() as int));
                if width_before(s, a) + byte_len(out) + width_after(s, b) > join_cap(width) {
                    None
                } else {
                    Some(out)
                }
            }
        },
    }
}

/// One step of `joined_lines`: `front` followed by line `i`, without the comma
/// that ends `front` when line `i` starts with `}`.
pub open spec fn join_step(front: Seq<char>, i: int, line: Seq<char>) -> Seq<char> {
    let pc = piece(i, line);
    if closes_body(i, line) && front.len() > 0 && front.last() == ',' {
        front.drop_last() + pc
    } else {
        front + pc
    }
}

/// Appends line `idx`, the text `s[p..le]`, to the joined text in `out`.
fn push_line(out: &mut Vec<char>, s: &Vec<char>, p: usize, le: usize, idx: usize)
    requires
        p <= le <= s@.len(),
    ensures
        final(out)@ == join_step(old(out)@, idx as int, s@.subrange(p as int, le as int)),
{
    let ghost line = s@.subrange(p as int, le as int);
    if idx == 0 {
        let ghost before = out@;
        let mut j = p;
        while j < le
            invariant
                p <= j <= le <= s@.len(),
                out@ == before + s@.subrange(p as int, j as int),
            decreases le - j,
        {
            out.push(s[j]);
            j = j + 1;
            assert(out@ =~= before + s@.subrange(p as int, j as int));
        }
        assert(out@ =~= before + piece(idx as int, line));
    } else {
        let mut q = p;
        while q < le && is_whitespace(s[q])
            invariant
                p <= q <= le <= s@.len(),
                line == s@.subrange(p as int, le as int),
                first_non_ws(line, 0) == first_non_ws(line, q - p),
            decreases le - q,
        {
            q = q + 1;
        }
        assert(first_non_ws(line, q - p) == q - p);
        assert(trim_start(line) =~= s@.subrange(q as int, le as int));
        let closes = q < le && s[q] == '}';
        assert(closes == closes_body(idx as int, line));
        if closes && out.len() > 0 && out[out.len() - 1] == ',' {
            out.pop();
        }
        let ghost before = out@;
        let glue = !(q < le && (s[q] == '.' || s[q] == ',' || s[q] == ';' || s[q] == '?' || s[q]
            == ')' || s[q] == ']'));
        if glue {
            out.push(' ');
        }
        let ghost mid = out@;
        let mut j = q;
        while j < le
            invariant
                q <= j <= le <= s@.len(),
                out@ == mid + s@.subrange(q as int, j as int),
            decreases le - j,
        {
            out.push(s[j]);
            j = j + 1;
            assert(out@ =~= mid + s@.subrange(q as int, j as int));
        }
        assert(out@ =~= before + piece(idx as int, line));
    }
}

/// The lines of `s[a..b]` put onto one line.
fn join_lines(s: &Vec<char>, a: usize, b: usize) -> (out: Vec<char>)
    requires
        a <= b <= s@.len(),
    ensures
        out@ == joined_lines(lines_from(s@, a as int, b as int)),
{
    let mut out: Vec<char> = Vec::new();
    let ghost mut done: Seq<Seq<char>> = Seq::empty();
    let mut idx: usize = 0;
    let mut p = a;
    while p < b
        invariant
            a <= p <= b <= s@.len(),
            lines_from(s@, a as int, b as int) == done + lines_from(s@, p as int, b as int),
            out@ == joined_lines(done),
            idx == done.len(),
            idx <= p - a,
        decreases b - p,
    {
        let ghost k0 = first_in(s@, p as int, b as int, '\n');
        proof {
            lemma_first_in(s@, p as int, b as int, '\n');
        }
        let mut k = p;
        while k < b && s[k] != '\n'
            invariant
                p <= k <= b <= s@.len(),
                first_in(s@, k as int, b as int, '\n') == k0,
            decreases b - k,
        {
            k = k + 1;
        }
        let mut le = k;
        if k < b && le > p && s[le - 1] == '\r' {
            le = le - 1;
        }
        let ghost line = if k >= b {
            s@.subrange(p as int, b as int)
        } else {
            strip_cr(s@.subrange(p as int, k as int))
        };
        assert(line =~= s@.subrange(p as int, le as int));
        push_line(&mut out, s, p, le, idx);
        proof {
            let nd = done.push(line);
            assert(nd.drop_last() =~= done);
            assert(nd.last() == line);
            assert(joined_lines(nd) == join_step(joined_lines(done), idx as int, line));
            if k >= b {
                assert(lines_from(s@, p as int, b as int) == seq![line]);
                assert(lines_from(s@, b as int, b as int) == Seq::<Seq<char>>::empty());
                assert(done + lines_from(s@, p as int, b as int) =~= nd + lines_from(
                    s@,
                    b as int,
                    b as int,
                ));
            } else {
                assert(lines_from(s@, p as int, b as int) == seq![line] + lines_from(
                    s@,
                    k + 1,
                    b as int,
                ));
                assert(done + lines_from(s@, p as int, b as int) =~= nd + lines_from(
                    s@,
                    k + 1,
                    b as int,
                ));
            }
            done = nd;
        }
        idx = idx + 1;
        p = if k < b {
            k + 1
        } else {
            b
        };
    }
    assert(done + lines_from(s@, p as int, b as int) =~= done);
    out
}

proof fn lemma_capped_sum(x: nat, y: nat, z: nat, cap: nat)
    ensures
        (capped(x, cap) + capped(y, cap) + capped(z, cap) > cap) == (x + y + z > cap),
{
}

/// The one-line text of node `i`, as `joined` says.
pub fn joined_of(t: &Vec<SyntaxNode>, s: &Vec<char>, width: usize, i: usize) -> (r: Option<Vec<char>>)
    requires
        i < t@.len(),
        tree_ok(t.deep_view(), s@.len()),
    ensures
        match r {
            Some(out) => joined(t.deep_view(), s@, width, i as int) == Some(out@),
            None => joined(t.deep_view(), s@, width, i as int) is None,
        },
{
    let ghost tv = t.deep_view();
    assert(tv[i as int] == t@[i as int].deep_view());
    let limit = match join_limit_of(t, i) {
        Some(l) => l,
        None => {
            return None;
        },
    };
    let a = t[i].start;
    let b = t[i].end;
    assert(a <= b <= s@.len());
    if !has_char_in(s, a, b, '\n') {
        return None;
    }
    if named_child_count_of(t, i) > limit {
        return None;
    }
    if has_multiline_leaf_of(t, s, i) {
        return None;
    }
    if has_multiline_block_of(t, s, i) {
        return None;
    }
    let body = body_text_of(t, s, i);
    let out = join_lines(&body, 0, body.len());
    let cap: usize = if width < 105 {
        width
    } else {
        105
    };
    let before = match find_last_before(s, a, '\n') {
        Some(p) => byte_len_capped(s, p + 1, a, cap),
        None => byte_len_capped(s, 0, a, cap),
    };
    proof {
        lemma_first_from_bounds(s@, b as int, '\n');
    }
    let q = find_first_from(s, b, '\n');
    let after = byte_len_capped(s, b, q, cap);
    let mid = byte_len_capped(&out, 0, out.len(), cap);
    assert(out@.subrange(0, out@.len() as int) =~= out@);
    proof {
        lemma_capped_sum(width_before(s@, a as int), byte_len(out@), width_after(s@, b as int), cap as nat);
    }
    if before + mid + after > cap {
        None
    } else {
        Some(out)
    }
}

/// The replacements of one round, visiting the nodes from `i` on in preorder:
/// a node that joins is replaced by its one-line text and its subtree is not
/// visited; any other node is passed over.
pub open spec fn round_edits(t: Seq<NodeView>, s: Seq<char>, width: usize, i: int) -> Seq<EditView>
    decreases t.len() - i,
{
    if i < 0 || i >= t.len() {
        Seq::empty()
    } else {
        proof {
            lemma_subtree_end(t, i);
        }
        match joined(t, s, width, i) {
            Some(j) => seq![EditView { start: t[i].start, end: t[i].end, text: j }] + round_edits(
                t,
                s,
                width,
                subtree_end(t, i),
            ),
            None => round_edits(t, s, width, i + 1),
        }
    }
}

/// One compaction round over `s`: every joinable node that no joinable node
/// encloses is joined. Where `s` has no syntax tree, it is returned unchanged.
#[verifier::opaque]
pub open spec fn round(s: Seq<char>, width: usize) -> Seq<char> {
    match syntax_of(s) {
        None => s,
        Some(t) => apply_edits(s, round_edits(t, s, width, 0)),
    }
}

/// One round over `s` with its syntax tree `t` in hand: each node that joins,
/// and that no joining node encloses, is replaced by its one-line text.
pub fn round_with(t: &Vec<SyntaxNode>, s: &Vec<char>, width: usize) -> (r: Vec<char>)
    requires
        tree_ok(t.deep_view(), s@.len()),
    ensures
        r@ == apply_edits(s@, round_edits(t.deep_view(), s@, width, 0)),
{
    let ghost tv = t.deep_view();
    let mut edits: Vec<Edit> = Vec::new();
    let mut i: usize = 0;
    while i < t.len()
        invariant
            tv == t.deep_view(),
            tv.len() == t@.len(),
            tree_ok(tv, s@.len()),
            i <= t@.len(),
            round_edits(tv, s@, width, 0) == edits.deep_view() + round_edits(tv, s@, width, i as int),
        decreases t@.len() - i,
    {
        assert(tv[i as int] == t@[i as int].deep_view());
        let ghost ev = edits.deep_view();
        match joined_of(t, s, width, i) {
            Some(out) => {
                let e = Edit { start: t[i].start, end: t[i].end, text: out };
                edits.push(e);
                assert(edits.deep_view() =~= ev.push(e.deep_view()));
                let next = subtree_end_of(t, i);
                assert(edits.deep_view() + round_edits(tv, s@, width, next as int) =~= ev
                    + round_edits(tv, s@, width, i as int));
                i = next;
            },
            None => {
                i = i + 1;
            },
        }
    }
    apply_edits_to(s, edits)
}

/// `round` over a character vector.
pub fn round_of(s: &Vec<char>, width: usize) -> (r: Vec<char>)
    ensures
        r@ == round(s@, width),
{
    reveal(round);
    match syntax_tree(s) {
        Some(t) => round_with(&t, s, width),
        None => s.clone(),
    }
}

/// One compaction round: joins every innermost joinable block and returns the
/// new text.
pub fn compact_round(src: &str, width: usize) -> (r: String)
    ensures
        r@ == round(src@, width),
{
    let s = chars_of(src);
    let out = round_of(&s, width);
    string_from_chars(&out)
}

} // verus!
