//! Guarding a `rustfmt.toml` is settled after one pass: the guard that
//! `guarded_config` puts in place is found again, unchanged, by a second pass.

use vstd::prelude::*;
use vstd::string::*;
use crate::text::{first_from, is_ws, lemma_first_from_bounds};
use crate::join::{first_in, lemma_first_in};
use crate::config::{guard_from, guarded, line_end, lemma_line_end, skip_ws, skip_ws_back, trimmed, with_guard_line};

verus! {

proof fn lemma_first_in_at(s: Seq<char>, p: int, b: int, c: char, k: int)
    requires
        p <= k <= b,
        k < b ==> s[k] == c,
        forall|j: int| p <= j < k ==> s[j] != c,
    ensures
        first_in(s, p, b, c) == k,
    decreases k - p,
{
    if p < k {
        lemma_first_in_at(s, p + 1, b, c, k);
    }
}

proof fn lemma_first_from_at(s: Seq<char>, p: int, c: char, k: int)
    requires
        0 <= p <= k <= s.len(),
        k < s.len() ==> s[k] == c,
        forall|j: int| p <= j < k ==> s[j] != c,
    ensures
        first_from(s, p, c) == k,
    decreases k - p,
{
    if p < k {
        lemma_first_from_at(s, p + 1, c, k);
    }
}

spec fn is_eol(c: char) -> bool {
    c == '\r' || c == '\n'
}

proof fn lemma_line_end_props(s: Seq<char>, p: int, e: int)
    requires
        p <= e,
    ensures
        forall|j: int| line_end(s, p, e) <= j < e ==> is_eol(#[trigger] s[j]),
        line_end(s, p, e) > p ==> !is_eol(s[line_end(s, p, e) - 1]),
    decreases e - p,
{
    lemma_line_end(s, p, e);
    if e > p && is_eol(s[e - 1]) {
        lemma_line_end_props(s, p, e - 1);
    }
}

proof fn lemma_line_end_at(s: Seq<char>, p: int, e: int, k: int)
    requires
        p <= k <= e,
        forall|j: int| k <= j < e ==> is_eol(#[trigger] s[j]),
        k > p ==> !is_eol(s[k - 1]),
    ensures
        line_end(s, p, e) == k,
    decreases e - k,
{
    if k < e {
        assert(is_eol(s[e - 1]));
        lemma_line_end_at(s, p, e - 1, k);
    }
}

proof fn lemma_skip_ws_agree(s: Seq<char>, t: Seq<char>, p: int, b: int)
    requires
        forall|j: int| p <= j < b ==> s[j] == t[j],
    ensures
        skip_ws(s, p, b) == skip_ws(t, p, b),
        skip_ws_back(s, p, b) == skip_ws_back(t, p, b),
    decreases b - p,
{
    if p < b {
        lemma_skip_ws_agree(s, t, p + 1, b);
        lemma_skip_ws_agree(s, t, p, b - 1);
    }
}

proof fn lemma_trimmed_agree(s: Seq<char>, t: Seq<char>, p: int, b: int)
    requires
        0 <= p <= b <= s.len(),
        b <= t.len(),
        forall|j: int| p <= j < b ==> s[j] == t[j],
    ensures
        trimmed(s, p, b) == trimmed(t, p, b),
{
    crate::config::lemma_skip_ws(s, p, b);
    lemma_skip_ws_agree(s, t, p, b);
    let a = skip_ws(s, p, b);
    crate::config::lemma_skip_ws(s, a, b);
    lemma_skip_ws_agree(s, t, a, b);
    assert(trimmed(s, p, b) =~= trimmed(t, p, b));
}

/// The text before `p` comes out of `guard_from(s, p)` as it went in.
proof fn lemma_guard_prefix(s: Seq<char>, p: int)
    requires
        0 <= p <= s.len(),
    ensures
        guard_from(s, p).len() >= p,
        forall|j: int| 0 <= j < p ==> #[trigger] guard_from(s, p)[j] == s[j],
    decreases s.len() - p,
{
    if p < s.len() {
        let q = first_from(s, p, '\n');
        lemma_first_from_bounds(s, p, '\n');
        let pe = if q < s.len() { q + 1 } else { s.len() as int };
        let le = line_end(s, p, pe);
        lemma_line_end(s, p, pe);
        let eq = first_in(s, p, le, '=');
        lemma_first_in(s, p, le, '=');
        if eq < le && trimmed(s, p, eq) == "disable_all_formatting"@ {
        } else {
            lemma_guard_prefix(s, pe);
        }
    }
}

/// The guard line, added at a line start, is found again and left as it is.
proof fn lemma_guard_line(base: Seq<char>)
    requires
        base.len() == 0 || base.last() == '\n',
    ensures
        guard_from(base + "disable_all_formatting = true\n"@, base.len() as int)
            == base + "disable_all_formatting = true\n"@,
{
    reveal_strlit("disable_all_formatting = true\n");
    reveal_strlit("disable_all_formatting");
    reveal_strlit(" true");
    reveal_strlit(" true ");
    let g = base + "disable_all_formatting = true\n"@;
    let p = base.len() as int;
    assert(g.len() == p + 30);
    assert forall|j: int| p <= j < p + 29 implies g[j] != '\n' by {
        assert(g[j] == "disable_all_formatting = true\n"@[j - p]);
    }
    lemma_first_from_at(g, p, '\n', p + 29);
    assert(is_eol(g[p + 29]));
    lemma_line_end_at(g, p, p + 30, p + 29);
    assert forall|j: int| p <= j < p + 23 implies g[j] != '=' by {
        assert(g[j] == "disable_all_formatting = true\n"@[j - p]);
    }
    lemma_first_in_at(g, p, p + 29, '=', p + 23);
    assert(!is_ws(g[p]));
    assert(skip_ws(g, p, p + 23) == p);
    assert(is_ws(g[p + 22]));
    assert(!is_ws(g[p + 21]));
    assert(skip_ws_back(g, p, p + 22) == p + 22);
    assert(skip_ws_back(g, p, p + 23) == p + 22);
    assert(trimmed(g, p, p + 23) =~= "disable_all_formatting"@);
    assert forall|j: int| p + 24 <= j < p + 29 implies g[j] != '#' by {
        assert(g[j] == "disable_all_formatting = true\n"@[j - p]);
    }
    lemma_first_in_at(g, p + 24, p + 29, '#', p + 29);
    assert(g.take(p + 24) + " true"@ + g.skip(p + 29) =~= g);
}

/// The line at `p` holds the setting: either its value was `true` and the
/// first pass left the text alone, or the value that it wrote is found and
/// kept by the second.
#[verifier::spinoff_prover]
proof fn lemma_settled_at_setting(s: Seq<char>, p: int)
    requires
        0 <= p < s.len(),
        ({
            let q = first_from(s, p, '\n');
            let pe = if q < s.len() { q + 1 } else { s.len() as int };
            let le = line_end(s, p, pe);
            let eq = first_in(s, p, le, '=');
            eq < le && trimmed(s, p, eq) == "disable_all_formatting"@
        }),
    ensures
        guard_from(guard_from(s, p), p) == guard_from(s, p),
{
    reveal_strlit(" true");
    reveal_strlit(" true ");
    let q = first_from(s, p, '\n');
    lemma_first_from_bounds(s, p, '\n');
    let pe = if q < s.len() { q + 1 } else { s.len() as int };
    let le = line_end(s, p, pe);
    lemma_line_end(s, p, pe);
    lemma_line_end_props(s, p, pe);
    let eq = first_in(s, p, le, '=');
    lemma_first_in(s, p, le, '=');
    let g = guard_from(s, p);
    let ve = first_in(s, eq + 1, le, '#');
    lemma_first_in(s, eq + 1, le, '#');
    if trimmed(s, eq + 1, ve) == "true"@ {
        assert(g == s);
        return;
    }
    let rep = if ve < le { " true "@ } else { " true"@ };
    assert(g == s.take(eq + 1) + rep + s.skip(ve));
    let r = rep.len() as int;
    let d = eq + 1 + r - ve;
    assert(g.len() == s.len() + d);
    assert(forall|j: int| 0 <= j <= eq ==> g[j] == s[j]);
    assert forall|j: int| eq + 1 <= j < eq + 1 + r implies
        (g[j] != '\n' && g[j] != '#' && !is_eol(g[j])) by {
        assert(g[j] == rep[j - eq - 1]);
    }
    assert forall|j: int| p <= j < q + d implies g[j] != '\n' by {
        if j >= eq + 1 + r {
            assert(g[j] == s[j - d]);
        }
    }
    if q < s.len() {
        assert(g[q + d] == s[q]);
    }
    lemma_first_from_at(g, p, '\n', q + d);
    let pe2 = pe + d;
    assert forall|j: int| le + d <= j < pe2 implies is_eol(#[trigger] g[j]) by {
        assert(g[j] == s[j - d]);
    }
    if ve < le {
        assert(g[le + d - 1] == s[le - 1]);
    } else {
        assert(g[le + d - 1] == rep[r - 1]);
    }
    lemma_line_end_at(g, p, pe2, le + d);
    lemma_first_in_at(g, p, le + d, '=', eq);
    lemma_trimmed_agree(s, g, p, eq);
    if ve < le {
        assert(g[eq + 1 + r] == s[ve]);
    }
    lemma_first_in_at(g, eq + 1, le + d, '#', eq + 1 + r);
    assert(g.take(eq + 1) + rep + g.skip(eq + 1 + r) =~= g);
}

/// The line at `p` does not hold the setting and `t` agrees with `s` on it,
/// up to its line break at `q` (or up to `s`'s end, where `t` has one): a pass
/// over `t` steps over that line as a pass over `s` does.
#[verifier::spinoff_prover]
proof fn lemma_steps_over(s: Seq<char>, t: Seq<char>, p: int)
    requires
        0 <= p < s.len(),
        ({
            let q = first_from(s, p, '\n');
            let pe = if q < s.len() { q + 1 } else { s.len() as int };
            let le = line_end(s, p, pe);
            let eq = first_in(s, p, le, '=');
            &&& !(eq < le && trimmed(s, p, eq) == "disable_all_formatting"@)
            &&& q < t.len()
            &&& t[q] == '\n'
            &&& forall|j: int| 0 <= j < q ==> t[j] == s[j]
        }),
    ensures
        guard_from(t, p) == guard_from(t, first_from(s, p, '\n') + 1),
{
    let q = first_from(s, p, '\n');
    lemma_first_from_bounds(s, p, '\n');
    let pe = if q < s.len() { q + 1 } else { s.len() as int };
    let le = line_end(s, p, pe);
    lemma_line_end(s, p, pe);
    lemma_line_end_props(s, p, pe);
    let eq = first_in(s, p, le, '=');
    lemma_first_in(s, p, le, '=');
    lemma_first_from_at(t, p, '\n', q);
    assert forall|j: int| le <= j < q + 1 implies is_eol(#[trigger] t[j]) by {
        if j < q {
            assert(t[j] == s[j]);
        }
    }
    if le > p {
        assert(t[le - 1] == s[le - 1]);
    }
    lemma_line_end_at(t, p, q + 1, le);
    if eq < le {
        assert(t[eq] == s[eq]);
    }
    lemma_first_in_at(t, p, le, '=', eq);
    if eq < le {
        lemma_trimmed_agree(s, t, p, eq);
    }
}

/// One pass of `guard_from` from a line start leaves nothing for a second
/// pass from the same place to do.
proof fn lemma_guard_settled(s: Seq<char>, p: int)
    requires
        0 <= p <= s.len(),
        p == 0 || s[p - 1] == '\n',
    ensures
        guard_from(guard_from(s, p), p) == guard_from(s, p),
    decreases s.len() - p,
{
    if p == s.len() {
        assert(with_guard_line(s) == s + "disable_all_formatting = true\n"@);
        lemma_guard_line(s);
        return;
    }
    let q = first_from(s, p, '\n');
    lemma_first_from_bounds(s, p, '\n');
    let pe = if q < s.len() { q + 1 } else { s.len() as int };
    let le = line_end(s, p, pe);
    let eq = first_in(s, p, le, '=');
    let g = guard_from(s, p);
    if eq < le && trimmed(s, p, eq) == "disable_all_formatting"@ {
        lemma_settled_at_setting(s, p);
    } else if q < s.len() {
        assert(g == guard_from(s, pe));
        lemma_guard_settled(s, pe);
        lemma_guard_prefix(s, pe);
        assert(g[q] == s[q]);
        lemma_steps_over(s, g, p);
    } else {
        assert(g == guard_from(s, pe));
        assert(guard_from(s, s.len() as int) == with_guard_line(s));
        assert(s.last() == s[q - 1]);
        let base = s.push('\n');
        assert(g == base + "disable_all_formatting = true\n"@);
        lemma_guard_line(base);
        assert(forall|j: int| 0 <= j < q ==> g[j] == s[j]);
        assert(g[q] == '\n');
        lemma_steps_over(s, g, p);
    }
}

/// Guarding a `rustfmt.toml` twice gives what guarding it once gives: once
/// the guard is in place, `guarded_config` finds nothing to change.
pub proof fn law_guard_settled(s: Seq<char>)
    ensures
        guarded(guarded(s)) == guarded(s),
{
    lemma_guard_settled(s, 0);
}

} // verus!
