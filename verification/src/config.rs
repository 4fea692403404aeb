//! The text side of configuration: the guard line that switches plain
//! rustfmt off in a project's `rustfmt.toml`, reading a value out of a TOML
//! file, the edition and width to format with, where the guard file lives,
//! and the command line.

use vstd::prelude::*;
use crate::text::{chars_of, first_from, find_first_from, is_whitespace, is_ws, str_is, string_from_chars, lemma_first_from_bounds};
use vstd::string::*;
use crate::join::{first_in, lemma_first_in, lines_from, strip_cr};

verus! {

/// Index of the first non-whitespace character of `s[p..b]`, or `b`.
pub open spec fn skip_ws(s: Seq<char>, p: int, b: int) -> int
    decreases b - p,
{
    if p >= b {
        b
    } else if !is_ws(s[p]) {
        p
    } else {
        skip_ws(s, p + 1, b)
    }
}

/// Index just past the last non-whitespace character of `s[p..b]`, or `p`.
pub open spec fn skip_ws_back(s: Seq<char>, p: int, b: int) -> int
    decreases b - p,
{
    if b <= p {
        p
    } else if !is_ws(s[b - 1]) {
        b
    } else {
        skip_ws_back(s, p, b - 1)
    }
}

pub proof fn lemma_skip_ws(s: Seq<char>, p: int, b: int)
    requires
        p <= b,
    ensures
        p <= skip_ws(s, p, b) <= b,
        p <= skip_ws_back(s, p, b) <= b,
    decreases b - p,
{
    if p < b {
        lemma_skip_ws(s, p + 1, b);
        lemma_skip_ws(s, p, b - 1);
    }
}

/// `str::trim` of `s[p..b]`.
pub open spec fn trimmed(s: Seq<char>, p: int, b: int) -> Seq<char> {
    let a = skip_ws(s, p, b);
    s.subrange(a, skip_ws_back(s, a, b))
}

fn skip_ws_of(v: &Vec<char>, p: usize, b: usize) -> (r: usize)
    requires
        p <= b <= v@.len(),
    ensures
        r == skip_ws(v@, p as int, b as int),
        p <= r <= b,
{
    let mut k = p;
    while k < b && is_whitespace(v[k])
        invariant
            p <= k <= b <= v@.len(),
            skip_ws(v@, k as int, b as int) == skip_ws(v@, p as int, b as int),
        decreases b - k,
    {
        k = k + 1;
    }
    k
}

fn skip_ws_back_of(v: &Vec<char>, p: usize, b: usize) -> (r: usize)
    requires
        p <= b <= v@.len(),
    ensures
        r == skip_ws_back(v@, p as int, b as int),
        p <= r <= b,
{
    let mut k = b;
    while k > p && is_whitespace(v[k - 1])
        invariant
            p <= k <= b <= v@.len(),
            skip_ws_back(v@, p as int, k as int) == skip_ws_back(v@, p as int, b as int),
        decreases k,
    {
        k = k - 1;
    }
    k
}

/// `s[a..b] == lit`.
fn range_is(v: &Vec<char>, a: usize, b: usize, lit: &Vec<char>) -> (r: bool)
    requires
        a <= b <= v@.len(),
    ensures
        r == (v@.subrange(a as int, b as int) == lit@),
{
    if b - a != lit.len() {
        return false;
    }
    let mut k: usize = 0;
    while k < lit.len()
        invariant
            b - a == lit@.len(),
            a <= b <= v@.len(),
            k <= lit@.len(),
            forall|j: int| 0 <= j < k ==> v@[a + j] == lit@[j],
        decreases lit@.len() - k,
    {
        if v[a + k] != lit[k] {
            assert(v@.subrange(a as int, b as int)[k as int] != lit@[k as int]);
            return false;
        }
        k = k + 1;
    }
    assert(v@.subrange(a as int, b as int) =~= lit@);
    true
}

/// Index just past the text of the line `s[p..e]` once every `'\r'` and
/// `'\n'` at its end is dropped (`trim_end_matches(['\r', '\n'])`).
pub open spec fn line_end(s: Seq<char>, p: int, e: int) -> int
    decreases e - p,
{
    if e <= p {
        p
    } else if s[e - 1] == '\r' || s[e - 1] == '\n' {
        line_end(s, p, e - 1)
    } else {
        e
    }
}

pub proof fn lemma_line_end(s: Seq<char>, p: int, e: int)
    requires
        p <= e,
    ensures
        p <= line_end(s, p, e) <= e,
    decreases e - p,
{
    if e > p && (s[e - 1] == '\r' || s[e - 1] == '\n') {
        lemma_line_end(s, p, e - 1);
    }
}

/// `s` with the guard line added at its end, after a line break if `s` is
/// not empty and does not end with one.
pub open spec fn with_guard_line(s: Seq<char>) -> Seq<char> {
    let base = if s.len() > 0 && s.last() != '\n' {
        s.push('\n')
    } else {
        s
    };
    base + "disable_all_formatting = true\n"@
}

/// `s` with the guard in place, looking at the lines from `p` on: the first
/// line whose text before its first `=` trims to `disable_all_formatting` is
/// left as it is when its value (up to a `#` comment) trims to `true`, and
/// otherwise gets the value ` true` (` true ` when a comment follows it);
/// without such a line the guard line is added at the end.
pub open spec fn guard_from(s: Seq<char>, p: int) -> Seq<char>
    decreases s.len() - p,
{
    if p < 0 || p >= s.len() {
        with_guard_line(s)
    } else {
        let q = first_from(s, p, '\n');
        let pe = if q < s.len() {
            q + 1
        } else {
            s.len() as int
        };
        let le = line_end(s, p, pe);
        let eq = first_in(s, p, le, '=');
        proof {
            lemma_first_from_bounds(s, p, '\n');
        }
        if eq < le && trimmed(s, p, eq) == "disable_all_formatting"@ {
            let ve = first_in(s, eq + 1, le, '#');
            let rep = if ve < le {
                " true "@
            } else {
                " true"@
            };
            if trimmed(s, eq + 1, ve) == "true"@ {
                s
            } else {
                s.take(eq + 1) + rep + s.skip(ve)
            }
        } else {
            guard_from(s, pe)
        }
    }
}

/// What `guarded_config` makes of a `rustfmt.toml`.
pub open spec fn guarded(s: Seq<char>) -> Seq<char> {
    guard_from(s, 0)
}

fn append_str(out: &mut Vec<char>, lit: &str)
    ensures
        final(out)@ == old(out)@ + lit@,
{
    let l = chars_of(lit);
    let ghost start = out@;
    let mut k: usize = 0;
    while k < l.len()
        invariant
            k <= l@.len(),
            l@ == lit@,
            out@ == start + l@.take(k as int),
        decreases l@.len() - k,
    {
        out.push(l[k]);
        k = k + 1;
        assert(out@ =~= start + l@.take(k as int));
    }
    assert(l@.take(l@.len() as int) =~= l@);
}

fn copy_range(out: &mut Vec<char>, v: &Vec<char>, a: usize, b: usize)
    requires
        a <= b <= v@.len(),
    ensures
        final(out)@ == old(out)@ + v@.subrange(a as int, b as int),
{
    let ghost start = out@;
    let mut k = a;
    while k < b
        invariant
            a <= k <= b <= v@.len(),
            out@ == start + v@.subrange(a as int, k as int),
        decreases b - k,
    {
        out.push(v[k]);
        k = k + 1;
        assert(out@ =~= start + v@.subrange(a as int, k as int));
    }
}

/// The `rustfmt.toml` text with `disable_all_formatting = true` in force: the
/// existing setting is turned to `true`, or the setting is added at the end.
pub fn guarded_config(src: &str) -> (r: String)
    ensures
        r@ == guarded(src@),
{
    let s = chars_of(src);
    let key = chars_of("disable_all_formatting");
    let on = chars_of("true");
    let mut p: usize = 0;
    while p < s.len()
        invariant
            p <= s@.len(),
            s@ == src@,
            key@ == "disable_all_formatting"@,
            on@ == "true"@,
            guard_from(s@, 0) == guard_from(s@, p as int),
        decreases s@.len() - p,
    {
        proof {
            lemma_first_from_bounds(s@, p as int, '\n');
        }
        let q = find_first_from(&s, p, '\n');
        let pe = if q < s.len() {
            q + 1
        } else {
            s.len()
        };
        let mut le = pe;
        while le > p && (s[le - 1] == '\r' || s[le - 1] == '\n')
            invariant
                p <= le <= pe <= s@.len(),
                line_end(s@, p as int, le as int) == line_end(s@, p as int, pe as int),
            decreases le,
        {
            le = le - 1;
        }
        let mut eq = p;
        while eq < le && s[eq] != '='
            invariant
                p <= eq <= le <= s@.len(),
                first_in(s@, eq as int, le as int, '=') == first_in(s@, p as int, le as int, '='),
            decreases le - eq,
        {
            eq = eq + 1;
        }
        if eq < le {
            let a = skip_ws_of(&s, p, eq);
            let b = skip_ws_back_of(&s, a, eq);
            if range_is(&s, a, b, &key) {
                let mut ve = eq + 1;
                while ve < le && s[ve] != '#'
                    invariant
                        eq + 1 <= ve <= le <= s@.len(),
                        first_in(s@, ve as int, le as int, '#') == first_in(s@, eq + 1, le as int, '#'),
                    decreases le - ve,
                {
                    ve = ve + 1;
                }
                let va = skip_ws_of(&s, eq + 1, ve);
                let vb = skip_ws_back_of(&s, va, ve);
                if range_is(&s, va, vb, &on) {
                    proof {
                        lemma_first_from_bounds(s@, p as int, '\n');
                        assert(trimmed(s@, eq + 1, ve as int) == s@.subrange(va as int, vb as int));
                        assert(trimmed(s@, p as int, eq as int) == s@.subrange(a as int, b as int));
                        assert(line_end(s@, p as int, pe as int) == le);
                        assert(first_in(s@, p as int, le as int, '=') == eq);
                        assert(first_in(s@, eq + 1, le as int, '#') == ve);
                        assert(guard_from(s@, p as int) == s@);
                    }
                    return string_from_chars(&s);
                }
                let mut out: Vec<char> = Vec::new();
                copy_range(&mut out, &s, 0, eq + 1);
                if ve < le {
                    append_str(&mut out, " true ");
                } else {
                    append_str(&mut out, " true");
                }
                copy_range(&mut out, &s, ve, s.len());
                assert(s@.subrange(0, eq + 1) =~= s@.take(eq + 1));
                assert(s@.subrange(ve as int, s@.len() as int) =~= s@.skip(ve as int));
                proof {
                    lemma_first_from_bounds(s@, p as int, '\n');
                    assert(trimmed(s@, p as int, eq as int) == s@.subrange(a as int, b as int));
                    assert(line_end(s@, p as int, pe as int) == le);
                    assert(first_in(s@, p as int, le as int, '=') == eq);
                    assert(first_in(s@, eq + 1, le as int, '#') == ve);
                    assert(trimmed(s@, eq + 1, ve as int) == s@.subrange(va as int, vb as int));
                    assert(guard_from(s@, p as int) == out@);
                }
                return string_from_chars(&out);
            }
        }
        p = pe;
    }
    let mut out: Vec<char> = Vec::new();
    copy_range(&mut out, &s, 0, s.len());
    assert(s@.subrange(0, s@.len() as int) =~= s@);
    if s.len() > 0 && s[s.len() - 1] != '\n' {
        out.push('\n');
    }
    append_str(&mut out, "disable_all_formatting = true\n");
    string_from_chars(&out)
}

/// Index of the first character of `s[p..b]` that is not `c`, or `b`.
pub open spec fn skip_char(s: Seq<char>, p: int, b: int, c: char) -> int
    decreases b - p,
{
    if p >= b {
        b
    } else if s[p] != c {
        p
    } else {
        skip_char(s, p + 1, b, c)
    }
}

/// Index just past the last character of `s[p..b]` that is not `c`, or `p`.
pub open spec fn skip_char_back(s: Seq<char>, p: int, b: int, c: char) -> int
    decreases b - p,
{
    if b <= p {
        p
    } else if s[b - 1] != c {
        b
    } else {
        skip_char_back(s, p, b - 1, c)
    }
}

pub proof fn lemma_skip_char(s: Seq<char>, p: int, b: int, c: char)
    requires
        p <= b,
    ensures
        p <= skip_char(s, p, b, c) <= b,
        p <= skip_char_back(s, p, b, c) <= b,
    decreases b - p,
{
    if p < b {
        lemma_skip_char(s, p + 1, b, c);
        lemma_skip_char(s, p, b - 1, c);
    }
}

/// `l.trim_start().starts_with(key)`.
pub open spec fn starts_key(l: Seq<char>, key: Seq<char>) -> bool {
    let a = skip_ws(l, 0, l.len() as int);
    l.len() - a >= key.len() && l.subrange(a, a + key.len()) == key
}

/// The value on a line `key = value`: the text between its first `=` and the
/// next one, trimmed of whitespace and then of quotes; `None` without `=`.
pub open spec fn value_of(l: Seq<char>) -> Option<Seq<char>> {
    let e = first_from(l, 0, '=');
    if e >= l.len() {
        None
    } else {
        let f = first_from(l, e + 1, '=');
        let a = skip_ws(l, e + 1, f);
        let b = skip_ws_back(l, a, f);
        let qa = skip_char(l, a, b, '"');
        Some(l.subrange(qa, skip_char_back(l, qa, b, '"')))
    }
}

/// The value of the first of the lines that starts with `key`, if that line has one.
pub open spec fn value_in_lines(ls: Seq<Seq<char>>, key: Seq<char>) -> Option<Seq<char>>
    decreases ls.len(),
{
    if ls.len() == 0 {
        None
    } else if starts_key(ls[0], key) {
        value_of(ls[0])
    } else {
        value_in_lines(ls.drop_first(), key)
    }
}

/// What `toml_lookup` finds in a TOML text.
pub open spec fn toml_value(s: Seq<char>, key: Seq<char>) -> Option<Seq<char>> {
    value_in_lines(lines_from(s, 0, s.len() as int), key)
}

fn skip_char_of(v: &Vec<char>, p: usize, b: usize, c: char) -> (r: usize)
    requires
        p <= b <= v@.len(),
    ensures
        r == skip_char(v@, p as int, b as int, c),
        p <= r <= b,
{
    let mut k = p;
    while k < b && v[k] == c
        invariant
            p <= k <= b <= v@.len(),
            skip_char(v@, k as int, b as int, c) == skip_char(v@, p as int, b as int, c),
        decreases b - k,
    {
        k = k + 1;
    }
    k
}

fn skip_char_back_of(v: &Vec<char>, p: usize, b: usize, c: char) -> (r: usize)
    requires
        p <= b <= v@.len(),
    ensures
        r == skip_char_back(v@, p as int, b as int, c),
        p <= r <= b,
{
    let mut k = b;
    while k > p && v[k - 1] == c
        invariant
            p <= k <= b <= v@.len(),
            skip_char_back(v@, p as int, k as int, c) == skip_char_back(v@, p as int, b as int, c),
        decreases k,
    {
        k = k - 1;
    }
    k
}

fn value_of_line(l: &Vec<char>) -> (r: Option<Vec<char>>)
    ensures
        match r {
            Some(v) => value_of(l@) == Some(v@),
            None => value_of(l@) is None,
        },
{
    proof {
        lemma_first_from_bounds(l@, 0, '=');
    }
    let e = find_first_from(l, 0, '=');
    if e >= l.len() {
        return None;
    }
    proof {
        lemma_first_from_bounds(l@, e + 1, '=');
    }
    let f = find_first_from(l, e + 1, '=');
    let a = skip_ws_of(l, e + 1, f);
    let b = skip_ws_back_of(l, a, f);
    let qa = skip_char_of(l, a, b, '"');
    let qb = skip_char_back_of(l, qa, b, '"');
    let mut v: Vec<char> = Vec::new();
    copy_range(&mut v, l, qa, qb);
    Some(v)
}

fn starts_key_of(l: &Vec<char>, key: &Vec<char>) -> (r: bool)
    ensures
        r == starts_key(l@, key@),
{
    let a = skip_ws_of(l, 0, l.len());
    if l.len() - a < key.len() {
        return false;
    }
    range_is(l, a, a + key.len(), key)
}

/// The value at `key` in a TOML text: the first line that, trimmed at its
/// start, starts with `key` gives the text after its first `=` (up to a second
/// `=`), trimmed of whitespace and quotes; `None` if no line starts with `key`
/// or that line has no `=`.
pub fn toml_lookup(text: &str, key: &str) -> (r: Option<String>)
    ensures
        match r {
            Some(v) => toml_value(text@, key@) == Some(v@),
            None => toml_value(text@, key@) is None,
        },
{
    let s = chars_of(text);
    let k = chars_of(key);
    let len = s.len();
    let mut p: usize = 0;
    while p < len
        invariant
            p <= len == s@.len(),
            s@ == text@,
            k@ == key@,
            toml_value(s@, k@) == value_in_lines(lines_from(s@, p as int, len as int), k@),
        decreases len - p,
    {
        proof {
            lemma_first_in(s@, p as int, len as int, '\n');
        }
        let mut e = p;
        while e < len && s[e] != '\n'
            invariant
                p <= e <= len == s@.len(),
                first_in(s@, e as int, len as int, '\n') == first_in(s@, p as int, len as int, '\n'),
            decreases len - e,
        {
            e = e + 1;
        }
        let mut le = e;
        if e < len && le > p && s[le - 1] == '\r' {
            le = le - 1;
        }
        let mut line: Vec<char> = Vec::new();
        copy_range(&mut line, &s, p, le);
        let ghost rest = if e < len {
            e + 1
        } else {
            len as int
        };
        proof {
            if e >= len {
                assert(lines_from(s@, p as int, len as int) == seq![s@.subrange(p as int, len as int)]);
                assert(lines_from(s@, len as int, len as int) == Seq::<Seq<char>>::empty());
            } else {
                assert(strip_cr(s@.subrange(p as int, e as int)) =~= line@);
            }
            assert(lines_from(s@, p as int, len as int) =~= seq![line@] + lines_from(s@, rest, len as int));
            assert((seq![line@] + lines_from(s@, rest, len as int)).drop_first() =~= lines_from(s@, rest, len as int));
        }
        if starts_key_of(&line, &k) {
            return match value_of_line(&line) {
                Some(v) => Some(string_from_chars(&v)),
                None => None,
            };
        }
        p = if e < len {
            e + 1
        } else {
            len
        };
    }
    None
}

/// The edition named in a `Cargo.toml` text, `"2021"` without one.
pub open spec fn edition_of(cargo_toml: Option<Seq<char>>) -> Seq<char> {
    match cargo_toml {
        Some(t) => match toml_value(t, "edition"@) {
            Some(v) => v,
            None => "2021"@,
        },
        None => "2021"@,
    }
}

/// The edition to format with, from the text of the nearest `Cargo.toml`
/// (`None` where there is none): its `edition`, else `2021`.
pub fn edition_for(cargo_toml: Option<&str>) -> (r: String)
    ensures
        r@ == edition_of(match cargo_toml {
            Some(t) => Some(t@),
            None => None,
        }),
{
    match cargo_toml {
        Some(t) => match toml_lookup(t, "edition") {
            Some(v) => v,
            None => String::from_str("2021"),
        },
        None => String::from_str("2021"),
    }
}

/// The value of a run of decimal digits.
pub open spec fn digits_value(d: Seq<char>) -> nat
    decreases d.len(),
{
    if d.len() == 0 {
        0
    } else {
        digits_value(d.drop_last()) * 10 + (d.last() as nat - '0' as nat) as nat
    }
}

pub open spec fn all_digits(d: Seq<char>) -> bool {
    forall|k: int| 0 <= k < d.len() ==> '0' <= #[trigger] d[k] <= '9'
}

/// `str::parse::<usize>`: an optional `+`, then one decimal digit or more,
/// of a value that fits.
pub open spec fn parse_usize(v: Seq<char>) -> Option<usize> {
    let d = if v.len() > 0 && v[0] == '+' {
        v.skip(1)
    } else {
        v
    };
    if d.len() > 0 && all_digits(d) && digits_value(d) <= usize::MAX {
        Some(digits_value(d) as usize)
    } else {
        None
    }
}

proof fn lemma_digits_value_prefix(d: Seq<char>, k: int)
    requires
        0 <= k <= d.len(),
        all_digits(d),
    ensures
        digits_value(d.take(k)) <= digits_value(d),
    decreases d.len() - k,
{
    if k == d.len() {
        assert(d.take(k) =~= d);
    } else {
        lemma_digits_value_prefix(d, k + 1);
        let t = d.take(k + 1);
        assert(t.drop_last() =~= d.take(k));
        assert(t.last() == d[k]);
        assert('0' <= d[k] <= '9');
        assert(digits_value(t) == digits_value(d.take(k)) * 10 + (d[k] as nat - '0' as nat) as nat);
    }
}

pub fn parse_usize_of(v: &Vec<char>) -> (r: Option<usize>)
    ensures
        r == parse_usize(v@),
{
    let start: usize = if v.len() > 0 && v[0] == '+' {
        1
    } else {
        0
    };
    let ghost d = v@.skip(start as int);
    assert(d == if v@.len() > 0 && v@[0] == '+' {
        v@.skip(1)
    } else {
        v@
    }) by {
        if start == 0 {
            assert(v@.skip(0) =~= v@);
        }
    }
    if v.len() == start {
        assert(d.len() == 0);
        return None;
    }
    let mut acc: usize = 0;
    let mut k = start;
    while k < v.len()
        invariant
            start <= k <= v@.len(),
            d == v@.skip(start as int),
            d.len() == v@.len() - start,
            d == if v@.len() > 0 && v@[0] == '+' {
                v@.skip(1)
            } else {
                v@
            },
            forall|j: int| 0 <= j < k - start ==> '0' <= #[trigger] d[j] <= '9',
            acc == digits_value(d.take(k - start)),
        decreases v@.len() - k,
    {
        let c = v[k];
        assert(d[k - start] == c);
        if c < '0' || c > '9' {
            assert(!all_digits(d));
            return None;
        }
        assert(d.take(k - start + 1).drop_last() =~= d.take(k - start));
        assert(d[k - start] == c);
        let digit = (c as u32 - '0' as u32) as usize;
        assert(digit == (c as nat - '0' as nat) as nat);
        assert(digits_value(d.take(k - start + 1)) == acc * 10 + digit);
        let m = acc.checked_mul(10);
        let next = match m {
            Some(m) => m.checked_add(digit),
            None => None,
        };
        match next {
            Some(n) => {
                acc = n;
            },
            None => {
                assert(acc * 10 + digit > usize::MAX);
                proof {
                    if all_digits(d) {
                        lemma_digits_value_prefix(d, k - start + 1);
                    }
                }
                return None;
            },
        }
        k = k + 1;
    }
    assert(d.take(d.len() as int) =~= d);
    assert(all_digits(d));
    Some(acc)
}

/// The width to format with: `--width`, else the nearest `rustfmt.toml`'s
/// `max_width` if it parses, else 130.
pub open spec fn width_of(flag: Option<usize>, rustfmt_toml: Option<Seq<char>>) -> usize {
    match flag {
        Some(w) => w,
        None => {
            let found = match rustfmt_toml {
                Some(t) => match toml_value(t, "max_width"@) {
                    Some(v) => parse_usize(v),
                    None => None,
                },
                None => None,
            };
            match found {
                Some(w) => w,
                None => 130,
            }
        },
    }
}

/// `width_of` for the width flag and the text of the nearest `rustfmt.toml`.
pub fn width_for(flag: Option<usize>, rustfmt_toml: Option<&str>) -> (r: usize)
    ensures
        r == width_of(flag, match rustfmt_toml {
            Some(t) => Some(t@),
            None => None,
        }),
{
    match flag {
        Some(w) => w,
        None => {
            let found = match rustfmt_toml {
                Some(t) => match toml_lookup(t, "max_width") {
                    Some(v) => parse_usize_of(&chars_of(v.as_str())),
                    None => None,
                },
                None => None,
            };
            match found {
                Some(w) => w,
                None => 130,
            }
        },
    }
}

/// `Path::join` of a directory and a relative file name.
pub open spec fn path_join(dir: Seq<char>, name: Seq<char>) -> Seq<char> {
    if dir.len() == 0 {
        name
    } else if dir.last() == '/' {
        dir + name
    } else {
        dir + seq!['/'] + name
    }
}

/// Index of the first directory, from `k` on, that holds a `Cargo.toml`, or -1.
pub open spec fn first_project(has_cargo_toml: Seq<bool>, n: int, k: int) -> int
    decreases n - k,
{
    if k >= n {
        -1
    } else if has_cargo_toml[k] {
        k
    } else {
        first_project(has_cargo_toml, n, k + 1)
    }
}

/// The `rustfmt.toml` to guard: in the nearest of `ancestors` (the start
/// directory first, then its parents) that holds a `Cargo.toml`, else in the
/// start directory.
pub open spec fn config_path_of(ancestors: Seq<Seq<char>>, has_cargo_toml: Seq<bool>) -> Seq<char> {
    let n = if ancestors.len() < has_cargo_toml.len() {
        ancestors.len() as int
    } else {
        has_cargo_toml.len() as int
    };
    let k = first_project(has_cargo_toml, n, 0);
    let dir = if k >= 0 {
        ancestors[k]
    } else if ancestors.len() > 0 {
        ancestors[0]
    } else {
        Seq::empty()
    };
    path_join(dir, "rustfmt.toml"@)
}

/// `config_path_of` over the directories and, for each, whether it holds a `Cargo.toml`.
pub fn config_path(ancestors: &Vec<String>, has_cargo_toml: &Vec<bool>) -> (r: String)
    ensures
        r@ == config_path_of(ancestors.deep_view(), has_cargo_toml@),
{
    let n = if ancestors.len() < has_cargo_toml.len() {
        ancestors.len()
    } else {
        has_cargo_toml.len()
    };
    let ghost av = ancestors.deep_view();
    let mut k: usize = 0;
    while k < n && !has_cargo_toml[k]
        invariant
            k <= n <= has_cargo_toml@.len(),
            n <= ancestors@.len(),
            first_project(has_cargo_toml@, n as int, k as int) == first_project(has_cargo_toml@, n as int, 0),
        decreases n - k,
    {
        k = k + 1;
    }
    let mut dir: Vec<char> = if k < n {
        assert(av[k as int] == ancestors@[k as int]@);
        chars_of(ancestors[k].as_str())
    } else if ancestors.len() > 0 {
        assert(av[0] == ancestors@[0]@);
        chars_of(ancestors[0].as_str())
    } else {
        Vec::new()
    };
    let name = chars_of("rustfmt.toml");
    let ghost d = dir@;
    if dir.len() > 0 && dir[dir.len() - 1] != '/' {
        dir.push('/');
    }
    copy_range(&mut dir, &name, 0, name.len());
    assert(name@.subrange(0, name@.len() as int) =~= name@);
    assert(dir@ =~= path_join(d, "rustfmt.toml"@));
    string_from_chars(&dir)
}

/// A directory that the search for Rust files passes over: `target`, or a
/// hidden directory (a name of two characters or more that starts with `.`).
pub open spec fn skipped_dir(name: Seq<char>) -> bool {
    name == "target"@ || (name.len() > 1 && name[0] == '.')
}

pub fn skip_dir(name: &str) -> (r: bool)
    ensures
        r == skipped_dir(name@),
{
    let n = chars_of(name);
    str_is(&string_from_chars(&n), "target") || (n.len() > 1 && n[0] == '.')
}

/// A file the search formats: one whose extension is `rs`.
pub fn is_rust_file(extension: Option<&str>) -> (r: bool)
    ensures
        r == (match extension {
            Some(e) => e@ == "rs"@,
            None => false,
        }),
{
    match extension {
        Some(e) => str_is(&string_from_chars(&chars_of(e)), "rs"),
        None => false,
    }
}

/// `--width` wins: with the flag given, the width is the flag's value,
/// whatever the `rustfmt.toml` holds. With neither, the width is 130.
pub proof fn law_width_flag_wins(flag: Option<usize>, rustfmt_toml: Option<Seq<char>>)
    ensures
        flag is Some ==> width_of(flag, rustfmt_toml) == flag.unwrap(),
        flag is None && rustfmt_toml is None ==> width_of(flag, rustfmt_toml) == 130,
{
}

proof fn lemma_first_project_at(h: Seq<bool>, n: int, j: int, k: int)
    requires
        0 <= j <= k < n,
        h[k],
        forall|m: int| j <= m < k ==> !#[trigger] h[m],
    ensures
        first_project(h, n, j) == k,
    decreases k - j,
{
    if j < k {
        lemma_first_project_at(h, n, j + 1, k);
    }
}

proof fn lemma_first_project_none(h: Seq<bool>, n: int, j: int)
    requires
        0 <= j,
        forall|m: int| j <= m < n ==> !#[trigger] h[m],
    ensures
        first_project(h, n, j) == -1,
    decreases n - j,
{
    if j < n {
        lemma_first_project_none(h, n, j + 1);
    }
}

/// The guard file goes into the nearest directory, the start directory
/// included, that holds a `Cargo.toml`: when `ancestors[k]` is the first such,
/// it is `rustfmt.toml` there.
pub proof fn law_guard_in_nearest_project(ancestors: Seq<Seq<char>>, has_cargo_toml: Seq<bool>, k: int)
    requires
        0 <= k < ancestors.len(),
        k < has_cargo_toml.len(),
        has_cargo_toml[k],
        forall|j: int| 0 <= j < k ==> !#[trigger] has_cargo_toml[j],
    ensures
        config_path_of(ancestors, has_cargo_toml) == path_join(ancestors[k], "rustfmt.toml"@),
{
    let n = if ancestors.len() < has_cargo_toml.len() {
        ancestors.len() as int
    } else {
        has_cargo_toml.len() as int
    };
    lemma_first_project_at(has_cargo_toml, n, 0, k);
}

/// Without a `Cargo.toml` in any of the directories, the guard file goes into
/// the start directory.
pub proof fn law_guard_without_project(ancestors: Seq<Seq<char>>, has_cargo_toml: Seq<bool>)
    requires
        ancestors.len() > 0,
        forall|j: int| 0 <= j < has_cargo_toml.len() ==> !#[trigger] has_cargo_toml[j],
    ensures
        config_path_of(ancestors, has_cargo_toml) == path_join(ancestors[0], "rustfmt.toml"@),
{
    let n = if ancestors.len() < has_cargo_toml.len() {
        ancestors.len() as int
    } else {
        has_cargo_toml.len() as int
    };
    lemma_first_project_none(has_cargo_toml, n, 0);
}

/// Without a `Cargo.toml` the edition is 2021.
pub proof fn law_default_edition()
    ensures
        edition_of(None) == "2021"@,
{
}

/// The search passes over `target` and hidden directories (a name of two or
/// more characters that starts with `.`), and enters every other directory,
/// `.` itself included.
pub proof fn law_skipped_dirs(name: Seq<char>)
    ensures
        name == "target"@ ==> skipped_dir(name),
        name.len() > 1 && name[0] == '.' ==> skipped_dir(name),
        name != "target"@ && (name.len() <= 1 || name[0] != '.') ==> !skipped_dir(name),
{
}

} // verus!
