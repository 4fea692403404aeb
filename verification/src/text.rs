//! Character-level helpers over `Seq<char>` shared by the passes: whitespace,
//! UTF-8 byte lengths, and searches for a character inside a range.

use vstd::prelude::*;
use vstd::string::*;

verus! {

/// `char::is_whitespace`: the Unicode `White_Space` property.
pub open spec fn is_ws(c: char) -> bool {
    let u = c as u32;
    ||| 9 <= u <= 13
    ||| u == 32
    ||| u == 0x85
    ||| u == 0xa0
    ||| u == 0x1680
    ||| 0x2000 <= u <= 0x200a
    ||| u == 0x2028
    ||| u == 0x2029
    ||| u == 0x202f
    ||| u == 0x205f
    ||| u == 0x3000
}

pub fn is_whitespace(c: char) -> (r: bool)
    ensures
        r == is_ws(c),
{
    let u = c as u32;
    (9 <= u && u <= 13) || u == 32 || u == 0x85 || u == 0xa0 || u == 0x1680 || (0x2000 <= u && u
        <= 0x200a) || u == 0x2028 || u == 0x2029 || u == 0x202f || u == 0x205f || u == 0x3000
}

/// Number of bytes of `c` in UTF-8 (`char::len_utf8`).
pub open spec fn utf8_len(c: char) -> nat {
    let u = c as u32;
    if u < 0x80 {
        1
    } else if u < 0x800 {
        2
    } else if u < 0x10000 {
        3
    } else {
        4
    }
}

pub fn char_utf8_len(c: char) -> (n: usize)
    ensures
        n == utf8_len(c),
        1 <= n <= 4,
{
    let u = c as u32;
    if u < 0x80 {
        1
    } else if u < 0x800 {
        2
    } else if u < 0x10000 {
        3
    } else {
        4
    }
}

/// Number of bytes of `s` in UTF-8, the length that `str::len` reports.
pub open spec fn byte_len(s: Seq<char>) -> nat
    decreases s.len(),
{
    if s.len() == 0 {
        0
    } else {
        byte_len(s.drop_last()) + utf8_len(s.last())
    }
}

pub proof fn lemma_byte_len_concat(a: Seq<char>, b: Seq<char>)
    ensures
        byte_len(a + b) == byte_len(a) + byte_len(b),
    decreases b.len(),
{
    if b.len() == 0 {
        assert(a + b =~= a);
    } else {
        lemma_byte_len_concat(a, b.drop_last());
        assert((a + b).drop_last() =~= a + b.drop_last());
    }
}

pub proof fn lemma_byte_len_subrange(s: Seq<char>, i: int, j: int)
    requires
        0 <= i <= j <= s.len(),
    ensures
        byte_len(s.subrange(i, j)) <= byte_len(s),
{
    lemma_byte_len_concat(s.take(i), s.subrange(i, j));
    lemma_byte_len_concat(s.take(i) + s.subrange(i, j), s.skip(j));
    assert(s.take(i) + s.subrange(i, j) + s.skip(j) =~= s);
}

/// At least `len` bytes in UTF-8: each character takes one byte or more.
pub proof fn lemma_byte_len_at_least_len(s: Seq<char>)
    ensures
        s.len() <= byte_len(s),
    decreases s.len(),
{
    if s.len() > 0 {
        lemma_byte_len_at_least_len(s.drop_last());
    }
}

/// `x` when it is at most `cap`, else `cap + 1`: enough to compare a length with `cap`.
pub open spec fn capped(x: nat, cap: nat) -> nat {
    if x > cap {
        cap + 1
    } else {
        x
    }
}

/// UTF-8 length of `v[a..b]`, counted only as far as `cap + 1`.
pub fn byte_len_capped(v: &Vec<char>, a: usize, b: usize, cap: usize) -> (r: usize)
    requires
        a <= b <= v@.len(),
        cap < usize::MAX - 4,
    ensures
        r == capped(byte_len(v@.subrange(a as int, b as int)), cap as nat),
{
    let mut k = a;
    let mut acc: usize = 0;
    while k < b
        invariant
            a <= k <= b <= v@.len(),
            cap < usize::MAX - 4,
            acc == byte_len(v@.subrange(a as int, k as int)),
            acc <= cap,
        decreases b - k,
    {
        let n = char_utf8_len(v[k]);
        assert(v@.subrange(a as int, k + 1).drop_last() =~= v@.subrange(a as int, k as int));
        acc = acc + n;
        k = k + 1;
        if acc > cap {
            proof {
                lemma_byte_len_concat(v@.subrange(a as int, k as int), v@.subrange(k as int, b as int));
                assert(v@.subrange(a as int, k as int) + v@.subrange(k as int, b as int)
                    =~= v@.subrange(a as int, b as int));
            }
            return cap + 1;
        }
    }
    acc
}

/// UTF-8 length of `v[a..b]` for a text short enough for the parser.
pub fn byte_len_between(v: &Vec<char>, a: usize, b: usize) -> (r: usize)
    requires
        a <= b <= v@.len(),
        byte_len(v@) < u32::MAX,
    ensures
        r == byte_len(v@.subrange(a as int, b as int)),
{
    let mut k = a;
    let mut acc: usize = 0;
    while k < b
        invariant
            a <= k <= b <= v@.len(),
            byte_len(v@) < u32::MAX,
            acc == byte_len(v@.subrange(a as int, k as int)),
        decreases b - k,
    {
        let n = char_utf8_len(v[k]);
        assert(v@.subrange(a as int, k + 1).drop_last() =~= v@.subrange(a as int, k as int));
        proof {
            lemma_byte_len_subrange(v@, a as int, k + 1);
        }
        acc = acc + n;
        k = k + 1;
    }
    acc
}

/// The characters of `s`, in order.
pub fn chars_of(s: &str) -> (v: Vec<char>)
    ensures
        v@ == s@,
{
    let mut v: Vec<char> = Vec::new();
    for c in it: s.chars()
        invariant
            v@ == it.seq().take(it.index() as int),
    {
        v.push(c);
    }
    v
}

/// The `String` made of the characters of `v` (std's `FromIterator<&char>`
/// for `String`); its contract claims that the characters come out in order.
#[verifier::external_body]
pub(crate) fn string_from_chars(v: &Vec<char>) -> (s: String)
    ensures
        s@ == v@,
{
    String::from_iter(v.iter())
}

/// Some character of `s[a..b]` is `c`.
pub open spec fn has_char(s: Seq<char>, a: int, b: int, c: char) -> bool {
    exists|k: int| a <= k < b && #[trigger] s[k] == c
}

pub fn has_char_in(v: &Vec<char>, a: usize, b: usize, c: char) -> (r: bool)
    requires
        a <= b <= v@.len(),
    ensures
        r == has_char(v@, a as int, b as int, c),
{
    let mut k = a;
    while k < b
        invariant
            a <= k <= b <= v@.len(),
            forall|j: int| a <= j < k ==> v@[j] != c,
        decreases b - k,
    {
        if v[k] == c {
            return true;
        }
        k = k + 1;
    }
    false
}

/// Every character of `s[a..b]` is whitespace.
pub open spec fn all_ws(s: Seq<char>, a: int, b: int) -> bool {
    forall|k: int| a <= k < b ==> is_ws(#[trigger] s[k])
}

pub fn all_ws_in(v: &Vec<char>, a: usize, b: usize) -> (r: bool)
    requires
        a <= b <= v@.len(),
    ensures
        r == all_ws(v@, a as int, b as int),
{
    let mut k = a;
    while k < b
        invariant
            a <= k <= b <= v@.len(),
            all_ws(v@, a as int, k as int),
        decreases b - k,
    {
        if !is_whitespace(v[k]) {
            return false;
        }
        k = k + 1;
    }
    true
}

/// Index of the last `c` in `s[..a]`, or -1 (`rfind`).
pub open spec fn last_before(s: Seq<char>, a: int, c: char) -> int
    decreases a,
{
    if a <= 0 {
        -1
    } else if s[a - 1] == c {
        a - 1
    } else {
        last_before(s, a - 1, c)
    }
}

pub fn find_last_before(v: &Vec<char>, a: usize, c: char) -> (r: Option<usize>)
    requires
        a <= v@.len(),
    ensures
        match r {
            Some(k) => k == last_before(v@, a as int, c) && k < a,
            None => last_before(v@, a as int, c) == -1,
        },
{
    let mut k = a;
    while k > 0
        invariant
            k <= a <= v@.len(),
            last_before(v@, a as int, c) == last_before(v@, k as int, c),
        decreases k,
    {
        if v[k - 1] == c {
            return Some(k - 1);
        }
        k = k - 1;
    }
    None
}

/// Index of the first `c` in `s[b..]`, or `s.len()` (`find`).
pub open spec fn first_from(s: Seq<char>, b: int, c: char) -> int
    decreases s.len() - b,
{
    if b >= s.len() {
        s.len() as int
    } else if s[b] == c {
        b
    } else {
        first_from(s, b + 1, c)
    }
}

pub fn find_first_from(v: &Vec<char>, b: usize, c: char) -> (r: usize)
    requires
        b <= v@.len(),
    ensures
        r == first_from(v@, b as int, c),
        b <= r <= v@.len(),
{
    let mut k = b;
    while k < v.len()
        invariant
            b <= k <= v@.len(),
            first_from(v@, b as int, c) == first_from(v@, k as int, c),
        decreases v@.len() - k,
    {
        if v[k] == c {
            return k;
        }
        k = k + 1;
    }
    k
}

pub proof fn lemma_first_from_bounds(s: Seq<char>, b: int, c: char)
    requires
        0 <= b <= s.len(),
    ensures
        b <= first_from(s, b, c) <= s.len(),
        first_from(s, b, c) < s.len() ==> s[first_from(s, b, c)] == c,
        forall|k: int| b <= k < first_from(s, b, c) ==> s[k] != c,
    decreases s.len() - b,
{
    if b < s.len() && s[b] != c {
        lemma_first_from_bounds(s, b + 1, c);
    }
}

/// Equality of two character vectors.
pub fn chars_eq(a: &Vec<char>, b: &Vec<char>) -> (r: bool)
    ensures
        r == (a@ == b@),
{
    if a.len() != b.len() {
        return false;
    }
    let mut k: usize = 0;
    while k < a.len()
        invariant
            a@.len() == b@.len(),
            k <= a@.len(),
            forall|j: int| 0 <= j < k ==> a@[j] == b@[j],
        decreases a@.len() - k,
    {
        if a[k] != b[k] {
            return false;
        }
        k = k + 1;
    }
    assert(a@ =~= b@);
    true
}

/// `needle` occurs in `hay` at some position.
pub open spec fn occurs_in(hay: Seq<char>, needle: Seq<char>) -> bool {
    exists|i: int| 0 <= i <= hay.len() - needle.len() && #[trigger] hay.subrange(i, i + needle.len()) == needle
}

/// `str::contains` with a string pattern.
pub fn contains_chars(hay: &Vec<char>, needle: &Vec<char>) -> (r: bool)
    ensures
        r == occurs_in(hay@, needle@),
{
    let n = needle.len();
    if n > hay.len() {
        return false;
    }
    let mut i: usize = 0;
    while i <= hay.len() - n
        invariant
            n == needle@.len() <= hay@.len(),
            i <= hay@.len() - n + 1,
            forall|j: int| 0 <= j < i ==> #[trigger] hay@.subrange(j, j + n) != needle@,
        decreases hay@.len() - n + 1 - i,
    {
        let mut k: usize = 0;
        let mut same = true;
        while k < n
            invariant
                n == needle@.len(),
                i + n <= hay@.len(),
                hay@.len() <= usize::MAX,
                k <= n,
                same == (forall|j: int| 0 <= j < k ==> hay@[i + j] == needle@[j]),
            decreases n - k,
        {
            if hay[i + k] != needle[k] {
                same = false;
            }
            k = k + 1;
        }
        if same {
            assert(hay@.subrange(i as int, i + n) =~= needle@);
            return true;
        }
        assert(hay@.subrange(i as int, i + n) != needle@) by {
            let j = choose|j: int| 0 <= j < n && hay@[i + j] != needle@[j];
            assert(hay@.subrange(i as int, i + n)[j] == hay@[i + j]);
        }
        i = i + 1;
    }
    false
}

/// `s == lit`, for a string against a literal.
pub fn str_is(s: &String, lit: &str) -> (r: bool)
    ensures
        r == (s@ == lit@),
{
    let l = String::from_str(lit);
    *s == l
}

} // verus!
