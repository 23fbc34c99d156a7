//! Character-level helpers over strings: conversion between `str` and
//! `Vec<char>`, Unicode whitespace, trimming, and UTF-8 byte lengths.
use vstd::prelude::*;
use vstd::utf8::{valid_utf8, decode_utf8};

verus! {

/// Unicode `White_Space` property, exactly as `char::is_whitespace` uses it.
pub open spec fn is_ws(c: char) -> bool {
    let u = c as u32;
    (0x09 <= u && u <= 0x0D) || u == 0x20 || u == 0x85 || u == 0xA0 || u == 0x1680
        || (0x2000 <= u && u <= 0x200A) || u == 0x2028 || u == 0x2029 || u == 0x202F
        || u == 0x205F || u == 0x3000
}

/// `char::is_whitespace`.
pub fn is_whitespace(c: char) -> (b: bool)
    ensures
        b == is_ws(c),
{
    let u = c as u32;
    (0x09 <= u && u <= 0x0D) || u == 0x20 || u == 0x85 || u == 0xA0 || u == 0x1680 || (0x2000
        <= u && u <= 0x200A) || u == 0x2028 || u == 0x2029 || u == 0x202F || u == 0x205F || u
        == 0x3000
}

/// The characters of `s`, in order.
pub fn chars_of(s: &str) -> (v: Vec<char>)
    ensures
        v@ == s@,
{
    let mut v: Vec<char> = Vec::new();
    for c in it: s.chars()
        invariant
            v@ == it.seq().take(it.index()),
    {
        v.push(c);
    }
    v
}

/// `String::push` (std), which appends the character, as its documentation
/// says.
#[verifier::external_body]
fn push_char(s: &mut String, c: char)
    ensures
        final(s)@ == old(s)@.push(c),
{
    s.push(c);
}

/// The string holding exactly the characters `v`.
pub fn string_from_chars(v: &[char]) -> (s: String)
    ensures
        s@ == v@,
{
    let mut s = String::new();
    let mut i: usize = 0;
    while i < v.len()
        invariant
            i <= v@.len(),
            s@ == v@.take(i as int),
        decreases v@.len() - i,
    {
        push_char(&mut s, v[i]);
        i = i + 1;
        assert(s@ =~= v@.take(i as int));
    }
    assert(v@.take(v@.len() as int) =~= v@);
    s
}

/// Whether two character sequences are equal.
pub fn chars_eq(a: &[char], b: &[char]) -> (r: bool)
    ensures
        r == (a@ == b@),
{
    if a.len() != b.len() {
        return false;
    }
    let mut i: usize = 0;
    while i < a.len()
        invariant
            a@.len() == b@.len(),
            i <= a@.len(),
            forall|j: int| 0 <= j < i ==> a@[j] == b@[j],
        decreases a@.len() - i,
    {
        if a[i] != b[i] {
            return false;
        }
        i = i + 1;
    }
    assert(a@ =~= b@);
    true
}

/// Whether two strings hold the same characters.
pub fn str_eq(a: &str, b: &str) -> (r: bool)
    ensures
        r == (a@ == b@),
{
    let va = chars_of(a);
    let vb = chars_of(b);
    chars_eq(va.as_slice(), vb.as_slice())
}

/// `s` without its leading whitespace.
pub open spec fn trim_start_spec(s: Seq<char>) -> Seq<char>
    decreases s.len(),
{
    if s.len() > 0 && is_ws(s[0]) {
        trim_start_spec(s.drop_first())
    } else {
        s
    }
}

/// `s` without its trailing whitespace.
pub open spec fn trim_end_spec(s: Seq<char>) -> Seq<char>
    decreases s.len(),
{
    if s.len() > 0 && is_ws(s.last()) {
        trim_end_spec(s.drop_last())
    } else {
        s
    }
}

/// `str::trim`: `s` without leading and trailing whitespace.
pub open spec fn trim_spec(s: Seq<char>) -> Seq<char> {
    trim_end_spec(trim_start_spec(s))
}

proof fn lemma_trim_start_skip(s: Seq<char>, i: int)
    requires
        0 <= i <= s.len(),
        forall|j: int| 0 <= j < i ==> is_ws(s[j]),
    ensures
        trim_start_spec(s) == trim_start_spec(s.skip(i)),
    decreases i,
{
    if i > 0 {
        assert(s.drop_first().skip(i - 1) =~= s.skip(i));
        lemma_trim_start_skip(s.drop_first(), i - 1);
    } else {
        assert(s.skip(0) =~= s);
    }
}

proof fn lemma_trim_end_take(s: Seq<char>, i: int)
    requires
        0 <= i <= s.len(),
        forall|j: int| i <= j < s.len() ==> is_ws(s[j]),
    ensures
        trim_end_spec(s) == trim_end_spec(s.take(i)),
    decreases s.len() - i,
{
    if i < s.len() {
        assert(s.drop_last().take(i) =~= s.take(i));
        lemma_trim_end_take(s.drop_last(), i);
    } else {
        assert(s.take(i) =~= s);
    }
}

/// `str::trim` over a character slice.
pub fn trim_chars(v: &[char]) -> (r: Vec<char>)
    ensures
        r@ == trim_spec(v@),
{
    let mut a: usize = 0;
    while a < v.len() && is_whitespace(v[a])
        invariant
            a <= v@.len(),
            forall|j: int| 0 <= j < a ==> is_ws(v@[j]),
        decreases v@.len() - a,
    {
        a = a + 1;
    }
    proof {
        lemma_trim_start_skip(v@, a as int);
    }
    let ghost t = v@.skip(a as int);
    let mut b: usize = v.len();
    while b > a && is_whitespace(v[b - 1])
        invariant
            a <= b <= v@.len(),
            forall|j: int| b <= j < v@.len() ==> is_ws(v@[j]),
        decreases b,
    {
        b = b - 1;
    }
    proof {
        assert(t.len() > 0 ==> !is_ws(t[0]));
        assert(trim_start_spec(t) == t);
        assert forall|j: int| b - a <= j < t.len() implies is_ws(t[j]) by {
            assert(t[j] == v@[j + a]);
        }
        lemma_trim_end_take(t, b - a);
        let u = t.take(b - a);
        assert(u.len() > 0 ==> !is_ws(u.last()));
    }
    let mut r: Vec<char> = Vec::new();
    let mut i: usize = a;
    while i < b
        invariant
            a <= i <= b <= v@.len(),
            r@ == v@.subrange(a as int, i as int),
        decreases b - i,
    {
        r.push(v[i]);
        i = i + 1;
        assert(r@ =~= v@.subrange(a as int, i as int));
    }
    assert(r@ =~= t.take(b - a));
    r
}

/// `char::is_alphanumeric` (Unicode `Alphabetic` or `Numeric`).
pub uninterp spec fn char_alnum(c: char) -> bool;

/// The characters of `char::to_lowercase` (Unicode lower-case mapping).
pub uninterp spec fn char_lower(c: char) -> Seq<char>;

/// `char::is_alphanumeric`. Its result is named by `char_alnum`; for ASCII
/// the documentation gives the answer (letters and digits).
#[verifier::external_body]
pub(crate) fn is_alphanumeric(c: char) -> (b: bool)
    ensures
        b == char_alnum(c),
        (c as u32) < 128 ==> (b == (('a' <= c && c <= 'z') || ('A' <= c && c <= 'Z') || ('0' <= c
            && c <= '9'))),
{
    c.is_alphanumeric()
}

/// `char::to_lowercase`, collected. Its result is named by `char_lower`; for
/// ASCII it is the single ASCII lower-case letter (or the character itself).
#[verifier::external_body]
pub(crate) fn to_lowercase(c: char) -> (v: Vec<char>)
    ensures
        v@ == char_lower(c),
        'A' <= c && c <= 'Z' ==> v@ == seq![((c as u32) + 32) as char],
        (c as u32) < 128 && !('A' <= c && c <= 'Z') ==> v@ == seq![c],
{
    c.to_lowercase().collect()
}

/// Lower-cased alphanumerics of `s`: the fuzzy form names are compared in.
pub open spec fn normalize_spec(s: Seq<char>) -> Seq<char>
    decreases s.len(),
{
    if s.len() == 0 {
        Seq::empty()
    } else if char_alnum(s.last()) {
        normalize_spec(s.drop_last()) + char_lower(s.last())
    } else {
        normalize_spec(s.drop_last())
    }
}

/// Lowercase and strip non-alphanumeric characters for fuzzy name comparison.
pub fn normalize(s: &str) -> (r: String)
    ensures
        r@ == normalize_spec(s@),
{
    let c = chars_of(s);
    let mut out: Vec<char> = Vec::new();
    let mut i: usize = 0;
    while i < c.len()
        invariant
            i <= c@.len(),
            c@ == s@,
            out@ == normalize_spec(c@.take(i as int)),
        decreases c@.len() - i,
    {
        assert(c@.take(i + 1).drop_last() =~= c@.take(i as int));
        assert(c@.take(i + 1).last() == c@[i as int]);
        if is_alphanumeric(c[i]) {
            let low = to_lowercase(c[i]);
            let mut j: usize = 0;
            let ghost start = out@;
            while j < low.len()
                invariant
                    j <= low@.len(),
                    out@ == start + low@.take(j as int),
                decreases low@.len() - j,
            {
                out.push(low[j]);
                j = j + 1;
                assert(out@ =~= start + low@.take(j as int));
            }
            assert(low@.take(low@.len() as int) =~= low@);
        }
        i = i + 1;
    }
    assert(c@.take(c@.len() as int) =~= c@);
    string_from_chars(out.as_slice())
}

/// `short` occurs in `long` as a contiguous run of characters.
pub open spec fn contains_seq(long: Seq<char>, short: Seq<char>) -> bool {
    exists|i: int| 0 <= i <= long.len() - short.len() && #[trigger] long.subrange(i, i + short.len()) == short
}

/// `str::contains` for a string pattern (a run of characters; for UTF-8 text
/// this is the same as a run of bytes).
pub fn contains_str(long: &str, short: &str) -> (r: bool)
    ensures
        r == contains_seq(long@, short@),
{
    let l = chars_of(long);
    let s = chars_of(short);
    if s.len() > l.len() {
        return false;
    }
    let mut i: usize = 0;
    while i <= l.len() - s.len()
        invariant
            s@.len() <= l@.len(),
            l@ == long@,
            s@ == short@,
            i <= l@.len() - s@.len() + 1,
            forall|k: int| 0 <= k < i ==> #[trigger] l@.subrange(k, k + s@.len()) != s@,
        decreases l@.len() - s@.len() + 1 - i,
    {
        let mut j: usize = 0;
        while j < s.len() && l[i + j] == s[j]
            invariant
                s@.len() <= l@.len(),
                l@.len() <= usize::MAX,
                i <= l@.len() - s@.len(),
                j <= s@.len(),
                forall|m: int| 0 <= m < j ==> l@[i + m] == s@[m],
            decreases s@.len() - j,
        {
            j = j + 1;
        }
        if j == s.len() {
            assert(l@.subrange(i as int, i + s@.len()) =~= s@);
            return true;
        }
        assert(l@.subrange(i as int, i + s@.len())[j as int] != s@[j as int]);
        i = i + 1;
    }
    proof {
        assert forall|k: int| 0 <= k <= l@.len() - s@.len() implies #[trigger] l@.subrange(k, k + s@.len()) != s@ by {}
    }
    false
}

/// The text of the error that `std::str::from_utf8` reports for `bytes`.
pub uninterp spec fn utf8_error_text(bytes: Seq<u8>) -> Seq<char>;

/// `std::str::from_utf8`, as an owned string. Its contract: the call
/// succeeds exactly on valid UTF-8 and then yields the decoded text;
/// otherwise the error's text is a function of the bytes alone.
#[verifier::external_body]
pub(crate) fn utf8_to_string(bytes: &[u8]) -> (r: Result<String, String>)
    ensures
        r is Ok <==> valid_utf8(bytes@),
        r matches Ok(s) ==> s@ == decode_utf8(bytes@),
        r matches Err(m) ==> m@ == utf8_error_text(bytes@),
{
    match std::str::from_utf8(bytes) {
        Ok(s) => Ok(s.to_string()),
        Err(e) => Err(e.to_string()),
    }
}

} // verus!
