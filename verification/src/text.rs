//! Character-level helpers over `str`: classification of characters,
//! character-indexed slicing and comparison.
use vstd::prelude::*;
use vstd::string::*;

verus! {

/// Whether `char::is_numeric` holds of `c` (the character has one of the
/// Unicode general categories for numbers: Nd, Nl or No).
pub uninterp spec fn char_is_numeric(c: char) -> bool;

/// Calls `char::is_numeric`. Claimed: the result is the named value
/// `char_is_numeric(c)`, which depends on `c` alone, and among ASCII
/// characters exactly the decimal digits are numeric. For other characters
/// (the Unicode tables) the value is not stated.
#[verifier::external_body]
pub(crate) fn is_numeric(c: char) -> (b: bool)
    ensures
        b == char_is_numeric(c),
        (c as u32) < 0x80 ==> (b <==> ('0' <= c && c <= '9')),
{
    c.is_numeric()
}

/// The characters with the Unicode `White_Space` property, which are those
/// that `char::is_whitespace` accepts: tab to carriage return, space,
/// U+0085, U+00A0, U+1680, U+2000 to U+200A, U+2028, U+2029, U+202F,
/// U+205F and U+3000.
pub open spec fn is_white_space(c: char) -> bool {
    let u = c as u32;
    ||| 0x09 <= u && u <= 0x0D
    ||| u == 0x20 || u == 0x85 || u == 0xA0 || u == 0x1680
    ||| 0x2000 <= u && u <= 0x200A
    ||| u == 0x2028 || u == 0x2029 || u == 0x202F || u == 0x205F || u == 0x3000
}

/// Whether `c` is whitespace.
pub fn is_whitespace(c: char) -> (b: bool)
    ensures
        b == is_white_space(c),
{
    let u = c as u32;
    (0x09 <= u && u <= 0x0D) || u == 0x20 || u == 0x85 || u == 0xA0 || u == 0x1680 || (0x2000 <= u
        && u <= 0x200A) || u == 0x2028 || u == 0x2029 || u == 0x202F || u == 0x205F || u == 0x3000
}

/// The characters of `s` from index `start` up to and including index `end`,
/// both clamped to the length of `s`.
pub open spec fn spec_slice_string(s: Seq<char>, start: int, end: int) -> Seq<char> {
    let lo = if start < s.len() {
        start
    } else {
        s.len() as int
    };
    let hi = if end + 1 < s.len() {
        end + 1
    } else {
        s.len() as int
    };
    s.subrange(lo, hi)
}

/// The characters of `value` at character indices `start..=end`; indices
/// past the end of `value` are ignored.
pub fn slice_string(value: &str, start: usize, end: usize) -> (res: String)
    requires
        start <= end + 1,
        end < usize::MAX,
    ensures
        res@ == spec_slice_string(value@, start as int, end as int),
{
    let n = value.unicode_len();
    let lo = if start < n {
        start
    } else {
        n
    };
    let hi = if end + 1 < n {
        end + 1
    } else {
        n
    };
    String::from_str(value.substring_char(lo, hi))
}

/// Whether `a` and `b` hold the same characters.
pub(crate) fn str_equals(a: &str, b: &str) -> (res: bool)
    ensures
        res == (a@ == b@),
{
    let n = a.unicode_len();
    if n != b.unicode_len() {
        return false;
    }
    let mut i: usize = 0;
    while i < n
        invariant
            n == a@.len(),
            n == b@.len(),
            i <= n,
            forall|j: int| 0 <= j < i ==> a@[j] == b@[j],
        decreases n - i,
    {
        if a.get_char(i) != b.get_char(i) {
            return false;
        }
        i = i + 1;
    }
    assert(a@ =~= b@);
    true
}

/// Whether `c` occurs in `s`.
pub(crate) fn contains_char(s: &str, c: char) -> (res: bool)
    ensures
        res == s@.contains(c),
{
    let n = s.unicode_len();
    let mut i: usize = 0;
    while i < n
        invariant
            n == s@.len(),
            i <= n,
            forall|j: int| 0 <= j < i ==> s@[j] != c,
        decreases n - i,
    {
        if s.get_char(i) == c {
            assert(s@[i as int] == c);
            return true;
        }
        i = i + 1;
    }
    false
}

/// The characters of `s`, in order.
pub(crate) fn chars_of(s: &str) -> (res: Vec<char>)
    ensures
        res@ == s@,
{
    let n = s.unicode_len();
    let mut res: Vec<char> = Vec::new();
    let mut i: usize = 0;
    while i < n
        invariant
            n == s@.len(),
            i <= n,
            res@ == s@.subrange(0, i as int),
        decreases n - i,
    {
        res.push(s.get_char(i));
        i = i + 1;
        assert(res@ =~= s@.subrange(0, i as int));
    }
    assert(res@ =~= s@);
    res
}

} // verus!
