//! Text primitives that the rest of the library builds on.  Each function
//! here is a thin, trusted wrapper around one function of std or of `strsim`;
//! its contract is what that function's documentation and source promise.

use vstd::prelude::*;

verus! {

/// Key of the similarity 1.0: the IEEE-754 bit pattern of `1.0f64`.
pub const ONE_KEY: u64 = 0x3ff0_0000_0000_0000;

/// Key of the similarity 0.80, the threshold above which a fuzzy match counts:
/// the IEEE-754 bit pattern of `0.80f64`.
pub const MATCH_THRESHOLD_KEY: u64 = 0x3fe9_9999_9999_999a;

/// Unicode lowercase mapping of a string, as computed by `str::to_lowercase`.
pub uninterp spec fn lowercase(s: Seq<char>) -> Seq<char>;

/// Order key of the Jaro-Winkler similarity of two strings, as computed by
/// `strsim::jaro_winkler`: the bit pattern of the `f64` it returns.
pub uninterp spec fn similarity_key(a: Seq<char>, b: Seq<char>) -> u64;

/// Lowercases `s` with `str::to_lowercase`.  The result is named, not stated:
/// Unicode case mapping takes tables to describe.  For an ASCII string the
/// contract states it: the Unicode lowercase of an ASCII character is its
/// ASCII lowercase (`A`..=`Z` to `a`..=`z`, everything else unchanged), one
/// character for one.
#[verifier::external_body]
pub fn to_lowercase(s: &str) -> (r: String)
    ensures
        r@ == lowercase(s@),
        is_ascii_text(s@) ==> r@ == ascii_lowercase(s@),
{
    s.to_lowercase()
}

/// Jaro-Winkler similarity of `a` and `b` by `strsim::jaro_winkler`, handed
/// out as the bit pattern of the `f64` result.  `strsim` only ever returns
/// values built from `0.0`, `1.0` and sums and quotients of non-negative
/// numbers, so the result is never negative (nor `-0.0`) and the order of the
/// bit patterns is the order of the similarities.  The contract claims what
/// the source shows for identical inputs: the similarity is exactly `1.0`
/// (two empty strings return `1.0` at once; otherwise every character matches
/// itself, there are no transpositions and `(1 + 1 + 1) / 3` is `1.0`).
#[verifier::external_body]
pub fn similarity(a: &str, b: &str) -> (r: u64)
    ensures
        r == similarity_key(a@, b@),
        a@ == b@ ==> r == ONE_KEY,
{
    strsim::jaro_winkler(a, b).to_bits()
}

/// A decimal digit `0`..=`9`.
pub open spec fn is_ascii_digit(c: char) -> bool {
    48 <= (c as u32) <= 57
}

/// Value of a string of decimal digits, most significant first.
pub open spec fn digits_value(s: Seq<char>) -> nat
    decreases s.len(),
{
    if s.len() == 0 {
        0
    } else {
        digits_value(s.drop_last()) * 10 + ((s.last() as u32) - 48) as nat
    }
}

/// What `usize::from_str` gives: an optional `+`, then one or more decimal
/// digits whose value fits in a `usize`; anything else is an error.
pub open spec fn parsed_usize(s: Seq<char>) -> Option<usize> {
    let d = if s.len() > 0 && s[0] == '+' { s.drop_first() } else { s };
    if d.len() > 0 && (forall|i: int| 0 <= i < d.len() ==> is_ascii_digit(#[trigger] d[i]))
        && digits_value(d) <= usize::MAX {
        Some(digits_value(d) as usize)
    } else {
        None
    }
}

/// Parses `s` with `str::parse::<usize>`, turning the error into `None`.
/// Its documentation: an optional `+` sign followed by decimal digits only;
/// any other character (whitespace included) or an overflow is an error.
#[verifier::external_body]
pub fn parse_usize(s: &str) -> (r: Option<usize>)
    ensures
        r == parsed_usize(s@),
{
    s.parse::<usize>().ok()
}

/// ASCII lowercase of one character: `A`..=`Z` become `a`..=`z`, other
/// characters are left as they are.
pub open spec fn ascii_lower(c: char) -> char {
    if 65 <= (c as u32) <= 90 {
        ((c as u32) + 32) as char
    } else {
        c
    }
}

/// A string of ASCII characters only.
pub open spec fn is_ascii_text(s: Seq<char>) -> bool {
    forall|i: int| 0 <= i < s.len() ==> (#[trigger] s[i] as u32) < 128
}

/// ASCII lowercase of a string, character by character.
pub open spec fn ascii_lowercase(s: Seq<char>) -> Seq<char> {
    s.map_values(|c: char| ascii_lower(c))
}

/// Two strings that are equal up to the case of ASCII letters.
pub open spec fn ascii_case_insensitive_eq(a: Seq<char>, b: Seq<char>) -> bool {
    &&& a.len() == b.len()
    &&& forall|i: int| 0 <= i < a.len() ==> ascii_lower(#[trigger] a[i]) == ascii_lower(b[i])
}

/// `str::eq_ignore_ascii_case`: per its documentation the same as comparing
/// `to_ascii_lowercase` of both strings.  Lowering ASCII letters never touches
/// the bytes of other characters, so byte-wise and character-wise comparison
/// agree.
#[verifier::external_body]
pub fn eq_ignore_ascii_case(a: &str, b: &str) -> (r: bool)
    ensures
        r == ascii_case_insensitive_eq(a@, b@),
{
    a.eq_ignore_ascii_case(b)
}

} // verus!
