//! Unicode facts that come from outside the library.
//!
//! Each function here stands for one call into the standard library or one of
//! the Unicode crates. The contracts name the result and state only the few
//! facts that callers rely on.

use unicode_normalization::UnicodeNormalization;
use unicode_segmentation::UnicodeSegmentation;
use vstd::prelude::*;

verus! {

/// `String::push` appends the character at the end.
pub assume_specification[ String::push ](s: &mut String, ch: char)
    ensures
        final(s)@ == old(s)@.push(ch),
;

/// Whether a character has the Unicode `White_Space` property: the control
/// characters from tab to carriage return, the next-line character, the line and
/// paragraph separators, and the spaces.
pub open spec fn char_is_whitespace(c: char) -> bool {
    let n = c as u32;
    ||| 0x09 <= n <= 0x0d
    ||| n == 0x20
    ||| n == 0x85
    ||| n == 0xa0
    ||| n == 0x1680
    ||| 0x2000 <= n <= 0x200a
    ||| n == 0x2028
    ||| n == 0x2029
    ||| n == 0x202f
    ||| n == 0x205f
    ||| n == 0x3000
}

/// Calls `char::is_whitespace`, which tells the `White_Space` property as the
/// Unicode Character Database lists it.
#[verifier::external_body]
pub(crate) fn is_whitespace(c: char) -> (r: bool)
    ensures
        r == char_is_whitespace(c),
{
    c.is_whitespace()
}

/// Whether a character beyond ASCII has one of the Unicode properties
/// `Alphabetic` or `Numeric`.
pub uninterp spec fn alphanumeric_beyond_ascii(c: char) -> bool;

/// Whether a character has one of the Unicode properties `Alphabetic` or
/// `Numeric`. Within ASCII that is the letters and the digits.
pub open spec fn char_is_alphanumeric(c: char) -> bool {
    if (c as u32) < 128 {
        ('0' <= c && c <= '9') || ('a' <= c && c <= 'z') || ('A' <= c && c <= 'Z')
    } else {
        alphanumeric_beyond_ascii(c)
    }
}

/// Calls `char::is_alphanumeric`. Within ASCII the result is true of the
/// letters and the digits, and of nothing else; beyond ASCII the result is
/// only named.
#[verifier::external_body]
pub(crate) fn is_alphanumeric(c: char) -> (r: bool)
    ensures
        (c as u32) < 128 ==> r == (('0' <= c && c <= '9') || ('a' <= c && c <= 'z') || ('A' <= c
            && c <= 'Z')),
        (c as u32) >= 128 ==> r == alphanumeric_beyond_ascii(c),
{
    c.is_alphanumeric()
}

/// The lowercase equivalent of a text.
pub uninterp spec fn lowercase(s: Seq<char>) -> Seq<char>;

/// Calls `str::to_lowercase`.
#[verifier::external_body]
pub(crate) fn to_lowercase(s: &str) -> (r: String)
    ensures
        r@ == lowercase(s@),
{
    s.to_lowercase()
}

/// The uppercase equivalent of one character, which may be several characters.
pub uninterp spec fn char_uppercase(c: char) -> Seq<char>;

/// Calls `char::to_uppercase` and gathers what it yields.
#[verifier::external_body]
pub(crate) fn to_uppercase(c: char) -> (r: String)
    ensures
        r@ == char_uppercase(c),
{
    c.to_uppercase().to_string()
}

/// The canonical composition (NFC) of a text.
pub uninterp spec fn nfc(s: Seq<char>) -> Seq<char>;

/// Calls `UnicodeNormalization::nfc` of `unicode_normalization` and gathers
/// what it yields.
#[verifier::external_body]
pub(crate) fn to_nfc(s: &str) -> (r: String)
    ensures
        r@ == nfc(s@),
{
    s.nfc().collect()
}

/// The compatibility decomposition (NFKD) of a text.
pub uninterp spec fn nfkd(s: Seq<char>) -> Seq<char>;

/// Calls `UnicodeNormalization::nfkd` of `unicode_normalization` and gathers
/// what it yields.
#[verifier::external_body]
pub(crate) fn to_nfkd(s: &str) -> (r: String)
    ensures
        r@ == nfkd(s@),
{
    s.nfkd().collect()
}

/// The extended grapheme clusters of a text, in order.
pub uninterp spec fn graphemes(s: Seq<char>) -> Seq<Seq<char>>;

/// Calls `UnicodeSegmentation::graphemes` of `unicode_segmentation` with
/// extended clusters. The clusters, put end to end, are the text.
#[verifier::external_body]
pub(crate) fn to_graphemes(s: &str) -> (r: Vec<String>)
    ensures
        r.deep_view() == graphemes(s@),
        r.deep_view().flatten() == s@,
{
    s.graphemes(true).map(String::from).collect()
}

} // verus!
