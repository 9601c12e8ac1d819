//! Normalisation: strip the extension, unify `.`/`_`/`+` separators to spaces,
//! collapse whitespace. Brackets and parentheses are left as they are.

use crate::parse::tokens::separators;
use crate::parse::words::{is_tight, law_unified_text_has_no_separator, letters, visible};
use crate::text;
use crate::text::{CharClass, Class};
use vstd::prelude::*;

verus! {

/// Where the extension of a name begins, if it has a plausible one: a dot that
/// is not the first character, then at most five bytes, all of them ASCII
/// letters and digits.
pub open spec fn extension_dot(name: Seq<char>) -> Option<int> {
    let dot = text::last_where(name, CharClass::Is('.'), true);
    let tail = name.skip(dot);
    let ext = name.skip(dot + 1);
    if dot > 0 && 1 < text::utf8_len(tail) <= 6 && text::all_ascii_alnum(ext) {
        Some(dot)
    } else {
        None
    }
}

/// A name without its plausible extension.
pub open spec fn without_extension(name: Seq<char>) -> Seq<char> {
    match extension_dot(name) {
        Some(dot) => name.take(dot),
        None => name,
    }
}

/// Strip a plausible file extension (short, alphanumeric, not the whole
/// name).
pub fn strip_extension(filename: &str) -> (r: &str)
    ensures
        r@ == without_extension(filename@),
{
    let chars = text::to_chars(filename);
    if let Some(dot) = text::rfind_char(&chars, '.') {
        let tail = text::slice_of(&chars, dot, chars.len());
        let ext = text::slice_of(&chars, dot + 1, chars.len());
        proof {
            assert(tail@ =~= filename@.skip(dot as int));
            assert(ext@ =~= filename@.skip(dot + 1));
        }
        let size: usize = text::byte_len(&text::to_text(&tail));
        if dot > 0 && 1 < size && size <= 6 && text::is_all_alnum(&ext) {
            proof {
                assert(filename@.subrange(0, dot as int) =~= filename@.take(dot as int));
            }
            return filename.substring_char(0, dot);
        }
    }
    filename
}

/// Whether a text holds no separator.
pub open spec fn is_unseparated(s: Seq<char>) -> bool {
    forall|i: int| 0 <= i < s.len() ==> !separators().holds(#[trigger] s[i])
}

/// A text with its separators made spaces and its whitespace collapsed.
pub open spec fn unified(s: Seq<char>) -> Seq<char> {
    text::collapse(text::spaced(s, separators()))
}

/// Unify separators and collapse whitespace runs. Brackets and other
/// punctuation are left untouched.
pub fn unify_separators(s: &str) -> (r: String)
    ensures
        r@ == unified(s@),
        // No separator is left and no whitespace but single spaces inside, every
        // other character is kept in order, and doing it again changes nothing.
        is_unseparated(r@),
        is_tight(r@),
        visible(r@) == letters(s@),
        unified(r@) == r@,
{
    proof {
        law_unified_text_has_no_separator(s@);
    }
    let seps: Vec<char> = vec!['.', '_', '+'];
    proof {
        assert(seps@ =~= seq!['.', '_', '+']);
    }
    let spaced = text::with_spaces(&text::to_chars(s), Class::In(&seps));
    text::to_text(&text::collapsed(&spaced))
}

/// Normalise a filename stem ready for extractor consumption.
pub fn normalize_stem(filename: &str) -> (r: String)
    ensures
        r@ == unified(without_extension(filename@)),
        is_unseparated(r@),
        is_tight(r@),
{
    unify_separators(strip_extension(filename))
}

} // verus!
