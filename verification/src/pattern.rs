//! Regular expressions, as the `regex` crate matches them.

use crate::text;
use regex::Regex;
use vstd::prelude::*;

verus! {

/// A match of a regular expression: the text before it, the groups that it
/// captured (the first is the whole match) and the text after it.
#[derive(Debug, Clone, PartialEq, Eq)]
pub struct Captured {
    pub before: String,
    pub groups: Vec<Option<String>>,
    pub after: String,
}

/// The contents of a match.
#[verifier::ext_equal]
pub struct CapturedView {
    pub before: Seq<char>,
    pub groups: Seq<Option<Seq<char>>>,
    pub after: Seq<char>,
}

impl DeepView for Captured {
    type V = CapturedView;

    open spec fn deep_view(&self) -> CapturedView {
        CapturedView {
            before: self.before@,
            groups: self.groups.deep_view(),
            after: self.after@,
        }
    }
}

impl CapturedView {
    /// What a group captured: the empty text where it took no part.
    pub open spec fn group(self, i: int) -> Seq<char> {
        if 0 <= i < self.groups.len() {
            match self.groups[i] {
                Some(g) => g,
                None => Seq::empty(),
            }
        } else {
            Seq::empty()
        }
    }

    /// Whether the match lies in a text: the text before it, the match and the
    /// text after it make up the text.
    pub open spec fn lies_in(self, text: Seq<char>) -> bool {
        &&& self.groups.len() > 0
        &&& self.groups[0] is Some
        &&& self.before + self.group(0) + self.after == text
    }
}

impl Captured {
    /// What a group captured: the empty text where it took no part.
    pub fn group(&self, i: usize) -> (r: &str)
        ensures
            r@ == self.deep_view().group(i as int),
    {
        let ghost v = self.groups.deep_view();
        if i < self.groups.len() {
            proof {
                assert(v[i as int] == self.groups@[i as int].deep_view());
            }
            match &self.groups[i] {
                Some(g) => g.as_str(),
                None => {
                    proof {
                        reveal_strlit("");
                    }
                    ""
                },
            }
        } else {
            proof {
                reveal_strlit("");
            }
            ""
        }
    }
}

/// Whether all characters of a text are ASCII.
pub open spec fn is_ascii_text(s: Seq<char>) -> bool {
    forall|i: int| 0 <= i < s.len() ==> (#[trigger] s[i] as u32) < 128
}

/// The texts, each escaped for use in a regular expression.
pub open spec fn escaped_all(list: Seq<Seq<char>>) -> Seq<Seq<char>> {
    Seq::new(list.len(), |i: int| escaped(list[i]))
}

/// The regular expression of phrases: any of them, whatever its case, between
/// word boundaries.
pub open spec fn phrase_pattern(phrases: Seq<Seq<char>>) -> Seq<char> {
    r"(?i)\b("@ + text::join(escaped_all(phrases), seq!['|']) + r")\b"@
}

/// Whether phrases are ASCII, and there is one.
pub open spec fn are_phrases(phrases: Seq<Seq<char>>) -> bool {
    phrases.len() > 0 && forall|i: int|
        0 <= i < phrases.len() ==> is_ascii_text(#[trigger] phrases[i])
}

/// Whether a text is one of some phrases, but for the case of its letters.
pub open spec fn is_phrase(s: Seq<char>, phrases: Seq<Seq<char>>) -> bool {
    exists|i: int| 0 <= i < phrases.len() && text::eq_ignore_case(#[trigger] phrases[i], s)
}

/// Whether an ASCII character is part of words: a letter, a digit or the
/// underscore.
pub open spec fn is_word_char(c: char) -> bool {
    ('0' <= c && c <= '9') || ('a' <= c && c <= 'z') || ('A' <= c && c <= 'Z') || c == '_'
}

/// Whether a place in an ASCII text is a word boundary: what stands on one side
/// of it, and not on the other, is part of a word.
pub open spec fn is_boundary(s: Seq<char>, i: int) -> bool {
    (i > 0 && is_word_char(s[i - 1])) != (i < s.len() && is_word_char(s[i]))
}

/// Whether one of some phrases, but for the case of its letters, stands between
/// word boundaries somewhere in a text.
pub open spec fn mentions(s: Seq<char>, phrases: Seq<Seq<char>>) -> bool {
    exists|i: int, j: int|
        0 <= i <= j <= s.len() && #[trigger] is_phrase(s.subrange(i, j), phrases) && is_boundary(
            s,
            i,
        ) && is_boundary(s, j)
}

/// The leftmost match of a pattern in a text; nothing where the pattern does
/// not match or is not a regular expression.
pub uninterp spec fn captures_of(pattern: Seq<char>, text: Seq<char>) -> Option<CapturedView>;

/// Compiles the pattern with `Regex::new` and calls `Regex::captures`. The
/// text before the match, the match and the text after it make up the text.
/// Where the pattern is an alternation of ASCII phrases, each escaped, between
/// word boundaries and without regard to case, a match in an ASCII text is one
/// of the phrases but for the case of its letters, and stands between word
/// boundaries.
#[verifier::external_body]
pub(crate) fn captures(pattern: &str, text: &str) -> (r: Option<Captured>)
    ensures
        r.deep_view() == captures_of(pattern@, text@),
        r matches Some(c) ==> c.deep_view().lies_in(text@),
        r matches Some(c) ==> (is_ascii_text(text@) ==> forall|phrases: Seq<Seq<char>>|
            pattern@ == #[trigger] phrase_pattern(phrases) && are_phrases(phrases) ==> {
                let start = c.deep_view().before.len() as int;
                &&& is_phrase(c.deep_view().group(0), phrases)
                &&& is_boundary(text@, start)
                &&& is_boundary(text@, start + c.deep_view().group(0).len())
            }),
{
    let found = Regex::new(pattern).ok()?.captures(text)?;
    let whole = found.get(0)?;
    Some(
        Captured {
            before: text[..whole.start()].to_string(),
            groups: found.iter().map(|g| g.map(|m| m.as_str().to_string())).collect(),
            after: text[whole.end()..].to_string(),
        },
    )
}

/// The groups of each successive match of a pattern in a text.
pub uninterp spec fn all_captures_of(pattern: Seq<char>, text: Seq<char>) -> Seq<
    Seq<Option<Seq<char>>>,
>;

/// Compiles the pattern with `Regex::new` and gathers the groups of what
/// `Regex::captures_iter` yields; nothing where the pattern is not a regular
/// expression.
#[verifier::external_body]
pub(crate) fn all_captures(pattern: &str, text: &str) -> (r: Vec<Vec<Option<String>>>)
    ensures
        r.deep_view() == all_captures_of(pattern@, text@),
{
    let Ok(re) = Regex::new(pattern) else { return Vec::new() };
    re.captures_iter(text)
        .map(|c| c.iter().map(|g| g.map(|m| m.as_str().to_string())).collect())
        .collect()
}

/// Whether a character has a meaning in a regular expression.
pub open spec fn is_meta(c: char) -> bool {
    c == '\\' || c == '.' || c == '+' || c == '*' || c == '?' || c == '(' || c == ')' || c == '|'
        || c == '[' || c == ']' || c == '{' || c == '}' || c == '^' || c == '$' || c == '#' || c
        == '&' || c == '-' || c == '~'
}

/// A text with a backslash before every character that has a meaning in a
/// regular expression.
pub open spec fn escaped(s: Seq<char>) -> Seq<char>
    decreases s.len(),
{
    if s.len() == 0 {
        Seq::empty()
    } else if is_meta(s.last()) {
        escaped(s.drop_last()).push('\\').push(s.last())
    } else {
        escaped(s.drop_last()).push(s.last())
    }
}

/// Calls `regex::escape`, which puts a backslash before each character that
/// has a meaning in a regular expression.
#[verifier::external_body]
pub(crate) fn escape(s: &str) -> (r: String)
    ensures
        r@ == escaped(s@),
{
    regex::escape(s)
}

} // verus!
