//! Filename tokenisation.
//!
//! Normalises separators, preserves bracketed and parenthesised spans, and
//! strips a trailing release-group token.

use crate::parse::normalize::is_unseparated;
use crate::parse::vocab;
use crate::parse::words::{
    is_tight, law_tokens_make_up_the_normal_form, law_unified_text_has_no_separator, make_up,
};
use crate::text;
use crate::text::{CharClass, Class};
use vstd::prelude::*;

verus! {

/// A token with its span, in bytes, in the normalised string.
#[derive(Debug, Clone, PartialEq, Eq)]
pub struct Token {
    pub text: String,
    pub start: usize,
    pub end: usize,
}

/// The contents of a token.
#[verifier::ext_equal]
pub struct TokenView {
    pub text: Seq<char>,
    pub start: nat,
    pub end: nat,
}

impl DeepView for Token {
    type V = TokenView;

    open spec fn deep_view(&self) -> TokenView {
        TokenView { text: self.text@, start: self.start as nat, end: self.end as nat }
    }
}

impl Token {
    /// The text of the token.
    pub fn as_str(&self) -> (r: &str)
        ensures
            r@ == self.text@,
    {
        self.text.as_str()
    }

    /// The length of the text in bytes.
    pub fn len(&self) -> (r: usize)
        ensures
            r as nat == text::utf8_len(self.text@),
    {
        text::byte_len(self.text.as_str())
    }

    /// Whether the text is empty.
    pub fn is_empty(&self) -> (r: bool)
        ensures
            r == (self.text@.len() == 0),
    {
        self.text.as_str().is_empty()
    }
}

/// A name without its last extension: what stands before the last dot.
pub open spec fn base_name(name: Seq<char>) -> Seq<char> {
    let dot = text::last_where(name, CharClass::Is('.'), true);
    if dot >= 0 {
        name.take(dot)
    } else {
        name
    }
}

/// The characters that separate tags.
pub open spec fn separators() -> CharClass {
    CharClass::In(seq!['.', '_', '+'])
}

/// The separators and the space.
pub open spec fn padding() -> CharClass {
    CharClass::In(seq!['.', '_', '+', ' '])
}

/// Where the bracketed group at the end of a name opens, if there is one: the
/// name ends in `[group]`, and the group is not empty, not a number and not a
/// reserved word.
pub open spec fn bracketed_group(s: Seq<char>) -> Option<int> {
    let rest = s.drop_last();
    let open = text::last_where(rest, CharClass::Is('['), true);
    let inner = rest.skip(open + 1);
    if s.len() > 0 && s.last() == ']' && open >= 0 && inner.len() > 0 && text::number(inner) is None
        && !vocab::is_reserved(inner) {
        Some(open)
    } else {
        None
    }
}

/// Where the dash before the group at the end of a name stands, if there is
/// one: the name ends in `-group`, the group is at least two ASCII letters or
/// digits, and the whole tag since the last separator is not a reserved word.
pub open spec fn dashed_group(s: Seq<char>) -> Option<int> {
    let dash = text::last_where(s, CharClass::Is('-'), true);
    let group = s.skip(dash + 1);
    let tag = s.skip(text::last_where(s.take(dash), separators(), true) + 1);
    if dash >= 0 && group.len() >= 2 && text::all_ascii_alnum(group) && !vocab::is_reserved(tag) {
        Some(dash)
    } else {
        None
    }
}

/// A name, already without its extension, parted from its release group.
pub open spec fn split_group(s: Seq<char>) -> (Seq<char>, Option<Seq<char>>) {
    match bracketed_group(s) {
        Some(open) => (
            text::trim_end(s.take(open), padding()),
            Some(s.drop_last().skip(open + 1)),
        ),
        None => match dashed_group(s) {
            Some(dash) => (text::trim_end(s.take(dash), padding()), Some(s.skip(dash + 1))),
            None => (s, None),
        },
    }
}

/// The normalised form of a name: no extension, no release group, separators
/// made spaces, and whitespace collapsed.
pub open spec fn normal_form(name: Seq<char>) -> Seq<char> {
    text::collapse(text::spaced(split_group(base_name(name)).0, separators()))
}

/// The release group of a name.
pub open spec fn group_of(name: Seq<char>) -> Option<Seq<char>> {
    split_group(base_name(name)).1
}

/// The tokens of a text whose first character stands at byte `base`.
pub open spec fn tokens_from(s: Seq<char>, base: nat) -> Seq<TokenView>
    decreases s.len(),
{
    let n = text::first_where(s, CharClass::Space, true);
    if s.len() == 0 {
        Seq::empty()
    } else if n <= 0 || n > s.len() {
        tokens_from(s.skip(1), base + text::char_width(s[0]))
    } else {
        let end = base + text::utf8_len(s.take(n));
        seq![TokenView { text: s.take(n), start: base, end }] + tokens_from(s.skip(n), end)
    }
}

/// The tokens of a filename.
pub open spec fn tokens_of(name: Seq<char>) -> Seq<TokenView> {
    tokens_from(normal_form(name), 0)
}

/// Normalise a media filename into a token stream.
pub fn tokenize(name: &str) -> (r: Vec<Token>)
    ensures
        r.deep_view() == tokens_of(name@),
        // No token is empty or holds whitespace, each stands where its span says
        // and one byte after the one before it, and joined by single spaces they
        // are the normalised name.
        make_up(r.deep_view(), normal_form(name@)),
{
    proof {
        law_tokens_make_up_the_normal_form(name@);
    }
    let (normalised, _group) = normalise_and_capture(name);
    split_tokens(&normalised)
}

/// Strip extension, release group suffix, and collapse separators.
pub fn normalise(name: &str) -> (r: String)
    ensures
        r@ == normal_form(name@),
        is_unseparated(r@),
        is_tight(r@),
{
    proof {
        law_unified_text_has_no_separator(split_group(base_name(name@)).0);
    }
    normalise_and_capture(name).0
}

/// The trailing release-group token stripped during normalisation, if any.
/// It is removed from the string before tokenisation, so no token shows it.
pub fn release_group_of(name: &str) -> (r: Option<String>)
    ensures
        r.deep_view() == group_of(name@),
{
    normalise_and_capture(name).1
}

/// The normalised form of a name and its release group.
fn normalise_and_capture(name: &str) -> (r: (String, Option<String>))
    ensures
        r.0@ == normal_form(name@),
        r.1.deep_view() == group_of(name@),
{
    let chars = text::to_chars(name);
    let n: usize = match text::rfind_char(&chars, '.') {
        Some(i) => i,
        None => chars.len(),
    };
    let base = text::slice_of(&chars, 0, n);
    proof {
        assert(base@ =~= base_name(name@));
    }
    let (rest, group) = strip_release_group(&base);
    let seps: Vec<char> = vec!['.', '_', '+'];
    proof {
        assert(seps@ =~= seq!['.', '_', '+']);
    }
    let unified = text::with_spaces(&rest, Class::In(&seps));
    let out = text::collapsed(&unified);
    let group_text = match group {
        Some(g) => Some(text::to_text(&g)),
        None => None,
    };
    (text::to_text(&out), group_text)
}

/// Parts a name that has had its extension removed from its release group.
/// Handles the dash-suffix form (`-RARBG`) and the bracketed form
/// (`[YTS.MX]`); a bracketed year and a known tag are no release groups.
fn strip_release_group(s: &Vec<char>) -> (r: (Vec<char>, Option<Vec<char>>))
    ensures
        r.0@ == split_group(s@).0,
        match r.1 {
            Some(g) => split_group(s@).1 == Some(g@),
            None => split_group(s@).1 is None,
        },
{
    let pad: Vec<char> = vec!['.', '_', '+', ' '];
    let seps: Vec<char> = vec!['.', '_', '+'];
    proof {
        assert(pad@ =~= seq!['.', '_', '+', ' ']);
        assert(seps@ =~= seq!['.', '_', '+']);
    }
    if s.len() > 0 && s[s.len() - 1] == ']' {
        let rest = text::slice_of(s, 0, s.len() - 1);
        proof {
            assert(rest@ =~= s@.drop_last());
        }
        if let Some(open) = text::rfind_char(&rest, '[') {
            let inner = text::slice_of(&rest, open + 1, rest.len());
            proof {
                assert(inner@ =~= rest@.skip(open + 1));
            }
            if inner.len() > 0 && text::parse_u16(&inner).is_none() && !vocab::is_reserved_word(
                &text::to_text(&inner),
            ) {
                let head = text::slice_of(&rest, 0, open);
                proof {
                    assert(head@ =~= s@.take(open as int));
                }
                return (text::trimmed_end(&head, Class::In(&pad)), Some(inner));
            }
        }
    }
    if let Some(dash) = text::rfind_char(s, '-') {
        let candidate = text::slice_of(s, dash + 1, s.len());
        let head = text::slice_of(s, 0, dash);
        proof {
            assert(candidate@ =~= s@.skip(dash + 1));
            assert(head@ =~= s@.take(dash as int));
        }
        if candidate.len() >= 2 && text::is_all_alnum(&candidate) {
            let seg_start: usize = text::find_last_end(&head, Class::In(&seps), true);
            let tag = text::slice_of(s, seg_start, s.len());
            proof {
                assert(tag@ =~= s@.skip(seg_start as int));
            }
            if !vocab::is_reserved_word(&text::to_text(&tag)) {
                return (text::trimmed_end(&head, Class::In(&pad)), Some(candidate));
            }
        }
    }
    (text::slice_of(s, 0, s.len()), None)
}

/// Splits a normalised string into tokens.
fn split_tokens(s: &str) -> (r: Vec<Token>)
    ensures
        r.deep_view() == tokens_from(s@, 0),
{
    let chars = text::to_chars(s);
    let total: usize = text::byte_len(s);
    let mut out: Vec<Token> = Vec::new();
    let mut from: usize = 0;
    let mut base: usize = 0;
    proof {
        assert(s@.skip(0) =~= s@);
        assert(s@.take(0) =~= Seq::empty());
        assert(out.deep_view() + tokens_from(s@, 0) =~= tokens_from(s@, 0));
    }
    while from < chars.len()
        invariant
            chars@ == s@,
            from <= s@.len(),
            total == text::utf8_len(s@),
            base == text::utf8_len(s@.take(from as int)),
            out.deep_view() + tokens_from(s@.skip(from as int), base as nat) == tokens_from(s@, 0),
        decreases s@.len() - from,
    {
        let rest = text::slice_of(&chars, from, chars.len());
        let n: usize = text::find_first(&rest, Class::Space, true);
        let ghost before = out.deep_view();
        proof {
            assert(rest@ =~= s@.skip(from as int));
        }
        if n == 0 {
            let w: usize = text::width_of(chars[from]);
            proof {
                assert(rest@.skip(1) =~= s@.skip(from + 1));
                let one = seq![s@[from as int]];
                assert(s@.take(from + 1) =~= s@.take(from as int) + one);
                text::lemma_utf8_len_concat(s@.take(from as int), one);
                assert(one.skip(1) =~= Seq::empty());
                assert(text::utf8_len(one.skip(1)) == 0);
                text::lemma_utf8_len_prefix(s@, from + 1);
            }
            base = base + w;
            from = from + 1;
        } else {
            let word = text::slice_of(&rest, 0, n);
            let word_text = text::to_text(&word);
            let len: usize = text::byte_len(&word_text);
            proof {
                assert(word@ =~= rest@.take(n as int));
                assert(s@.take(from + n) =~= s@.take(from as int) + word@);
                text::lemma_utf8_len_concat(s@.take(from as int), word@);
                text::lemma_utf8_len_prefix(s@, from + n);
                assert(rest@.skip(n as int) =~= s@.skip(from + n));
            }
            let end: usize = base + len;
            out.push(Token { text: word_text, start: base, end });
            proof {
                assert(out.deep_view() =~= before.push(
                    (TokenView { text: rest@.take(n as int), start: base as nat, end: end as nat }),
                ));
                assert(out.deep_view() + tokens_from(s@.skip(from + n), end as nat) =~= before
                    + tokens_from(rest@, base as nat));
            }
            base = end;
            from = from + n;
        }
    }
    proof {
        assert(s@.skip(from as int) =~= Seq::empty());
        assert(out.deep_view() + tokens_from(s@.skip(from as int), base as nat)
            =~= out.deep_view());
    }
    out
}

/// The texts of tokens.
pub open spec fn token_texts(tokens: Seq<TokenView>) -> Seq<Seq<char>> {
    Seq::new(tokens.len(), |i: int| tokens[i].text)
}

/// The tokens of a text are its words: nothing is lost but whitespace.
pub proof fn law_tokens_are_words(s: Seq<char>, base: nat)
    ensures
        token_texts(tokens_from(s, base)) == text::words(s),
    decreases s.len(),
{
    let n = text::first_where(s, CharClass::Space, true);
    if s.len() == 0 {
        assert(token_texts(tokens_from(s, base)) =~= text::words(s));
    } else if n <= 0 || n > s.len() {
        law_tokens_are_words(s.skip(1), base + text::char_width(s[0]));
    } else {
        let end = base + text::utf8_len(s.take(n));
        law_tokens_are_words(s.skip(n), end);
        let first = TokenView { text: s.take(n), start: base, end };
        assert(token_texts(tokens_from(s, base)) =~= seq![s.take(n)] + token_texts(
            tokens_from(s.skip(n), end),
        ));
    }
}

/// Tokens stand in order, do not overlap, lie within the text, are not empty
/// and hold as many bytes as their span.
pub proof fn law_tokens_in_order(s: Seq<char>, base: nat)
    ensures
        forall|i: int|
            0 <= i < tokens_from(s, base).len() ==> {
                let t = #[trigger] tokens_from(s, base)[i];
                &&& base <= t.start < t.end <= base + text::utf8_len(s)
                &&& t.end == t.start + text::utf8_len(t.text)
                &&& t.text.len() > 0
            },
        forall|i: int, j: int|
            0 <= i < j < tokens_from(s, base).len() ==> (#[trigger] tokens_from(s, base)[i]).end
                <= (#[trigger] tokens_from(s, base)[j]).start,
    decreases s.len(),
{
    let all = tokens_from(s, base);
    let n = text::first_where(s, CharClass::Space, true);
    if s.len() == 0 {
    } else if n <= 0 || n > s.len() {
        let next = base + text::char_width(s[0]);
        let tail = tokens_from(s.skip(1), next);
        law_tokens_in_order(s.skip(1), next);
        assert(all == tail);
        assert forall|i: int| 0 <= i < all.len() implies {
            let t = #[trigger] all[i];
            &&& base <= t.start < t.end <= base + text::utf8_len(s)
            &&& t.end == t.start + text::utf8_len(t.text)
            &&& t.text.len() > 0
        } by {
            assert(all[i] == tail[i]);
        }
        assert forall|i: int, j: int| 0 <= i < j < all.len() implies (#[trigger] all[i]).end <= (
        #[trigger] all[j]).start by {
            assert(all[i] == tail[i] && all[j] == tail[j]);
        }
    } else {
        let end = base + text::utf8_len(s.take(n));
        let tail = tokens_from(s.skip(n), end);
        law_tokens_in_order(s.skip(n), end);
        text::lemma_utf8_len_prefix(s, n);
        text::lemma_utf8_len_at_least(s.take(n));
        assert forall|i: int| 0 <= i < all.len() implies {
            let t = #[trigger] all[i];
            &&& base <= t.start < t.end <= base + text::utf8_len(s)
            &&& t.end == t.start + text::utf8_len(t.text)
            &&& t.text.len() > 0
        } by {
            if i > 0 {
                assert(all[i] == tail[i - 1]);
            }
        }
        assert forall|i: int, j: int| 0 <= i < j < all.len() implies (#[trigger] all[i]).end <= (
        #[trigger] all[j]).start by {
            assert(all[j] == tail[j - 1]);
            if i > 0 {
                assert(all[i] == tail[i - 1]);
            }
        }
    }
}

} // verus!
