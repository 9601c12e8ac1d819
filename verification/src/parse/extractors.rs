//! Extractors.
//!
//! Each extractor claims a span in the normalised string and gives it a value.
//! What no extractor claims is left for the title.

use crate::domain::duplicate::Duplicate;
use crate::parse::tokens::{Token, TokenView};
use crate::parse::vocab;
use crate::pattern;
use crate::pattern::{Captured, CapturedView};
use crate::text;
use crate::unicode;
use vstd::prelude::*;

verus! {

/// Which parse field an extractor produces.
#[derive(Debug, Clone, Copy, PartialEq, Eq, Hash, Structural)]
pub enum ParseField {
    Year,
    Resolution,
    Source,
    VideoCodec,
    AudioFormat,
    Hdr,
    Edition,
    Language,
    ReleaseGroup,
    Copy,
}

/// A claimed span, in bytes, with its extracted value.
#[derive(Debug, Clone, PartialEq, Eq)]
pub struct Claim {
    pub field: ParseField,
    pub value: String,
    pub start: usize,
    pub end: usize,
}

/// The contents of a claim.
#[verifier::ext_equal]
pub struct ClaimView {
    pub field: ParseField,
    pub value: Seq<char>,
    pub start: nat,
    pub end: nat,
}

impl DeepView for Claim {
    type V = ClaimView;

    open spec fn deep_view(&self) -> ClaimView {
        ClaimView {
            field: self.field,
            value: self.value@,
            start: self.start as nat,
            end: self.end as nat,
        }
    }
}

impl Duplicate for Claim {
    fn duplicate(&self) -> (r: Self) {
        Claim {
            field: self.field,
            value: self.value.clone(),
            start: self.start,
            end: self.end,
        }
    }
}

/// The claim of a field on the span of a token.
pub open spec fn claim_on(field: ParseField, value: Seq<char>, t: TokenView) -> ClaimView {
    ClaimView { field, value, start: t.start, end: t.end }
}

impl Claim {
    /// A claim on the span of a token.
    fn on(field: ParseField, value: String, tok: &Token) -> (r: Self)
        ensures
            r.deep_view() == claim_on(field, value@, tok.deep_view()),
    {
        Claim { field, value, start: tok.start, end: tok.end }
    }
}

/// Something that claims at most one span of a tokenised name.
pub trait Extractor: Send + Sync {
    /// What is claimed. Left open where an implementation does not say.
    open spec fn claim_of(&self, tokens: Seq<TokenView>, normalised: Seq<char>) -> Option<
        ClaimView,
    > {
        arbitrary()
    }

    /// Claims a span.
    fn extract(&self, tokens: &[Token], normalised: &str) -> (r: Option<Claim>)
        ensures
            r.deep_view() == self.claim_of(tokens.deep_view(), normalised@),
    ;
}

// ---------------------------------------------------------------------------
// Year
// ---------------------------------------------------------------------------

/// Claims the year: a parenthesised or bracketed one, else the rightmost bare
/// one that has something before it to be the title.
pub struct YearExtractor {
    min_year: u16,
    max_year: u16,
}

impl YearExtractor {
    /// The least year.
    pub closed spec fn least(&self) -> u16 {
        self.min_year
    }

    /// The greatest year.
    pub closed spec fn greatest(&self) -> u16 {
        self.max_year
    }

    /// An extractor of the years from `min_year` to `max_year`.
    pub fn new(min_year: u16, max_year: u16) -> (r: Self)
        ensures
            r.least() == min_year,
            r.greatest() == max_year,
    {
        YearExtractor { min_year, max_year }
    }
}

/// The year that a text denotes, if it is within the range.
pub open spec fn year_in(s: Seq<char>, least: u16, greatest: u16) -> Option<u16> {
    match text::number(s) {
        Some(y) => if least <= y && y <= greatest {
            Some(y)
        } else {
            None
        },
        None => None,
    }
}

/// Reads a year within the range.
fn read_year(s: &[char], least: u16, greatest: u16) -> (r: Option<u16>)
    ensures
        r == year_in(s@, least, greatest),
{
    match text::parse_u16(s) {
        Some(y) => if least <= y && y <= greatest {
            Some(y)
        } else {
            None
        },
        None => None,
    }
}

/// Whether a text stands in round or square brackets.
pub open spec fn is_bracketed(s: Seq<char>) -> bool {
    s.len() >= 2 && ((s[0] == '(' && s.last() == ')') || (s[0] == '[' && s.last() == ']'))
}

/// A text without the brackets around it.
pub open spec fn unbracketed(s: Seq<char>) -> Seq<char> {
    if is_bracketed(s) {
        s.subrange(1, s.len() - 1)
    } else {
        s
    }
}

/// Tests for brackets around a text.
fn has_brackets(s: &[char]) -> (r: bool)
    ensures
        r == is_bracketed(s@),
{
    s.len() >= 2 && ((s[0] == '(' && s[s.len() - 1] == ')') || (s[0] == '[' && s[s.len() - 1]
        == ']'))
}

/// Drops the brackets around a text.
fn strip_brackets(s: &[char]) -> (r: Vec<char>)
    ensures
        r@ == unbracketed(s@),
{
    if has_brackets(s) {
        text::slice_of(s, 1, s.len() - 1)
    } else {
        let r = text::slice_of(s, 0, s.len());
        proof {
            assert(r@ =~= s@);
        }
        r
    }
}

/// The first bracketed year.
pub open spec fn bracketed_year(tokens: Seq<TokenView>, least: u16, greatest: u16) -> Option<
    ClaimView,
>
    decreases tokens.len(),
{
    if tokens.len() == 0 {
        None
    } else if is_bracketed(tokens[0].text) && year_in(
        unbracketed(tokens[0].text),
        least,
        greatest,
    ) is Some {
        Some(
            claim_on(
                ParseField::Year,
                text::decimal(year_in(unbracketed(tokens[0].text), least, greatest)->0 as nat),
                tokens[0],
            ),
        )
    } else {
        bracketed_year(tokens.skip(1), least, greatest)
    }
}

/// Whether some token that is not empty ends at or before `start`.
pub open spec fn something_before(tokens: Seq<TokenView>, start: nat) -> bool {
    exists|i: int|
        0 <= i < tokens.len() && (#[trigger] tokens[i]).end <= start && tokens[i].text.len() > 0
}

/// The rightmost bare year, among the first `n` tokens, with something before
/// it.
pub open spec fn bare_year(tokens: Seq<TokenView>, n: int, least: u16, greatest: u16) -> Option<
    ClaimView,
>
    decreases n,
{
    if n <= 0 || n > tokens.len() {
        None
    } else {
        let t = tokens[n - 1];
        match year_in(t.text, least, greatest) {
            Some(y) => if something_before(tokens, t.start) {
                Some(claim_on(ParseField::Year, text::decimal(y as nat), t))
            } else {
                bare_year(tokens, n - 1, least, greatest)
            },
            None => bare_year(tokens, n - 1, least, greatest),
        }
    }
}

/// The claim on the year.
pub open spec fn year_claim(tokens: Seq<TokenView>, least: u16, greatest: u16) -> Option<
    ClaimView,
> {
    match bracketed_year(tokens, least, greatest) {
        Some(c) => Some(c),
        None => bare_year(tokens, tokens.len() as int, least, greatest),
    }
}

/// `true` if removing the token at `start` leaves nothing before it.
fn would_empty_title(tokens: &[Token], start: usize) -> (r: bool)
    ensures
        r == !something_before(tokens.deep_view(), start as nat),
{
    let ghost v = tokens.deep_view();
    let mut i: usize = 0;
    while i < tokens.len()
        invariant
            i <= tokens@.len(),
            v == tokens.deep_view(),
            forall|k: int| 0 <= k < i ==> !((#[trigger] v[k]).end <= start && v[k].text.len() > 0),
        decreases tokens@.len() - i,
    {
        proof {
            assert(v[i as int] == tokens@[i as int].deep_view());
        }
        if tokens[i].end <= start && !tokens[i].is_empty() {
            return false;
        }
        i = i + 1;
    }
    true
}

impl Extractor for YearExtractor {
    open spec fn claim_of(&self, tokens: Seq<TokenView>, normalised: Seq<char>) -> Option<
        ClaimView,
    > {
        year_claim(tokens, self.least(), self.greatest())
    }

    fn extract(&self, tokens: &[Token], normalised: &str) -> (r: Option<Claim>) {
        let ghost v = tokens.deep_view();
        let mut i: usize = 0;
        proof {
            assert(v.skip(0) =~= v);
        }
        while i < tokens.len()
            invariant
                i <= tokens@.len(),
                v == tokens.deep_view(),
                bracketed_year(v, self.least(), self.greatest()) == bracketed_year(
                    v.skip(i as int),
                    self.least(),
                    self.greatest(),
                ),
            decreases tokens@.len() - i,
        {
            let chars = text::to_chars(tokens[i].as_str());
            proof {
                assert(v.skip(i as int)[0] == tokens@[i as int].deep_view());
                assert(v.skip(i as int).skip(1) =~= v.skip(i + 1));
            }
            if has_brackets(&chars) {
                let inner = strip_brackets(&chars);
                if let Some(y) = read_year(&inner, self.min_year, self.max_year) {
                    return Some(
                        Claim::on(ParseField::Year, text::decimal_text(y as u64), &tokens[i]),
                    );
                }
            }
            i = i + 1;
        }
        proof {
            assert(v.skip(i as int) =~= Seq::empty());
        }
        let mut n: usize = tokens.len();
        while n > 0
            invariant
                n <= tokens@.len(),
                v == tokens.deep_view(),
                bare_year(v, tokens@.len() as int, self.least(), self.greatest()) == bare_year(
                    v,
                    n as int,
                    self.least(),
                    self.greatest(),
                ),
                bracketed_year(v, self.least(), self.greatest()) is None,
            decreases n,
        {
            let tok = &tokens[n - 1];
            proof {
                assert(v[n - 1] == tok.deep_view());
            }
            let chars = text::to_chars(tok.as_str());
            if let Some(y) = read_year(&chars, self.min_year, self.max_year) {
                if !would_empty_title(tokens, tok.start) {
                    return Some(Claim::on(ParseField::Year, text::decimal_text(y as u64), tok));
                }
            }
            n = n - 1;
        }
        None
    }
}

// ---------------------------------------------------------------------------
// Vocabulary tags
// ---------------------------------------------------------------------------

/// The first word of a vocabulary that a token spells, with or without
/// brackets around it, whatever its case.
pub open spec fn vocab_word(list: Seq<Seq<char>>, token: Seq<char>) -> Option<Seq<char>>
    decreases list.len(),
{
    if list.len() == 0 {
        None
    } else if text::eq_ignore_case(token, list[0]) || text::eq_ignore_case(
        unbracketed(token),
        list[0],
    ) {
        Some(list[0])
    } else {
        vocab_word(list.skip(1), token)
    }
}

/// The claim on the first token that spells a word of a vocabulary.
pub open spec fn vocab_claim(
    field: ParseField,
    list: Seq<Seq<char>>,
    tokens: Seq<TokenView>,
) -> Option<ClaimView>
    decreases tokens.len(),
{
    if tokens.len() == 0 {
        None
    } else {
        match vocab_word(list, tokens[0].text) {
            Some(w) => Some(claim_on(field, w, tokens[0])),
            None => vocab_claim(field, list, tokens.skip(1)),
        }
    }
}

/// Finds the word of a vocabulary that a token spells.
fn find_word(list: &'static [&'static str], token: &str) -> (r: Option<String>)
    ensures
        r.deep_view() == vocab_word(list.deep_view(), token@),
{
    let probe = text::lowered(&text::to_chars(token));
    let inner = text::lowered(&strip_brackets(&text::to_chars(token)));
    let ghost v = list.deep_view();
    let mut i: usize = 0;
    proof {
        assert(v.skip(0) =~= v);
    }
    while i < list.len()
        invariant
            i <= list@.len(),
            v == list.deep_view(),
            probe@ == text::ascii_lowercase(token@),
            inner@ == text::ascii_lowercase(unbracketed(token@)),
            vocab_word(v, token@) == vocab_word(v.skip(i as int), token@),
        decreases list@.len() - i,
    {
        let word = text::lowered(&text::to_chars(list[i]));
        proof {
            assert(v.skip(i as int)[0] == list@[i as int]@);
            assert(v.skip(i as int).skip(1) =~= v.skip(i + 1));
        }
        if text::same_chars(&probe, &word) || text::same_chars(&inner, &word) {
            return Some(list[i].to_string());
        }
        i = i + 1;
    }
    proof {
        assert(v.skip(i as int) =~= Seq::empty());
    }
    None
}

/// Claims the first token that spells a word of a vocabulary.
fn claim_word(field: ParseField, list: &'static [&'static str], tokens: &[Token]) -> (r: Option<
    Claim,
>)
    ensures
        r.deep_view() == vocab_claim(field, list.deep_view(), tokens.deep_view()),
{
    let ghost v = tokens.deep_view();
    let mut i: usize = 0;
    proof {
        assert(v.skip(0) =~= v);
    }
    while i < tokens.len()
        invariant
            i <= tokens@.len(),
            v == tokens.deep_view(),
            vocab_claim(field, list.deep_view(), v) == vocab_claim(
                field,
                list.deep_view(),
                v.skip(i as int),
            ),
        decreases tokens@.len() - i,
    {
        proof {
            assert(v.skip(i as int)[0] == tokens@[i as int].deep_view());
            assert(v.skip(i as int).skip(1) =~= v.skip(i + 1));
        }
        if let Some(w) = find_word(list, tokens[i].as_str()) {
            return Some(Claim::on(field, w, &tokens[i]));
        }
        i = i + 1;
    }
    proof {
        assert(v.skip(i as int) =~= Seq::empty());
    }
    None
}

/// Claims the resolution.
pub struct ResolutionExtractor;

impl Extractor for ResolutionExtractor {
    open spec fn claim_of(&self, tokens: Seq<TokenView>, normalised: Seq<char>) -> Option<
        ClaimView,
    > {
        vocab_claim(ParseField::Resolution, vocab::resolution_words(), tokens)
    }

    fn extract(&self, tokens: &[Token], normalised: &str) -> (r: Option<Claim>) {
        claim_word(ParseField::Resolution, vocab::resolution_patterns(), tokens)
    }
}

/// Claims the source.
pub struct SourceExtractor;

impl Extractor for SourceExtractor {
    open spec fn claim_of(&self, tokens: Seq<TokenView>, normalised: Seq<char>) -> Option<
        ClaimView,
    > {
        vocab_claim(ParseField::Source, vocab::source_words(), tokens)
    }

    fn extract(&self, tokens: &[Token], normalised: &str) -> (r: Option<Claim>) {
        claim_word(ParseField::Source, vocab::source_patterns(), tokens)
    }
}

/// Claims the video codec.
pub struct VideoCodecExtractor;

impl Extractor for VideoCodecExtractor {
    open spec fn claim_of(&self, tokens: Seq<TokenView>, normalised: Seq<char>) -> Option<
        ClaimView,
    > {
        vocab_claim(ParseField::VideoCodec, vocab::video_codec_words(), tokens)
    }

    fn extract(&self, tokens: &[Token], normalised: &str) -> (r: Option<Claim>) {
        claim_word(ParseField::VideoCodec, vocab::video_codec_patterns(), tokens)
    }
}

/// Claims the audio format.
pub struct AudioFormatExtractor;

impl Extractor for AudioFormatExtractor {
    open spec fn claim_of(&self, tokens: Seq<TokenView>, normalised: Seq<char>) -> Option<
        ClaimView,
    > {
        vocab_claim(ParseField::AudioFormat, vocab::audio_words(), tokens)
    }

    fn extract(&self, tokens: &[Token], normalised: &str) -> (r: Option<Claim>) {
        claim_word(ParseField::AudioFormat, vocab::audio_patterns(), tokens)
    }
}

/// Claims the dynamic range.
pub struct HdrExtractor;

impl Extractor for HdrExtractor {
    open spec fn claim_of(&self, tokens: Seq<TokenView>, normalised: Seq<char>) -> Option<
        ClaimView,
    > {
        vocab_claim(ParseField::Hdr, vocab::hdr_words(), tokens)
    }

    fn extract(&self, tokens: &[Token], normalised: &str) -> (r: Option<Claim>) {
        claim_word(ParseField::Hdr, vocab::hdr_patterns(), tokens)
    }
}

// ---------------------------------------------------------------------------
// Edition
// ---------------------------------------------------------------------------

/// Claims the edition, which may take several tokens.
pub struct EditionExtractor;

/// The regular expression of the edition phrases.
pub open spec fn edition_pattern() -> Seq<char> {
    pattern::phrase_pattern(vocab::edition_words())
}

/// The edition phrases are ASCII.
proof fn lemma_editions_are_phrases()
    ensures
        pattern::are_phrases(vocab::edition_words()),
{
    reveal_strlit("Director's Cut");
    reveal_strlit("Directors Cut");
    reveal_strlit("Extended Cut");
    reveal_strlit("Extended");
    reveal_strlit("Theatrical Cut");
    reveal_strlit("Theatrical");
    reveal_strlit("Unrated");
    reveal_strlit("Uncut");
    reveal_strlit("Remastered");
    reveal_strlit("Criterion");
    reveal_strlit("IMAX");
    reveal_strlit("Ultimate Edition");
    reveal_strlit("Special Edition");
}

/// Whether an ASCII text mentions no edition in words of its own.
pub open spec fn names_no_edition(s: Seq<char>) -> bool {
    pattern::is_ascii_text(s) && !pattern::mentions(s, vocab::edition_words())
}

/// Builds the regular expression of the edition phrases.
fn build_edition_pattern() -> (r: String)
    ensures
        r@ == edition_pattern(),
{
    let list = vocab::edition_patterns();
    let mut alts: Vec<Vec<char>> = Vec::new();
    let mut i: usize = 0;
    let ghost want = pattern::escaped_all(vocab::edition_words());
    while i < list.len()
        invariant
            i <= list@.len(),
            list.deep_view() == vocab::edition_words(),
            want == pattern::escaped_all(vocab::edition_words()),
            text::texts(alts@) == want.take(i as int),
        decreases list@.len() - i,
    {
        let ghost before = text::texts(alts@);
        let e = pattern::escape(list[i]);
        alts.push(text::to_chars(&e));
        proof {
            assert(list.deep_view()[i as int] == list@[i as int]@);
            assert(text::texts(alts@) =~= before.push(want[i as int]));
            assert(want.take(i + 1) =~= want.take(i as int).push(want[i as int]));
        }
        i = i + 1;
    }
    proof {
        assert(list.deep_view().len() == vocab::edition_words().len());
        assert(want.take(i as int) =~= want);
    }
    let bar: Vec<char> = vec!['|'];
    proof {
        assert(bar@ =~= seq!['|']);
    }
    let mut out = String::from_str(r"(?i)\b(");
    out.append(&text::to_text(&text::joined(&alts, &bar)));
    out.append(r")\b");
    out
}

/// A word with its first character in capitals.
pub open spec fn capitalised(w: Seq<char>) -> Seq<char> {
    if w.len() == 0 {
        w
    } else {
        unicode::char_uppercase(w[0]) + w.skip(1)
    }
}

/// Puts the first character of a word in capitals.
pub fn capitalise(w: &[char]) -> (r: Vec<char>)
    ensures
        r@ == capitalised(w@),
{
    if w.len() == 0 {
        return Vec::new();
    }
    let mut out = text::to_chars(&unicode::to_uppercase(w[0]));
    let rest = text::slice_of(w, 1, w.len());
    proof {
        assert(rest@ =~= w@.skip(1));
    }
    text::push_chars(&mut out, &rest);
    out
}

/// The words of a text, each with its first character in capitals.
pub open spec fn capitalised_all(list: Seq<Seq<char>>) -> Seq<Seq<char>> {
    Seq::new(list.len(), |i: int| capitalised(list[i]))
}

/// The usual spelling of an edition phrase.
pub open spec fn tidied_edition(s: Seq<char>) -> Seq<char> {
    let l = unicode::lowercase(s);
    if l == "directors cut"@ || l == "director's cut"@ {
        "Director's Cut"@
    } else if l == "extended cut"@ {
        "Extended Cut"@
    } else if l == "theatrical cut"@ {
        "Theatrical Cut"@
    } else if l == "extended"@ {
        "Extended"@
    } else if l == "theatrical"@ {
        "Theatrical"@
    } else if l == "unrated"@ {
        "Unrated"@
    } else if l == "uncut"@ {
        "Uncut"@
    } else if l == "remastered"@ {
        "Remastered"@
    } else if l == "imax"@ {
        "IMAX"@
    } else {
        text::join(capitalised_all(text::words(s)), seq![' '])
    }
}

/// Spells an edition phrase the usual way.
fn tidy_edition(s: &str) -> (r: String)
    ensures
        r@ == tidied_edition(s@),
{
    let l = unicode::to_lowercase(s);
    if text::same_text(&l, "directors cut") || text::same_text(&l, "director's cut") {
        return "Director's Cut".to_string();
    }
    if text::same_text(&l, "extended cut") {
        return "Extended Cut".to_string();
    }
    if text::same_text(&l, "theatrical cut") {
        return "Theatrical Cut".to_string();
    }
    if text::same_text(&l, "extended") {
        return "Extended".to_string();
    }
    if text::same_text(&l, "theatrical") {
        return "Theatrical".to_string();
    }
    if text::same_text(&l, "unrated") {
        return "Unrated".to_string();
    }
    if text::same_text(&l, "uncut") {
        return "Uncut".to_string();
    }
    if text::same_text(&l, "remastered") {
        return "Remastered".to_string();
    }
    if text::same_text(&l, "imax") {
        return "IMAX".to_string();
    }
    let words = text::to_words(&text::to_chars(s));
    let ghost want = capitalised_all(text::words(s@));
    let mut out: Vec<Vec<char>> = Vec::new();
    let mut i: usize = 0;
    while i < words.len()
        invariant
            i <= words@.len(),
            text::texts(words@) == text::words(s@),
            want == capitalised_all(text::words(s@)),
            text::texts(out@) == want.take(i as int),
        decreases words@.len() - i,
    {
        let ghost before = text::texts(out@);
        out.push(capitalise(&words[i]));
        proof {
            assert(text::texts(words@)[i as int] == words@[i as int]@);
            assert(text::texts(out@) =~= before.push(want[i as int]));
            assert(want.take(i + 1) =~= want.take(i as int).push(want[i as int]));
        }
        i = i + 1;
    }
    proof {
        assert(text::texts(words@).len() == words@.len());
        assert(want.take(i as int) =~= want);
    }
    let space: Vec<char> = vec![' '];
    proof {
        assert(space@ =~= seq![' ']);
    }
    text::to_text(&text::joined(&out, &space))
}

/// The claim on the edition, from a match of the edition phrases.
pub open spec fn edition_claim(found: CapturedView) -> ClaimView {
    ClaimView {
        field: ParseField::Edition,
        value: tidied_edition(found.group(0)),
        start: text::utf8_len(found.before),
        end: text::utf8_len(found.before) + text::utf8_len(found.group(0)),
    }
}

/// Claims the edition, from a match of the edition phrases.
pub fn claim_edition(found: &Captured) -> (r: Claim)
    requires
        text::utf8_len(found.deep_view().before) + text::utf8_len(found.deep_view().group(0))
            <= usize::MAX,
    ensures
        r.deep_view() == edition_claim(found.deep_view()),
{
    let start: usize = text::byte_len(&found.before);
    let end: usize = start + text::byte_len(found.group(0));
    Claim { field: ParseField::Edition, value: tidy_edition(found.group(0)), start, end }
}

impl Extractor for EditionExtractor {
    open spec fn claim_of(&self, tokens: Seq<TokenView>, normalised: Seq<char>) -> Option<
        ClaimView,
    > {
        match pattern::captures_of(edition_pattern(), normalised) {
            Some(found) => Some(edition_claim(found)),
            None => None,
        }
    }

    fn extract(&self, tokens: &[Token], normalised: &str) -> (r: Option<Claim>)
        ensures
            names_no_edition(normalised@) ==> r is None,
    {
        let total: usize = text::byte_len(normalised);
        match pattern::captures(&build_edition_pattern(), normalised) {
            Some(found) => {
                proof {
                    let f = found.deep_view();
                    if names_no_edition(normalised@) {
                        let words = vocab::edition_words();
                        lemma_editions_are_phrases();
                        assert(edition_pattern() == pattern::phrase_pattern(words));
                        let i = f.before.len() as int;
                        let j = i + f.group(0).len();
                        assert(normalised@.subrange(i, j) =~= f.group(0));
                        assert(pattern::is_phrase(normalised@.subrange(i, j), words));
                    }
                    text::lemma_utf8_len_concat(f.before, f.group(0));
                    text::lemma_utf8_len_concat(f.before + f.group(0), f.after);
                }
                Some(claim_edition(&found))
            },
            None => None,
        }
    }
}

// ---------------------------------------------------------------------------
// Language
// ---------------------------------------------------------------------------

/// Claims the first token that names a language.
pub struct LanguageExtractor;

/// The claim on the first token that names a language.
pub open spec fn language_claim(tokens: Seq<TokenView>) -> Option<ClaimView>
    decreases tokens.len(),
{
    if tokens.len() == 0 {
        None
    } else {
        let code = vocab::language_code(text::ascii_lowercase(tokens[0].text));
        if code != "und"@ {
            Some(claim_on(ParseField::Language, code, tokens[0]))
        } else {
            language_claim(tokens.skip(1))
        }
    }
}

impl Extractor for LanguageExtractor {
    open spec fn claim_of(&self, tokens: Seq<TokenView>, normalised: Seq<char>) -> Option<
        ClaimView,
    > {
        language_claim(tokens)
    }

    fn extract(&self, tokens: &[Token], normalised: &str) -> (r: Option<Claim>) {
        let ghost v = tokens.deep_view();
        let mut i: usize = 0;
        proof {
            assert(v.skip(0) =~= v);
        }
        while i < tokens.len()
            invariant
                i <= tokens@.len(),
                v == tokens.deep_view(),
                language_claim(v) == language_claim(v.skip(i as int)),
            decreases tokens@.len() - i,
        {
            proof {
                assert(v.skip(i as int)[0] == tokens@[i as int].deep_view());
                assert(v.skip(i as int).skip(1) =~= v.skip(i + 1));
            }
            let code = vocab::normalise_language(tokens[i].as_str());
            if !text::same_text(&code, "und") {
                return Some(Claim::on(ParseField::Language, code, &tokens[i]));
            }
            i = i + 1;
        }
        proof {
            assert(v.skip(i as int) =~= Seq::empty());
        }
        None
    }
}

// ---------------------------------------------------------------------------
// Copy number
// ---------------------------------------------------------------------------

/// Claims a trailing parenthesised number that is not a year: the suffix that
/// tells copies of a file apart.
pub struct CopyNumberExtractor;

/// The copy number that a text denotes: a number from 2 on that is not a year
/// from 1888 to 2100.
pub open spec fn copy_number(s: Seq<char>) -> Option<u16> {
    match text::number(s) {
        Some(n) => if (2 <= n && n < 1888) || 2101 <= n {
            Some(n)
        } else {
            None
        },
        None => None,
    }
}

/// Reads a copy number.
fn parse_copy_number(s: &[char]) -> (r: Option<u16>)
    ensures
        r == copy_number(s@),
{
    match text::parse_u16(s) {
        Some(n) => if (2 <= n && n < 1888) || 2101 <= n {
            Some(n)
        } else {
            None
        },
        None => None,
    }
}

/// The claim on a trailing copy number.
pub open spec fn copy_claim(tokens: Seq<TokenView>) -> Option<ClaimView> {
    if tokens.len() > 0 && is_bracketed(tokens.last().text) {
        match copy_number(unbracketed(tokens.last().text)) {
            Some(n) => Some(claim_on(ParseField::Copy, text::decimal(n as nat), tokens.last())),
            None => None,
        }
    } else {
        None
    }
}

impl Extractor for CopyNumberExtractor {
    open spec fn claim_of(&self, tokens: Seq<TokenView>, normalised: Seq<char>) -> Option<
        ClaimView,
    > {
        copy_claim(tokens)
    }

    fn extract(&self, tokens: &[Token], normalised: &str) -> (r: Option<Claim>) {
        if tokens.len() == 0 {
            return None;
        }
        let tok = &tokens[tokens.len() - 1];
        proof {
            assert(tokens.deep_view().last() == tok.deep_view());
        }
        match parse_copy_token(tok.as_str()) {
            Some(n) => Some(Claim::on(ParseField::Copy, text::decimal_text(n as u64), tok)),
            None => None,
        }
    }
}

/// Reads the copy number of a bracketed token. A bare trailing integer is not
/// a copy suffix.
fn parse_copy_token(token: &str) -> (r: Option<u16>)
    ensures
        r == (if is_bracketed(token@) {
            copy_number(unbracketed(token@))
        } else {
            None
        }),
{
    let chars = text::to_chars(token);
    if !has_brackets(&chars) {
        return None;
    }
    parse_copy_number(&strip_brackets(&chars))
}

/// A stem parted from its copy suffix ` (N)`.
pub open spec fn split_copy(stem: Seq<char>) -> (Seq<char>, Option<u16>) {
    let idx = text::rfind_upto(stem, seq![' ', '('], stem.len() as int);
    let rest = stem.skip(idx + 2);
    if idx >= 0 && rest.len() > 0 && rest.last() == ')' && copy_number(rest.drop_last()) is Some {
        (stem.take(idx), copy_number(rest.drop_last()))
    } else {
        (stem, None)
    }
}

/// Parse a trailing ` (N)` copy-number from a file stem (not including the
/// extension). Years in `1888..=2100` are left alone so `Inception (2010)`
/// is not treated as copy 2010.
pub fn split_copy_suffix(stem: &str) -> (r: (&str, Option<u16>))
    ensures
        (r.0@, r.1) == split_copy(stem@),
{
    let chars = text::to_chars(stem);
    let mark: Vec<char> = vec![' ', '('];
    proof {
        assert(mark@ =~= seq![' ', '(']);
    }
    if let Some(idx) = text::rfind_text(&chars, &mark) {
        let total: usize = chars.len();
        let rest = text::slice_of(&chars, idx + 2, total);
        proof {
            assert(rest@ =~= stem@.skip(idx + 2));
        }
        if rest.len() > 0 && rest[rest.len() - 1] == ')' {
            let inner = text::slice_of(&rest, 0, rest.len() - 1);
            proof {
                assert(inner@ =~= rest@.drop_last());
            }
            if let Some(n) = parse_copy_number(&inner) {
                proof {
                    assert(stem@.subrange(0, idx as int) =~= stem@.take(idx as int));
                }
                return (stem.substring_char(0, idx), Some(n));
            }
        }
    }
    (stem, None)
}

/// The last place of a text is found.
proof fn lemma_last_place(s: Seq<char>, p: Seq<char>, upto: int, at: int)
    requires
        0 <= at <= upto,
        text::occurs_at(s, p, at),
        forall|j: int| at < j <= upto ==> !#[trigger] text::occurs_at(s, p, j),
    ensures
        text::rfind_upto(s, p, upto) == at,
    decreases upto,
{
    if upto > at {
        assert(!text::occurs_at(s, p, upto));
        lemma_last_place(s, p, upto - 1, at);
    }
}

/// A number in brackets behind a space at the end of a stem is parted from it as
/// the number of a copy, unless it is 0 or 1 or a year from 1888 to 2100: then
/// the stem is left as it is.
pub proof fn law_copy_suffix_is_parted(base: Seq<char>, n: u16)
    ensures
        split_copy(base + " ("@ + text::decimal(n as nat) + ")"@) == (if n < 2 || 1888 <= n <= 2100 {
            (base + " ("@ + text::decimal(n as nat) + ")"@, None)
        } else {
            (base, Some(n))
        }),
{
    reveal_strlit(" (");
    reveal_strlit(")");
    let d = text::decimal(n as nat);
    let s = base + " ("@ + d + ")"@;
    let k = base.len() as int;
    let p = seq![' ', '('];
    text::lemma_decimal(n as nat);
    text::lemma_number_of_decimal(n);
    assert(s.subrange(k, k + 2) =~= p);
    assert forall|j: int| k < j <= s.len() implies !#[trigger] text::occurs_at(s, p, j) by {
        if text::occurs_at(s, p, j) {
            assert(s.subrange(j, j + 2)[0] == s[j]);
            assert(s[j] == ' ');
            if j == k + 1 {
                assert(s[j] == '(');
            } else if j < k + 2 + d.len() {
                assert(s[j] == d[j - k - 2]);
                assert(text::is_digit(d[j - k - 2]));
            } else {
                assert(s[j] == ')');
            }
        }
    }
    lemma_last_place(s, p, s.len() as int, k);
    assert(s.take(k) =~= base);
    assert(s.skip(k + 2) =~= d + ")"@);
    assert(s.skip(k + 2).drop_last() =~= d);
}

/// A stem that does not end in a bracket has no number of a copy.
pub proof fn law_stem_without_brackets_is_no_copy(stem: Seq<char>)
    requires
        stem.len() == 0 || stem.last() != ')',
    ensures
        split_copy(stem) == (stem, None::<u16>),
{
    let p = seq![' ', '('];
    let idx = text::rfind_upto(stem, p, stem.len() as int);
    lemma_found_place(stem, p, stem.len() as int);
    let rest = stem.skip(idx + 2);
    if idx >= 0 && rest.len() > 0 {
        assert(rest.last() == stem.last());
    }
}

/// Where a text is found, it stands.
proof fn lemma_found_place(s: Seq<char>, p: Seq<char>, upto: int)
    ensures
        text::rfind_upto(s, p, upto) >= 0 ==> text::occurs_at(
            s,
            p,
            text::rfind_upto(s, p, upto),
        ),
    decreases upto + 1,
{
    if upto >= 0 && !text::occurs_at(s, p, upto) {
        lemma_found_place(s, p, upto - 1);
    }
}

} // verus!
