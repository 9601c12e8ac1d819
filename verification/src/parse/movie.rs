//! Movie parsing on the whole text.
//!
//! Extractors claim parts of the normalised name in order of priority; what is
//! left at the front is the title. The caller gives the range of valid years,
//! so that the result depends on nothing else.

use crate::domain::provenance::{Confidence, Field, FieldView, Source};
use crate::parse::mask::{free, marked, residual_from, Consumption};
use crate::parse::normalize::{normalize_stem, unified, without_extension};
use crate::parse::tokens::bracketed_group;
use crate::parse::tv::{ask_season, season_answer, MarkerView};
use crate::parse::vocab;
use crate::text;
use crate::text::{CharClass, Class};
use crate::unicode;
use vstd::prelude::*;

verus! {

/// The range of valid years.
#[derive(Debug, Clone, Copy, PartialEq, Eq, Structural)]
pub struct ParseOptions {
    pub min_year: u16,
    pub max_year: u16,
}

impl Default for ParseOptions {
    fn default() -> (r: Self)
        ensures
            r.min_year == 1888,
            r.max_year == 2999,
    {
        ParseOptions { min_year: 1888, max_year: 2999 }
    }
}

/// The parsed fields of a movie filename. Every field has its provenance.
#[derive(Debug, Clone, PartialEq, Eq)]
pub struct MovieParse {
    pub title: Field<String>,
    pub year: Field<u16>,
    pub edition: Field<String>,
    pub resolution: Field<String>,
    pub source: Field<String>,
    pub video_codec: Field<String>,
    pub audio_format: Field<String>,
    pub hdr: Field<String>,
    pub language: Field<String>,
    pub release_group: Field<String>,
    /// Whether an episode-style marker (`S01E01`, `1x01`) is in the name. What
    /// to make of that is left to the caller.
    pub ambiguous_episode_like: bool,
}

/// The contents of a [`MovieParse`].
#[verifier::ext_equal]
pub struct MovieParseView {
    pub title: FieldView<Seq<char>>,
    pub year: FieldView<u16>,
    pub edition: FieldView<Seq<char>>,
    pub resolution: FieldView<Seq<char>>,
    pub source: FieldView<Seq<char>>,
    pub video_codec: FieldView<Seq<char>>,
    pub audio_format: FieldView<Seq<char>>,
    pub hdr: FieldView<Seq<char>>,
    pub language: FieldView<Seq<char>>,
    pub release_group: FieldView<Seq<char>>,
    pub ambiguous_episode_like: bool,
}

impl DeepView for MovieParse {
    type V = MovieParseView;

    open spec fn deep_view(&self) -> MovieParseView {
        MovieParseView {
            title: self.title.deep_view(),
            year: self.year.deep_view(),
            edition: self.edition.deep_view(),
            resolution: self.resolution.deep_view(),
            source: self.source.deep_view(),
            video_codec: self.video_codec.deep_view(),
            audio_format: self.audio_format.deep_view(),
            hdr: self.hdr.deep_view(),
            language: self.language.deep_view(),
            release_group: self.release_group.deep_view(),
            ambiguous_episode_like: self.ambiguous_episode_like,
        }
    }
}

/// Whether a word stands at a place: whatever the case of its letters, and with
/// no letter or digit directly on either side.
pub open spec fn word_at(t: Seq<char>, w: Seq<char>, i: int) -> bool {
    &&& 0 <= i
    &&& i + w.len() <= t.len()
    &&& text::eq_ignore_case(t.subrange(i, i + w.len()), w)
    &&& i == 0 || !unicode::char_is_alphanumeric(t[i - 1])
    &&& i + w.len() == t.len() || !unicode::char_is_alphanumeric(t[i + w.len()])
}

/// The first word of a list, from one on, that stands unclaimed at a place.
pub open spec fn listed_at(
    t: Seq<char>,
    mask: Seq<bool>,
    list: Seq<Seq<char>>,
    i: int,
    k: int,
) -> Option<int>
    decreases list.len() - k,
{
    if k < 0 || k >= list.len() {
        None
    } else if word_at(t, list[k], i) && free(mask, i, i + list[k].len()) {
        Some(k)
    } else {
        listed_at(t, mask, list, i, k + 1)
    }
}

/// The first place, from one on, at which a word of a list stands unclaimed,
/// and which word it is.
pub open spec fn found_from(t: Seq<char>, mask: Seq<bool>, list: Seq<Seq<char>>, i: int) -> Option<
    (int, int),
>
    decreases t.len() - i,
{
    if i < 0 || i >= t.len() {
        None
    } else {
        match listed_at(t, mask, list, i, 0) {
            Some(k) => Some((i, k)),
            None => found_from(t, mask, list, i + 1),
        }
    }
}

/// Claims the first unclaimed word of a list, if there is one.
pub open spec fn taken(t: Seq<char>, mask: Seq<bool>, list: Seq<Seq<char>>) -> (
    Seq<bool>,
    Option<Seq<char>>,
) {
    match found_from(t, mask, list, 0) {
        Some((i, k)) => (marked(mask, i, i + list[k].len()), Some(list[k])),
        None => (mask, None),
    }
}

/// Tests whether a word stands at a place.
fn stands_at(t: &Vec<char>, w: &Vec<char>, i: usize) -> (r: bool)
    requires
        i <= t@.len(),
    ensures
        r == word_at(t@, w@, i as int),
{
    if w.len() > t.len() - i {
        return false;
    }
    let end: usize = i + w.len();
    let part = text::slice_of(t, i, end);
    text::same_ignoring_case(&text::to_text(&part), &text::to_text(w)) && (i == 0
        || !unicode::is_alphanumeric(t[i - 1])) && (end == t.len() || !unicode::is_alphanumeric(
        t[end],
    ))
}

/// Claims the first unclaimed word of a list, if there is one.
fn take_vocab(t: &Vec<char>, cons: &mut Consumption, list: &[&str]) -> (r: Option<String>)
    requires
        old(cons)@.len() == t@.len(),
    ensures
        final(cons)@ == taken(t@, old(cons)@, list.deep_view()).0,
        r.deep_view() == taken(t@, old(cons)@, list.deep_view()).1,
        final(cons)@.len() == t@.len(),
{
    let ghost mask = cons@;
    let ghost lv = list.deep_view();
    let size: usize = t.len();
    let mut i: usize = 0;
    while i < size
        invariant
            i <= size,
            size == t@.len(),
            cons@ == mask,
            mask == old(cons)@,
            mask.len() == t@.len(),
            lv == list.deep_view(),
            found_from(t@, mask, lv, 0) == found_from(t@, mask, lv, i as int),
        decreases t@.len() - i,
    {
        let mut k: usize = 0;
        while k < list.len()
            invariant
                k <= list@.len(),
                i < size,
                size == t@.len(),
                cons@ == mask,
                mask == old(cons)@,
                mask.len() == t@.len(),
                lv == list.deep_view(),
                found_from(t@, mask, lv, 0) == found_from(t@, mask, lv, i as int),
                listed_at(t@, mask, lv, i as int, 0) == listed_at(t@, mask, lv, i as int, k as int),
            decreases list@.len() - k,
        {
            let w = text::to_chars(list[k]);
            proof {
                assert(lv[k as int] == list@[k as int]@);
            }
            if stands_at(t, &w, i) {
                let end: usize = i + w.len();
                if cons.is_free(i..end) {
                    cons.mark(i..end);
                    return Some(list[k].to_string());
                }
            }
            k = k + 1;
        }
        i = i + 1;
    }
    None
}

/// Where a release group at the end of the text begins, the group, and whether
/// it is in brackets: `[GROUP]`, or `-GROUP` where the word it is in is no tag.
pub open spec fn group_at_end(t: Seq<char>) -> Option<(int, Seq<char>, bool)> {
    let dash = text::last_where(t, CharClass::Is('-'), true);
    let group = t.skip(dash + 1);
    let tag = t.skip(text::last_where(t.take(dash), CharClass::Is(' '), true) + 1);
    match bracketed_group(t) {
        Some(open) => Some((open, t.drop_last().skip(open + 1), true)),
        None => if dash >= 0 && group.len() >= 2 && text::all_ascii_alnum(group)
            && !vocab::is_reserved(tag) {
            Some((dash, group, false))
        } else {
            None
        },
    }
}

/// Looks for a group in brackets at the end of the text.
fn find_bracketed(t: &Vec<char>) -> (r: Option<(usize, Vec<char>)>)
    ensures
        match r {
            Some((open, group)) => open < t@.len() && bracketed_group(t@) == Some(open as int)
                && group@ == t@.drop_last().skip(open + 1),
            None => bracketed_group(t@) is None,
        },
{
    if t.len() == 0 || t[t.len() - 1] != ']' {
        return None;
    }
    let rest = text::slice_of(t, 0, t.len() - 1);
    proof {
        assert(rest@ =~= t@.drop_last());
    }
    if let Some(open) = text::rfind_char(&rest, '[') {
        let inner = text::slice_of(&rest, open + 1, rest.len());
        proof {
            assert(inner@ =~= t@.drop_last().skip(open + 1));
        }
        let word = text::to_text(&inner);
        if inner.len() > 0 && text::parse_u16(&inner).is_none() && !vocab::is_reserved_word(&word) {
            return Some((open, inner));
        }
    }
    None
}

/// Looks for a release group at the end of the text.
fn detect_release_group(t: &Vec<char>) -> (r: Option<(usize, Vec<char>, bool)>)
    ensures
        match r {
            Some((at, group, bracketed)) => at < t@.len() && group_at_end(t@) == Some(
                (at as int, group@, bracketed),
            ),
            None => group_at_end(t@) is None,
        },
{
    let size: usize = t.len();
    if let Some((open, group)) = find_bracketed(t) {
        return Some((open, group, true));
    }
    if let Some(dash) = text::rfind_char(t, '-') {
        let group = text::slice_of(t, dash + 1, size);
        let head = text::slice_of(t, 0, dash);
        proof {
            assert(group@ =~= t@.skip(dash + 1));
            assert(head@ =~= t@.take(dash as int));
        }
        let from: usize = match text::rfind_char(&head, ' ') {
            Some(i) => i + 1,
            None => 0,
        };
        let tag = text::slice_of(t, from, t.len());
        proof {
            assert(tag@ =~= t@.skip(
                text::last_where(t@.take(dash as int), CharClass::Is(' '), true) + 1,
            ));
        }
        if group.len() >= 2 && text::is_all_alnum(&group) && !vocab::is_reserved_word(
            &text::to_text(&tag),
        ) {
            return Some((dash, group, false));
        }
    }
    None
}

/// The year at a place: four digits, unclaimed, with no letter or digit
/// directly on either side.
pub open spec fn year_at(
    t: Seq<char>,
    mask: Seq<bool>,
    i: int,
    opts: ParseOptions,
) -> Option<u16> {
    if 0 <= i && i + 4 <= t.len() && text::all_digits(t.subrange(i, i + 4)) && (i == 0
        || !unicode::char_is_alphanumeric(t[i - 1])) && (i + 4 == t.len()
        || !unicode::char_is_alphanumeric(t[i + 4])) && free(mask, i, i + 4) {
        match text::number(t.subrange(i, i + 4)) {
            Some(y) if opts.min_year <= y <= opts.max_year => Some(y),
            _ => None,
        }
    } else {
        None
    }
}

/// Whether what stands at a place is directly behind an opening bracket.
pub open spec fn in_bracket(t: Seq<char>, i: int) -> bool {
    i > 0 && (t[i - 1] == '(' || t[i - 1] == '[')
}

/// Whether something is left for the title before a place.
pub open spec fn title_before(t: Seq<char>, mask: Seq<bool>, i: int) -> bool {
    exists|k: int|
        0 <= k < i && k < t.len() && unicode::char_is_alphanumeric(#[trigger] t[k]) && !mask[k]
}

/// Whether a year may be taken at a place.
pub open spec fn year_fits(
    t: Seq<char>,
    mask: Seq<bool>,
    i: int,
    opts: ParseOptions,
    bracketed: bool,
) -> bool {
    year_at(t, mask, i, opts) is Some && (if bracketed {
        in_bracket(t, i)
    } else {
        title_before(t, mask, i)
    })
}

/// The last place before one at which a year may be taken.
pub open spec fn last_year(
    t: Seq<char>,
    mask: Seq<bool>,
    n: int,
    opts: ParseOptions,
    bracketed: bool,
) -> Option<int>
    decreases n,
{
    if n <= 0 {
        None
    } else if year_fits(t, mask, n - 1, opts, bracketed) {
        Some(n - 1)
    } else {
        last_year(t, mask, n - 1, opts, bracketed)
    }
}

/// Where the year stands: the last one in brackets, else the last one that
/// leaves something for the title before it.
pub open spec fn year_place(t: Seq<char>, mask: Seq<bool>, opts: ParseOptions) -> Option<int> {
    match last_year(t, mask, t.len() as int, opts, true) {
        Some(i) => Some(i),
        None => last_year(t, mask, t.len() as int, opts, false),
    }
}

/// Reads the year at a place.
fn read_year_at(t: &Vec<char>, cons: &Consumption, i: usize, opts: &ParseOptions) -> (r: Option<u16>)
    requires
        i < t@.len(),
        cons@.len() == t@.len(),
    ensures
        r == year_at(t@, cons@, i as int, *opts),
{
    if t.len() - i < 4 {
        return None;
    }
    let end: usize = i + 4;
    let part = text::slice_of(t, i, end);
    let digits = text::ascii_digits(&part);
    if !digits || (i > 0 && unicode::is_alphanumeric(t[i - 1])) || (end < t.len()
        && unicode::is_alphanumeric(t[end])) || !cons.is_free(i..end) {
        return None;
    }
    match text::parse_u16(&part) {
        Some(y) => if opts.min_year <= y && y <= opts.max_year {
            Some(y)
        } else {
            None
        },
        None => None,
    }
}

/// Tests whether something is left for the title before a place.
fn leaves_title(t: &Vec<char>, cons: &Consumption, i: usize) -> (r: bool)
    requires
        i <= t@.len(),
        cons@.len() == t@.len(),
    ensures
        r == title_before(t@, cons@, i as int),
{
    let mut k: usize = 0;
    while k < i
        invariant
            k <= i <= t@.len(),
            cons@.len() == t@.len(),
            forall|j: int|
                0 <= j < k ==> !(unicode::char_is_alphanumeric(#[trigger] t@[j]) && !cons@[j]),
        decreases i - k,
    {
        if unicode::is_alphanumeric(t[k]) && cons.is_free(k..k + 1) {
            return true;
        }
        k = k + 1;
    }
    false
}

/// Looks for the last place at which a year may be taken.
fn find_last_year(t: &Vec<char>, cons: &Consumption, opts: &ParseOptions, bracketed: bool) -> (r:
    Option<usize>)
    requires
        cons@.len() == t@.len(),
    ensures
        match r {
            Some(i) => i < t@.len() && last_year(t@, cons@, t@.len() as int, *opts, bracketed)
                == Some(i as int) && year_at(t@, cons@, i as int, *opts) is Some,
            None => last_year(t@, cons@, t@.len() as int, *opts, bracketed) is None,
        },
{
    let mut n: usize = t.len();
    while n > 0
        invariant
            n <= t@.len(),
            cons@.len() == t@.len(),
            last_year(t@, cons@, t@.len() as int, *opts, bracketed) == last_year(
                t@,
                cons@,
                n as int,
                *opts,
                bracketed,
            ),
        decreases n,
    {
        let i: usize = n - 1;
        if read_year_at(t, cons, i, opts).is_some() {
            let fits = if bracketed {
                i > 0 && (t[i - 1] == '(' || t[i - 1] == '[')
            } else {
                leaves_title(t, cons, i)
            };
            if fits {
                return Some(i);
            }
        }
        n = n - 1;
    }
    None
}

/// The characters that are cut off at either end of a title.
pub open spec fn title_padding() -> CharClass {
    CharClass::In(seq!['-', ' ', ':'])
}

/// The title among runs of unclaimed text: the first that is more than
/// whitespace, without padding.
pub open spec fn title_of(t: Seq<char>, runs: Seq<(int, int)>) -> Seq<char>
    decreases runs.len(),
{
    if runs.len() == 0 {
        Seq::empty()
    } else {
        let run = text::trim(t.subrange(runs[0].0, runs[0].1), CharClass::Space);
        if run.len() > 0 {
            text::trim(run, title_padding())
        } else {
            title_of(t, runs.skip(1))
        }
    }
}

/// Reads the title.
fn read_title(t: &Vec<char>, cons: &Consumption) -> (r: Vec<char>)
    requires
        cons@.len() == t@.len(),
    ensures
        r@ == title_of(t@, residual_from(cons@, 0)),
{
    let runs = cons.residual_ranges();
    let ghost rv = residual_from(cons@, 0);
    let mut i: usize = 0;
    proof {
        assert(rv.skip(0) =~= rv);
    }
    while i < runs.len()
        invariant
            i <= runs@.len(),
            rv == residual_from(cons@, 0),
            cons@.len() == t@.len(),
            crate::parse::mask::bounds(runs@) == rv,
            title_of(t@, rv) == title_of(t@, rv.skip(i as int)),
        decreases runs@.len() - i,
    {
        let from: usize = runs[i].start;
        let to: usize = runs[i].end;
        proof {
            assert(rv[i as int] == (from as int, to as int));
            crate::parse::mask::lemma_residual_within(cons@, 0, i as int);
            assert(rv.skip(i as int)[0] == rv[i as int]);
            assert(rv.skip(i as int).skip(1) =~= rv.skip(i + 1));
        }
        let run = text::trimmed(&text::slice_of(t, from, to), Class::Space);
        if run.len() > 0 {
            let pad: Vec<char> = vec!['-', ' ', ':'];
            proof {
                assert(pad@ =~= seq!['-', ' ', ':']);
            }
            return text::trimmed(&run, Class::In(&pad));
        }
        i = i + 1;
    }
    proof {
        assert(rv.len() == runs@.len());
        assert(rv.skip(i as int) =~= Seq::empty());
    }
    Vec::new()
}

/// A field read from the filename, or none found there.
pub open spec fn from_filename<T>(v: Option<T>, confidence: Confidence) -> FieldView<T> {
    match v {
        Some(value) => FieldView::Known { value, source: Source::Filename, confidence },
        None => FieldView::Unknown { attempted: seq![Source::Filename] },
    }
}

/// A text field read from the filename, or none found there.
fn text_field(v: Option<String>, confidence: Confidence) -> (r: Field<String>)
    ensures
        r.deep_view() == from_filename(v.deep_view(), confidence),
{
    match v {
        Some(s) => Field::known(s, Source::Filename, confidence),
        None => {
            let attempted: Vec<Source> = vec![Source::Filename];
            proof {
                assert(attempted@ =~= seq![Source::Filename]);
            }
            Field::unknown(attempted)
        },
    }
}

/// The subtitle flags, which are no part of a title.
pub open spec fn subtitle_flags() -> Seq<Seq<char>> {
    seq!["forced"@, "sdh"@, "cc"@]
}

/// The words that name a language.
pub open spec fn language_words() -> Seq<Seq<char>> {
    seq![
        "english"@,
        "french"@,
        "spanish"@,
        "german"@,
        "italian"@,
        "portuguese"@,
        "russian"@,
        "japanese"@,
        "chinese"@,
        "korean"@,
        "dutch"@,
        "swedish"@,
        "norwegian"@,
        "danish"@,
        "finnish"@,
        "polish"@,
        "arabic"@,
        "hindi"@,
    ]
}

/// The words that name a language.
fn language_list() -> (r: &'static [&'static str])
    ensures
        r.deep_view() == language_words(),
{
    &[
        "english",
        "french",
        "spanish",
        "german",
        "italian",
        "portuguese",
        "russian",
        "japanese",
        "chinese",
        "korean",
        "dutch",
        "swedish",
        "norwegian",
        "danish",
        "finnish",
        "polish",
        "arabic",
        "hindi",
    ]
}

/// The subtitle flags, which are no part of a title.
fn flag_list() -> (r: &'static [&'static str])
    ensures
        r.deep_view() == subtitle_flags(),
{
    &["forced", "sdh", "cc"]
}

/// The marker among season rules, if what they answer is one.
pub open spec fn episode_marker(t: Seq<char>) -> Option<MarkerView> {
    match season_answer(t) {
        Some(m) => m,
        None => None,
    }
}

/// Where a marker lies.
pub open spec fn marker_bounds(t: Seq<char>, m: MarkerView) -> (int, int) {
    (m.before.len() as int, t.len() - m.after.len())
}

/// The mask with the release group claimed.
pub open spec fn mask_after_group(t: Seq<char>) -> Seq<bool> {
    let none = Seq::new(t.len(), |i: int| false);
    match group_at_end(t) {
        Some((at, _, _)) => marked(none, at, t.len() as int),
        None => none,
    }
}

/// The mask with the marker claimed.
pub open spec fn mask_after_marker(t: Seq<char>, mask: Seq<bool>) -> Seq<bool> {
    match episode_marker(t) {
        Some(m) => marked(mask, marker_bounds(t, m).0, marker_bounds(t, m).1),
        None => mask,
    }
}

/// The mask with the year claimed, its brackets with it.
pub open spec fn mask_after_year(t: Seq<char>, mask: Seq<bool>, opts: ParseOptions) -> Seq<bool> {
    match year_place(t, mask, opts) {
        Some(i) => if in_bracket(t, i) {
            marked(mask, i - 1, i + 5)
        } else {
            marked(mask, i, i + 4)
        },
        None => mask,
    }
}

/// The fields of a movie in its normalised name.
pub open spec fn movie_in(t: Seq<char>, opts: ParseOptions) -> MovieParseView {
    let group = group_at_end(t);
    let m1 = taken(t, mask_after_group(t), subtitle_flags()).0;
    let m2 = mask_after_marker(t, m1);
    let resolution = taken(t, m2, vocab::resolution_words());
    let source = taken(t, resolution.0, vocab::source_words());
    let codec = taken(t, source.0, vocab::video_codec_words());
    let audio = taken(t, codec.0, vocab::audio_words());
    let hdr = taken(t, audio.0, vocab::hdr_words());
    let edition = taken(t, hdr.0, vocab::edition_words());
    let language = taken(t, edition.0, language_words());
    let year = year_place(t, language.0, opts);
    let title = title_of(t, residual_from(mask_after_year(t, language.0, opts), 0));
    MovieParseView {
        title: from_filename(
            if title.len() > 0 {
                Some(title)
            } else {
                None
            },
            Confidence::Medium,
        ),
        year: match year {
            Some(i) => from_filename(
                year_at(t, language.0, i, opts),
                if in_bracket(t, i) {
                    Confidence::High
                } else {
                    Confidence::Medium
                },
            ),
            None => from_filename(None, Confidence::Medium),
        },
        edition: from_filename(edition.1, Confidence::High),
        resolution: from_filename(resolution.1, Confidence::High),
        source: from_filename(source.1, Confidence::High),
        video_codec: from_filename(codec.1, Confidence::High),
        audio_format: from_filename(audio.1, Confidence::High),
        hdr: from_filename(hdr.1, Confidence::High),
        language: from_filename(
            match language.1 {
                Some(w) => Some(vocab::language_code(text::ascii_lowercase(w))),
                None => None,
            },
            Confidence::High,
        ),
        release_group: match group {
            Some((_, name, bracketed)) => from_filename(
                Some(name),
                if bracketed {
                    Confidence::High
                } else {
                    Confidence::Medium
                },
            ),
            None => from_filename(None, Confidence::Medium),
        },
        ambiguous_episode_like: episode_marker(t) is Some,
    }
}

/// Claims the episode marker, if there is one.
fn take_marker(t: &Vec<char>, s: &str, cons: &mut Consumption) -> (r: bool)
    requires
        s@ == t@,
        old(cons)@.len() == t@.len(),
    ensures
        r == (episode_marker(t@) is Some),
        final(cons)@ == mask_after_marker(t@, old(cons)@),
        final(cons)@.len() == t@.len(),
{
    match ask_season(s) {
        Some(Some(m)) => {
            let from: usize = text::to_chars(&m.before).len();
            let behind: usize = text::to_chars(&m.after).len();
            let ghost mask = cons@;
            if behind <= t.len() {
                cons.mark(from..t.len() - behind);
            } else {
                proof {
                    assert(marked(mask, from as int, t@.len() - behind) =~= mask);
                }
            }
            true
        },
        _ => false,
    }
}

/// Claims the year, if there is one.
fn take_year(t: &Vec<char>, cons: &mut Consumption, opts: &ParseOptions) -> (r: Field<u16>)
    requires
        old(cons)@.len() == t@.len(),
    ensures
        final(cons)@ == mask_after_year(t@, old(cons)@, *opts),
        final(cons)@.len() == t@.len(),
        r.deep_view() == (match year_place(t@, old(cons)@, *opts) {
            Some(i) => from_filename(
                year_at(t@, old(cons)@, i, *opts),
                if in_bracket(t@, i) {
                    Confidence::High
                } else {
                    Confidence::Medium
                },
            ),
            None => from_filename(None, Confidence::Medium),
        }),
{
    let place = match find_last_year(t, cons, opts, true) {
        Some(i) => Some(i),
        None => find_last_year(t, cons, opts, false),
    };
    if let Some(i) = place {
        if let Some(y) = read_year_at(t, cons, i, opts) {
            let bracketed = i > 0 && (t[i - 1] == '(' || t[i - 1] == '[');
            let size: usize = t.len();
            if bracketed {
                let ghost mask = cons@;
                let end: usize = if i + 4 < size {
                    i + 5
                } else {
                    i + 4
                };
                cons.mark(i - 1..end);
                proof {
                    assert(cons@ =~= marked(mask, i - 1, i + 5));
                }
                return Field::known(y, Source::Filename, Confidence::High);
            }
            cons.mark(i..i + 4);
            return Field::known(y, Source::Filename, Confidence::Medium);
        }
    }
    let attempted: Vec<Source> = vec![Source::Filename];
    proof {
        assert(attempted@ =~= seq![Source::Filename]);
    }
    Field::unknown(attempted)
}

/// Parse a movie filename. The extension is stripped on the way.
pub fn parse_movie_filename(filename: &str, opts: &ParseOptions) -> (r: MovieParse)
    ensures
        r.deep_view() == movie_in(unified(without_extension(filename@)), *opts),
{
    let s = normalize_stem(filename);
    let t = text::to_chars(&s);
    let mut cons = Consumption::of_len(t.len());
    let release_group = match detect_release_group(&t) {
        Some((at, group, bracketed)) => {
            cons.mark(at..t.len());
            let confidence = if bracketed {
                Confidence::High
            } else {
                Confidence::Medium
            };
            text_field(Some(text::to_text(&group)), confidence)
        },
        None => text_field(None, Confidence::Medium),
    };
    proof {
        assert(cons@ =~= mask_after_group(t@));
    }
    let _ = take_vocab(&t, &mut cons, flag_list());
    let ambiguous_episode_like = take_marker(&t, &s, &mut cons);
    let resolution = take_vocab(&t, &mut cons, vocab::resolution_patterns());
    let source = take_vocab(&t, &mut cons, vocab::source_patterns());
    let video_codec = take_vocab(&t, &mut cons, vocab::video_codec_patterns());
    let audio_format = take_vocab(&t, &mut cons, vocab::audio_patterns());
    let hdr = take_vocab(&t, &mut cons, vocab::hdr_patterns());
    let edition = take_vocab(&t, &mut cons, vocab::edition_patterns());
    let language = match take_vocab(&t, &mut cons, language_list()) {
        Some(w) => Some(vocab::normalise_language(&w)),
        None => None,
    };
    let year = take_year(&t, &mut cons, opts);
    let title = read_title(&t, &cons);
    let title = if title.len() > 0 {
        Some(text::to_text(&title))
    } else {
        None
    };
    MovieParse {
        title: text_field(title, Confidence::Medium),
        year,
        edition: text_field(edition, Confidence::High),
        resolution: text_field(resolution, Confidence::High),
        source: text_field(source, Confidence::High),
        video_codec: text_field(video_codec, Confidence::High),
        audio_format: text_field(audio_format, Confidence::High),
        hdr: text_field(hdr, Confidence::High),
        language: text_field(language, Confidence::High),
        release_group,
        ambiguous_episode_like,
    }
}

} // verus!
