//! Music filename parsing: the track number, the disc number and a guess at
//! the title.
//!
//! The name is not tokenised as movies are: a title that ends in a dash and a
//! word would lose it to the release-group rule.

use crate::domain::provenance::{Confidence, Source};
use crate::parse::model::{known, ParseOptions, ParsedTrack, TrackFields};
use crate::parse::parser::from_name;
use crate::parse::markers::{law_written_number_is_read, writes};
use crate::parse::tokens::base_name;
use crate::parse::words::{are_words, blank, lemma_joined_words};
use crate::pattern;
use crate::pattern::{Captured, CapturedView};
use crate::text;
use crate::text::{CharClass, Class};
use vstd::prelude::*;

verus! {

/// A disc and a track number at the start: `1-01 Title`, `1.01 Title`.
pub const DISC_TRACK: &'static str = r"^(\d{1,2})[-.](\d{1,3})[\s.\-]+(.+)$";

/// A track number at the start: `01 - Title`, `01. Title`.
pub const TRACK_ONLY: &'static str = r"^(\d{1,3})[\s.\-]+(.+)$";

/// The numbers at the start of a name, and what follows them.
#[derive(Debug, Clone, PartialEq, Eq)]
pub struct TrackPrefix {
    pub rest: String,
    pub disc: Option<u16>,
    pub track: Option<u16>,
}

/// The contents of a [`TrackPrefix`].
#[verifier::ext_equal]
pub struct PrefixView {
    pub rest: Seq<char>,
    pub disc: Option<u16>,
    pub track: Option<u16>,
}

impl DeepView for TrackPrefix {
    type V = PrefixView;

    open spec fn deep_view(&self) -> PrefixView {
        PrefixView { rest: self.rest@, disc: self.disc, track: self.track }
    }
}

/// The numbers at the start of a stem, given the matches of [`DISC_TRACK`] and
/// [`TRACK_ONLY`].
pub open spec fn prefix_given(
    stem: Seq<char>,
    disc_track: Option<CapturedView>,
    track_only: Option<CapturedView>,
) -> PrefixView {
    match disc_track {
        Some(c) => PrefixView {
            rest: c.group(3),
            disc: text::number(c.group(1)),
            track: text::number(c.group(2)),
        },
        None => match track_only {
            Some(c) => PrefixView {
                rest: c.group(2),
                disc: None,
                track: text::number(c.group(1)),
            },
            None => PrefixView { rest: stem, disc: None, track: None },
        },
    }
}

/// Reads the numbers at the start of a stem off the matches of [`DISC_TRACK`]
/// and [`TRACK_ONLY`].
pub fn read_prefix(stem: &str, disc_track: &Option<Captured>, track_only: &Option<Captured>) -> (r:
    TrackPrefix)
    ensures
        r.deep_view() == prefix_given(stem@, disc_track.deep_view(), track_only.deep_view()),
{
    match disc_track {
        Some(c) => TrackPrefix {
            rest: c.group(3).to_string(),
            disc: text::parse_number(c.group(1)),
            track: text::parse_number(c.group(2)),
        },
        None => match track_only {
            Some(c) => TrackPrefix {
                rest: c.group(2).to_string(),
                disc: None,
                track: text::parse_number(c.group(1)),
            },
            None => TrackPrefix { rest: stem.to_string(), disc: None, track: None },
        },
    }
}

/// The numbers at the start of a stem.
pub open spec fn prefix_of(stem: Seq<char>) -> PrefixView {
    prefix_given(
        stem,
        pattern::captures_of(DISC_TRACK@, stem),
        pattern::captures_of(TRACK_ONLY@, stem),
    )
}

/// Extract a leading `disc-track` or `track` number prefix. A run of digits
/// with no separator after it (`01Title`), or of more than three digits (a
/// bare year), is left alone.
fn extract_track_prefix(stem: &str) -> (r: TrackPrefix)
    ensures
        r.deep_view() == prefix_of(stem@),
{
    let disc_track = pattern::captures(DISC_TRACK, stem);
    let track_only = pattern::captures(TRACK_ONLY, stem);
    read_prefix(stem, &disc_track, &track_only)
}

/// Whether a text is of the shape `A - B`, with something on both sides of the
/// first ` - `: artist and title cannot be told apart in it.
pub open spec fn is_artist_title_split(s: Seq<char>) -> bool {
    let i = text::find_from(s, seq![' ', '-', ' '], 0);
    i >= 0 && text::trim(s.take(i), CharClass::Space).len() > 0 && text::trim(
        s.skip(i + 3),
        CharClass::Space,
    ).len() > 0
}

/// Tests for the shape `A - B`.
pub fn has_ambiguous_artist_title_split(s: &[char]) -> (r: bool)
    ensures
        r == is_artist_title_split(s@),
{
    let total: usize = s.len();
    let dash: Vec<char> = vec![' ', '-', ' '];
    proof {
        assert(dash@ =~= seq![' ', '-', ' ']);
    }
    match text::find_text(s, &dash) {
        Some(i) => {
            let a = text::slice_of(s, 0, i);
            let b = text::slice_of(s, i + 3, total);
            proof {
                assert(a@ =~= s@.take(i as int));
                assert(b@ =~= s@.skip(i + 3));
            }
            text::trimmed(&a, Class::Space).len() > 0 && text::trimmed(&b, Class::Space).len() > 0
        },
        None => false,
    }
}

/// The fields of a track, from the numbers at the start of its name and what
/// follows them.
pub open spec fn track_from(p: PrefixView) -> TrackFields {
    let title = text::collapse(text::trim(p.rest, CharClass::Space));
    let numbered = TrackFields {
        disc: match p.disc {
            Some(d) => from_name(d, Confidence::Medium),
            None => TrackFields::blank().disc,
        },
        track: match p.track {
            Some(t) => from_name(t, Confidence::Medium),
            None => TrackFields::blank().track,
        },
        ..TrackFields::blank()
    };
    if title.len() == 0 {
        numbered
    } else if p.track is Some && is_artist_title_split(title) {
        TrackFields { ambiguous_artist_title: true, ..numbered }
    } else {
        TrackFields { title: from_name(title, Confidence::Medium), ..numbered }
    }
}

/// Puts the fields of a track together from the numbers at the start of its
/// name and what follows them. Without a track number there is nothing to tell
/// that a ` - ` parts artist and title, so the whole is the title.
pub fn assemble_track(p: &TrackPrefix) -> (r: ParsedTrack)
    ensures
        r.deep_view() == track_from(p.deep_view()),
{
    let mut track = ParsedTrack::new();
    if let Some(d) = p.disc {
        track.disc = known(d, Source::Filename, Confidence::Medium);
    }
    if let Some(t) = p.track {
        track.track = known(t, Source::Filename, Confidence::Medium);
    }
    let title = text::collapsed(&text::trimmed(&text::to_chars(&p.rest), Class::Space));
    if title.len() == 0 {
        return track;
    }
    if p.track.is_some() && has_ambiguous_artist_title_split(&title) {
        track.ambiguous_artist_title = true;
    } else {
        track.title = known(text::to_text(&title), Source::Filename, Confidence::Medium);
    }
    track
}

/// The fields that a track filename gives.
pub open spec fn track_fields(filename: Seq<char>) -> TrackFields {
    let stem = text::trim(base_name(filename), CharClass::Space);
    if stem.len() == 0 {
        TrackFields::blank()
    } else {
        track_from(prefix_of(stem))
    }
}

/// Parse a filename as a music track (filename-only fields).
pub fn parse_track_filename(filename: &str, _opts: &ParseOptions) -> (r: ParsedTrack)
    ensures
        r.deep_view() == track_fields(filename@),
{
    let chars = text::to_chars(filename);
    let n: usize = match text::rfind_char(&chars, '.') {
        Some(i) => i,
        None => chars.len(),
    };
    let base = text::slice_of(&chars, 0, n);
    proof {
        assert(base@ =~= base_name(filename@));
    }
    let stem = text::trimmed(&base, Class::Space);
    if stem.len() == 0 {
        return ParsedTrack::new();
    }
    assemble_track(&extract_track_prefix(&text::to_text(&stem)))
}

/// A title is never guessed where artist and title cannot be told apart.
pub proof fn law_ambiguous_track_has_no_title(filename: Seq<char>)
    ensures
        track_fields(filename).ambiguous_artist_title ==> track_fields(filename).title is Unknown,
{
}

/// Everything that a track filename gives is said to come from the name.
pub proof fn law_track_fields_come_from_name(filename: Seq<char>)
    ensures
        track_fields(filename).comes_from_name(),
{
}

/// Whether a dash stands between spaces somewhere in a text.
pub open spec fn has_spaced_dash(s: Seq<char>) -> bool {
    exists|i: int| 0 <= i && i + 2 < s.len() && #[trigger] s[i] == ' ' && s[i + 1] == '-' && s[i + 2] == ' '
}

/// The first place of a spaced dash is found where there is one.
proof fn lemma_find_spaced_dash(s: Seq<char>, from: int)
    requires
        0 <= from,
    ensures
        ({
            let i = text::find_from(s, seq![' ', '-', ' '], from);
            &&& i >= 0 ==> from <= i && i + 2 < s.len() && s[i] == ' ' && s[i + 1] == '-' && s[i
                + 2] == ' '
            &&& i < 0 ==> forall|j: int|
                from <= j && j + 2 < s.len() ==> !(#[trigger] s[j] == ' ' && s[j + 1] == '-' && s[j
                    + 2] == ' ')
        }),
    decreases s.len() - from + 1,
{
    let p = seq![' ', '-', ' '];
    if from + 3 <= s.len() {
        let here = s.subrange(from, from + 3);
        assert(here[0] == s[from] && here[1] == s[from + 1] && here[2] == s[from + 2]);
        if text::occurs_at(s, p, from) {
            assert(here == p);
        } else {
            lemma_find_spaced_dash(s, from + 1);
            if s[from] == ' ' && s[from + 1] == '-' && s[from + 2] == ' ' {
                assert(here =~= p);
            }
        }
    }
}

/// Words joined by single spaces: nothing is trimmed or collapsed, and the
/// shape `A - B` is a spaced dash.
proof fn lemma_joined_title(ws: Seq<Seq<char>>)
    requires
        ws.len() > 0,
        are_words(ws),
    ensures
        ({
            let s = text::join(ws, seq![' ']);
            &&& s.len() > 0
            &&& text::collapse(text::trim(s, CharClass::Space)) == s
            &&& is_artist_title_split(s) == has_spaced_dash(s)
        }),
{
    let s = text::join(ws, seq![' ']);
    lemma_joined_words(ws);
    let k = CharClass::Space;
    assert(!blank(s[0]));
    assert(!blank(s[s.len() - 1]));
    assert(text::first_where(s, k, false) == 0);
    assert(text::trim_start(s, k) =~= s);
    assert(text::last_where(s, k, false) == s.len() - 1);
    assert(text::trim_end(s, k) =~= s);
    lemma_find_spaced_dash(s, 0);
    let i = text::find_from(s, seq![' ', '-', ' '], 0);
    if i >= 0 {
        assert(blank(s[i]));
        assert(i > 0);
        assert(blank(s[i + 2]));
        lemma_trim_keeps(s.take(i), 0);
        let rest = s.skip(i + 3);
        assert(rest.len() > 0);
        assert(rest[rest.len() - 1] == s[s.len() - 1]);
        lemma_trim_keeps(rest, rest.len() - 1);
        assert(has_spaced_dash(s));
    }
}

/// A text with something visible is not trimmed to nothing.
proof fn lemma_trim_keeps(s: Seq<char>, at: int)
    requires
        0 <= at < s.len(),
        !blank(s[at]),
    ensures
        text::trim(s, CharClass::Space).len() > 0,
{
    let k = CharClass::Space;
    text::lemma_first_where(s, k, false);
    let n = text::first_where(s, k, false);
    let a = text::trim_start(s, k);
    assert(a[at - n] == s[at]);
    text::lemma_last_where(a, k, false);
}

/// A file that is named by a track number and the words of a title, with a disc
/// number before it or not, gives these numbers and, with single spaces between
/// its words, the title. Where the words have a dash between them artist and
/// title cannot be told apart, and no title is guessed.
pub proof fn law_numbered_track_is_read(
    filename: Seq<char>,
    c: CapturedView,
    disc: Option<u16>,
    track: u16,
    ws: Seq<Seq<char>>,
)
    requires
        ws.len() > 0,
        are_words(ws),
        ({
            let stem = text::trim(base_name(filename), CharClass::Space);
            let by_disc = pattern::captures_of(DISC_TRACK@, stem);
            let by_track = pattern::captures_of(TRACK_ONLY@, stem);
            &&& stem.len() > 0
            &&& disc matches Some(d) ==> by_disc == Some(c) && writes(c.group(1), d) && writes(
                c.group(2),
                track,
            ) && c.group(3) == text::join(ws, seq![' '])
            &&& disc is None ==> by_disc is None && by_track == Some(c) && writes(c.group(1), track)
                && c.group(2) == text::join(ws, seq![' '])
        }),
    ensures
        ({
            let t = track_fields(filename);
            let title = text::join(ws, seq![' ']);
            &&& t.track.ok() == Some(track)
            &&& t.disc.ok() == disc
            &&& t.ambiguous_artist_title == has_spaced_dash(title)
            &&& t.title.ok() == (if has_spaced_dash(title) {
                None
            } else {
                Some(title)
            })
        }),
{
    lemma_joined_title(ws);
    match disc {
        Some(d) => {
            law_written_number_is_read(c.group(1), d);
            law_written_number_is_read(c.group(2), track);
        },
        None => {
            law_written_number_is_read(c.group(1), track);
        },
    }
}

/// A file without a number at the start of its name gives no number; its words
/// are its title, dashes and all.
pub proof fn law_unnumbered_track_is_read(filename: Seq<char>, ws: Seq<Seq<char>>)
    requires
        ws.len() > 0,
        are_words(ws),
        base_name(filename) == text::join(ws, seq![' ']),
        pattern::captures_of(DISC_TRACK@, text::join(ws, seq![' '])) is None,
        pattern::captures_of(TRACK_ONLY@, text::join(ws, seq![' '])) is None,
    ensures
        ({
            let t = track_fields(filename);
            &&& t.track.ok() is None
            &&& t.disc.ok() is None
            &&& !t.ambiguous_artist_title
            &&& t.title.ok() == Some(text::join(ws, seq![' ']))
        }),
{
    lemma_joined_title(ws);
    let s = text::join(ws, seq![' ']);
    lemma_joined_words(ws);
    let k = CharClass::Space;
    assert(!blank(s[0]));
    assert(!blank(s[s.len() - 1]));
    assert(text::first_where(s, k, false) == 0);
    assert(text::trim_start(s, k) =~= s);
    assert(text::last_where(s, k, false) == s.len() - 1);
    assert(text::trim_end(s, k) =~= s);
}

} // verus!
