//! Music resolve stage.
//!
//! Filename candidates are merged with those of embedded tags by the
//! source-preference table, in which tags outrank filenames.

use crate::domain::config::Config;
use crate::domain::duplicate::Duplicate;
use crate::domain::identity::SourcePreference;
use crate::domain::plan::{FieldName, Readiness, ReadinessView};
use crate::domain::provenance::{Confidence, Field, FieldView, Source};
use crate::engine::resolve::{
    add_reason, better, conclude, is_at_least, is_no_default, is_sure_enough, merge_field, only_if,
    readiness_from, sure_enough,
};
use crate::parse::model::{ParsedTrack, TrackFields};
use crate::text;
use crate::text::{CharClass, Class};
use vstd::prelude::*;

verus! {

/// The tags of an audio file.
#[derive(Debug, Clone, PartialEq, Eq)]
pub struct AudioTags {
    pub album_artist: Option<String>,
    pub album: Option<String>,
    pub artist: Option<String>,
    pub title: Option<String>,
    pub year: Option<u16>,
    pub disc: Option<u16>,
    pub track: Option<u16>,
    pub compilation: Option<bool>,
}

/// The contents of [`AudioTags`].
#[verifier::ext_equal]
pub struct AudioTagsView {
    pub album_artist: Option<Seq<char>>,
    pub album: Option<Seq<char>>,
    pub artist: Option<Seq<char>>,
    pub title: Option<Seq<char>>,
    pub year: Option<u16>,
    pub disc: Option<u16>,
    pub track: Option<u16>,
    pub compilation: Option<bool>,
}

impl DeepView for AudioTags {
    type V = AudioTagsView;

    open spec fn deep_view(&self) -> AudioTagsView {
        AudioTagsView {
            album_artist: self.album_artist.deep_view(),
            album: self.album.deep_view(),
            artist: self.artist.deep_view(),
            title: self.title.deep_view(),
            year: self.year,
            disc: self.disc,
            track: self.track,
            compilation: self.compilation,
        }
    }
}

impl Duplicate for AudioTags {
    fn duplicate(&self) -> (r: Self) {
        AudioTags {
            album_artist: self.album_artist.duplicate(),
            album: self.album.duplicate(),
            artist: self.artist.duplicate(),
            title: self.title.duplicate(),
            year: self.year,
            disc: self.disc,
            track: self.track,
            compilation: self.compilation,
        }
    }
}

impl Default for AudioTags {
    fn default() -> (r: Self)
        ensures
            r.deep_view() == (AudioTagsView {
                album_artist: None,
                album: None,
                artist: None,
                title: None,
                year: None,
                disc: None,
                track: None,
                compilation: None,
            }),
    {
        AudioTags {
            album_artist: None,
            album: None,
            artist: None,
            title: None,
            year: None,
            disc: None,
            track: None,
            compilation: None,
        }
    }
}

/// A music track with resolved fields, ready for grouping and routing.
#[derive(Debug, Clone, PartialEq, Eq)]
pub struct ResolvedTrack {
    pub album_artist: Field<String>,
    pub album: Field<String>,
    pub year: Field<u16>,
    pub disc: Field<u16>,
    pub track: Field<u16>,
    pub title: Field<String>,
    /// The artist of the track, not of the album; from tags only.
    pub track_artist: Field<String>,
    /// Whether the tags say that the album is a compilation. It decides what
    /// stands in for a missing album artist, and is part of no identity.
    pub compilation: bool,
    /// Whether the filename looked like `N - A - B`, so that which part is the
    /// title is not guessed.
    pub ambiguous_artist_title: bool,
}

/// The contents of a [`ResolvedTrack`].
#[verifier::ext_equal]
pub struct ResolvedTrackView {
    pub album_artist: FieldView<Seq<char>>,
    pub album: FieldView<Seq<char>>,
    pub year: FieldView<u16>,
    pub disc: FieldView<u16>,
    pub track: FieldView<u16>,
    pub title: FieldView<Seq<char>>,
    pub track_artist: FieldView<Seq<char>>,
    pub compilation: bool,
    pub ambiguous_artist_title: bool,
}

impl DeepView for ResolvedTrack {
    type V = ResolvedTrackView;

    open spec fn deep_view(&self) -> ResolvedTrackView {
        ResolvedTrackView {
            album_artist: self.album_artist.deep_view(),
            album: self.album.deep_view(),
            year: self.year.deep_view(),
            disc: self.disc.deep_view(),
            track: self.track.deep_view(),
            title: self.title.deep_view(),
            track_artist: self.track_artist.deep_view(),
            compilation: self.compilation,
            ambiguous_artist_title: self.ambiguous_artist_title,
        }
    }
}

impl Duplicate for ResolvedTrack {
    fn duplicate(&self) -> (r: Self) {
        ResolvedTrack {
            album_artist: self.album_artist.duplicate(),
            album: self.album.duplicate(),
            year: self.year.duplicate(),
            disc: self.disc.duplicate(),
            track: self.track.duplicate(),
            title: self.title.duplicate(),
            track_artist: self.track_artist.duplicate(),
            compilation: self.compilation,
            ambiguous_artist_title: self.ambiguous_artist_title,
        }
    }
}

impl Default for ResolvedTrack {
    fn default() -> (r: Self)
        ensures
            r.deep_view() == track_resolved_from(TrackFields::blank()),
    {
        ResolvedTrack::from_parsed(&ParsedTrack::new())
    }
}

/// A parsed track, resolved from its filename alone.
pub open spec fn track_resolved_from(p: TrackFields) -> ResolvedTrackView {
    ResolvedTrackView {
        album_artist: p.album_artist,
        album: p.album,
        year: p.year,
        disc: p.disc,
        track: p.track,
        title: p.title,
        track_artist: FieldView::blank(),
        compilation: false,
        ambiguous_artist_title: p.ambiguous_artist_title,
    }
}

/// Whether a text spells out that there are various artists.
pub open spec fn means_various(s: Seq<char>) -> bool {
    let lower = text::ascii_lowercase(text::trim(s, CharClass::Space));
    lower == "various artists"@ || lower == "va"@
}

/// Whether a text spells out that there are various artists.
pub fn is_various_artists_spelling(s: &str) -> (r: bool)
    ensures
        r == means_various(s@),
{
    let lower = text::to_text(&text::lowered(&text::trimmed(&text::to_chars(s), Class::Space)));
    text::same_text(&lower, "various artists") || text::same_text(&lower, "va")
}

/// A field with the value of a tag folded in, where there is one.
pub open spec fn with_tag<T>(
    f: FieldView<T>,
    tag: Option<T>,
    confidence: Confidence,
    prefs: SourcePreference,
) -> FieldView<T> {
    match tag {
        Some(value) => better(
            f,
            FieldView::Known { value, source: Source::EmbeddedTag, confidence },
            prefs,
        ),
        None => f,
    }
}

/// Folds a tag into a field, where there is one.
fn fold_tag<T: Duplicate>(
    f: &Field<T>,
    tag: &Option<T>,
    confidence: Confidence,
    prefs: &SourcePreference,
) -> (r: Field<T>)
    ensures
        r.deep_view() == with_tag(f.deep_view(), tag.deep_view(), confidence, *prefs),
{
    match tag {
        Some(v) => merge_field(
            f,
            Field::known(v.duplicate(), Source::EmbeddedTag, confidence),
            prefs,
        ),
        None => f.duplicate(),
    }
}

impl ResolvedTrackView {
    /// Whether the album is a compilation once the tags are known.
    pub open spec fn is_compilation(self, tags: AudioTagsView) -> bool {
        self.compilation || tags.compilation == Some(true) || (tags.album_artist matches Some(a)
            && means_various(a))
    }

    /// The album artist once the tags are known. Where there is no tag for it,
    /// a compilation is by various artists and any other album by the artist of
    /// the track.
    pub open spec fn album_artist_with(self, tags: AudioTagsView, prefs: SourcePreference) -> FieldView<
        Seq<char>,
    > {
        if tags.album_artist is Some {
            with_tag(self.album_artist, tags.album_artist, Confidence::High, prefs)
        } else if self.is_compilation(tags) {
            with_tag(
                self.album_artist,
                Some("Various Artists"@),
                Confidence::Medium,
                prefs,
            )
        } else {
            with_tag(self.album_artist, tags.artist, Confidence::Medium, prefs)
        }
    }

    /// The track with tags folded in.
    pub open spec fn with_tags(self, tags: AudioTagsView, prefs: SourcePreference) -> Self {
        ResolvedTrackView {
            album_artist: self.album_artist_with(tags, prefs),
            album: with_tag(self.album, tags.album, Confidence::High, prefs),
            year: with_tag(self.year, tags.year, Confidence::High, prefs),
            disc: with_tag(self.disc, tags.disc, Confidence::High, prefs),
            track: with_tag(self.track, tags.track, Confidence::High, prefs),
            title: with_tag(self.title, tags.title, Confidence::High, prefs),
            track_artist: with_tag(self.track_artist, tags.artist, Confidence::High, prefs),
            compilation: self.is_compilation(tags),
            ambiguous_artist_title: self.ambiguous_artist_title,
        }
    }

    /// Whether something that is known is a configured default.
    pub open spec fn is_guessed(self) -> bool {
        ||| self.album_artist.is_fallback()
        ||| self.album.is_fallback()
        ||| self.year.is_fallback()
        ||| self.disc.is_fallback()
        ||| self.track.is_fallback()
        ||| self.title.is_fallback()
        ||| self.track_artist.is_fallback()
    }

    /// Whether the required fields that are known are known surely enough.
    pub open spec fn sure(self, least: Confidence) -> bool {
        sure_enough(self.album_artist.confidence(), least) && sure_enough(
            self.album.confidence(),
            least,
        ) && sure_enough(self.title.confidence(), least)
    }

    /// Whether the track is ready, or what is missing.
    pub open spec fn readiness(self, cfg: Config) -> ReadinessView {
        let no_artist = !self.album_artist.is_known();
        let no_album = !self.album.is_known();
        let no_title = !self.title.is_known();
        let unsure = !self.sure(cfg.behaviour.min_confidence);
        let guessed = self.is_guessed();
        readiness_from(
            only_if(no_artist, seq![FieldName::AlbumArtist]) + only_if(
                no_album,
                seq![FieldName::Album],
            ) + only_if(no_title, seq![FieldName::TrackTitle]),
            only_if(no_artist, seq!["album artist could not be determined"@]) + only_if(
                no_album,
                seq!["album could not be determined"@],
            ) + only_if(no_title, seq![self.why_no_title()]) + only_if(
                unsure,
                seq!["confidence below configured minimum"@],
            ) + only_if(guessed, seq!["a configured default never justifies a move"@]),
        )
    }

    /// Why there is no title.
    pub open spec fn why_no_title(self) -> Seq<char> {
        if self.ambiguous_artist_title {
            "filename looks like 'track - artist - title' with no tags to disambiguate; not guessing (§3.3)"@
        } else {
            "track title could not be determined"@
        }
    }
}

impl ResolvedTrack {
    /// Baseline resolution from filename candidates alone.
    pub fn from_parsed(p: &ParsedTrack) -> (r: Self)
        ensures
            r.deep_view() == track_resolved_from(p.deep_view()),
    {
        let none: Vec<Source> = Vec::new();
        ResolvedTrack {
            album_artist: p.album_artist.duplicate(),
            album: p.album.duplicate(),
            year: p.year.duplicate(),
            disc: p.disc.duplicate(),
            track: p.track.duplicate(),
            title: p.title.duplicate(),
            track_artist: Field::unknown(none),
            compilation: false,
            ambiguous_artist_title: p.ambiguous_artist_title,
        }
    }

    /// Fold embedded tags in, field by field, by the source-preference table.
    ///
    /// Many rips of one artist carry only the artist of the track, which then
    /// stands in for the album artist. On a compilation that would split the
    /// album, so it is by various artists instead.
    pub fn merge_tags(&mut self, tags: &AudioTags, prefs: &SourcePreference)
        ensures
            final(self).deep_view() == old(self).deep_view().with_tags(tags.deep_view(), *prefs),
    {
        let looks_various = match &tags.album_artist {
            Some(a) => is_various_artists_spelling(a),
            None => false,
        };
        let flagged = match tags.compilation {
            Some(b) => b,
            None => false,
        };
        if flagged || looks_various {
            self.compilation = true;
        }
        self.album = fold_tag(&self.album, &tags.album, Confidence::High, prefs);
        self.year = fold_tag(&self.year, &tags.year, Confidence::High, prefs);
        self.disc = fold_tag(&self.disc, &tags.disc, Confidence::High, prefs);
        self.track = fold_tag(&self.track, &tags.track, Confidence::High, prefs);
        self.title = fold_tag(&self.title, &tags.title, Confidence::High, prefs);
        self.track_artist = fold_tag(&self.track_artist, &tags.artist, Confidence::High, prefs);
        self.album_artist = if tags.album_artist.is_some() {
            fold_tag(&self.album_artist, &tags.album_artist, Confidence::High, prefs)
        } else if self.compilation {
            let various = Some("Various Artists".to_string());
            fold_tag(&self.album_artist, &various, Confidence::Medium, prefs)
        } else {
            fold_tag(&self.album_artist, &tags.artist, Confidence::Medium, prefs)
        };
    }

    /// Determine readiness based on required fields: album artist, album and
    /// title. A track without a number still has a destination.
    pub fn readiness(&self, cfg: &Config) -> (r: Readiness)
        ensures
            r.deep_view() == self.deep_view().readiness(*cfg),
    {
        let mut missing: Vec<FieldName> = Vec::new();
        let mut reasons: Vec<String> = Vec::new();
        if !self.album_artist.is_known() {
            missing.push(FieldName::AlbumArtist);
            add_reason(&mut reasons, "album artist could not be determined");
        }
        if !self.album.is_known() {
            missing.push(FieldName::Album);
            add_reason(&mut reasons, "album could not be determined");
        }
        if !self.title.is_known() {
            missing.push(FieldName::TrackTitle);
            if self.ambiguous_artist_title {
                add_reason(
                    &mut reasons,
                    "filename looks like 'track - artist - title' with no tags to disambiguate; not guessing (§3.3)",
                );
            } else {
                add_reason(&mut reasons, "track title could not be determined");
            }
        }
        if !self.meets_min_confidence(cfg) {
            add_reason(&mut reasons, "confidence below configured minimum");
        }
        if self.holds_default() {
            add_reason(&mut reasons, "a configured default never justifies a move");
        }
        proof {
            let v = self.deep_view();
            let no_artist = !v.album_artist.is_known();
            let no_album = !v.album.is_known();
            let no_title = !v.title.is_known();
            let unsure = !v.sure(cfg.behaviour.min_confidence);
            let guessed = v.is_guessed();
            assert(missing@ =~= only_if(no_artist, seq![FieldName::AlbumArtist]) + only_if(
                no_album,
                seq![FieldName::Album],
            ) + only_if(no_title, seq![FieldName::TrackTitle]));
            assert(reasons.deep_view() =~= only_if(
                no_artist,
                seq!["album artist could not be determined"@],
            ) + only_if(no_album, seq!["album could not be determined"@]) + only_if(
                no_title,
                seq![v.why_no_title()],
            ) + only_if(unsure, seq!["confidence below configured minimum"@]) + only_if(
                guessed,
                seq!["a configured default never justifies a move"@],
            ));
        }
        conclude(missing, reasons)
    }

    /// Whether something that is known is a configured default.
    fn holds_default(&self) -> (r: bool)
        ensures
            r == self.deep_view().is_guessed(),
    {
        self.album_artist.is_fallback()
            || self.album.is_fallback()
            || self.year.is_fallback()
            || self.disc.is_fallback()
            || self.track.is_fallback()
            || self.title.is_fallback()
            || self.track_artist.is_fallback()
    }

    /// Whether the required fields that are known are known surely enough.
    fn meets_min_confidence(&self, cfg: &Config) -> (r: bool)
        ensures
            r == self.deep_view().sure(cfg.behaviour.min_confidence),
    {
        let least = cfg.behaviour.min_confidence;
        is_sure_enough(self.album_artist.confidence(), least) && is_sure_enough(
            self.album.confidence(),
            least,
        ) && is_sure_enough(self.title.confidence(), least)
    }
}

/// With the conservative ranks the tag of a field wins over its filename
/// candidate.
pub proof fn law_tags_outrank_filenames<T>(
    value: T,
    confidence: Confidence,
    tag: T,
)
    ensures
        with_tag(
            FieldView::Known { value, source: Source::Filename, confidence },
            Some(tag),
            Confidence::High,
            crate::domain::identity::conservative_preference(),
        ) == (FieldView::Known {
            value: tag,
            source: Source::EmbeddedTag,
            confidence: Confidence::High,
        }),
{
}

/// A track of which something is a configured default is never ready: a default
/// leads to a remark, and never to a move.
pub proof fn law_guessed_track_is_never_ready(m: ResolvedTrackView, cfg: Config)
    requires
        m.is_guessed(),
    ensures
        !(m.readiness(cfg) is Ready),
{
    if let ReadinessView::NeedsReview { reasons, .. } = m.readiness(cfg) {
        assert(reasons.len() > 0);
    }
}

/// A track is ready exactly where the artist and the name of its album and its
/// title are known, all surely enough, and nothing of it is a configured
/// default. Else what is missing is said to be.
pub proof fn law_track_is_ready_when_all_is_known(t: ResolvedTrackView, cfg: Config)
    ensures
        t.readiness(cfg) is Ready <==> {
            &&& t.album_artist is Known
            &&& t.album is Known
            &&& t.title is Known
            &&& is_at_least(t.album_artist, cfg.behaviour.min_confidence)
            &&& is_at_least(t.album, cfg.behaviour.min_confidence)
            &&& is_at_least(t.title, cfg.behaviour.min_confidence)
            &&& is_no_default(t.album_artist) && is_no_default(t.album) && is_no_default(t.year)
            &&& is_no_default(t.disc) && is_no_default(t.track) && is_no_default(t.title)
            &&& is_no_default(t.track_artist)
        },
        t.readiness(cfg) matches ReadinessView::NeedsReview { missing, .. } ==> {
            &&& missing.contains(FieldName::AlbumArtist) <==> t.album_artist is Unknown
            &&& missing.contains(FieldName::Album) <==> t.album is Unknown
            &&& missing.contains(FieldName::TrackTitle) <==> t.title is Unknown
        },
{
    let no_artist = !t.album_artist.is_known();
    let no_album = !t.album.is_known();
    let no_title = !t.title.is_known();
    let unsure = !t.sure(cfg.behaviour.min_confidence);
    let guessed = t.is_guessed();
    let a = only_if(no_artist, seq![FieldName::AlbumArtist]);
    let b = a + only_if(no_album, seq![FieldName::Album]);
    let missing = b + only_if(no_title, seq![FieldName::TrackTitle]);
    let reasons = only_if(no_artist, seq!["album artist could not be determined"@]) + only_if(
        no_album,
        seq!["album could not be determined"@],
    ) + only_if(no_title, seq![t.why_no_title()]) + only_if(
        unsure,
        seq!["confidence below configured minimum"@],
    ) + only_if(guessed, seq!["a configured default never justifies a move"@]);
    assert(reasons.len() == 0 <==> !no_artist && !no_album && !no_title && !unsure && !guessed);
    if no_artist {
        assert(missing[0] == FieldName::AlbumArtist);
    }
    if no_album {
        assert(missing[a.len() as int] == FieldName::Album);
    }
    if no_title {
        assert(missing[missing.len() - 1] == FieldName::TrackTitle);
    }
}

/// What a field is once a tag for it is known: the tag where there is one.
pub open spec fn tagged_or<T>(tag: Option<T>, f: FieldView<T>) -> Option<T> {
    match tag {
        Some(t) => Some(t),
        None => f.ok(),
    }
}

/// With the conservative ranks a track of which only the name was known has of
/// every tag that there is just its value, and keeps what there is no tag for.
/// Without a tag for it the artist of the album is `Various Artists` on a
/// compilation, and else that of the track. An album is a compilation where it
/// was, or the tags say so, or its artist is spelt out as various ones.
pub proof fn law_track_is_named_by_its_tags(t: ResolvedTrackView, tags: AudioTagsView)
    requires
        t.album_artist.is_from(Source::Filename),
        t.album.is_from(Source::Filename),
        t.year.is_from(Source::Filename),
        t.disc.is_from(Source::Filename),
        t.track.is_from(Source::Filename),
        t.title.is_from(Source::Filename),
        t.track_artist.is_from(Source::Filename),
    ensures
        ({
            let prefs = crate::domain::identity::conservative_preference();
            let r = t.with_tags(tags, prefs);
            let various = tags.album_artist matches Some(a) && {
                let low = text::ascii_lowercase(text::trim(a, CharClass::Space));
                low == "various artists"@ || low == "va"@
            };
            &&& r.title.ok() == tagged_or(tags.title, t.title)
            &&& r.album.ok() == tagged_or(tags.album, t.album)
            &&& r.year.ok() == tagged_or(tags.year, t.year)
            &&& r.disc.ok() == tagged_or(tags.disc, t.disc)
            &&& r.track.ok() == tagged_or(tags.track, t.track)
            &&& r.track_artist.ok() == tagged_or(tags.artist, t.track_artist)
            &&& r.compilation <==> t.compilation || tags.compilation == Some(true) || various
            &&& tags.album_artist matches Some(a) ==> r.album_artist.ok() == Some(a)
            &&& tags.album_artist is None && r.compilation ==> r.album_artist.ok() == Some(
                "Various Artists"@,
            )
            &&& tags.album_artist is None && !r.compilation ==> r.album_artist.ok() == tagged_or(
                tags.artist,
                t.album_artist,
            )
        }),
{
}

} // verus!
