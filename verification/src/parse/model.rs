//! Parsed filename model.

use crate::domain::duplicate::Duplicate;
use crate::domain::provenance::{Confidence, Field, FieldView, Source};
use vstd::prelude::*;

verus! {

/// Options controlling parsing: the years that count as years.
#[derive(Debug, Clone, Copy)]
pub struct ParseOptions {
    pub min_year: u16,
    pub max_year: u16,
}

impl Default for ParseOptions {
    fn default() -> (r: Self)
        ensures
            r.min_year == 1888,
            r.max_year == 2030,
    {
        ParseOptions { min_year: 1888, max_year: 2030 }
    }
}

/// Fields extracted from a movie filename.
#[derive(Debug, Clone, PartialEq, Eq)]
pub struct ParsedMovie {
    pub title: Field<String>,
    pub year: Field<u16>,
    pub edition: Field<String>,
    pub resolution: Field<String>,
    pub source: Field<String>,
    pub video_codec: Field<String>,
    pub audio_format: Field<String>,
    pub hdr: Field<String>,
    pub language: Field<String>,
    pub release_group: Field<String>,
    /// Copy-number suffix ` (N)` (`Movie (2010) (2).mkv`), unknown when the
    /// name has none.
    pub copy: Field<u16>,
    /// True when the filename looks like an episode marker.
    pub ambiguous_episode_like: bool,
}

/// The contents of a [`ParsedMovie`].
#[verifier::ext_equal]
pub struct MovieFields {
    pub title: FieldView<Seq<char>>,
    pub year: FieldView<u16>,
    pub edition: FieldView<Seq<char>>,
    pub resolution: FieldView<Seq<char>>,
    pub source: FieldView<Seq<char>>,
    pub video_codec: FieldView<Seq<char>>,
    pub audio_format: FieldView<Seq<char>>,
    pub hdr: FieldView<Seq<char>>,
    pub language: FieldView<Seq<char>>,
    pub release_group: FieldView<Seq<char>>,
    pub copy: FieldView<u16>,
    pub ambiguous_episode_like: bool,
}

impl MovieFields {
    /// Whether everything that is known comes from the name.
    pub open spec fn comes_from_name(self) -> bool {
        &&& self.title.is_from(Source::Filename)
        &&& self.year.is_from(Source::Filename)
        &&& self.edition.is_from(Source::Filename)
        &&& self.resolution.is_from(Source::Filename)
        &&& self.source.is_from(Source::Filename)
        &&& self.video_codec.is_from(Source::Filename)
        &&& self.audio_format.is_from(Source::Filename)
        &&& self.hdr.is_from(Source::Filename)
        &&& self.language.is_from(Source::Filename)
        &&& self.release_group.is_from(Source::Filename)
        &&& self.copy.is_from(Source::Filename)
    }

    /// Nothing known.
    pub open spec fn blank() -> Self {
        MovieFields {
            title: FieldView::blank(),
            year: FieldView::blank(),
            edition: FieldView::blank(),
            resolution: FieldView::blank(),
            source: FieldView::blank(),
            video_codec: FieldView::blank(),
            audio_format: FieldView::blank(),
            hdr: FieldView::blank(),
            language: FieldView::blank(),
            release_group: FieldView::blank(),
            copy: FieldView::blank(),
            ambiguous_episode_like: false,
        }
    }
}

impl DeepView for ParsedMovie {
    type V = MovieFields;

    open spec fn deep_view(&self) -> MovieFields {
        MovieFields {
            title: self.title.deep_view(),
            year: self.year.deep_view(),
            edition: self.edition.deep_view(),
            resolution: self.resolution.deep_view(),
            source: self.source.deep_view(),
            video_codec: self.video_codec.deep_view(),
            audio_format: self.audio_format.deep_view(),
            hdr: self.hdr.deep_view(),
            language: self.language.deep_view(),
            release_group: self.release_group.deep_view(),
            copy: self.copy.deep_view(),
            ambiguous_episode_like: self.ambiguous_episode_like,
        }
    }
}

impl Duplicate for ParsedMovie {
    fn duplicate(&self) -> (r: Self) {
        ParsedMovie {
            title: self.title.duplicate(),
            year: self.year.duplicate(),
            edition: self.edition.duplicate(),
            resolution: self.resolution.duplicate(),
            source: self.source.duplicate(),
            video_codec: self.video_codec.duplicate(),
            audio_format: self.audio_format.duplicate(),
            hdr: self.hdr.duplicate(),
            language: self.language.duplicate(),
            release_group: self.release_group.duplicate(),
            copy: self.copy.duplicate(),
            ambiguous_episode_like: self.ambiguous_episode_like,
        }
    }
}

impl Default for ParsedMovie {
    fn default() -> (r: Self)
        ensures
            r.deep_view() == MovieFields::blank(),
    {
        ParsedMovie {
            title: unknown(),
            year: unknown(),
            edition: unknown(),
            resolution: unknown(),
            source: unknown(),
            video_codec: unknown(),
            audio_format: unknown(),
            hdr: unknown(),
            language: unknown(),
            release_group: unknown(),
            copy: unknown(),
            ambiguous_episode_like: false,
        }
    }
}

impl ParsedMovie {
    /// Nothing known.
    pub fn new() -> (r: Self)
        ensures
            r.deep_view() == MovieFields::blank(),
    {
        Self::default()
    }

    /// `true` if every field is unknown.
    pub fn is_empty(&self) -> (r: bool)
        ensures
            r == self.deep_view().is_empty(),
    {
        !self.title.is_known()
            && !self.year.is_known()
            && !self.edition.is_known()
            && !self.resolution.is_known()
            && !self.source.is_known()
            && !self.video_codec.is_known()
            && !self.audio_format.is_known()
            && !self.hdr.is_known()
            && !self.language.is_known()
            && !self.release_group.is_known()
            && !self.copy.is_known()
    }
}

impl MovieFields {
    /// Whether every field is unknown.
    pub open spec fn is_empty(self) -> bool {
        &&& self.title is Unknown
        &&& self.year is Unknown
        &&& self.edition is Unknown
        &&& self.resolution is Unknown
        &&& self.source is Unknown
        &&& self.video_codec is Unknown
        &&& self.audio_format is Unknown
        &&& self.hdr is Unknown
        &&& self.language is Unknown
        &&& self.release_group is Unknown
        &&& self.copy is Unknown
    }
}

/// Fields extracted from a TV episode filename.
#[derive(Debug, Clone, PartialEq, Eq)]
pub struct ParsedEpisode {
    /// Show title.
    pub title: Field<String>,
    /// Show year, where two shows share a title.
    pub year: Field<u16>,
    pub season: Field<u16>,
    /// One or more episode numbers in this file.
    pub episodes: Field<Vec<u16>>,
    pub episode_title: Field<String>,
    pub resolution: Field<String>,
    pub source: Field<String>,
    pub video_codec: Field<String>,
    pub audio_format: Field<String>,
    pub hdr: Field<String>,
    pub language: Field<String>,
    pub release_group: Field<String>,
    /// Copy-number suffix ` (N)`, unknown when the name has none.
    pub copy: Field<u16>,
    /// True when the season/episode marker itself was ambiguous, so that it
    /// is flagged for review instead of guessed.
    pub ambiguous: bool,
}

/// The contents of a [`ParsedEpisode`].
#[verifier::ext_equal]
pub struct EpisodeFields {
    pub title: FieldView<Seq<char>>,
    pub year: FieldView<u16>,
    pub season: FieldView<u16>,
    pub episodes: FieldView<Seq<u16>>,
    pub episode_title: FieldView<Seq<char>>,
    pub resolution: FieldView<Seq<char>>,
    pub source: FieldView<Seq<char>>,
    pub video_codec: FieldView<Seq<char>>,
    pub audio_format: FieldView<Seq<char>>,
    pub hdr: FieldView<Seq<char>>,
    pub language: FieldView<Seq<char>>,
    pub release_group: FieldView<Seq<char>>,
    pub copy: FieldView<u16>,
    pub ambiguous: bool,
}

impl EpisodeFields {
    /// Whether everything that is known comes from the name.
    pub open spec fn comes_from_name(self) -> bool {
        &&& self.title.is_from(Source::Filename)
        &&& self.year.is_from(Source::Filename)
        &&& self.season.is_from(Source::Filename)
        &&& self.episodes.is_from(Source::Filename)
        &&& self.episode_title.is_from(Source::Filename)
        &&& self.resolution.is_from(Source::Filename)
        &&& self.source.is_from(Source::Filename)
        &&& self.video_codec.is_from(Source::Filename)
        &&& self.audio_format.is_from(Source::Filename)
        &&& self.hdr.is_from(Source::Filename)
        &&& self.language.is_from(Source::Filename)
        &&& self.release_group.is_from(Source::Filename)
        &&& self.copy.is_from(Source::Filename)
    }

    /// Nothing known.
    pub open spec fn blank() -> Self {
        EpisodeFields {
            title: FieldView::blank(),
            year: FieldView::blank(),
            season: FieldView::blank(),
            episodes: FieldView::blank(),
            episode_title: FieldView::blank(),
            resolution: FieldView::blank(),
            source: FieldView::blank(),
            video_codec: FieldView::blank(),
            audio_format: FieldView::blank(),
            hdr: FieldView::blank(),
            language: FieldView::blank(),
            release_group: FieldView::blank(),
            copy: FieldView::blank(),
            ambiguous: false,
        }
    }
}

impl DeepView for ParsedEpisode {
    type V = EpisodeFields;

    open spec fn deep_view(&self) -> EpisodeFields {
        EpisodeFields {
            title: self.title.deep_view(),
            year: self.year.deep_view(),
            season: self.season.deep_view(),
            episodes: self.episodes.deep_view(),
            episode_title: self.episode_title.deep_view(),
            resolution: self.resolution.deep_view(),
            source: self.source.deep_view(),
            video_codec: self.video_codec.deep_view(),
            audio_format: self.audio_format.deep_view(),
            hdr: self.hdr.deep_view(),
            language: self.language.deep_view(),
            release_group: self.release_group.deep_view(),
            copy: self.copy.deep_view(),
            ambiguous: self.ambiguous,
        }
    }
}

impl Duplicate for ParsedEpisode {
    fn duplicate(&self) -> (r: Self) {
        ParsedEpisode {
            title: self.title.duplicate(),
            year: self.year.duplicate(),
            season: self.season.duplicate(),
            episodes: self.episodes.duplicate(),
            episode_title: self.episode_title.duplicate(),
            resolution: self.resolution.duplicate(),
            source: self.source.duplicate(),
            video_codec: self.video_codec.duplicate(),
            audio_format: self.audio_format.duplicate(),
            hdr: self.hdr.duplicate(),
            language: self.language.duplicate(),
            release_group: self.release_group.duplicate(),
            copy: self.copy.duplicate(),
            ambiguous: self.ambiguous,
        }
    }
}

impl Default for ParsedEpisode {
    fn default() -> (r: Self)
        ensures
            r.deep_view() == EpisodeFields::blank(),
    {
        ParsedEpisode {
            title: unknown(),
            year: unknown(),
            season: unknown(),
            episodes: unknown(),
            episode_title: unknown(),
            resolution: unknown(),
            source: unknown(),
            video_codec: unknown(),
            audio_format: unknown(),
            hdr: unknown(),
            language: unknown(),
            release_group: unknown(),
            copy: unknown(),
            ambiguous: false,
        }
    }
}

impl ParsedEpisode {
    /// Nothing known.
    pub fn new() -> (r: Self)
        ensures
            r.deep_view() == EpisodeFields::blank(),
    {
        Self::default()
    }
}

/// Fields extracted from a music track.
#[derive(Debug, Clone, PartialEq, Eq)]
pub struct ParsedTrack {
    pub album_artist: Field<String>,
    pub album: Field<String>,
    pub year: Field<u16>,
    pub disc: Field<u16>,
    pub track: Field<u16>,
    pub title: Field<String>,
    /// `true` when the filename looked like `N - A - B`: artist and title
    /// cannot be told apart in that shape, so `title` is left unknown.
    pub ambiguous_artist_title: bool,
}

/// The contents of a [`ParsedTrack`].
#[verifier::ext_equal]
pub struct TrackFields {
    pub album_artist: FieldView<Seq<char>>,
    pub album: FieldView<Seq<char>>,
    pub year: FieldView<u16>,
    pub disc: FieldView<u16>,
    pub track: FieldView<u16>,
    pub title: FieldView<Seq<char>>,
    pub ambiguous_artist_title: bool,
}

impl TrackFields {
    /// Whether everything that is known comes from the name.
    pub open spec fn comes_from_name(self) -> bool {
        &&& self.album_artist.is_from(Source::Filename)
        &&& self.album.is_from(Source::Filename)
        &&& self.year.is_from(Source::Filename)
        &&& self.disc.is_from(Source::Filename)
        &&& self.track.is_from(Source::Filename)
        &&& self.title.is_from(Source::Filename)
    }

    /// Nothing known.
    pub open spec fn blank() -> Self {
        TrackFields {
            album_artist: FieldView::blank(),
            album: FieldView::blank(),
            year: FieldView::blank(),
            disc: FieldView::blank(),
            track: FieldView::blank(),
            title: FieldView::blank(),
            ambiguous_artist_title: false,
        }
    }
}

impl DeepView for ParsedTrack {
    type V = TrackFields;

    open spec fn deep_view(&self) -> TrackFields {
        TrackFields {
            album_artist: self.album_artist.deep_view(),
            album: self.album.deep_view(),
            year: self.year.deep_view(),
            disc: self.disc.deep_view(),
            track: self.track.deep_view(),
            title: self.title.deep_view(),
            ambiguous_artist_title: self.ambiguous_artist_title,
        }
    }
}

impl Duplicate for ParsedTrack {
    fn duplicate(&self) -> (r: Self) {
        ParsedTrack {
            album_artist: self.album_artist.duplicate(),
            album: self.album.duplicate(),
            year: self.year.duplicate(),
            disc: self.disc.duplicate(),
            track: self.track.duplicate(),
            title: self.title.duplicate(),
            ambiguous_artist_title: self.ambiguous_artist_title,
        }
    }
}

impl Default for ParsedTrack {
    fn default() -> (r: Self)
        ensures
            r.deep_view() == TrackFields::blank(),
    {
        ParsedTrack {
            album_artist: unknown(),
            album: unknown(),
            year: unknown(),
            disc: unknown(),
            track: unknown(),
            title: unknown(),
            ambiguous_artist_title: false,
        }
    }
}

impl ParsedTrack {
    /// Nothing known.
    pub fn new() -> (r: Self)
        ensures
            r.deep_view() == TrackFields::blank(),
    {
        Self::default()
    }
}

/// A known field.
pub fn known<T>(value: T, source: Source, confidence: Confidence) -> (r: Field<T>)
    ensures
        r == (Field::Known { value, source, confidence }),
{
    Field::known(value, source, confidence)
}

/// A field about which nothing is known and nothing was tried.
pub fn unknown<T>() -> (r: Field<T>)
    ensures
        r matches Field::Unknown { attempted } && attempted@ == Seq::<Source>::empty(),
{
    Field::unknown(Vec::new())
}

/// A media parse result.
#[derive(Debug, Clone, PartialEq, Eq)]
pub enum MediaParse {
    Movie(ParsedMovie),
    Episode(ParsedEpisode),
    Track(ParsedTrack),
    Unknown,
}

} // verus!
