//! Built-in defaults.

use super::{
    Behaviour, Cleanup, CompareField, Concurrency, Config, Conflict, ConflictPolicy, Extensions,
    MovieNaming, Moves, MusicNaming, Naming, Providers, StrategyConfig, SymlinkPolicy, TvNaming,
    VerifyMode, Workers,
};
use crate::domain::identity::{conservative_preference, SourcePreference};
use crate::domain::provenance::Confidence;
use crate::domain::template::{segment_view, segment_views, Segment, SegmentView, Template};
use vstd::prelude::*;

verus! {

/// A literal piece.
fn lit(s: &str) -> (r: Segment)
    ensures
        segment_view(r) == SegmentView::Literal(s@),
{
    Segment::Literal(s.to_string())
}

/// A placeholder.
fn hole(s: &str) -> (r: Segment)
    ensures
        segment_view(r) == SegmentView::Required(s@),
{
    Segment::Required(s.to_string())
}

/// The contents of listed pieces.
proof fn lemma_views(list: Seq<Segment>)
    ensures
        segment_views(list) == Seq::new(list.len(), |i: int| segment_view(list[i])),
{
    crate::domain::template::lemma_segment_views(list);
    assert(segment_views(list) =~= Seq::new(list.len(), |i: int| segment_view(list[i])));
}

/// A group of two pieces.
fn pair(a: Segment, b: Segment) -> (r: Segment)
    ensures
        segment_view(r) == SegmentView::Optional(seq![segment_view(a), segment_view(b)]),
{
    let v: Vec<Segment> = vec![a, b];
    proof {
        lemma_views(v@);
        assert(segment_views(v@) =~= seq![segment_view(a), segment_view(b)]);
    }
    Segment::Optional(v)
}

/// A group of three pieces.
fn triple(a: Segment, b: Segment, c: Segment) -> (r: Segment)
    ensures
        segment_view(r) == SegmentView::Optional(
            seq![segment_view(a), segment_view(b), segment_view(c)],
        ),
{
    let v: Vec<Segment> = vec![a, b, c];
    proof {
        lemma_views(v@);
        assert(segment_views(v@) =~= seq![segment_view(a), segment_view(b), segment_view(c)]);
    }
    Segment::Optional(v)
}

/// The template `{title}[ ({year})]`.
pub open spec fn is_title_year(t: Template) -> bool {
    &&& t.raw@ == "{title}[ ({year})]"@
    &&& segment_views(t.segments@) == seq![
        SegmentView::Required("title"@),
        SegmentView::Optional(seq![SegmentView::Literal(" ("@), SegmentView::Required("year"@), SegmentView::Literal(")"@)]),
    ]
}

/// The template `{title}[ ({year})]`.
fn title_year() -> (r: Template)
    ensures
        is_title_year(r),
{
    let segments: Vec<Segment> = vec![hole("title"), triple(lit(" ("), hole("year"), lit(")"))];
    proof {
        lemma_views(segments@);
        assert(segment_views(segments@) =~= seq![
            SegmentView::Required("title"@),
            SegmentView::Optional(seq![SegmentView::Literal(" ("@), SegmentView::Required("year"@), SegmentView::Literal(")"@)]),
        ]);
    }
    Template { raw: "{title}[ ({year})]".to_string(), segments }
}

/// The template `{title}[ ({year})]{discriminators}`.
pub open spec fn is_movie_file(t: Template) -> bool {
    &&& t.raw@ == "{title}[ ({year})]{discriminators}"@
    &&& segment_views(t.segments@) == seq![
        SegmentView::Required("title"@),
        SegmentView::Optional(seq![SegmentView::Literal(" ("@), SegmentView::Required("year"@), SegmentView::Literal(")"@)]),
        SegmentView::Required("discriminators"@),
    ]
}

/// The template `{title}[ ({year})]{discriminators}`.
fn movie_file() -> (r: Template)
    ensures
        is_movie_file(r),
{
    let segments: Vec<Segment> = vec![hole("title"), triple(lit(" ("), hole("year"), lit(")")), hole("discriminators")];
    proof {
        lemma_views(segments@);
        assert(segment_views(segments@) =~= seq![
            SegmentView::Required("title"@),
            SegmentView::Optional(seq![SegmentView::Literal(" ("@), SegmentView::Required("year"@), SegmentView::Literal(")"@)]),
            SegmentView::Required("discriminators"@),
        ]);
    }
    Template { raw: "{title}[ ({year})]{discriminators}".to_string(), segments }
}

/// The template `{title}[ ({year})].{language}[.{flags}]`.
pub open spec fn is_movie_sub(t: Template) -> bool {
    &&& t.raw@ == "{title}[ ({year})].{language}[.{flags}]"@
    &&& segment_views(t.segments@) == seq![
        SegmentView::Required("title"@),
        SegmentView::Optional(seq![SegmentView::Literal(" ("@), SegmentView::Required("year"@), SegmentView::Literal(")"@)]),
        SegmentView::Literal("."@),
        SegmentView::Required("language"@),
        SegmentView::Optional(seq![SegmentView::Literal("."@), SegmentView::Required("flags"@)]),
    ]
}

/// The template `{title}[ ({year})].{language}[.{flags}]`.
fn movie_sub() -> (r: Template)
    ensures
        is_movie_sub(r),
{
    let segments: Vec<Segment> = vec![hole("title"), triple(lit(" ("), hole("year"), lit(")")), lit("."), hole("language"), pair(lit("."), hole("flags"))];
    proof {
        lemma_views(segments@);
        assert(segment_views(segments@) =~= seq![
            SegmentView::Required("title"@),
            SegmentView::Optional(seq![SegmentView::Literal(" ("@), SegmentView::Required("year"@), SegmentView::Literal(")"@)]),
            SegmentView::Literal("."@),
            SegmentView::Required("language"@),
            SegmentView::Optional(seq![SegmentView::Literal("."@), SegmentView::Required("flags"@)]),
        ]);
    }
    Template { raw: "{title}[ ({year})].{language}[.{flags}]".to_string(), segments }
}

/// The template `Season {season:02}`.
pub open spec fn is_season_dir(t: Template) -> bool {
    &&& t.raw@ == "Season {season:02}"@
    &&& segment_views(t.segments@) == seq![
        SegmentView::Literal("Season "@),
        SegmentView::Required("season"@),
    ]
}

/// The template `Season {season:02}`.
fn season_dir() -> (r: Template)
    ensures
        is_season_dir(r),
{
    let segments: Vec<Segment> = vec![lit("Season "), hole("season")];
    proof {
        lemma_views(segments@);
        assert(segment_views(segments@) =~= seq![
            SegmentView::Literal("Season "@),
            SegmentView::Required("season"@),
        ]);
    }
    Template { raw: "Season {season:02}".to_string(), segments }
}

/// The template `{title}[ ({year})] - {episode_code}[ - {episode_title}]{discriminators}`.
pub open spec fn is_episode_file(t: Template) -> bool {
    &&& t.raw@ == "{title}[ ({year})] - {episode_code}[ - {episode_title}]{discriminators}"@
    &&& segment_views(t.segments@) == seq![
        SegmentView::Required("title"@),
        SegmentView::Optional(seq![SegmentView::Literal(" ("@), SegmentView::Required("year"@), SegmentView::Literal(")"@)]),
        SegmentView::Literal(" - "@),
        SegmentView::Required("episode_code"@),
        SegmentView::Optional(seq![SegmentView::Literal(" - "@), SegmentView::Required("episode_title"@)]),
        SegmentView::Required("discriminators"@),
    ]
}

/// The template `{title}[ ({year})] - {episode_code}[ - {episode_title}]{discriminators}`.
fn episode_file() -> (r: Template)
    ensures
        is_episode_file(r),
{
    let segments: Vec<Segment> = vec![hole("title"), triple(lit(" ("), hole("year"), lit(")")), lit(" - "), hole("episode_code"), pair(lit(" - "), hole("episode_title")), hole("discriminators")];
    proof {
        lemma_views(segments@);
        assert(segment_views(segments@) =~= seq![
            SegmentView::Required("title"@),
            SegmentView::Optional(seq![SegmentView::Literal(" ("@), SegmentView::Required("year"@), SegmentView::Literal(")"@)]),
            SegmentView::Literal(" - "@),
            SegmentView::Required("episode_code"@),
            SegmentView::Optional(seq![SegmentView::Literal(" - "@), SegmentView::Required("episode_title"@)]),
            SegmentView::Required("discriminators"@),
        ]);
    }
    Template { raw: "{title}[ ({year})] - {episode_code}[ - {episode_title}]{discriminators}".to_string(), segments }
}

/// The template `{title}[ ({year})] - {episode_code}[ - {episode_title}].{language}[.{flags}]`.
pub open spec fn is_episode_sub(t: Template) -> bool {
    &&& t.raw@ == "{title}[ ({year})] - {episode_code}[ - {episode_title}].{language}[.{flags}]"@
    &&& segment_views(t.segments@) == seq![
        SegmentView::Required("title"@),
        SegmentView::Optional(seq![SegmentView::Literal(" ("@), SegmentView::Required("year"@), SegmentView::Literal(")"@)]),
        SegmentView::Literal(" - "@),
        SegmentView::Required("episode_code"@),
        SegmentView::Optional(seq![SegmentView::Literal(" - "@), SegmentView::Required("episode_title"@)]),
        SegmentView::Literal("."@),
        SegmentView::Required("language"@),
        SegmentView::Optional(seq![SegmentView::Literal("."@), SegmentView::Required("flags"@)]),
    ]
}

/// The template `{title}[ ({year})] - {episode_code}[ - {episode_title}].{language}[.{flags}]`.
fn episode_sub() -> (r: Template)
    ensures
        is_episode_sub(r),
{
    let segments: Vec<Segment> = vec![hole("title"), triple(lit(" ("), hole("year"), lit(")")), lit(" - "), hole("episode_code"), pair(lit(" - "), hole("episode_title")), lit("."), hole("language"), pair(lit("."), hole("flags"))];
    proof {
        lemma_views(segments@);
        assert(segment_views(segments@) =~= seq![
            SegmentView::Required("title"@),
            SegmentView::Optional(seq![SegmentView::Literal(" ("@), SegmentView::Required("year"@), SegmentView::Literal(")"@)]),
            SegmentView::Literal(" - "@),
            SegmentView::Required("episode_code"@),
            SegmentView::Optional(seq![SegmentView::Literal(" - "@), SegmentView::Required("episode_title"@)]),
            SegmentView::Literal("."@),
            SegmentView::Required("language"@),
            SegmentView::Optional(seq![SegmentView::Literal("."@), SegmentView::Required("flags"@)]),
        ]);
    }
    Template { raw: "{title}[ ({year})] - {episode_code}[ - {episode_title}].{language}[.{flags}]".to_string(), segments }
}

/// The template `{album_artist}`.
pub open spec fn is_artist_dir(t: Template) -> bool {
    &&& t.raw@ == "{album_artist}"@
    &&& segment_views(t.segments@) == seq![
        SegmentView::Required("album_artist"@),
    ]
}

/// The template `{album_artist}`.
fn artist_dir() -> (r: Template)
    ensures
        is_artist_dir(r),
{
    let segments: Vec<Segment> = vec![hole("album_artist")];
    proof {
        lemma_views(segments@);
        assert(segment_views(segments@) =~= seq![
            SegmentView::Required("album_artist"@),
        ]);
    }
    Template { raw: "{album_artist}".to_string(), segments }
}

/// The template `{album}[ ({year})]`.
pub open spec fn is_album_dir(t: Template) -> bool {
    &&& t.raw@ == "{album}[ ({year})]"@
    &&& segment_views(t.segments@) == seq![
        SegmentView::Required("album"@),
        SegmentView::Optional(seq![SegmentView::Literal(" ("@), SegmentView::Required("year"@), SegmentView::Literal(")"@)]),
    ]
}

/// The template `{album}[ ({year})]`.
fn album_dir() -> (r: Template)
    ensures
        is_album_dir(r),
{
    let segments: Vec<Segment> = vec![hole("album"), triple(lit(" ("), hole("year"), lit(")"))];
    proof {
        lemma_views(segments@);
        assert(segment_views(segments@) =~= seq![
            SegmentView::Required("album"@),
            SegmentView::Optional(seq![SegmentView::Literal(" ("@), SegmentView::Required("year"@), SegmentView::Literal(")"@)]),
        ]);
    }
    Template { raw: "{album}[ ({year})]".to_string(), segments }
}

/// The template `CD {disc}`.
pub open spec fn is_disc_dir(t: Template) -> bool {
    &&& t.raw@ == "CD {disc}"@
    &&& segment_views(t.segments@) == seq![
        SegmentView::Literal("CD "@),
        SegmentView::Required("disc"@),
    ]
}

/// The template `CD {disc}`.
fn disc_dir() -> (r: Template)
    ensures
        is_disc_dir(r),
{
    let segments: Vec<Segment> = vec![lit("CD "), hole("disc")];
    proof {
        lemma_views(segments@);
        assert(segment_views(segments@) =~= seq![
            SegmentView::Literal("CD "@),
            SegmentView::Required("disc"@),
        ]);
    }
    Template { raw: "CD {disc}".to_string(), segments }
}

/// The template `[{track:02} - ]{title}`.
pub open spec fn is_track_file(t: Template) -> bool {
    &&& t.raw@ == "[{track:02} - ]{title}"@
    &&& segment_views(t.segments@) == seq![
        SegmentView::Optional(seq![SegmentView::Required("track"@), SegmentView::Literal(" - "@)]),
        SegmentView::Required("title"@),
    ]
}

/// The template `[{track:02} - ]{title}`.
fn track_file() -> (r: Template)
    ensures
        is_track_file(r),
{
    let segments: Vec<Segment> = vec![pair(hole("track"), lit(" - ")), hole("title")];
    proof {
        lemma_views(segments@);
        assert(segment_views(segments@) =~= seq![
            SegmentView::Optional(seq![SegmentView::Required("track"@), SegmentView::Literal(" - "@)]),
            SegmentView::Required("title"@),
        ]);
    }
    Template { raw: "[{track:02} - ]{title}".to_string(), segments }
}

/// The extension sets that are used unless others are configured.
pub open spec fn are_default_extensions(e: Extensions) -> bool {
    &&& e.video.deep_view() == seq![
        "mkv"@,
        "mp4"@,
        "m4v"@,
        "avi"@,
        "mov"@,
        "wmv"@,
        "ts"@,
        "m2ts"@,
        "webm"@,
    ]
    &&& e.audio.deep_view() == seq![
        "mp3"@,
        "flac"@,
        "m4a"@,
        "aac"@,
        "ogg"@,
        "opus"@,
        "wav"@,
        "wma"@,
        "alac"@,
    ]
    &&& e.subtitle.deep_view() == seq![
        "srt"@,
        "ass"@,
        "ssa"@,
        "sub"@,
        "idx"@,
        "vtt"@,
        "sup"@,
    ]
    &&& e.artwork.deep_view() == seq![
        "jpg"@,
        "jpeg"@,
        "png"@,
        "webp"@,
        "tbn"@,
    ]
    &&& e.metadata.deep_view() == seq![
        "nfo"@,
        "xml"@,
        "json"@,
        "cue"@,
    ]
}

/// The extension sets that are used unless others are configured.
pub fn default_extensions() -> (r: Extensions)
    ensures
        are_default_extensions(r),
{
    let r = Extensions {
        video: vec![
            "mkv".to_string(),
            "mp4".to_string(),
            "m4v".to_string(),
            "avi".to_string(),
            "mov".to_string(),
            "wmv".to_string(),
            "ts".to_string(),
            "m2ts".to_string(),
            "webm".to_string(),
        ],
        audio: vec![
            "mp3".to_string(),
            "flac".to_string(),
            "m4a".to_string(),
            "aac".to_string(),
            "ogg".to_string(),
            "opus".to_string(),
            "wav".to_string(),
            "wma".to_string(),
            "alac".to_string(),
        ],
        subtitle: vec![
            "srt".to_string(),
            "ass".to_string(),
            "ssa".to_string(),
            "sub".to_string(),
            "idx".to_string(),
            "vtt".to_string(),
            "sup".to_string(),
        ],
        artwork: vec![
            "jpg".to_string(),
            "jpeg".to_string(),
            "png".to_string(),
            "webp".to_string(),
            "tbn".to_string(),
        ],
        metadata: vec![
            "nfo".to_string(),
            "xml".to_string(),
            "json".to_string(),
            "cue".to_string(),
        ],
    };
    proof {
        assert(r.video.deep_view() =~= seq![
            "mkv"@,
            "mp4"@,
            "m4v"@,
            "avi"@,
            "mov"@,
            "wmv"@,
            "ts"@,
            "m2ts"@,
            "webm"@,
        ]);
        assert(r.audio.deep_view() =~= seq![
            "mp3"@,
            "flac"@,
            "m4a"@,
            "aac"@,
            "ogg"@,
            "opus"@,
            "wav"@,
            "wma"@,
            "alac"@,
        ]);
        assert(r.subtitle.deep_view() =~= seq![
            "srt"@,
            "ass"@,
            "ssa"@,
            "sub"@,
            "idx"@,
            "vtt"@,
            "sup"@,
        ]);
        assert(r.artwork.deep_view() =~= seq![
            "jpg"@,
            "jpeg"@,
            "png"@,
            "webp"@,
            "tbn"@,
        ]);
        assert(r.metadata.deep_view() =~= seq![
            "nfo"@,
            "xml"@,
            "json"@,
            "cue"@,
        ]);
    }
    r
}

/// The naming of movies that is used unless another is configured.
pub open spec fn is_default_movie_naming(n: MovieNaming) -> bool {
    &&& is_title_year(n.dir)
    &&& is_movie_file(n.file)
    &&& n.subs_dir@ == "subs"@
    &&& is_movie_sub(n.sub_file)
    &&& n.artwork@ == "poster"@
    &&& is_title_year(n.nfo)
}

/// The naming of TV episodes that is used unless another is configured.
pub open spec fn is_default_tv_naming(n: TvNaming) -> bool {
    &&& is_title_year(n.show_dir)
    &&& is_season_dir(n.season_dir)
    &&& n.specials_dir@ == "Specials"@
    &&& is_episode_file(n.file)
    &&& is_episode_sub(n.sub_file)
}

/// The naming of music that is used unless another is configured.
pub open spec fn is_default_music_naming(n: MusicNaming) -> bool {
    &&& is_artist_dir(n.artist_dir)
    &&& is_album_dir(n.album_dir)
    &&& is_disc_dir(n.disc_dir)
    &&& is_track_file(n.file)
    &&& n.artwork@ == "cover"@
    &&& !n.compilation_prefix
}

/// The naming that is used unless another is configured.
pub open spec fn is_default_naming(n: Naming) -> bool {
    &&& is_default_movie_naming(n.movies)
    &&& is_default_tv_naming(n.tv)
    &&& is_default_music_naming(n.music)
}

/// The naming that is used unless another is configured.
pub fn default_naming() -> (r: Naming)
    ensures
        is_default_naming(r),
{
    Naming {
        movies: MovieNaming {
            dir: title_year(),
            file: movie_file(),
            subs_dir: "subs".to_string(),
            sub_file: movie_sub(),
            artwork: "poster".to_string(),
            nfo: title_year(),
        },
        tv: TvNaming {
            show_dir: title_year(),
            season_dir: season_dir(),
            specials_dir: "Specials".to_string(),
            file: episode_file(),
            sub_file: episode_sub(),
        },
        music: MusicNaming {
            artist_dir: artist_dir(),
            album_dir: album_dir(),
            disc_dir: disc_dir(),
            file: track_file(),
            artwork: "cover".to_string(),
            compilation_prefix: false,
        },
    }
}

/// The configuration that is used unless another is given.
pub open spec fn is_default(c: Config) -> bool {
    &&& c.schema_version == 1
    &&& are_default_extensions(c.extensions)
    &&& c.behaviour == (Behaviour {
        symlinks: SymlinkPolicy::Skip,
        create_subs_dir: true,
        normalise_artwork: false,
        require_year_for_movies: true,
        require_year_for_tv: false,
        min_confidence: Confidence::Medium,
    })
    &&& c.moves == (Moves {
        no_replace_strategy: StrategyConfig::Auto,
        verify: VerifyMode::Size,
        preserve_mtime: true,
    })
    &&& c.conflict.policy == ConflictPolicy::Report
    &&& c.conflict.compare@ == seq![CompareField::Size, CompareField::Blake3]
    &&& c.cleanup.remove_empty_dirs
    &&& !c.cleanup.tolerate_junk
    &&& c.cleanup.junk_names.deep_view() == seq![".DS_Store"@, "Thumbs.db"@, "desktop.ini"@]
    &&& !c.providers.enabled
    &&& c.concurrency == (Concurrency {
        workers: Workers::Auto,
        probe_workers: Workers::Auto,
        hash_workers: Workers::Auto,
    })
    &&& is_default_naming(c.naming)
    &&& c.source_preference == conservative_preference()
}

/// The configuration that is used unless another is given.
pub fn default_config() -> (r: Config)
    ensures
        is_default(r),
{
    Config {
        schema_version: 1,
        extensions: default_extensions(),
        behaviour: Behaviour::default(),
        moves: Moves::default(),
        conflict: Conflict::default(),
        cleanup: Cleanup::default(),
        providers: Providers::default(),
        concurrency: Concurrency::default(),
        naming: default_naming(),
        source_preference: SourcePreference::conservative_default(),
    }
}

} // verus!
