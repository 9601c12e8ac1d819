//! File classification: by extension, plus filename heuristics for artwork
//! and metadata. Unknown files are never moved and always reported.

use crate::text;
use vstd::prelude::*;

verus! {

/// What kind of media file this is.
#[derive(Debug, Clone, Copy, PartialEq, Eq, Hash, Structural)]
pub enum FileClass {
    Video,
    Audio,
    Subtitle,
    Artwork,
    Metadata,
    Unknown,
}

impl FileClass {
    /// The name of the class.
    pub open spec fn name(self) -> Seq<char> {
        match self {
            FileClass::Video => "video"@,
            FileClass::Audio => "audio"@,
            FileClass::Subtitle => "subtitle"@,
            FileClass::Artwork => "artwork"@,
            FileClass::Metadata => "metadata"@,
            FileClass::Unknown => "unknown"@,
        }
    }

    /// The name of the class.
    pub fn as_str(self) -> (r: &'static str)
        ensures
            r@ == self.name(),
    {
        match self {
            FileClass::Video => "video",
            FileClass::Audio => "audio",
            FileClass::Subtitle => "subtitle",
            FileClass::Artwork => "artwork",
            FileClass::Metadata => "metadata",
            FileClass::Unknown => "unknown",
        }
    }
}

/// Top-level media kind selected by the user for a run.
#[derive(Debug, Clone, Copy, PartialEq, Eq, Hash, Structural)]
pub enum MediaKind {
    Movies,
    Tv,
    Music,
}

/// The kind that a lowercase word names.
pub open spec fn kind_named(s: Seq<char>) -> Option<MediaKind> {
    if s == "movies"@ || s == "movie"@ {
        Some(MediaKind::Movies)
    } else if s == "tv"@ || s == "show"@ || s == "shows"@ {
        Some(MediaKind::Tv)
    } else if s == "music"@ {
        Some(MediaKind::Music)
    } else {
        None
    }
}

impl MediaKind {
    /// The name of the kind.
    pub open spec fn name(self) -> Seq<char> {
        match self {
            MediaKind::Movies => "movies"@,
            MediaKind::Tv => "tv"@,
            MediaKind::Music => "music"@,
        }
    }

    /// The name of the kind.
    pub fn as_str(self) -> (r: &'static str)
        ensures
            r@ == self.name(),
    {
        match self {
            MediaKind::Movies => "movies",
            MediaKind::Tv => "tv",
            MediaKind::Music => "music",
        }
    }

    /// The kind that a word names, whatever its case.
    pub fn parse(s: &str) -> (r: Option<Self>)
        ensures
            r == kind_named(text::ascii_lowercase(s@)),
    {
        let t = text::lowered_text(s);
        if text::same_text(&t, "movies") || text::same_text(&t, "movie") {
            Some(MediaKind::Movies)
        } else if text::same_text(&t, "tv") || text::same_text(&t, "show") || text::same_text(
            &t,
            "shows",
        ) {
            Some(MediaKind::Tv)
        } else if text::same_text(&t, "music") {
            Some(MediaKind::Music)
        } else {
            None
        }
    }
}

/// The name of a kind names it.
pub proof fn law_kind_name_round_trips(k: MediaKind)
    ensures
        kind_named(k.name()) == Some(k),
{
    reveal_strlit("movies");
    reveal_strlit("movie");
    reveal_strlit("tv");
    reveal_strlit("show");
    reveal_strlit("shows");
    reveal_strlit("music");
    assert("tv"@.len() == 2);
    assert("music"@.len() == 5 && "movie"@.len() == 5 && "shows"@.len() == 5);
    assert("music"@[1] == 'u' && "movie"@[1] == 'o' && "shows"@[1] == 'h');
    assert("movies"@.len() == 6);
}

/// The stems that artwork goes by.
pub open spec fn artwork_names() -> Seq<Seq<char>> {
    seq![
        "cover"@,
        "folder"@,
        "poster"@,
        "fanart"@,
        "backdrop"@,
        "banner"@,
        "album"@,
        "front"@,
        "thumb"@,
        "landscape"@,
        "clearart"@,
        "disc"@,
        "cd"@,
    ]
}

/// Whether a stem is a name, or begins with it and a separator.
pub open spec fn is_name_or_extends(stem: Seq<char>, name: Seq<char>) -> bool {
    ||| stem == name
    ||| text::begins_with(stem, name) && stem.len() > name.len() && (stem[name.len() as int] == '-'
        || stem[name.len() as int] == '_' || stem[name.len() as int] == '.'
        || stem[name.len() as int] == ' ')
}

/// Whether a stem is that of artwork: one of the names, whatever its case, or
/// one of them and a separator at its start.
pub open spec fn is_artwork(stem: Seq<char>) -> bool {
    exists|i: int|
        0 <= i < artwork_names().len() && is_name_or_extends(
            text::ascii_lowercase(stem),
            #[trigger] artwork_names()[i],
        )
}

/// Tests for a name, or a name and a separator.
fn matches_name(stem: &Vec<char>, name: &str) -> (r: bool)
    ensures
        r == is_name_or_extends(stem@, name@),
{
    let n = text::to_chars(name);
    if text::same_chars(stem, &n) {
        return true;
    }
    if text::starts(stem, &n) && stem.len() > n.len() {
        let c = stem[n.len()];
        return c == '-' || c == '_' || c == '.' || c == ' ';
    }
    false
}

/// The stems that artwork goes by.
fn artwork_list() -> (r: &'static [&'static str])
    ensures
        r.deep_view() == artwork_names(),
{
    &[
        "cover",
        "folder",
        "poster",
        "fanart",
        "backdrop",
        "banner",
        "album",
        "front",
        "thumb",
        "landscape",
        "clearart",
        "disc",
        "cd",
    ]
}

/// Filename heuristics for artwork.
pub fn is_artwork_stem(stem: &str) -> (r: bool)
    ensures
        r == is_artwork(stem@),
{
    let lower = text::lowered(&text::to_chars(stem));
    let list = artwork_list();
    let ghost names = artwork_names();
    let mut i: usize = 0;
    while i < list.len()
        invariant
            i <= list@.len(),
            list.deep_view() == names,
            names == artwork_names(),
            lower@ == text::ascii_lowercase(stem@),
            forall|k: int| 0 <= k < i ==> !is_name_or_extends(lower@, #[trigger] names[k]),
        decreases list@.len() - i,
    {
        proof {
            assert(list.deep_view()[i as int] == list@[i as int]@);
        }
        if matches_name(&lower, list[i]) {
            return true;
        }
        i = i + 1;
    }
    proof {
        assert(names.len() == list@.len());
    }
    false
}

/// Whether a lowercase extension is that of a metadata sidecar.
pub open spec fn is_metadata(ext: Seq<char>) -> bool {
    ext == "nfo"@ || ext == "xml"@ || ext == "json"@ || ext == "cue"@ || ext == "m3u"@ || ext
        == "m3u8"@
}

/// Filename heuristics for metadata sidecars.
pub fn is_metadata_ext(ext_lower: &str) -> (r: bool)
    ensures
        r == is_metadata(ext_lower@),
{
    text::same_text(ext_lower, "nfo") || text::same_text(ext_lower, "xml") || text::same_text(
        ext_lower,
        "json",
    ) || text::same_text(ext_lower, "cue") || text::same_text(ext_lower, "m3u") || text::same_text(
        ext_lower,
        "m3u8",
    )
}

} // verus!
