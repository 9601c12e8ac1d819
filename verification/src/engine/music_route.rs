//! Music route stage.
//!
//! A track goes to the directory of its album under that of its artist, with a
//! directory for the disc where the album spans several.

use crate::domain::classify::FileClass;
use crate::domain::config::Config;
use crate::domain::identity::AlbumId;
use crate::domain::path::{FilePath, PathView};
use crate::domain::template::{rendered, ValueSource};
use crate::domain::volume::VolumeSemantics;
use crate::engine::layout::{
    both, digits, extend, extended, extension_or_empty, is_one_component,
    law_components_stand_in_order, nothing_called, number_value, pair, place, placed, safe,
    safe_component, text_value,
};
use crate::engine::music_resolve::{ResolvedTrack, ResolvedTrackView};
use crate::text;
use vstd::prelude::*;

verus! {

/// Routing context for one track, within its album group.
pub struct MusicRouteContext<'a> {
    pub root: &'a FilePath,
    pub id: &'a AlbumId,
    pub resolved: &'a ResolvedTrack,
    /// Whether the album spans more than one disc.
    pub multi_disc: bool,
    pub volume: &'a VolumeSemantics,
    pub cfg: &'a Config,
}

/// The value of a placeholder for a track.
pub open spec fn track_value(r: ResolvedTrackView, name: Seq<char>) -> Option<Seq<char>> {
    if name == "album_artist"@ {
        r.album_artist.ok()
    } else if name == "album"@ {
        r.album.ok()
    } else if name == "year"@ {
        digits(r.year)
    } else if name == "disc"@ {
        digits(r.disc)
    } else if name == "track"@ {
        match r.track.ok() {
            Some(n) => Some(text::decimal2(n as nat)),
            None => None,
        }
    } else if name == "title"@ {
        r.title.ok()
    } else if name == "track_artist"@ {
        r.track_artist.ok()
    } else {
        None
    }
}

/// The values of the placeholders for a track.
pub struct ValueSourceForTrack<'a> {
    pub resolved: &'a ResolvedTrack,
}

impl<'a> ValueSource for ValueSourceForTrack<'a> {
    open spec fn value(&self, name: Seq<char>) -> Option<Seq<char>> {
        track_value(self.resolved.deep_view(), name)
    }

    fn get(&self, name: &str) -> (r: Option<String>) {
        let r = self.resolved;
        if text::same_text(name, "album_artist") {
            text_value(&r.album_artist)
        } else if text::same_text(name, "album") {
            text_value(&r.album)
        } else if text::same_text(name, "year") {
            number_value(&r.year)
        } else if text::same_text(name, "disc") {
            number_value(&r.disc)
        } else if text::same_text(name, "track") {
            match r.track.as_value() {
                Some(n) => Some(text::decimal2_text(*n as u64)),
                None => None,
            }
        } else if text::same_text(name, "title") {
            text_value(&r.title)
        } else if text::same_text(name, "track_artist") {
            text_value(&r.track_artist)
        } else {
            None
        }
    }
}

impl<'a> MusicRouteContext<'a> {
    /// The values of the placeholders.
    pub open spec fn values(self) -> ValueSourceForTrack<'a> {
        ValueSourceForTrack { resolved: self.resolved }
    }

    /// The directories of the album.
    pub open spec fn dirs(self) -> Option<Seq<Seq<char>>> {
        let naming = self.cfg.naming.music;
        let album = both(
            safe(rendered(naming.artist_dir.deep_view().segments, &self.values()), *self.volume),
            safe(rendered(naming.album_dir.deep_view().segments, &self.values()), *self.volume),
        );
        if self.multi_disc && self.resolved.deep_view().disc.is_known() {
            extended(
                album,
                safe(rendered(naming.disc_dir.deep_view().segments, &self.values()), *self.volume),
            )
        } else {
            album
        }
    }

    /// The name of a track as the template has it, behind the artist of the
    /// track where that is asked for and known.
    pub open spec fn track_name(self) -> Seq<char> {
        let name = rendered(
            self.cfg.naming.music.file.deep_view().segments,
            &self.values(),
        );
        match self.resolved.deep_view().track_artist.ok() {
            Some(artist) if self.cfg.naming.music.compilation_prefix => artist + " - "@ + name,
            _ => name,
        }
    }

    /// The name of a file of a class, without its extension.
    pub open spec fn file(self, class: FileClass, original: PathView) -> Option<Seq<char>> {
        match class {
            FileClass::Audio => safe(self.track_name(), *self.volume),
            FileClass::Artwork => safe(self.cfg.naming.music.artwork@, *self.volume),
            FileClass::Metadata => safe(
                match original.stem() {
                    Some(s) => s,
                    None => "metadata"@,
                },
                *self.volume,
            ),
            _ => None,
        }
    }

    /// Where a file of a class goes.
    pub open spec fn destination(self, class: FileClass, original: PathView) -> Option<
        (PathView, PathView),
    > {
        match extended(self.dirs(), self.file(class, original)) {
            Some(parts) => Some(
                placed(
                    self.root.deep_view(),
                    parts,
                    extension_or_empty(original),
                    *self.volume,
                ),
            ),
            None => None,
        }
    }

    /// The directories of the album.
    fn base_dirs(&self) -> (r: Option<Vec<String>>)
        ensures
            r.deep_view() == self.dirs(),
            self.dirs() matches Some(dirs) ==> forall|i: int|
                0 <= i < dirs.len() ==> is_one_component(#[trigger] dirs[i]),
    {
        let naming = &self.cfg.naming.music;
        let values = ValueSourceForTrack { resolved: self.resolved };
        let artist = safe_component(&naming.artist_dir.render(&values), self.volume);
        let album = safe_component(&naming.album_dir.render(&values), self.volume);
        let dirs = pair(artist, album);
        if self.multi_disc && self.resolved.disc.is_known() {
            let disc = safe_component(&naming.disc_dir.render(&values), self.volume);
            extend(dirs, disc)
        } else {
            dirs
        }
    }

    /// The name of a file of a class, without its extension.
    fn name_of(&self, class: FileClass, original: &FilePath) -> (r: Option<String>)
        ensures
            r.deep_view() == self.file(class, original.deep_view()),
            r matches Some(n) ==> is_one_component(n@),
    {
        let naming = &self.cfg.naming.music;
        match class {
            FileClass::Audio => {
                let values = ValueSourceForTrack { resolved: self.resolved };
                let name = naming.file.render(&values);
                let full = match self.resolved.track_artist.as_value() {
                    Some(artist) if naming.compilation_prefix => artist.clone().concat(
                        " - ",
                    ).concat(&name),
                    _ => name,
                };
                safe_component(&full, self.volume)
            },
            FileClass::Artwork => safe_component(&naming.artwork, self.volume),
            FileClass::Metadata => {
                let stem = match original.file_stem() {
                    Some(s) => s,
                    None => "metadata".to_string(),
                };
                safe_component(&stem, self.volume)
            },
            _ => None,
        }
    }
}

/// Route a single music file to its destination paths (absolute and
/// root-relative). Videos and subtitles are not routed.
pub fn route(ctx: &MusicRouteContext, class: FileClass, original: &FilePath) -> (r: Option<
    (FilePath, FilePath),
>)
    ensures
        match r {
            Some((absolute, relative)) => ctx.destination(class, original.deep_view()) == Some(
                (absolute.deep_view(), relative.deep_view()),
            ),
            None => ctx.destination(class, original.deep_view()) is None,
        },
        r is Some ==> {
            &&& ctx.dirs() matches Some(dirs) && forall|i: int|
                0 <= i < dirs.len() ==> is_one_component(#[trigger] dirs[i])
            &&& ctx.file(class, original.deep_view()) matches Some(name) && is_one_component(name)
        },
{
    match extend(ctx.base_dirs(), ctx.name_of(class, original)) {
        Some(parts) => Some(place(ctx.root, parts, original, ctx.volume)),
        None => None,
    }
}

/// A track lies in the directory of its album, and that in the directory of the
/// artist right under the root; where the album spans several discs and the
/// disc is known, the track lies in the directory of the disc in that of the
/// album. Artwork and metadata lie where a track with these values would.
pub proof fn law_track_lies_under_artist_and_album(
    ctx: MusicRouteContext,
    class: FileClass,
    original: PathView,
    artist: Seq<char>,
    album: Seq<char>,
    disc: Seq<char>,
    name: Seq<char>,
)
    requires
        ({
            let naming = ctx.cfg.naming.music;
            let values = ValueSourceForTrack { resolved: ctx.resolved };
            let v = *ctx.volume;
            &&& safe(rendered(naming.artist_dir.deep_view().segments, &values), v) == Some(artist)
            &&& safe(rendered(naming.album_dir.deep_view().segments, &values), v) == Some(album)
            &&& safe(rendered(naming.disc_dir.deep_view().segments, &values), v) == Some(disc)
        }),
        ctx.file(class, original) == Some(name),
        is_one_component(artist),
        is_one_component(album),
        is_one_component(disc),
        is_one_component(name),
        nothing_called(ctx.root.deep_view(), artist, *ctx.volume),
    ensures
        ctx.destination(class, original) matches Some((absolute, relative)) && {
            let ext = extension_or_empty(original);
            let file = if ext.len() > 0 {
                name + "."@ + ext
            } else {
                name
            };
            let below = if ctx.multi_disc && ctx.resolved.deep_view().disc.ok() is Some {
                seq![artist, album, disc, file]
            } else {
                seq![artist, album, file]
            };
            &&& !relative.absolute
            &&& relative.parts == below
            &&& absolute.absolute == ctx.root.deep_view().absolute
            &&& absolute.parts == ctx.root.deep_view().parts + below
        },
{
    let apart = ctx.multi_disc && ctx.resolved.deep_view().disc.ok() is Some;
    let dirs = if apart {
        seq![artist, album, disc]
    } else {
        seq![artist, album]
    };
    let parts = dirs.push(name);
    assert(seq![artist, album].push(disc) =~= seq![artist, album, disc]);
    assert(ctx.dirs() == Some(dirs));
    law_components_stand_in_order(
        ctx.root.deep_view(),
        parts,
        extension_or_empty(original),
        *ctx.volume,
    );
    assert(parts.drop_last() =~= dirs);
}

} // verus!
