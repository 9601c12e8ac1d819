//! Route stage.
//!
//! Destination paths of movies and what belongs to them, from resolved fields
//! and the naming templates.

use crate::domain::classify::FileClass;
use crate::domain::config::Config;
use crate::domain::identity::MovieId;
use crate::domain::path::{FilePath, PathView};
use crate::domain::template::{rendered, ValueSource};
use crate::domain::volume::VolumeSemantics;
use crate::engine::layout::{
    both, dashed, digits, extend, extended, extension_or_empty, is_one_component,
    law_components_stand_in_order, nothing_called, number_value, pair, place, placed, push_dashed, safe,
    safe_component, text_value,
};
use crate::engine::resolve::{ResolvedMovie, ResolvedMovieView};
use crate::text;
use vstd::prelude::*;

verus! {

/// Routing context for one movie.
pub struct RouteContext<'a> {
    pub root: &'a FilePath,
    pub id: &'a MovieId,
    pub resolved: &'a ResolvedMovie,
    pub volume: &'a VolumeSemantics,
    pub cfg: &'a Config,
}

/// What tells versions of a movie apart, each known part behind a dash: the
/// resolution, then the edition, then the source, then the other tags.
pub open spec fn discriminators(r: ResolvedMovieView) -> Seq<char> {
    dashed(r.resolution) + dashed(r.edition) + dashed(r.source) + dashed(r.hdr) + dashed(
        r.video_codec,
    ) + dashed(r.audio_format)
}

/// Build the escalating discriminator chain.
pub fn build_discriminators(r: &ResolvedMovie) -> (out: String)
    ensures
        out@ == discriminators(r.deep_view()),
{
    let mut out = String::new();
    proof {
        reveal_strlit("");
        assert(out@ =~= Seq::empty());
    }
    push_dashed(&mut out, &r.resolution);
    push_dashed(&mut out, &r.edition);
    push_dashed(&mut out, &r.source);
    push_dashed(&mut out, &r.hdr);
    push_dashed(&mut out, &r.video_codec);
    push_dashed(&mut out, &r.audio_format);
    proof {
        assert(out@ =~= discriminators(r.deep_view()));
    }
    out
}

/// The value of a placeholder for a movie.
pub open spec fn movie_value(r: ResolvedMovieView, with_versions: bool, name: Seq<char>) -> Option<
    Seq<char>,
> {
    if name == "title"@ {
        r.title.ok()
    } else if name == "year"@ {
        digits(r.year)
    } else if name == "edition"@ {
        r.edition.ok()
    } else if name == "resolution"@ {
        r.resolution.ok()
    } else if name == "source"@ {
        r.source.ok()
    } else if name == "video_codec"@ {
        r.video_codec.ok()
    } else if name == "audio_format"@ {
        r.audio_format.ok()
    } else if name == "hdr"@ {
        r.hdr.ok()
    } else if name == "discriminators"@ {
        if with_versions {
            Some(discriminators(r))
        } else {
            Some(Seq::empty())
        }
    } else {
        None
    }
}

/// The values of the placeholders for a movie.
pub struct ValueSourceForMovie<'a> {
    pub resolved: &'a ResolvedMovie,
    pub include_discriminators: bool,
}

impl<'a> ValueSource for ValueSourceForMovie<'a> {
    open spec fn value(&self, name: Seq<char>) -> Option<Seq<char>> {
        movie_value(self.resolved.deep_view(), self.include_discriminators, name)
    }

    fn get(&self, name: &str) -> (r: Option<String>) {
        let r = self.resolved;
        if text::same_text(name, "title") {
            text_value(&r.title)
        } else if text::same_text(name, "year") {
            number_value(&r.year)
        } else if text::same_text(name, "edition") {
            text_value(&r.edition)
        } else if text::same_text(name, "resolution") {
            text_value(&r.resolution)
        } else if text::same_text(name, "source") {
            text_value(&r.source)
        } else if text::same_text(name, "video_codec") {
            text_value(&r.video_codec)
        } else if text::same_text(name, "audio_format") {
            text_value(&r.audio_format)
        } else if text::same_text(name, "hdr") {
            text_value(&r.hdr)
        } else if text::same_text(name, "discriminators") {
            if self.include_discriminators {
                Some(build_discriminators(r))
            } else {
                let none = String::new();
                proof {
                    reveal_strlit("");
                    assert(none@ =~= Seq::empty());
                }
                Some(none)
            }
        } else {
            None
        }
    }
}

/// The values of the placeholders for a subtitle of a movie: the language is
/// not looked for and there are no flags.
pub struct SubtitleValueSource<'a> {
    pub inner: ValueSourceForMovie<'a>,
}

impl<'a> ValueSource for SubtitleValueSource<'a> {
    open spec fn value(&self, name: Seq<char>) -> Option<Seq<char>> {
        if name == "language"@ {
            Some("und"@)
        } else if name == "flags"@ {
            None
        } else {
            self.inner.value(name)
        }
    }

    fn get(&self, name: &str) -> (r: Option<String>) {
        if text::same_text(name, "language") {
            Some("und".to_string())
        } else if text::same_text(name, "flags") {
            None
        } else {
            self.inner.get(name)
        }
    }
}

impl<'a> RouteContext<'a> {
    /// The values for directories and other files than the movie itself.
    pub open spec fn plain(self) -> ValueSourceForMovie<'a> {
        ValueSourceForMovie { resolved: self.resolved, include_discriminators: false }
    }

    /// The values for the movie itself.
    pub open spec fn versioned(self) -> ValueSourceForMovie<'a> {
        ValueSourceForMovie { resolved: self.resolved, include_discriminators: true }
    }

    /// The directory of the movie.
    pub open spec fn dir(self) -> Option<Seq<char>> {
        safe(
            rendered(self.cfg.naming.movies.dir.deep_view().segments, &self.plain()),
            *self.volume,
        )
    }

    /// The name of a file of a class, without its extension.
    pub open spec fn file(self, class: FileClass) -> Option<Seq<char>> {
        let naming = self.cfg.naming.movies;
        match class {
            FileClass::Video => safe(
                rendered(naming.file.deep_view().segments, &self.versioned()),
                *self.volume,
            ),
            FileClass::Subtitle => safe(
                rendered(
                    naming.sub_file.deep_view().segments,
                    &(SubtitleValueSource { inner: self.versioned() }),
                ),
                *self.volume,
            ),
            FileClass::Artwork => safe(naming.artwork@, *self.volume),
            FileClass::Metadata => safe(
                rendered(naming.nfo.deep_view().segments, &self.plain()),
                *self.volume,
            ),
            _ => None,
        }
    }

    /// The components of the destination of a file of a class: the directory
    /// of the movie, for a subtitle that of the subtitles where there is to be
    /// one, and the file.
    pub open spec fn parts(self, class: FileClass) -> Option<Seq<Seq<char>>> {
        if class == FileClass::Subtitle && self.cfg.behaviour.create_subs_dir {
            extended(
                both(self.dir(), Some(self.cfg.naming.movies.subs_dir@)),
                self.file(class),
            )
        } else {
            both(self.dir(), self.file(class))
        }
    }

    /// Where a file of a class goes.
    pub open spec fn destination(self, class: FileClass, original: PathView) -> Option<
        (PathView, PathView),
    > {
        match self.parts(class) {
            Some(parts) => Some(
                placed(
                    self.root.deep_view(),
                    parts,
                    extension_or_empty(original),
                    *self.volume,
                ),
            ),
            None => None,
        }
    }

    /// The directory of the movie.
    fn dir_name(&self) -> (r: Option<String>)
        ensures
            r.deep_view() == self.dir(),
            r matches Some(n) ==> is_one_component(n@),
    {
        let values = ValueSourceForMovie {
            resolved: self.resolved,
            include_discriminators: false,
        };
        safe_component(&self.cfg.naming.movies.dir.render(&values), self.volume)
    }

    /// The name of a file of a class, without its extension.
    fn name_of(&self, class: FileClass) -> (r: Option<String>)
        ensures
            r.deep_view() == self.file(class),
            r matches Some(n) ==> is_one_component(n@),
    {
        let naming = &self.cfg.naming.movies;
        match class {
            FileClass::Video => {
                let values = ValueSourceForMovie {
                    resolved: self.resolved,
                    include_discriminators: true,
                };
                safe_component(&naming.file.render(&values), self.volume)
            },
            FileClass::Subtitle => {
                let inner = ValueSourceForMovie {
                    resolved: self.resolved,
                    include_discriminators: true,
                };
                let values = SubtitleValueSource { inner };
                safe_component(&naming.sub_file.render(&values), self.volume)
            },
            FileClass::Artwork => safe_component(&naming.artwork, self.volume),
            FileClass::Metadata => {
                let values = ValueSourceForMovie {
                    resolved: self.resolved,
                    include_discriminators: false,
                };
                safe_component(&naming.nfo.render(&values), self.volume)
            },
            _ => None,
        }
    }

    /// The components of the destination of a file of a class.
    fn components(&self, class: FileClass) -> (r: Option<Vec<String>>)
        ensures
            r.deep_view() == self.parts(class),
            r is Some ==> {
                &&& self.dir() matches Some(dir) && is_one_component(dir)
                &&& self.file(class) matches Some(name) && is_one_component(name)
            },
    {
        if class == FileClass::Subtitle && self.cfg.behaviour.create_subs_dir {
            let subs = Some(self.cfg.naming.movies.subs_dir.clone());
            extend(pair(self.dir_name(), subs), self.name_of(class))
        } else {
            pair(self.dir_name(), self.name_of(class))
        }
    }
}

/// Route a single file to its destination paths (absolute and root-relative).
pub fn route(ctx: &RouteContext, class: FileClass, original: &FilePath) -> (r: Option<
    (FilePath, FilePath),
>)
    ensures
        match r {
            Some((absolute, relative)) => ctx.destination(class, original.deep_view()) == Some(
                (absolute.deep_view(), relative.deep_view()),
            ),
            None => ctx.destination(class, original.deep_view()) is None,
        },
        r is Some ==> {
            &&& ctx.dir() matches Some(dir) && is_one_component(dir)
            &&& ctx.file(class) matches Some(name) && is_one_component(name)
        },
{
    match ctx.components(class) {
        Some(parts) => Some(place(ctx.root, parts, original, ctx.volume)),
        None => None,
    }
}

/// A movie lies in its own directory right under the root, which is called as
/// the template of the directory says. Artwork and metadata lie beside it, and
/// so do subtitles unless there is to be a directory for them, which lies in
/// that of the movie.
pub proof fn law_movie_lies_in_its_directory(
    ctx: RouteContext,
    class: FileClass,
    original: PathView,
    dir: Seq<char>,
    name: Seq<char>,
)
    requires
        safe(
            rendered(
                ctx.cfg.naming.movies.dir.deep_view().segments,
                &(ValueSourceForMovie { resolved: ctx.resolved, include_discriminators: false }),
            ),
            *ctx.volume,
        ) == Some(dir),
        ctx.file(class) == Some(name),
        is_one_component(dir),
        is_one_component(name),
        is_one_component(ctx.cfg.naming.movies.subs_dir@),
        nothing_called(ctx.root.deep_view(), dir, *ctx.volume),
    ensures
        ctx.destination(class, original) matches Some((absolute, relative)) && {
            let ext = extension_or_empty(original);
            let file = if ext.len() > 0 {
                name + "."@ + ext
            } else {
                name
            };
            let below = if class == FileClass::Subtitle && ctx.cfg.behaviour.create_subs_dir {
                seq![dir, ctx.cfg.naming.movies.subs_dir@, file]
            } else {
                seq![dir, file]
            };
            &&& !relative.absolute
            &&& relative.parts == below
            &&& absolute.absolute == ctx.root.deep_view().absolute
            &&& absolute.parts == ctx.root.deep_view().parts + below
        },
{
    let subs = ctx.cfg.naming.movies.subs_dir@;
    let apart = class == FileClass::Subtitle && ctx.cfg.behaviour.create_subs_dir;
    let parts = if apart {
        seq![dir, subs, name]
    } else {
        seq![dir, name]
    };
    assert(seq![dir, subs].push(name) =~= seq![dir, subs, name]);
    assert(ctx.parts(class) == Some(parts));
    law_components_stand_in_order(
        ctx.root.deep_view(),
        parts,
        extension_or_empty(original),
        *ctx.volume,
    );
    if apart {
        assert(parts.drop_last() =~= seq![dir, subs]);
    } else {
        assert(parts.drop_last() =~= seq![dir]);
    }
}

} // verus!
