//! TV route stage.
//!
//! Every file of an episode goes to the directory of its season; specials go
//! to a directory of their own. Artwork and metadata keep their names.

use crate::domain::classify::FileClass;
use crate::domain::config::Config;
use crate::domain::identity::{episode_code, EpisodeId};
use crate::domain::path::{no_separator, FilePath, PathView};
use crate::domain::provenance::{Field, FieldView};
use crate::domain::template::{rendered, ValueSource};
use crate::domain::volume::VolumeSemantics;
use crate::engine::layout::{
    both, dashed, digits, extend, extended, extension_or_empty, is_one_component,
    law_components_stand_in_order, nothing_called, number_value, pair, place, placed, push_dashed, safe,
    safe_component, text_value,
};
use crate::engine::tv_resolve::{ResolvedEpisode, ResolvedEpisodeView};
use crate::parse::vocab::{language_code, normalise_language};
use crate::text;
use crate::text::{CharClass, Class};
use vstd::prelude::*;

verus! {

/// Routing context for one episode.
pub struct RouteContext<'a> {
    pub root: &'a FilePath,
    pub id: &'a EpisodeId,
    pub resolved: &'a ResolvedEpisode,
    pub volume: &'a VolumeSemantics,
    pub cfg: &'a Config,
    /// For subtitles: the code of the language, `und` where it is not known.
    pub language: String,
    /// For subtitles: the flags with dots between them, if there are any.
    pub flags: Option<String>,
}

/// What tells versions of an episode apart, each known part behind a dash.
pub open spec fn discriminators(r: ResolvedEpisodeView) -> Seq<char> {
    dashed(r.resolution) + dashed(r.hdr) + dashed(r.source) + dashed(r.video_codec) + dashed(
        r.audio_format,
    )
}

/// Build the escalating discriminator chain. Episodes have no editions.
pub fn build_discriminators(r: &ResolvedEpisode) -> (out: String)
    ensures
        out@ == discriminators(r.deep_view()),
{
    let mut out = String::new();
    proof {
        reveal_strlit("");
        assert(out@ =~= Seq::empty());
    }
    push_dashed(&mut out, &r.resolution);
    push_dashed(&mut out, &r.hdr);
    push_dashed(&mut out, &r.source);
    push_dashed(&mut out, &r.video_codec);
    push_dashed(&mut out, &r.audio_format);
    proof {
        assert(out@ =~= discriminators(r.deep_view()));
    }
    out
}

/// The value of a placeholder for an episode.
pub open spec fn episode_value(
    id: EpisodeId,
    r: ResolvedEpisodeView,
    with_versions: bool,
    name: Seq<char>,
) -> Option<Seq<char>> {
    if name == "title"@ {
        r.title.ok()
    } else if name == "year"@ {
        digits(r.year)
    } else if name == "season"@ {
        Some(text::decimal2(id.season as nat))
    } else if name == "episode_code"@ {
        Some(episode_code(id.season, id.episodes@))
    } else if name == "episode_title"@ {
        r.episode_title.ok()
    } else if name == "resolution"@ {
        r.resolution.ok()
    } else if name == "source"@ {
        r.source.ok()
    } else if name == "video_codec"@ {
        r.video_codec.ok()
    } else if name == "audio_format"@ {
        r.audio_format.ok()
    } else if name == "hdr"@ {
        r.hdr.ok()
    } else if name == "discriminators"@ {
        if with_versions {
            Some(discriminators(r))
        } else {
            Some(Seq::empty())
        }
    } else {
        None
    }
}

/// The values of the placeholders for an episode.
pub struct ValueSourceForEpisode<'a> {
    pub id: &'a EpisodeId,
    pub resolved: &'a ResolvedEpisode,
    pub include_discriminators: bool,
}

impl<'a> ValueSource for ValueSourceForEpisode<'a> {
    open spec fn value(&self, name: Seq<char>) -> Option<Seq<char>> {
        episode_value(*self.id, self.resolved.deep_view(), self.include_discriminators, name)
    }

    fn get(&self, name: &str) -> (r: Option<String>) {
        let r = self.resolved;
        if text::same_text(name, "title") {
            text_value(&r.title)
        } else if text::same_text(name, "year") {
            number_value(&r.year)
        } else if text::same_text(name, "season") {
            Some(text::decimal2_text(self.id.season as u64))
        } else if text::same_text(name, "episode_code") {
            Some(self.id.code())
        } else if text::same_text(name, "episode_title") {
            text_value(&r.episode_title)
        } else if text::same_text(name, "resolution") {
            text_value(&r.resolution)
        } else if text::same_text(name, "source") {
            text_value(&r.source)
        } else if text::same_text(name, "video_codec") {
            text_value(&r.video_codec)
        } else if text::same_text(name, "audio_format") {
            text_value(&r.audio_format)
        } else if text::same_text(name, "hdr") {
            text_value(&r.hdr)
        } else if text::same_text(name, "discriminators") {
            if self.include_discriminators {
                Some(build_discriminators(r))
            } else {
                let none = String::new();
                proof {
                    reveal_strlit("");
                    assert(none@ =~= Seq::empty());
                }
                Some(none)
            }
        } else {
            None
        }
    }
}

/// The values of the placeholders for a subtitle of an episode.
pub struct SubtitleValueSourceForEpisode<'a> {
    pub inner: ValueSourceForEpisode<'a>,
    pub language: &'a String,
    pub flags: &'a Option<String>,
}

impl<'a> ValueSource for SubtitleValueSourceForEpisode<'a> {
    open spec fn value(&self, name: Seq<char>) -> Option<Seq<char>> {
        if name == "language"@ {
            Some(self.language@)
        } else if name == "flags"@ {
            self.flags.deep_view()
        } else {
            self.inner.value(name)
        }
    }

    fn get(&self, name: &str) -> (r: Option<String>) {
        if text::same_text(name, "language") {
            Some(self.language.clone())
        } else if text::same_text(name, "flags") {
            match self.flags {
                Some(f) => Some(f.clone()),
                None => None,
            }
        } else {
            self.inner.get(name)
        }
    }
}

/// A name with the number of a copy behind it, where there is one.
pub open spec fn numbered(name: Option<Seq<char>>, copy: FieldView<u16>) -> Option<Seq<char>> {
    match (name, copy.ok()) {
        (Some(s), Some(n)) => Some(s + " ("@ + text::decimal(n as nat) + ")"@),
        _ => name,
    }
}

/// A name that stays one component does so with the number of a copy.
proof fn lemma_numbered_component(name: Seq<char>, copy: FieldView<u16>)
    ensures
        is_one_component(name) ==> is_one_component(numbered(Some(name), copy)->0),
{
    reveal_strlit(" (");
    reveal_strlit(")");
    if let Some(n) = copy.ok() {
        text::lemma_decimal(n as nat);
        let d = text::decimal(n as nat);
        let whole = name + " ("@ + d + ")"@;
        assert forall|i: int| 0 <= i < whole.len() && no_separator(name) implies #[trigger] whole[i]
            != '/' && whole[i] != '\\' by {
            if i < name.len() {
                assert(whole[i] == name[i]);
            } else if name.len() + 2 <= i < name.len() + 2 + d.len() {
                assert(whole[i] == d[i - name.len() - 2]);
                assert(text::is_digit(d[i - name.len() - 2]));
            }
        }
    }
}

/// A name with the number of a copy behind it, where there is one.
fn with_copy(name: Option<String>, copy: &Field<u16>) -> (r: Option<String>)
    ensures
        r.deep_view() == numbered(name.deep_view(), copy.deep_view()),
        name matches Some(s) && is_one_component(s@) ==> (r matches Some(t) && is_one_component(
            t@,
        )),
{
    proof {
        if name is Some {
            lemma_numbered_component(name->0@, copy.deep_view());
        }
    }
    match (name, copy.as_value()) {
        (Some(s), Some(n)) => Some(
            s.concat(" (").concat(&text::decimal_text(*n as u64)).concat(")"),
        ),
        (other, _) => other,
    }
}

impl<'a> RouteContext<'a> {
    /// The values for directories.
    pub open spec fn plain(self) -> ValueSourceForEpisode<'a> {
        ValueSourceForEpisode {
            id: self.id,
            resolved: self.resolved,
            include_discriminators: false,
        }
    }

    /// The values for files.
    pub open spec fn versioned(self) -> ValueSourceForEpisode<'a> {
        ValueSourceForEpisode {
            id: self.id,
            resolved: self.resolved,
            include_discriminators: true,
        }
    }

    /// The directories of the episode: that of the show, and that of the season
    /// or of the specials.
    pub open spec fn dirs(self) -> Option<Seq<Seq<char>>> {
        let naming = self.cfg.naming.tv;
        let season = if self.id.season == 0 {
            safe(naming.specials_dir@, *self.volume)
        } else {
            safe(rendered(naming.season_dir.deep_view().segments, &self.plain()), *self.volume)
        };
        both(
            safe(rendered(naming.show_dir.deep_view().segments, &self.plain()), *self.volume),
            season,
        )
    }

    /// The name of a file of a class, without its extension.
    pub open spec fn file(self, class: FileClass, original: PathView) -> Option<Seq<char>> {
        let naming = self.cfg.naming.tv;
        match class {
            FileClass::Video => numbered(
                safe(rendered(naming.file.deep_view().segments, &self.versioned()), *self.volume),
                self.resolved.deep_view().copy,
            ),
            FileClass::Subtitle => numbered(
                safe(
                    rendered(
                        naming.sub_file.deep_view().segments,
                        &(SubtitleValueSourceForEpisode {
                            inner: self.versioned(),
                            language: &self.language,
                            flags: &self.flags,
                        }),
                    ),
                    *self.volume,
                ),
                self.resolved.deep_view().copy,
            ),
            FileClass::Artwork | FileClass::Metadata => safe(
                match original.stem() {
                    Some(s) => s,
                    None => "file"@,
                },
                *self.volume,
            ),
            _ => None,
        }
    }

    /// Where a file of a class goes.
    pub open spec fn destination(self, class: FileClass, original: PathView) -> Option<
        (PathView, PathView),
    > {
        match extended(self.dirs(), self.file(class, original)) {
            Some(parts) => Some(
                placed(
                    self.root.deep_view(),
                    parts,
                    extension_or_empty(original),
                    *self.volume,
                ),
            ),
            None => None,
        }
    }

    /// The directories of the episode.
    fn show_and_season_parts(&self) -> (r: Option<Vec<String>>)
        ensures
            r.deep_view() == self.dirs(),
            self.dirs() matches Some(dirs) ==> forall|i: int|
                0 <= i < dirs.len() ==> is_one_component(#[trigger] dirs[i]),
    {
        let naming = &self.cfg.naming.tv;
        let values = ValueSourceForEpisode {
            id: self.id,
            resolved: self.resolved,
            include_discriminators: false,
        };
        let show = safe_component(&naming.show_dir.render(&values), self.volume);
        let season = if self.id.season == 0 {
            safe_component(&naming.specials_dir, self.volume)
        } else {
            safe_component(&naming.season_dir.render(&values), self.volume)
        };
        pair(show, season)
    }

    /// The name of a file of a class, without its extension.
    fn name_of(&self, class: FileClass, original: &FilePath) -> (r: Option<String>)
        ensures
            r.deep_view() == self.file(class, original.deep_view()),
            r matches Some(n) ==> is_one_component(n@),
    {
        let naming = &self.cfg.naming.tv;
        match class {
            FileClass::Video => {
                let values = ValueSourceForEpisode {
                    id: self.id,
                    resolved: self.resolved,
                    include_discriminators: true,
                };
                let name = safe_component(&naming.file.render(&values), self.volume);
                with_copy(name, &self.resolved.copy)
            },
            FileClass::Subtitle => {
                let inner = ValueSourceForEpisode {
                    id: self.id,
                    resolved: self.resolved,
                    include_discriminators: true,
                };
                let values = SubtitleValueSourceForEpisode {
                    inner,
                    language: &self.language,
                    flags: &self.flags,
                };
                let name = safe_component(&naming.sub_file.render(&values), self.volume);
                with_copy(name, &self.resolved.copy)
            },
            FileClass::Artwork | FileClass::Metadata => {
                let stem = match original.file_stem() {
                    Some(s) => s,
                    None => "file".to_string(),
                };
                safe_component(&stem, self.volume)
            },
            _ => None,
        }
    }
}

/// Route a single file to its destination paths (absolute and root-relative).
pub fn route(ctx: &RouteContext, class: FileClass, original: &FilePath) -> (r: Option<
    (FilePath, FilePath),
>)
    ensures
        match r {
            Some((absolute, relative)) => ctx.destination(class, original.deep_view()) == Some(
                (absolute.deep_view(), relative.deep_view()),
            ),
            None => ctx.destination(class, original.deep_view()) is None,
        },
        r is Some ==> {
            &&& ctx.dirs() matches Some(dirs) && forall|i: int|
                0 <= i < dirs.len() ==> is_one_component(#[trigger] dirs[i])
            &&& ctx.file(class, original.deep_view()) matches Some(name) && is_one_component(name)
        },
{
    match extend(ctx.show_and_season_parts(), ctx.name_of(class, original)) {
        Some(parts) => Some(place(ctx.root, parts, original, ctx.volume)),
        None => None,
    }
}

/// What the words of a subtitle's name tell so far.
#[verifier::ext_equal]
pub struct SubtitleWords {
    pub language: Option<Seq<char>>,
    pub flags: Seq<Seq<char>>,
}

impl SubtitleWords {
    /// Nothing told yet.
    pub open spec fn none() -> Self {
        SubtitleWords { language: None, flags: Seq::empty() }
    }

    /// One more flag, unless it is there.
    pub open spec fn flagged(self, flag: Seq<char>) -> Self {
        if self.flags.contains(flag) {
            self
        } else {
            SubtitleWords { flags: self.flags.push(flag), ..self }
        }
    }

    /// One more word. `hi` stands for the hearing-impaired only behind a
    /// language; before one it is Hindi. The first language counts.
    pub open spec fn heard(self, word: Seq<char>) -> Self {
        let lower = text::ascii_lowercase(word);
        if word.len() == 0 {
            self
        } else if lower == "forced"@ {
            self.flagged("forced"@)
        } else if lower == "hi"@ && self.language is Some {
            self.flagged("sdh"@)
        } else if lower == "sdh"@ || lower == "cc"@ {
            self.flagged("sdh"@)
        } else if self.language is None && language_code(lower) != "und"@ {
            SubtitleWords { language: Some(language_code(lower)), ..self }
        } else {
            self
        }
    }
}

/// What the words of a subtitle's name tell.
pub open spec fn heard_all(words: Seq<Seq<char>>) -> SubtitleWords
    decreases words.len(),
{
    if words.len() == 0 {
        SubtitleWords::none()
    } else {
        heard_all(words.drop_last()).heard(words.last())
    }
}

/// What stands between the words of a subtitle's name.
pub open spec fn word_breaks() -> CharClass {
    CharClass::In(seq!['.', '_', '+', '-', ' '])
}

/// The language and the flags of a subtitle, from the stem of its name.
pub open spec fn language_and_flags(stem: Seq<char>) -> (Seq<char>, Option<Seq<char>>) {
    let told = heard_all(text::split(stem, word_breaks()));
    (
        match told.language {
            Some(code) => code,
            None => "und"@,
        },
        if told.flags.len() == 0 {
            None
        } else {
            Some(text::join(told.flags, seq!['.']))
        },
    )
}

/// Adds a flag, unless it is there.
fn add_flag(flags: &mut Vec<String>, flag: &str)
    ensures
        final(flags).deep_view() == (if old(flags).deep_view().contains(flag@) {
            old(flags).deep_view()
        } else {
            old(flags).deep_view().push(flag@)
        }),
{
    let ghost v = flags.deep_view();
    let mut i: usize = 0;
    while i < flags.len()
        invariant
            i <= flags@.len(),
            v == flags.deep_view(),
            v == old(flags).deep_view(),
            forall|k: int| 0 <= k < i ==> v[k] != flag@,
        decreases flags@.len() - i,
    {
        proof {
            assert(v[i as int] == flags@[i as int]@);
        }
        if text::same_text(&flags[i], flag) {
            return;
        }
        i = i + 1;
    }
    flags.push(flag.to_string());
    proof {
        assert(flags.deep_view() =~= v.push(flag@));
    }
}

/// Joins flags with dots, where there are any.
fn join_flags(flags: &Vec<String>) -> (r: Option<String>)
    ensures
        r.deep_view() == (if flags.deep_view().len() == 0 {
            None
        } else {
            Some(text::join(flags.deep_view(), seq!['.']))
        }),
{
    if flags.len() == 0 {
        return None;
    }
    let ghost v = flags.deep_view();
    let mut list: Vec<Vec<char>> = Vec::new();
    let mut i: usize = 0;
    while i < flags.len()
        invariant
            i <= flags@.len(),
            v == flags.deep_view(),
            list@.len() == i,
            forall|k: int| 0 <= k < i ==> (#[trigger] list@[k])@ == v[k],
        decreases flags@.len() - i,
    {
        list.push(text::to_chars(&flags[i]));
        proof {
            assert(v[i as int] == flags@[i as int]@);
        }
        i = i + 1;
    }
    let dot: Vec<char> = vec!['.'];
    proof {
        assert(dot@ =~= seq!['.']);
        assert(text::texts(list@) =~= v);
    }
    Some(text::to_text(&text::joined(&list, &dot)))
}

/// Detect a subtitle's language code and its forced and hearing-impaired flags
/// from its filename stem.
pub fn detect_language_and_flags(stem: &str) -> (r: (String, Option<String>))
    ensures
        (r.0@, r.1.deep_view()) == language_and_flags(stem@),
{
    let breaks: Vec<char> = vec!['.', '_', '+', '-', ' '];
    proof {
        assert(breaks@ =~= seq!['.', '_', '+', '-', ' ']);
    }
    let words = text::split_at_class(&text::to_chars(stem), Class::In(&breaks));
    let ghost all = text::texts(words@);
    let mut language: Option<String> = None;
    let mut flags: Vec<String> = Vec::new();
    let mut i: usize = 0;
    proof {
        assert(all.take(0) =~= Seq::empty());
        assert(flags.deep_view() =~= Seq::empty());
    }
    while i < words.len()
        invariant
            i <= words@.len(),
            all == text::texts(words@),
            (SubtitleWords { language: language.deep_view(), flags: flags.deep_view() })
                == heard_all(all.take(i as int)),
        decreases words@.len() - i,
    {
        let ghost before = SubtitleWords {
            language: language.deep_view(),
            flags: flags.deep_view(),
        };
        proof {
            assert(all.take(i + 1).drop_last() =~= all.take(i as int));
            assert(all.take(i + 1).last() == words@[i as int]@);
            assert(heard_all(all.take(i + 1)) == before.heard(words@[i as int]@));
        }
        if words[i].len() > 0 {
            let lower = text::to_text(&text::lowered(&words[i]));
            if text::same_text(&lower, "forced") {
                add_flag(&mut flags, "forced");
            } else if (text::same_text(&lower, "hi") && language.is_some()) || text::same_text(
                &lower,
                "sdh",
            ) || text::same_text(&lower, "cc") {
                add_flag(&mut flags, "sdh");
            } else if language.is_none() {
                let code = normalise_language(&text::to_text(&words[i]));
                if !text::same_text(&code, "und") {
                    language = Some(code);
                }
            }
        }
        i = i + 1;
    }
    proof {
        assert(all.take(i as int) =~= all);
    }
    let found = match language {
        Some(code) => code,
        None => "und".to_string(),
    };
    (found, join_flags(&flags))
}

/// Whether these are the names of an episode's show, its season and one of its
/// files, each one component: the name that the template of the show gives,
/// that of the season's template or of the specials for season 0, and that of
/// the file.
pub open spec fn are_names_of(
    ctx: RouteContext,
    class: FileClass,
    original: PathView,
    show: Seq<char>,
    season: Seq<char>,
    name: Seq<char>,
) -> bool {
    let naming = ctx.cfg.naming.tv;
    let values = ValueSourceForEpisode {
        id: ctx.id,
        resolved: ctx.resolved,
        include_discriminators: false,
    };
    let v = *ctx.volume;
    &&& safe(rendered(naming.show_dir.deep_view().segments, &values), v) == Some(show)
    &&& ctx.id.season == 0 ==> safe(naming.specials_dir@, v) == Some(season)
    &&& ctx.id.season != 0 ==> safe(rendered(naming.season_dir.deep_view().segments, &values), v)
        == Some(season)
    &&& ctx.file(class, original) == Some(name)
    &&& is_one_component(show)
    &&& is_one_component(season)
    &&& is_one_component(name)
}

/// An episode lies in the directory of its season, and that in the directory
/// of its show right under the root.
pub proof fn law_episode_lies_under_show_and_season(
    ctx: RouteContext,
    class: FileClass,
    original: PathView,
    show: Seq<char>,
    season: Seq<char>,
    name: Seq<char>,
)
    requires
        are_names_of(ctx, class, original, show, season, name),
        nothing_called(ctx.root.deep_view(), show, *ctx.volume),
    ensures
        ctx.destination(class, original) matches Some((absolute, relative)) && {
            let ext = extension_or_empty(original);
            let file = if ext.len() > 0 {
                name + "."@ + ext
            } else {
                name
            };
            &&& !relative.absolute
            &&& relative.parts == seq![show, season, file]
            &&& absolute.absolute == ctx.root.deep_view().absolute
            &&& absolute.parts == ctx.root.deep_view().parts + seq![show, season, file]
        },
{
    let parts = seq![show, season, name];
    assert(seq![show, season].push(name) =~= parts);
    assert(extended(ctx.dirs(), ctx.file(class, original)) == Some(parts));
    law_components_stand_in_order(
        ctx.root.deep_view(),
        parts,
        extension_or_empty(original),
        *ctx.volume,
    );
    assert(parts.drop_last() =~= seq![show, season]);
}

/// Two episodes under one root lie in the same directory right under it where
/// their shows are called the same, and in different ones where they are not;
/// within a show they lie in the same directory exactly where their seasons are
/// called the same.
pub proof fn law_show_has_a_directory_of_its_own(
    a: RouteContext,
    b: RouteContext,
    class_a: FileClass,
    class_b: FileClass,
    original_a: PathView,
    original_b: PathView,
    names_a: (Seq<char>, Seq<char>, Seq<char>),
    names_b: (Seq<char>, Seq<char>, Seq<char>),
)
    requires
        are_names_of(a, class_a, original_a, names_a.0, names_a.1, names_a.2),
        are_names_of(b, class_b, original_b, names_b.0, names_b.1, names_b.2),
        a.root.deep_view() == b.root.deep_view(),
        nothing_called(a.root.deep_view(), names_a.0, *a.volume),
        nothing_called(b.root.deep_view(), names_b.0, *b.volume),
    ensures
        a.destination(class_a, original_a) matches Some(to_a) && b.destination(
            class_b,
            original_b,
        ) matches Some(to_b) && {
            let deep = a.root.deep_view().parts.len() as int;
            &&& to_a.0.parts.len() == deep + 3
            &&& to_b.0.parts.len() == deep + 3
            &&& to_a.0.parts.take(deep) == to_b.0.parts.take(deep)
            &&& to_a.0.parts[deep] == to_b.0.parts[deep] <==> names_a.0 == names_b.0
            &&& to_a.0.parts[deep + 1] == to_b.0.parts[deep + 1] <==> names_a.1 == names_b.1
            &&& to_a.0.parts.drop_last() == to_b.0.parts.drop_last() <==> names_a.0 == names_b.0
                && names_a.1 == names_b.1
        },
{
    law_episode_lies_under_show_and_season(
        a,
        class_a,
        original_a,
        names_a.0,
        names_a.1,
        names_a.2,
    );
    law_episode_lies_under_show_and_season(
        b,
        class_b,
        original_b,
        names_b.0,
        names_b.1,
        names_b.2,
    );
    let to_a = (a.destination(class_a, original_a)->0).0.parts;
    let to_b = (b.destination(class_b, original_b)->0).0.parts;
    lemma_three_below(a.root.deep_view().parts, names_a.0, names_a.1, to_a.last(), to_a);
    lemma_three_below(a.root.deep_view().parts, names_b.0, names_b.1, to_b.last(), to_b);
}

/// What three components below a directory are.
proof fn lemma_three_below(
    root: Seq<Seq<char>>,
    x: Seq<char>,
    y: Seq<char>,
    z: Seq<char>,
    whole: Seq<Seq<char>>,
)
    requires
        whole == root + seq![x, y, z],
    ensures
        whole.len() == root.len() + 3,
        whole.take(root.len() as int) == root,
        whole[root.len() as int] == x,
        whole[root.len() as int + 1] == y,
        whole.drop_last() == root + seq![x, y],
        whole.drop_last()[root.len() as int] == x,
        whole.drop_last()[root.len() as int + 1] == y,
{
    assert(whole.drop_last() =~= root + seq![x, y]);
}

/// Whether a word of a subtitle's name is a flag.
pub open spec fn is_flag_word(w: Seq<char>) -> bool {
    let low = text::ascii_lowercase(w);
    low == "forced"@ || low == "sdh"@ || low == "cc"@
}

/// Whether a word of a subtitle's name names a language.
pub open spec fn is_language_word(w: Seq<char>) -> bool {
    w.len() > 0 && !is_flag_word(w) && language_code(text::ascii_lowercase(w)) != "und"@
}

/// The language that the words of a subtitle's name tell is that of the first of
/// them that names one, and none where none does.
pub proof fn law_words_tell_the_language(words: Seq<Seq<char>>)
    ensures
        ({
            let told = heard_all(words);
            &&& told.language is None <==> forall|i: int|
                0 <= i < words.len() ==> !is_language_word(#[trigger] words[i])
            &&& told.language matches Some(code) ==> exists|i: int|
                is_first_language(words, i) && code == language_code(
                    text::ascii_lowercase(#[trigger] words[i]),
                )
        }),
    decreases words.len(),
{
    if words.len() > 0 {
        let less = words.drop_last();
        let n = words.len() - 1;
        let w = words[n];
        assert(words.last() == w);
        law_words_tell_the_language(less);
        let before = heard_all(less);
        let told = heard_all(words);
        if before.language is Some {
            let i = choose|i: int|
                is_first_language(less, i) && before.language->0 == language_code(
                    text::ascii_lowercase(#[trigger] less[i]),
                );
            assert(words[i] == less[i]);
            assert forall|j: int| 0 <= j < i implies !is_language_word(#[trigger] words[j]) by {
                assert(less[j] == words[j]);
            }
            assert(is_first_language(words, i));
        } else {
            assert forall|j: int| 0 <= j < n implies !is_language_word(#[trigger] words[j]) by {
                assert(less[j] == words[j]);
            }
            if is_language_word(w) {
                assert(is_first_language(words, n));
            }
        }
    }
}

/// Whether a word is the first that names a language.
pub open spec fn is_first_language(words: Seq<Seq<char>>, i: int) -> bool {
    &&& 0 <= i < words.len()
    &&& is_language_word(words[i])
    &&& forall|j: int| 0 <= j < i ==> !is_language_word(#[trigger] words[j])
}

/// One more flag is there, and all that were.
proof fn lemma_flagged(told: SubtitleWords, flag: Seq<char>, other: Seq<char>)
    ensures
        told.flagged(flag).flags.contains(other) <==> other == flag || told.flags.contains(other),
        told.flagged(flag).language == told.language,
{
    let all = told.flagged(flag).flags;
    if !told.flags.contains(flag) {
        assert(all[told.flags.len() as int] == flag);
        if told.flags.contains(other) {
            let i = choose|i: int| 0 <= i < told.flags.len() && told.flags[i] == other;
            assert(all[i] == other);
        }
    }
}

/// A subtitle is forced where a word of its name says so, and for the
/// hearing-impaired where a word says so, or where one is `hi` behind the
/// language.
pub proof fn law_words_tell_the_flags(words: Seq<Seq<char>>)
    ensures
        heard_all(words).flags.contains("forced"@) <==> exists|i: int|
            0 <= i < words.len() && text::ascii_lowercase(#[trigger] words[i]) == "forced"@,
        heard_all(words).flags.contains("sdh"@) <==> exists|i: int|
            0 <= i < words.len() && means_impaired(words, #[trigger] words[i], i),
    decreases words.len(),
{
    reveal_strlit("forced");
    reveal_strlit("sdh");
    reveal_strlit("cc");
    reveal_strlit("hi");
    assert("forced"@.len() == 6 && "sdh"@.len() == 3 && "cc"@.len() == 2 && "hi"@.len() == 2);
    assert("cc"@[0] != "hi"@[0]);
    if words.len() > 0 {
        let less = words.drop_last();
        let n = words.len() - 1;
        let w = words[n];
        assert(words.last() == w);
        law_words_tell_the_flags(less);
        law_words_tell_the_language(less);
        let before = heard_all(less);
        let low = text::ascii_lowercase(w);
        assert(low.len() == w.len());
        lemma_flagged(before, "forced"@, "forced"@);
        lemma_flagged(before, "forced"@, "sdh"@);
        lemma_flagged(before, "sdh"@, "forced"@);
        lemma_flagged(before, "sdh"@, "sdh"@);
        assert forall|i: int| 0 <= i < n implies means_impaired(less, less[i], i)
            == means_impaired(words, #[trigger] words[i], i) by {
            lemma_impaired_before(words, i, n);
        }
        assert forall|i: int| 0 <= i < n implies less[i] == #[trigger] words[i] by {}
        lemma_impaired_last(words);
        if before.flags.contains("forced"@) {
            let i = choose|i: int|
                0 <= i < less.len() && text::ascii_lowercase(#[trigger] less[i]) == "forced"@;
            assert(text::ascii_lowercase(words[i]) == "forced"@);
        }
        if before.flags.contains("sdh"@) {
            let i = choose|i: int|
                0 <= i < less.len() && means_impaired(less, #[trigger] less[i], i);
            assert(means_impaired(words, words[i], i));
        }
        if exists|i: int|
            0 <= i < words.len() && text::ascii_lowercase(#[trigger] words[i]) == "forced"@ {
            let i = choose|i: int|
                0 <= i < words.len() && text::ascii_lowercase(#[trigger] words[i]) == "forced"@;
            if i < n {
                assert(text::ascii_lowercase(less[i]) == "forced"@);
            }
        }
        if exists|i: int| 0 <= i < words.len() && means_impaired(words, #[trigger] words[i], i) {
            let i = choose|i: int|
                0 <= i < words.len() && means_impaired(words, #[trigger] words[i], i);
            if i < n {
                assert(means_impaired(less, less[i], i));
            }
        }
    }
}

/// What a word says does not depend on those behind it.
proof fn lemma_impaired_before(words: Seq<Seq<char>>, i: int, n: int)
    requires
        0 <= i < n == words.len() - 1,
    ensures
        means_impaired(words.drop_last(), words.drop_last()[i], i) == means_impaired(
            words,
            words[i],
            i,
        ),
{
    let less = words.drop_last();
    assert(less[i] == words[i]);
    if exists|j: int| 0 <= j < i && is_language_word(#[trigger] less[j]) {
        let j = choose|j: int| 0 <= j < i && is_language_word(#[trigger] less[j]);
        assert(is_language_word(words[j]));
    }
    if exists|j: int| 0 <= j < i && is_language_word(#[trigger] words[j]) {
        let j = choose|j: int| 0 <= j < i && is_language_word(#[trigger] words[j]);
        assert(is_language_word(less[j]));
    }
}

/// Whether a language stands before the last word.
proof fn lemma_impaired_last(words: Seq<Seq<char>>)
    requires
        words.len() > 0,
    ensures
        ({
            let n = words.len() - 1;
            let low = text::ascii_lowercase(words[n]);
            means_impaired(words, words[n], n) <==> low == "sdh"@ || low == "cc"@ || low == "hi"@
                && heard_all(words.drop_last()).language is Some
        }),
{
    let less = words.drop_last();
    let n = words.len() - 1;
    law_words_tell_the_language(less);
    if heard_all(less).language is Some {
        let i = choose|i: int| 0 <= i < less.len() && is_language_word(#[trigger] less[i]);
        assert(is_language_word(words[i]));
    } else {
        assert forall|j: int| 0 <= j < n implies !is_language_word(#[trigger] words[j]) by {
            assert(less[j] == words[j]);
        }
    }
}

/// Whether a word at a place says that a subtitle is for the hearing-impaired.
pub open spec fn means_impaired(words: Seq<Seq<char>>, w: Seq<char>, i: int) -> bool {
    let low = text::ascii_lowercase(w);
    low == "sdh"@ || low == "cc"@ || low == "hi"@ && exists|j: int|
        0 <= j < i && is_language_word(#[trigger] words[j])
}

} // verus!
