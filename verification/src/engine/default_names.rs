//! Where files go under the naming that is used unless another is configured.

use crate::domain::classify::FileClass;
use crate::domain::config::default::{
    is_default_movie_naming, is_default_music_naming, is_default_tv_naming, is_episode_sub,
    is_movie_sub,
};
use crate::domain::identity;
use crate::domain::identity::{episode_code, episode_codes};
use crate::domain::path::PathView;
use crate::domain::provenance::FieldView;
use crate::domain::template::{all_present, rendered, SegmentView, Template, ValueSource};
use crate::engine::layout;
use crate::engine::layout::{extension_or_empty, is_one_component, nothing_called, safe};
use crate::engine::music_resolve;
use crate::engine::music_route::{
    law_track_lies_under_artist_and_album, track_value, MusicRouteContext, ValueSourceForTrack,
};
use crate::engine::resolve;
use crate::engine::route;
use crate::engine::route::{
    law_movie_lies_in_its_directory, movie_value, SubtitleValueSource, ValueSourceForMovie,
};
use crate::engine::tv_resolve;
use crate::engine::tv_route;
use crate::engine::tv_route::{
    episode_value, law_episode_lies_under_show_and_season, SubtitleValueSourceForEpisode,
    ValueSourceForEpisode,
};
use crate::parse::model;
use crate::parse::render;
use crate::text;
use vstd::prelude::*;

verus! {

/// A title, with the year in brackets behind it where it is known.
pub open spec fn titled(title: Seq<char>, year: Option<u16>) -> Seq<char> {
    match year {
        Some(y) => title + " ("@ + text::decimal(y as nat) + ")"@,
        None => title,
    }
}

/// The values of the fields that are known, in their order.
pub open spec fn known_of(fields: Seq<FieldView<Seq<char>>>) -> Seq<Seq<char>>
    decreases fields.len(),
{
    if fields.len() == 0 {
        Seq::empty()
    } else {
        match fields.last().ok() {
            Some(v) => known_of(fields.drop_last()).push(v),
            None => known_of(fields.drop_last()),
        }
    }
}

/// A name with the values of the fields that are known behind it, all with
/// dashes between them.
pub open spec fn with_known(name: Seq<char>, fields: Seq<FieldView<Seq<char>>>) -> Seq<char> {
    text::join(seq![name] + known_of(fields), " - "@)
}

/// What one piece of a template adds.
spec fn piece<V: ValueSource + ?Sized>(x: SegmentView, values: &V) -> Seq<char> {
    match x {
        SegmentView::Literal(s) => s,
        SegmentView::Required(n) => match values.value(n) {
            Some(v) => v,
            None => Seq::empty(),
        },
        SegmentView::Optional(inner) => if all_present(inner, values) {
            rendered(inner, values)
        } else {
            Seq::empty()
        },
    }
}

/// One more piece of a template.
proof fn lemma_piece<V: ValueSource + ?Sized>(segs: Seq<SegmentView>, x: SegmentView, values: &V)
    ensures
        rendered(segs.push(x), values) == rendered(segs, values) + piece(x, values),
        all_present(segs.push(x), values) == (all_present(segs, values) && match x {
            SegmentView::Literal(_) => true,
            SegmentView::Required(n) => values.value(n) is Some,
            SegmentView::Optional(inner) => all_present(inner, values),
        }),
{
    assert(segs.push(x).drop_last() =~= segs);
    assert(segs.push(x).last() == x);
}

/// A group of a literal and a placeholder.
proof fn lemma_pair_group<V: ValueSource + ?Sized>(a: SegmentView, b: SegmentView, values: &V)
    ensures
        rendered(seq![a, b], values) == piece(a, values) + piece(b, values),
        a is Literal ==> (b matches SegmentView::Required(n) ==> all_present(seq![a, b], values)
            == (values.value(n) is Some)),
        b is Literal ==> (a matches SegmentView::Required(n) ==> all_present(seq![a, b], values)
            == (values.value(n) is Some)),
{
    let none = Seq::<SegmentView>::empty();
    lemma_piece(none, a, values);
    lemma_piece(none.push(a), b, values);
    assert(seq![a, b] =~= none.push(a).push(b));
    assert(rendered(none, values) + piece(a, values) =~= piece(a, values));
}

/// The year in brackets behind a space.
proof fn lemma_year_group<V: ValueSource + ?Sized>(values: &V, year: Option<u16>)
    requires
        values.value("year"@) == (match year {
            Some(y) => Some(text::decimal(y as nat)),
            None => None,
        }),
    ensures
        ({
            let inner = seq![
                SegmentView::Literal(" ("@),
                SegmentView::Required("year"@),
                SegmentView::Literal(")"@),
            ];
            piece(SegmentView::Optional(inner), values) == (match year {
                Some(y) => " ("@ + text::decimal(y as nat) + ")"@,
                None => Seq::empty(),
            })
        }),
{
    let a = SegmentView::Literal(" ("@);
    let b = SegmentView::Required("year"@);
    let c = SegmentView::Literal(")"@);
    let none = Seq::<SegmentView>::empty();
    lemma_piece(none, a, values);
    lemma_piece(none.push(a), b, values);
    lemma_piece(none.push(a).push(b), c, values);
    assert(seq![a, b, c] =~= none.push(a).push(b).push(c));
    assert(rendered(none, values) + " ("@ =~= " ("@);
}

/// The pieces `{title}[ ({year})]` of a template, whatever the placeholder of
/// the title is called.
proof fn lemma_title_year<V: ValueSource + ?Sized>(
    values: &V,
    hole: Seq<char>,
    title: Seq<char>,
    year: Option<u16>,
)
    requires
        values.value(hole) == Some(title),
        values.value("year"@) == (match year {
            Some(y) => Some(text::decimal(y as nat)),
            None => None,
        }),
    ensures
        rendered(
            seq![
                SegmentView::Required(hole),
                SegmentView::Optional(
                    seq![
                        SegmentView::Literal(" ("@),
                        SegmentView::Required("year"@),
                        SegmentView::Literal(")"@),
                    ],
                ),
            ],
            values,
        ) == titled(title, year),
{
    let inner = seq![
        SegmentView::Literal(" ("@),
        SegmentView::Required("year"@),
        SegmentView::Literal(")"@),
    ];
    lemma_year_group(values, year);
    lemma_pair_group(SegmentView::Required(hole), SegmentView::Optional(inner), values);
    assert(rendered(seq![SegmentView::Required(hole), SegmentView::Optional(inner)], values) =~= titled(
        title,
        year,
    ));
}

/// The known values behind a name are those behind dashes, one by one.
proof fn lemma_with_known(
    name: Seq<char>,
    fields: Seq<FieldView<Seq<char>>>,
    x: FieldView<Seq<char>>,
)
    ensures
        with_known(name, fields.push(x)) == with_known(name, fields)
            + layout::dashed(x),
        with_known(name, Seq::empty()) == name,
{
    assert(fields.push(x).drop_last() =~= fields);
    assert(fields.push(x).last() == x);
    let some = seq![name] + known_of(fields);
    match x.ok() {
        Some(v) => {
            let all = seq![name] + known_of(fields.push(x));
            assert(all =~= some.push(v));
            assert(all.drop_last() =~= some);
            assert(text::join(all, " - "@) == text::join(some, " - "@) + " - "@ + v);
            assert(with_known(name, fields.push(x)) =~= with_known(name, fields) + (" - "@ + v));
        },
        None => {
            assert(with_known(name, fields.push(x)) =~= with_known(name, fields)
                + layout::dashed(x));
        },
    }
    assert(seq![name] + known_of(Seq::empty()) =~= seq![name]);
}

// ---------------------------------------------------------------------------
// Movies
// ---------------------------------------------------------------------------

/// The values of a movie.
proof fn lemma_movie_values(
    r: resolve::ResolvedMovieView,
    versions: bool,
    name: Seq<char>,
)
    ensures
        movie_value(r, versions, "title"@) == r.title.ok(),
        movie_value(r, versions, "year"@) == (match r.year.ok() {
            Some(y) => Some(text::decimal(y as nat)),
            None => None,
        }),
        movie_value(r, true, "discriminators"@) matches Some(d) && with_known(
            name,
            seq![r.resolution, r.edition, r.source, r.hdr, r.video_codec, r.audio_format],
        ) == name + d,
{
    reveal_strlit("title");
    reveal_strlit("year");
    reveal_strlit("edition");
    reveal_strlit("resolution");
    reveal_strlit("source");
    reveal_strlit("video_codec");
    reveal_strlit("audio_format");
    reveal_strlit("hdr");
    reveal_strlit("discriminators");
    assert("title"@.len() == 5);
    assert("year"@.len() == 4);
    assert("edition"@.len() == 7);
    assert("resolution"@.len() == 10);
    assert("source"@.len() == 6);
    assert("video_codec"@.len() == 11);
    assert("audio_format"@.len() == 12);
    assert("hdr"@.len() == 3);
    assert("discriminators"@.len() == 14);
    let d = movie_value(r, true, "discriminators"@)->0;
    let none = Seq::<FieldView<Seq<char>>>::empty();
    lemma_with_known(name, none, r.resolution);
    let a = none.push(r.resolution);
    lemma_with_known(name, a, r.edition);
    let b = a.push(r.edition);
    lemma_with_known(name, b, r.source);
    let c = b.push(r.source);
    lemma_with_known(name, c, r.hdr);
    let e = c.push(r.hdr);
    lemma_with_known(name, e, r.video_codec);
    let f = e.push(r.video_codec);
    lemma_with_known(name, f, r.audio_format);
    let g = f.push(r.audio_format);
    assert(g =~= seq![r.resolution, r.edition, r.source, r.hdr, r.video_codec, r.audio_format]);
    assert(with_known(name, g) =~= name + d);
}

/// Under the default naming a movie goes to a directory that is called by its
/// title and year, right under the root, and is called by title and year and
/// what is known of resolution, edition, source, HDR, codec and audio, in this
/// order, with dashes between them. Artwork is called `poster` there, metadata
/// by title and year, and a subtitle too with the language `und`.
pub proof fn law_default_place_of_a_movie(
    ctx: route::RouteContext,
    class: FileClass,
    original: PathView,
    title: Seq<char>,
    dir: Seq<char>,
    name: Seq<char>,
)
    requires
        is_default_movie_naming(ctx.cfg.naming.movies),
        ctx.resolved.deep_view().title.ok() == Some(title),
        safe(titled(title, ctx.resolved.deep_view().year.ok()), *ctx.volume) == Some(dir),
        ({
            let r = ctx.resolved.deep_view();
            let base = titled(title, r.year.ok());
            let full = match class {
                FileClass::Video => with_known(
                    base,
                    seq![r.resolution, r.edition, r.source, r.hdr, r.video_codec, r.audio_format],
                ),
                FileClass::Subtitle => base + "."@ + "und"@,
                FileClass::Artwork => "poster"@,
                _ => base,
            };
            safe(full, *ctx.volume) == Some(name)
        }),
        class == FileClass::Video || class == FileClass::Subtitle || class == FileClass::Artwork
            || class == FileClass::Metadata,
        is_one_component(dir),
        is_one_component(name),
        nothing_called(ctx.root.deep_view(), dir, *ctx.volume),
    ensures
        ctx.destination(class, original) matches Some((absolute, relative)) && {
            let ext = extension_or_empty(original);
            let file = if ext.len() > 0 {
                name + "."@ + ext
            } else {
                name
            };
            let below = if class == FileClass::Subtitle && ctx.cfg.behaviour.create_subs_dir {
                seq![dir, "subs"@, file]
            } else {
                seq![dir, file]
            };
            &&& relative.parts == below
            &&& absolute.parts == ctx.root.deep_view().parts + below
        },
{
    let r = ctx.resolved.deep_view();
    let year = r.year.ok();
    let base = titled(title, year);
    let plain = ValueSourceForMovie { resolved: ctx.resolved, include_discriminators: false };
    let full = ValueSourceForMovie { resolved: ctx.resolved, include_discriminators: true };
    lemma_movie_values(r, false, base);
    lemma_movie_values(r, true, base);
    lemma_title_year(&plain, "title"@, title, year);
    if class == FileClass::Video {
        lemma_title_year(&full, "title"@, title, year);
        let head = seq![
            SegmentView::Required("title"@),
            SegmentView::Optional(
                seq![
                    SegmentView::Literal(" ("@),
                    SegmentView::Required("year"@),
                    SegmentView::Literal(")"@),
                ],
            ),
        ];
        lemma_piece(head, SegmentView::Required("discriminators"@), &full);
        assert(ctx.cfg.naming.movies.file.deep_view().segments =~= head.push(
            SegmentView::Required("discriminators"@),
        ));
    } else if class == FileClass::Subtitle {
        let values = SubtitleValueSource { inner: full };
        lemma_movie_subtitle(values, title, year);
    }
    reveal_strlit("subs");
    law_movie_lies_in_its_directory(ctx, class, original, dir, name);
}

/// The default name of a subtitle of a movie.
proof fn lemma_movie_subtitle(values: SubtitleValueSource, title: Seq<char>, year: Option<u16>)
    requires
        values.inner.value("title"@) == Some(title),
        values.inner.value("year"@) == (match year {
            Some(y) => Some(text::decimal(y as nat)),
            None => None,
        }),
    ensures
        forall|t: Template| #[trigger]
            is_movie_sub(t) ==> rendered(t.deep_view().segments, &values) == titled(title, year)
                + "."@ + "und"@,
{
    reveal_strlit("title");
    reveal_strlit("year");
    reveal_strlit("language");
    reveal_strlit("flags");
    assert("title"@.len() == 5);
    assert("year"@.len() == 4);
    assert("language"@.len() == 8);
    assert("flags"@.len() == 5);
    assert("title"@[0] != "flags"@[0]);
    lemma_title_year(&values, "title"@, title, year);
    let head = seq![
        SegmentView::Required("title"@),
        SegmentView::Optional(
            seq![
                SegmentView::Literal(" ("@),
                SegmentView::Required("year"@),
                SegmentView::Literal(")"@),
            ],
        ),
    ];
    let dot = SegmentView::Literal("."@);
    let flags = SegmentView::Optional(seq![dot, SegmentView::Required("flags"@)]);
    lemma_piece(head, dot, &values);
    lemma_piece(head.push(dot), SegmentView::Required("language"@), &values);
    lemma_piece(
        head.push(dot).push(SegmentView::Required("language"@)),
        flags,
        &values,
    );
    lemma_pair_group(dot, SegmentView::Required("flags"@), &values);
    let all = head.push(dot).push(SegmentView::Required("language"@)).push(flags);
    assert(rendered(all, &values) =~= titled(title, year) + "."@ + "und"@);
    assert forall|t: Template| #[trigger] is_movie_sub(t) implies rendered(
        t.deep_view().segments,
        &values,
    ) == titled(title, year) + "."@ + "und"@ by {
        assert(t.deep_view().segments =~= all);
    }
}

// ---------------------------------------------------------------------------
// TV
// ---------------------------------------------------------------------------

/// The code of episodes is `S` and the season, and behind it `E` and the number
/// of each of the episodes in turn; specials have no numbers.
pub proof fn law_code_tells_every_episode(season: u16, episodes: Seq<u16>)
    ensures
        episode_code(season, episodes) == seq!['S'] + text::decimal2(season as nat) + (if season
            == 0 {
            Seq::empty()
        } else {
            text::join(
                Seq::new(
                    episodes.len(),
                    |i: int| seq!['E'] + text::decimal2(episodes[i] as nat),
                ),
                Seq::empty(),
            )
        }),
{
    lemma_codes(episodes);
    let head = seq!['S'] + text::decimal2(season as nat);
    assert(head + Seq::<char>::empty() =~= head);
}

/// The codes of episodes stand one behind the other.
proof fn lemma_codes(episodes: Seq<u16>)
    ensures
        episode_codes(episodes) == text::join(
            Seq::new(episodes.len(), |i: int| seq!['E'] + text::decimal2(episodes[i] as nat)),
            Seq::empty(),
        ),
    decreases episodes.len(),
{
    let all = Seq::new(episodes.len(), |i: int| seq!['E'] + text::decimal2(episodes[i] as nat));
    if episodes.len() > 0 {
        let less = episodes.drop_last();
        lemma_codes(less);
        assert(all.drop_last() =~= Seq::new(
            less.len(),
            |i: int| seq!['E'] + text::decimal2(less[i] as nat),
        ));
        let last = seq!['E'] + text::decimal2(episodes.last() as nat);
        assert(all.last() == last);
        if episodes.len() == 1 {
            assert(episode_codes(less) =~= Seq::empty());
            assert(episode_codes(episodes) =~= last);
        } else {
            assert(episode_codes(episodes) =~= episode_codes(less) + Seq::empty() + last);
        }
    }
}

/// The values of an episode.
proof fn lemma_episode_values(
    id: identity::EpisodeId,
    r: tv_resolve::ResolvedEpisodeView,
    versions: bool,
    name: Seq<char>,
)
    ensures
        episode_value(id, r, versions, "title"@) == r.title.ok(),
        episode_value(id, r, versions, "year"@) == (match r.year.ok() {
            Some(y) => Some(text::decimal(y as nat)),
            None => None,
        }),
        episode_value(id, r, versions, "season"@) == Some(text::decimal2(id.season as nat)),
        episode_value(id, r, versions, "episode_code"@) == Some(
            episode_code(id.season, id.episodes@),
        ),
        episode_value(id, r, versions, "episode_title"@) == r.episode_title.ok(),
        episode_value(id, r, true, "discriminators"@) matches Some(d) && with_known(
            name,
            seq![r.resolution, r.hdr, r.source, r.video_codec, r.audio_format],
        ) == name + d,
{
    reveal_strlit("title");
    reveal_strlit("year");
    reveal_strlit("season");
    reveal_strlit("episode_code");
    reveal_strlit("episode_title");
    reveal_strlit("resolution");
    reveal_strlit("source");
    reveal_strlit("video_codec");
    reveal_strlit("audio_format");
    reveal_strlit("hdr");
    reveal_strlit("discriminators");
    assert("title"@.len() == 5);
    assert("year"@.len() == 4);
    assert("season"@.len() == 6);
    assert("episode_code"@.len() == 12);
    assert("episode_title"@.len() == 13);
    assert("resolution"@.len() == 10);
    assert("source"@.len() == 6);
    assert("video_codec"@.len() == 11);
    assert("audio_format"@.len() == 12);
    assert("hdr"@.len() == 3);
    assert("discriminators"@.len() == 14);
    assert("season"@[1] != "source"@[1]);
    assert("episode_code"@[0] != "audio_format"@[0]);
    let d = episode_value(id, r, true, "discriminators"@)->0;
    let none = Seq::<FieldView<Seq<char>>>::empty();
    lemma_with_known(name, none, r.resolution);
    let a = none.push(r.resolution);
    lemma_with_known(name, a, r.hdr);
    let b = a.push(r.hdr);
    lemma_with_known(name, b, r.source);
    let c = b.push(r.source);
    lemma_with_known(name, c, r.video_codec);
    let e = c.push(r.video_codec);
    lemma_with_known(name, e, r.audio_format);
    let f = e.push(r.audio_format);
    assert(f =~= seq![r.resolution, r.hdr, r.source, r.video_codec, r.audio_format]);
    assert(with_known(name, f) =~= name + d);
}

/// What all files of an episode are called by: the show, the year where it is
/// known, the code of the episode, and its title where that is known.
pub open spec fn coded(
    title: Seq<char>,
    year: Option<u16>,
    code: Seq<char>,
    episode_title: Option<Seq<char>>,
) -> Seq<char> {
    let name = titled(title, year) + " - "@ + code;
    match episode_title {
        Some(t) => name + " - "@ + t,
        None => name,
    }
}

/// The pieces `{title}[ ({year})] - {episode_code}[ - {episode_title}]`.
proof fn lemma_coded<V: ValueSource + ?Sized>(
    values: &V,
    title: Seq<char>,
    year: Option<u16>,
    code: Seq<char>,
    episode_title: Option<Seq<char>>,
)
    requires
        values.value("title"@) == Some(title),
        values.value("year"@) == (match year {
            Some(y) => Some(text::decimal(y as nat)),
            None => None,
        }),
        values.value("episode_code"@) == Some(code),
        values.value("episode_title"@) == episode_title,
    ensures
        rendered(coded_pieces(), values) == coded(title, year, code, episode_title),
{
    let dash = SegmentView::Literal(" - "@);
    let inner = seq![dash, SegmentView::Required("episode_title"@)];
    let head = seq![
        SegmentView::Required("title"@),
        SegmentView::Optional(
            seq![
                SegmentView::Literal(" ("@),
                SegmentView::Required("year"@),
                SegmentView::Literal(")"@),
            ],
        ),
    ];
    lemma_title_year(values, "title"@, title, year);
    lemma_piece(head, dash, values);
    lemma_piece(head.push(dash), SegmentView::Required("episode_code"@), values);
    let more = head.push(dash).push(SegmentView::Required("episode_code"@));
    lemma_piece(more, SegmentView::Optional(inner), values);
    lemma_pair_group(dash, SegmentView::Required("episode_title"@), values);
    assert(coded_pieces() =~= more.push(SegmentView::Optional(inner)));
    assert(rendered(more, values) =~= titled(title, year) + " - "@ + code);
    assert(rendered(coded_pieces(), values) =~= coded(title, year, code, episode_title));
}

/// The pieces `{title}[ ({year})] - {episode_code}[ - {episode_title}]`.
spec fn coded_pieces() -> Seq<SegmentView> {
    seq![
        SegmentView::Required("title"@),
        SegmentView::Optional(
            seq![
                SegmentView::Literal(" ("@),
                SegmentView::Required("year"@),
                SegmentView::Literal(")"@),
            ],
        ),
        SegmentView::Literal(" - "@),
        SegmentView::Required("episode_code"@),
        SegmentView::Optional(
            seq![SegmentView::Literal(" - "@), SegmentView::Required("episode_title"@)],
        ),
    ]
}

/// Under the default naming an episode goes to the directory of its season,
/// called `Season` and the number in two digits or `Specials` for season 0, in
/// that of its show, called by title and year right under the root. It is
/// called by the show, the code and the title of the episode and what is known
/// of resolution, HDR, source, codec and audio, in this order, with dashes
/// between them; a subtitle by show, code and title, and its language and flags
/// behind dots. The number of a copy follows in brackets.
pub proof fn law_default_place_of_an_episode(
    ctx: tv_route::RouteContext,
    class: FileClass,
    original: PathView,
    title: Seq<char>,
    show: Seq<char>,
    season: Seq<char>,
    name: Seq<char>,
)
    requires
        is_default_tv_naming(ctx.cfg.naming.tv),
        ctx.resolved.deep_view().title.ok() == Some(title),
        safe(titled(title, ctx.resolved.deep_view().year.ok()), *ctx.volume) == Some(show),
        safe(
            if ctx.id.season == 0 {
                "Specials"@
            } else {
                "Season "@ + text::decimal2(ctx.id.season as nat)
            },
            *ctx.volume,
        ) == Some(season),
        class == FileClass::Video || class == FileClass::Subtitle,
        ({
            let r = ctx.resolved.deep_view();
            let base = coded(
                title,
                r.year.ok(),
                episode_code(ctx.id.season, ctx.id.episodes@),
                r.episode_title.ok(),
            );
            let full = if class == FileClass::Video {
                with_known(
                    base,
                    seq![r.resolution, r.hdr, r.source, r.video_codec, r.audio_format],
                )
            } else {
                base + "."@ + ctx.language@ + match ctx.flags.deep_view() {
                    Some(f) => "."@ + f,
                    None => Seq::empty(),
                }
            };
            &&& safe(full, *ctx.volume) matches Some(whole) && name == (match r.copy.ok() {
                Some(n) => whole + " ("@ + text::decimal(n as nat) + ")"@,
                None => whole,
            })
        }),
        is_one_component(show),
        is_one_component(season),
        is_one_component(name),
        nothing_called(ctx.root.deep_view(), show, *ctx.volume),
    ensures
        ctx.destination(class, original) matches Some((absolute, relative)) && {
            let ext = extension_or_empty(original);
            let file = if ext.len() > 0 {
                name + "."@ + ext
            } else {
                name
            };
            &&& relative.parts == seq![show, season, file]
            &&& absolute.parts == ctx.root.deep_view().parts + seq![show, season, file]
        },
{
    let r = ctx.resolved.deep_view();
    let year = r.year.ok();
    let code = episode_code(ctx.id.season, ctx.id.episodes@);
    let base = coded(title, year, code, r.episode_title.ok());
    let plain = ValueSourceForEpisode {
        id: ctx.id,
        resolved: ctx.resolved,
        include_discriminators: false,
    };
    let full = ValueSourceForEpisode {
        id: ctx.id,
        resolved: ctx.resolved,
        include_discriminators: true,
    };
    lemma_episode_values(*ctx.id, r, false, base);
    lemma_episode_values(*ctx.id, r, true, base);
    lemma_title_year(&plain, "title"@, title, year);
    lemma_pair_group(
        SegmentView::Literal("Season "@),
        SegmentView::Required("season"@),
        &plain,
    );
    if class == FileClass::Video {
        lemma_coded(&full, title, year, code, r.episode_title.ok());
        lemma_piece(coded_pieces(), SegmentView::Required("discriminators"@), &full);
        assert(ctx.cfg.naming.tv.file.deep_view().segments =~= coded_pieces().push(
            SegmentView::Required("discriminators"@),
        ));
    } else {
        let values = SubtitleValueSourceForEpisode {
            inner: full,
            language: &ctx.language,
            flags: &ctx.flags,
        };
        lemma_episode_subtitle(values, title, year, code, r.episode_title.ok());
    }
    assert(ctx.file(class, original) == Some(name));
    law_episode_lies_under_show_and_season(ctx, class, original, show, season, name);
}

/// The default name of a subtitle of an episode.
proof fn lemma_episode_subtitle(
    values: SubtitleValueSourceForEpisode,
    title: Seq<char>,
    year: Option<u16>,
    code: Seq<char>,
    episode_title: Option<Seq<char>>,
)
    requires
        values.inner.value("title"@) == Some(title),
        values.inner.value("year"@) == (match year {
            Some(y) => Some(text::decimal(y as nat)),
            None => None,
        }),
        values.inner.value("episode_code"@) == Some(code),
        values.inner.value("episode_title"@) == episode_title,
    ensures
        forall|t: Template| #[trigger]
            is_episode_sub(t) ==> rendered(t.deep_view().segments, &values) == coded(
                title,
                year,
                code,
                episode_title,
            ) + "."@ + values.language@ + match values.flags.deep_view() {
                Some(f) => "."@ + f,
                None => Seq::empty(),
            },
{
    reveal_strlit("title");
    reveal_strlit("year");
    reveal_strlit("episode_code");
    reveal_strlit("episode_title");
    reveal_strlit("language");
    reveal_strlit("flags");
    assert("title"@.len() == 5);
    assert("year"@.len() == 4);
    assert("episode_code"@.len() == 12);
    assert("episode_title"@.len() == 13);
    assert("language"@.len() == 8);
    assert("flags"@.len() == 5);
    assert("title"@[0] != "flags"@[0]);
    lemma_coded(&values, title, year, code, episode_title);
    let dot = SegmentView::Literal("."@);
    let language = SegmentView::Required("language"@);
    let flags = SegmentView::Optional(seq![dot, SegmentView::Required("flags"@)]);
    let head = coded_pieces();
    lemma_piece(head, dot, &values);
    lemma_piece(head.push(dot), language, &values);
    lemma_piece(head.push(dot).push(language), flags, &values);
    lemma_pair_group(dot, SegmentView::Required("flags"@), &values);
    let all = head.push(dot).push(language).push(flags);
    let want = coded(title, year, code, episode_title) + "."@ + values.language@
        + match values.flags.deep_view() {
        Some(f) => "."@ + f,
        None => Seq::empty(),
    };
    assert(rendered(all, &values) =~= want);
    assert forall|t: Template| #[trigger] is_episode_sub(t) implies rendered(
        t.deep_view().segments,
        &values,
    ) == want by {
        assert(t.deep_view().segments =~= all);
    }
}

// ---------------------------------------------------------------------------
// Music
// ---------------------------------------------------------------------------

/// The values of a track.
proof fn lemma_track_values(r: music_resolve::ResolvedTrackView)
    ensures
        track_value(r, "album_artist"@) == r.album_artist.ok(),
        track_value(r, "album"@) == r.album.ok(),
        track_value(r, "year"@) == (match r.year.ok() {
            Some(y) => Some(text::decimal(y as nat)),
            None => None,
        }),
        track_value(r, "disc"@) == (match r.disc.ok() {
            Some(n) => Some(text::decimal(n as nat)),
            None => None,
        }),
        track_value(r, "track"@) == (match r.track.ok() {
            Some(n) => Some(text::decimal2(n as nat)),
            None => None,
        }),
        track_value(r, "title"@) == r.title.ok(),
{
    reveal_strlit("album_artist");
    reveal_strlit("album");
    reveal_strlit("year");
    reveal_strlit("disc");
    reveal_strlit("track");
    reveal_strlit("title");
    reveal_strlit("track_artist");
    assert("album_artist"@.len() == 12);
    assert("album"@.len() == 5);
    assert("year"@.len() == 4);
    assert("disc"@.len() == 4);
    assert("track"@.len() == 5);
    assert("title"@.len() == 5);
    assert("track_artist"@.len() == 12);
    assert("year"@[0] != "disc"@[0]);
    assert("album"@[0] != "track"@[0]);
    assert("album"@[0] != "title"@[0]);
    assert("track"@[1] != "title"@[1]);
}

/// Under the default naming a track goes to the directory of its album, called
/// by title and year, in that of the artist of the album, right under the root;
/// where the album spans several discs and the disc is known, to a directory in
/// that of the album that is called `CD` and the disc. A track is called by its
/// number in two digits, where it is known, a dash and its title, and artwork
/// `cover`.
pub proof fn law_default_place_of_a_track(
    ctx: MusicRouteContext,
    class: FileClass,
    original: PathView,
    names: (Seq<char>, Seq<char>, Seq<char>),
    places: (Seq<char>, Seq<char>, Seq<char>, Seq<char>),
)
    requires
        is_default_music_naming(ctx.cfg.naming.music),
        ctx.resolved.deep_view().album_artist.ok() == Some(names.0),
        ctx.resolved.deep_view().album.ok() == Some(names.1),
        ctx.resolved.deep_view().title.ok() == Some(names.2),
        class == FileClass::Audio || class == FileClass::Artwork,
        safe(names.0, *ctx.volume) == Some(places.0),
        safe(titled(names.1, ctx.resolved.deep_view().year.ok()), *ctx.volume) == Some(places.1),
        safe(
            "CD "@ + match ctx.resolved.deep_view().disc.ok() {
                Some(n) => text::decimal(n as nat),
                None => Seq::empty(),
            },
            *ctx.volume,
        ) == Some(places.2),
        safe(
            if class == FileClass::Artwork {
                "cover"@
            } else {
                match ctx.resolved.deep_view().track.ok() {
                    Some(n) => text::decimal2(n as nat) + " - "@ + names.2,
                    None => names.2,
                }
            },
            *ctx.volume,
        ) == Some(places.3),
        is_one_component(places.0),
        is_one_component(places.1),
        is_one_component(places.2),
        is_one_component(places.3),
        nothing_called(ctx.root.deep_view(), places.0, *ctx.volume),
    ensures
        ctx.destination(class, original) matches Some((absolute, relative)) && {
            let ext = extension_or_empty(original);
            let file = if ext.len() > 0 {
                places.3 + "."@ + ext
            } else {
                places.3
            };
            let below = if ctx.multi_disc && ctx.resolved.deep_view().disc.ok() is Some {
                seq![places.0, places.1, places.2, file]
            } else {
                seq![places.0, places.1, file]
            };
            &&& relative.parts == below
            &&& absolute.parts == ctx.root.deep_view().parts + below
        },
{
    let r = ctx.resolved.deep_view();
    let values = ValueSourceForTrack { resolved: ctx.resolved };
    let naming = ctx.cfg.naming.music;
    lemma_track_values(r);
    let none = Seq::<SegmentView>::empty();
    lemma_piece(none, SegmentView::Required("album_artist"@), &values);
    assert(naming.artist_dir.deep_view().segments =~= none.push(
        SegmentView::Required("album_artist"@),
    ));
    assert(rendered(naming.artist_dir.deep_view().segments, &values) =~= names.0);
    lemma_title_year(&values, "album"@, names.1, r.year.ok());
    lemma_pair_group(SegmentView::Literal("CD "@), SegmentView::Required("disc"@), &values);
    let number = seq![SegmentView::Required("track"@), SegmentView::Literal(" - "@)];
    lemma_pair_group(SegmentView::Required("track"@), SegmentView::Literal(" - "@), &values);
    lemma_pair_group(SegmentView::Optional(number), SegmentView::Required("title"@), &values);
    let name = match r.track.ok() {
        Some(n) => text::decimal2(n as nat) + " - "@ + names.2,
        None => names.2,
    };
    assert(rendered(naming.file.deep_view().segments, &values) =~= name);
    assert(ctx.file(class, original) == Some(places.3));
    law_track_lies_under_artist_and_album(
        ctx,
        class,
        original,
        places.0,
        places.1,
        places.2,
        places.3,
    );
}

/// A known value stands behind a dash.
proof fn lemma_suffix(f: FieldView<Seq<char>>)
    ensures
        render::suffix(" - "@, f) == layout::dashed(f),
{
}

/// A stem begins with the title and the year.
proof fn lemma_stem_begins(m: model::MovieFields, title: Seq<char>)
    requires
        m.title.ok() == Some(title),
    ensures
        render::suffix(Seq::empty(), m.title) + render::year_suffix(
            m.year,
        ) == titled(title, m.year.ok()),
{
    assert(render::suffix(Seq::empty(), m.title)
        + render::year_suffix(m.year) =~= titled(title, m.year.ok()));
}

/// The stem that a parsed movie is rendered to is its title, with the year in
/// brackets where it is known, and what is known of edition, resolution, source,
/// codec, audio and HDR, in this order, with dashes between them.
pub proof fn law_rendered_stem_tells_what_is_known(
    m: model::MovieFields,
    title: Seq<char>,
)
    requires
        m.title.ok() == Some(title),
    ensures
        render::movie_stem(m) == with_known(
            titled(title, m.year.ok()),
            seq![m.edition, m.resolution, m.source, m.video_codec, m.audio_format, m.hdr],
        ),
{
    let name = titled(title, m.year.ok());
    let none = Seq::<FieldView<Seq<char>>>::empty();
    lemma_with_known(name, none, m.edition);
    let a = none.push(m.edition);
    lemma_with_known(name, a, m.resolution);
    let b = a.push(m.resolution);
    lemma_with_known(name, b, m.source);
    let c = b.push(m.source);
    lemma_with_known(name, c, m.video_codec);
    let d = c.push(m.video_codec);
    lemma_with_known(name, d, m.audio_format);
    let e = d.push(m.audio_format);
    lemma_with_known(name, e, m.hdr);
    let f = e.push(m.hdr);
    assert(f =~= seq![m.edition, m.resolution, m.source, m.video_codec, m.audio_format, m.hdr]);
    lemma_suffix(m.edition);
    lemma_suffix(m.resolution);
    lemma_suffix(m.source);
    lemma_suffix(m.video_codec);
    lemma_suffix(m.audio_format);
    lemma_suffix(m.hdr);
    lemma_stem_begins(m, title);
}

} // verus!
