//! What is grouped together, and what is not.

use crate::domain::identity;
use crate::domain::identity::norm_of;
use crate::domain::plan;
use crate::domain::provenance;
use crate::engine::cluster;
use crate::engine::cluster::{
    canonical_year, cluster_at, clusters, clusters_upto, is_first, law_every_keyed_item_is_grouped,
    members_of, most_common, occurrences, KeyedView,
};
use crate::engine::draft::Drafted;
use crate::engine::group::movie_keys;
use crate::engine::music_group::track_keys;
use crate::engine::music_plan;
use crate::engine::music_resolve::ResolvedTrack;
use crate::engine::planner;
use crate::engine::probe_stage;
use crate::engine::resolve;
use crate::engine::resolve::ResolvedMovie;
use crate::engine::tv_group::episode_keys;
use crate::engine::tv_plan;
use crate::engine::tv_resolve::ResolvedEpisode;
use vstd::prelude::*;

verus! {

/// Every member of a group is an item with its key.
proof fn lemma_member(
    items: Seq<KeyedView>,
    key: Option<(Seq<char>, Seq<char>)>,
    n: int,
    m: int,
) -> (i: int)
    requires
        0 <= n <= items.len(),
        0 <= m < members_of(items, key, n).len(),
    ensures
        0 <= i < n,
        items[i].key == key,
        items[i].idx == members_of(items, key, n)[m],
    decreases n,
{
    let rest = members_of(items, key, n - 1);
    if m < rest.len() {
        lemma_member(items, key, n - 1, m)
    } else {
        n - 1
    }
}

/// Every group is that of some first item.
proof fn lemma_group(items: Seq<KeyedView>, n: int, k: int) -> (f: int)
    requires
        0 <= n <= items.len(),
        0 <= k < clusters_upto(items, n).len(),
    ensures
        0 <= f < n,
        is_first(items, f),
        clusters_upto(items, n)[k] == cluster_at(items, f),
        clusters_upto(items, n)[k].first == f,
    decreases n,
{
    let rest = clusters_upto(items, n - 1);
    if k < rest.len() {
        lemma_group(items, n - 1, k)
    } else {
        n - 1
    }
}

/// The first items of groups stand in order.
proof fn lemma_firsts_in_order(items: Seq<KeyedView>, n: int, k: int, l: int)
    requires
        0 <= n <= items.len(),
        0 <= k < l < clusters_upto(items, n).len(),
    ensures
        clusters_upto(items, n)[k].first < clusters_upto(items, n)[l].first,
    decreases n,
{
    let rest = clusters_upto(items, n - 1);
    if l < rest.len() {
        lemma_firsts_in_order(items, n - 1, k, l);
    } else {
        let f = lemma_group(items, n - 1, k);
    }
}

/// No two groups are of the same key, and every group is of one that is there.
pub proof fn law_groups_have_different_keys(items: Seq<KeyedView>, k: int, l: int)
    requires
        0 <= k < l < clusters(items).len(),
    ensures
        items[clusters(items)[k].first].key is Some,
        items[clusters(items)[k].first].key != items[clusters(items)[l].first].key,
{
    let f = lemma_group(items, items.len() as int, k);
    let g = lemma_group(items, items.len() as int, l);
    lemma_firsts_in_order(items, items.len() as int, k, l);
}

/// Whether one group has two items.
pub open spec fn are_together(items: Seq<KeyedView>, a: usize, b: usize) -> bool {
    exists|k: int|
        0 <= k < clusters(items).len() && (#[trigger] clusters(items)[k]).members.contains(a)
            && clusters(items)[k].members.contains(b)
}

/// Two items are in one group exactly where they have the same key. So it is
/// where all items are told apart by their numbers.
pub proof fn law_items_of_one_key_are_together(items: Seq<KeyedView>, i: int, j: int)
    requires
        0 <= i < items.len(),
        0 <= j < items.len(),
        forall|a: int, b: int|
            0 <= a < b < items.len() ==> (#[trigger] items[a]).idx != (#[trigger] items[b]).idx,
    ensures
        are_together(items, items[i].idx, items[j].idx) <==> items[i].key is Some && items[i].key
            == items[j].key,
{
    let all = clusters(items);
    let n = items.len() as int;
    if items[i].key is Some && items[i].key == items[j].key {
        law_every_keyed_item_is_grouped(items, i);
        law_every_keyed_item_is_grouped(items, j);
        let k = choose|k: int|
            0 <= k < all.len() && items[(#[trigger] all[k]).first].key == items[i].key
                && all[k].members.contains(items[i].idx);
        let l = choose|l: int|
            0 <= l < all.len() && items[(#[trigger] all[l]).first].key == items[j].key
                && all[l].members.contains(items[j].idx);
        if k < l {
            law_groups_have_different_keys(items, k, l);
        } else if l < k {
            law_groups_have_different_keys(items, l, k);
        }
        assert(are_together(items, items[i].idx, items[j].idx));
    }
    if are_together(items, items[i].idx, items[j].idx) {
        let k = choose|k: int|
            0 <= k < all.len() && (#[trigger] all[k]).members.contains(items[i].idx)
                && all[k].members.contains(items[j].idx);
        let f = lemma_group(items, n, k);
        let ms = all[k].members;
        let a = choose|a: int| 0 <= a < ms.len() && ms[a] == items[i].idx;
        let b = choose|b: int| 0 <= b < ms.len() && ms[b] == items[j].idx;
        let x = lemma_member(items, items[f].key, n, a);
        let y = lemma_member(items, items[f].key, n, b);
        assert(x == i) by {
            if x < i {
                assert(items[x].idx != items[i].idx);
            } else if i < x {
                assert(items[i].idx != items[x].idx);
            }
        }
        assert(y == j) by {
            if y < j {
                assert(items[y].idx != items[j].idx);
            } else if j < y {
                assert(items[j].idx != items[y].idx);
            }
        }
    }
}

/// Movies are in one group exactly where their titles are the same once they
/// are normalised.
pub proof fn law_movies_of_one_title_are_together(
    items: Seq<(usize, &ResolvedMovie)>,
    i: int,
    j: int,
    a: Seq<char>,
    b: Seq<char>,
)
    requires
        0 <= i < items.len(),
        0 <= j < items.len(),
        forall|x: int, y: int|
            0 <= x < y < items.len() ==> (#[trigger] items[x]).0 != (#[trigger] items[y]).0,
        items[i].1.deep_view().title.ok() == Some(a),
        items[j].1.deep_view().title.ok() == Some(b),
    ensures
        are_together(movie_keys(items), items[i].0, items[j].0) <==> norm_of(a, false).key
            == norm_of(b, false).key,
{
    let keys = movie_keys(items);
    assert forall|x: int, y: int| 0 <= x < y < keys.len() implies (#[trigger] keys[x]).idx != (
    #[trigger] keys[y]).idx by {
        assert(items[x].0 != items[y].0);
    }
    law_items_of_one_key_are_together(keys, i, j);
}

/// Episodes are in one group exactly where the titles of their shows are the
/// same once they are normalised.
pub proof fn law_episodes_of_one_show_are_together(
    items: Seq<(usize, &ResolvedEpisode)>,
    i: int,
    j: int,
    a: Seq<char>,
    b: Seq<char>,
)
    requires
        0 <= i < items.len(),
        0 <= j < items.len(),
        forall|x: int, y: int|
            0 <= x < y < items.len() ==> (#[trigger] items[x]).0 != (#[trigger] items[y]).0,
        items[i].1.deep_view().title.ok() == Some(a),
        items[j].1.deep_view().title.ok() == Some(b),
    ensures
        are_together(episode_keys(items), items[i].0, items[j].0) <==> norm_of(a, false).key
            == norm_of(b, false).key,
{
    let keys = episode_keys(items);
    assert forall|x: int, y: int| 0 <= x < y < keys.len() implies (#[trigger] keys[x]).idx != (
    #[trigger] keys[y]).idx by {
        assert(items[x].0 != items[y].0);
    }
    law_items_of_one_key_are_together(keys, i, j);
}

/// Tracks are in one group exactly where artist and name of their albums are the
/// same once they are normalised.
pub proof fn law_tracks_of_one_album_are_together(
    items: Seq<(usize, &ResolvedTrack)>,
    i: int,
    j: int,
    a: (Seq<char>, Seq<char>),
    b: (Seq<char>, Seq<char>),
)
    requires
        0 <= i < items.len(),
        0 <= j < items.len(),
        forall|x: int, y: int|
            0 <= x < y < items.len() ==> (#[trigger] items[x]).0 != (#[trigger] items[y]).0,
        items[i].1.deep_view().album_artist.ok() == Some(a.0),
        items[i].1.deep_view().album.ok() == Some(a.1),
        items[j].1.deep_view().album_artist.ok() == Some(b.0),
        items[j].1.deep_view().album.ok() == Some(b.1),
    ensures
        are_together(track_keys(items), items[i].0, items[j].0) <==> norm_of(a.0, false).key
            == norm_of(b.0, false).key && norm_of(a.1, false).key == norm_of(b.1, false).key,
{
    let keys = track_keys(items);
    assert forall|x: int, y: int| 0 <= x < y < keys.len() implies (#[trigger] keys[x]).idx != (
    #[trigger] keys[y]).idx by {
        assert(items[x].0 != items[y].0);
    }
    law_items_of_one_key_are_together(keys, i, j);
}

/// Of the years that occur most often the one that comes first is that of the
/// group.
pub proof fn law_first_of_the_most_common_years_counts(years: Seq<u16>, i: int)
    requires
        0 <= i < years.len(),
        canonical_year(years) matches Some(c) && occurrences(years, years[i]) == occurrences(
            years,
            c,
        ),
    ensures
        exists|j: int| 0 <= j <= i && #[trigger] years[j] == canonical_year(years)->0,
{
    lemma_first_of_most(years, years.len() as int, i);
}

/// The year that is picked among the first so many comes first of those that
/// occur as often.
proof fn lemma_first_of_most(years: Seq<u16>, upto: int, i: int)
    requires
        0 <= i < years.len(),
        1 <= upto <= years.len(),
        occurrences(years, years[i]) >= occurrences(years, most_common(years, upto)),
    ensures
        i < upto ==> exists|j: int| 0 <= j <= i && #[trigger] years[j] == most_common(years, upto),
    decreases upto,
{
    if upto > 1 {
        let best = most_common(years, upto - 1);
        let next = years[upto - 1];
        if occurrences(years, next) > occurrences(years, best) {
            if i < upto - 1 {
                lemma_best_so_far(years, upto - 1, i);
            }
        } else if i < upto - 1 {
            lemma_first_of_most(years, upto - 1, i);
        } else {
            lemma_best_is_there(years, upto - 1);
            let j = choose|j: int| 0 <= j < upto - 1 && #[trigger] years[j] == best;
            assert(years[j] == most_common(years, upto));
        }
    } else {
        assert(years[0] == most_common(years, upto));
    }
}

/// No year among the first so many occurs more often than the one picked.
proof fn lemma_best_so_far(years: Seq<u16>, upto: int, i: int)
    requires
        0 <= i < upto <= years.len(),
    ensures
        occurrences(years, years[i]) <= occurrences(years, most_common(years, upto)),
    decreases upto,
{
    if upto > 1 {
        if i < upto - 1 {
            lemma_best_so_far(years, upto - 1, i);
        }
    }
}

/// The year that is picked is among the first so many.
proof fn lemma_best_is_there(years: Seq<u16>, upto: int)
    requires
        1 <= upto <= years.len(),
    ensures
        exists|j: int| 0 <= j < upto && #[trigger] years[j] == most_common(years, upto),
    decreases upto,
{
    if upto > 1 {
        lemma_best_is_there(years, upto - 1);
        let best = most_common(years, upto - 1);
        let j = choose|j: int| 0 <= j < upto - 1 && #[trigger] years[j] == best;
        if most_common(years, upto) == best {
            assert(years[j] == most_common(years, upto));
        } else {
            assert(years[upto - 1] == most_common(years, upto));
        }
    } else {
        assert(years[0] == most_common(years, upto));
    }
}

/// A movie takes the year of its group where it has none of its own, and keeps
/// its own where it has; everything else of it stays as it was, and it is called
/// as its group is.
pub proof fn law_movie_takes_the_year_of_its_group(
    list: Seq<planner::MovieRest>,
    i: int,
)
    requires
        0 <= i < list.len(),
    ensures
        ({
            let groups = clusters(planner::item_keys(list));
            let after = planner::in_group(list, i);
            &&& after.parsed == list[i].parsed
            &&& after.resolved is Some <==> list[i].resolved is Some
            &&& list[i].resolved matches Some(m) ==> after.resolved matches Some(n) && {
                &&& n.title == m.title && n.edition == m.edition && n.resolution == m.resolution
                &&& n.source == m.source && n.video_codec == m.video_codec
                &&& n.audio_format == m.audio_format && n.hdr == m.hdr && n.copy == m.copy
                &&& m.year.ok() is Some ==> n.year == m.year
                &&& m.year.ok() is None ==> match planner::group_of(
                    groups,
                    i as usize,
                    0,
                ) {
                    Some(k) => n.year.ok() == groups[k].year && (groups[k].year is Some
                        ==> after.movie_id.year == n.year.ok()),
                    None => n.year == m.year,
                }
            }
        }),
{
}

/// With the conservative ranks what the container of a movie says of resolution
/// and codec replaces what its name says, and its name counts where the
/// container says nothing.
pub proof fn law_container_replaces_what_the_name_says(
    m: resolve::ResolvedMovieView,
    v: probe_stage::VideoProbeView,
)
    requires
        m.resolution.is_from(provenance::Source::Filename),
        m.video_codec.is_from(provenance::Source::Filename),
    ensures
        ({
            let prefs = identity::conservative_preference();
            let after = m.with_video(v, prefs);
            &&& after.resolution.ok() == (match v.resolution {
                Some(label) => Some(label),
                None => m.resolution.ok(),
            })
            &&& after.video_codec.ok() == (match v.codec {
                Some(codec) => Some(codec),
                None => m.video_codec.ok(),
            })
            &&& after.title == m.title && after.year == m.year && after.edition == m.edition
            &&& after.source == m.source && after.audio_format == m.audio_format
            &&& after.hdr == m.hdr && after.copy == m.copy
        }),
{
}

/// An episode takes the year of its show where it has none of its own, and keeps
/// its own where it has; it is of the show of its group, and of the season and
/// the episodes that it was, and everything else of it stays as it was.
pub proof fn law_episode_takes_the_year_of_its_show(
    list: Seq<tv_plan::TvRest>,
    i: int,
    k: int,
)
    requires
        0 <= i < list.len(),
        list[i].resolved is Some,
        planner::group_of(
            clusters(tv_plan::item_keys(list)),
            i as usize,
            0,
        ) == Some(k),
    ensures
        ({
            let group = clusters(tv_plan::item_keys(list))[k];
            let after = tv_plan::in_group(list, i);
            let e = list[i].resolved->0;
            &&& after.show_id.year == group.year
            &&& after.resolved matches Some(n) && {
                &&& n.title == e.title && n.season == e.season && n.episodes == e.episodes
                &&& n.episode_title == e.episode_title && n.resolution == e.resolution
                &&& n.source == e.source && n.video_codec == e.video_codec
                &&& n.audio_format == e.audio_format && n.hdr == e.hdr && n.copy == e.copy
                &&& n.ambiguous == e.ambiguous
                &&& e.year.ok() is Some ==> n.year == e.year
                &&& e.year.ok() is None ==> n.year.ok() == group.year
            }
            &&& e.season.ok() is Some && e.episodes.ok() is Some ==> (
            after.episode_id matches Some(id) && Some(id.season) == e.season.ok() && Some(
                id.episodes,
            ) == e.episodes.ok() && id.show == after.show_id)
        }),
{
}

/// A track takes the year of its album where it has none of its own, and keeps
/// its own where it has; everything else of it stays as it was.
pub proof fn law_track_takes_the_year_of_its_album(
    list: Seq<music_plan::MusicRest>,
    i: int,
    k: int,
)
    requires
        0 <= i < list.len(),
        list[i].resolved is Some,
        planner::group_of(
            music_plan::albums(list),
            i as usize,
            0,
        ) == Some(k),
    ensures
        ({
            let after = music_plan::in_group(list, i);
            let t = list[i].resolved->0;
            &&& after.resolved matches Some(n) && {
                &&& n.album_artist == t.album_artist && n.album == t.album && n.disc == t.disc
                &&& n.track == t.track && n.title == t.title && n.track_artist == t.track_artist
                &&& n.compilation == t.compilation
                &&& t.year.ok() is Some ==> n.year == t.year
                &&& t.year.ok() is None ==> n.year.ok() == after.album_id.year
            }
            &&& after.parsed == list[i].parsed && after.multi_disc == list[i].multi_disc
        }),
{
}

/// The disc of a member of a group, if it is known.
pub open spec fn disc_of_member(list: Seq<music_plan::MusicRest>, idx: usize) -> Option<
    u16,
> {
    if idx < list.len() {
        match list[idx as int].resolved {
            Some(t) => t.disc.ok(),
            None => None,
        }
    } else {
        None
    }
}

/// Whether a review of the disc is asked for.
pub open spec fn asks_for_disc(r: plan::ReadinessView) -> bool {
    r matches plan::ReadinessView::NeedsReview { missing, .. } && missing.contains(
        plan::FieldName::Disc,
    )
}

/// Where one track of an album has a disc number and another has none, each of
/// them asks for a review of the disc. Else the album spans several discs
/// exactly where two of its tracks have different disc numbers.
pub proof fn law_discs_of_an_album_are_settled(
    groups: Seq<cluster::ClusterView>,
    before: Seq<music_plan::MusicItemInternal>,
    after: Seq<music_plan::MusicItemInternal>,
    i: int,
    k: int,
)
    requires
        music_plan::ruled(groups, before, after),
        0 <= i < before.len(),
        planner::group_of(groups, i as usize, 0) == Some(k),
        forall|m: int|
            0 <= m < groups[k].members.len() ==> (#[trigger] groups[k].members[m]) < before.len()
                && before[groups[k].members[m] as int].rest().resolved is Some,
    ensures
        ({
            let list = music_plan::rests(before);
            let ms = groups[k].members;
            let some = exists|m: int|
                0 <= m < ms.len() && disc_of_member(list, #[trigger] ms[m]) is Some;
            let none = exists|m: int|
                0 <= m < ms.len() && disc_of_member(list, #[trigger] ms[m]) is None;
            let differ = exists|m: int, n: int|
                0 <= m < ms.len() && 0 <= n < ms.len() && disc_of_member(list, #[trigger] ms[m])
                    is Some && disc_of_member(list, #[trigger] ms[n]) is Some && disc_of_member(
                    list,
                    ms[m],
                ) != disc_of_member(list, ms[n]);
            &&& some && none ==> asks_for_disc(after[i].draft().readiness)
            &&& !(some && none) ==> after[i].draft() == before[i].draft() && (
            after[i].rest().multi_disc <==> differ)
        }),
{
    let list = music_plan::rests(before);
    let ms = groups[k].members;
    assert(music_plan::ruled_item(groups, list, before[i], after[i], i));
    assert forall|m: int| 0 <= m < ms.len() implies music_plan::item_disc(
        list,
        #[trigger] ms[m] as int,
    ) is Some && music_plan::item_disc_number(list, ms[m] as int) == disc_of_member(
        list,
        ms[m],
    ) by {
        assert(list[ms[m] as int] == before[ms[m] as int].rest());
    }
    let some = exists|m: int| 0 <= m < ms.len() && disc_of_member(list, #[trigger] ms[m]) is Some;
    let none = exists|m: int| 0 <= m < ms.len() && disc_of_member(list, #[trigger] ms[m]) is None;
    if some {
        let m = choose|m: int| 0 <= m < ms.len() && disc_of_member(list, #[trigger] ms[m]) is Some;
        assert(music_plan::item_disc(list, ms[m] as int) is Some);
    }
    if none {
        let m = choose|m: int| 0 <= m < ms.len() && disc_of_member(list, #[trigger] ms[m]) is None;
        assert(music_plan::item_disc(list, ms[m] as int) is Some);
    }
    assert(seq![plan::FieldName::Disc][0] == plan::FieldName::Disc);
}

} // verus!
