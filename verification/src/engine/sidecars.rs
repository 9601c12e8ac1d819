//! What sidecars take over from the videos that they belong to.

use crate::domain::classify::FileClass;
use crate::domain::path::PathView;
use crate::engine::associate::{
    goes_along, home_of, is_ready_in, law_anchor_has_the_longest_leading_stem,
    law_first_anchor_is_the_first, stem_leads,
};
use crate::engine::draft::{drafts, DraftView, Drafted};
use crate::engine::music_plan;
use crate::engine::music_plan::MusicItemInternal;
use crate::engine::planner;
use crate::engine::planner::PlanItemInternal;
use crate::engine::tv_plan;
use crate::engine::tv_plan::{PlanItemInternalTv, TvRest};
use vstd::prelude::*;

verus! {

/// Whether a sidecar has taken over the movie of a video.
pub open spec fn takes_over(
    before: Seq<PlanItemInternal>,
    after: Seq<PlanItemInternal>,
    i: int,
    p: int,
) -> bool {
    &&& after[i].draft().readiness is Ready
    &&& after[i].rest().movie_id == before[p].rest().movie_id
    &&& after[i].rest().resolved == before[p].rest().resolved
}

/// A sidecar whose stem begins with that of a ready video beside it takes over
/// the movie of one, none of whose like has a longer stem. Else a subtitle is an
/// orphan, and artwork or metadata takes over the movie that all the videos
/// beside it are ready and of, and is an orphan where there is no such movie.
/// What is no sidecar stays as it is.
pub proof fn law_sidecar_takes_over_its_movie(
    before: Seq<PlanItemInternal>,
    after: Seq<PlanItemInternal>,
    root: PathView,
    i: int,
)
    requires
        planner::associated(before, after, root),
        0 <= i < before.len(),
    ensures
        ({
            let ds = drafts(before);
            let side = ds[i];
            let kind = side.class;
            let named = exists|j: int|
                0 <= j < ds.len() && #[trigger] stem_leads(ds[j], side, FileClass::Video, root);
            let sidecar = kind == FileClass::Subtitle || kind == FileClass::Artwork || kind
                == FileClass::Metadata;
            &&& after[i].draft().source == side.source && after[i].draft().class == kind
            &&& !sidecar ==> after[i].draft() == side && after[i].rest() == before[i].rest()
            &&& sidecar && named ==> exists|p: int|
                0 <= p < ds.len() && #[trigger] stem_leads(ds[p], side, FileClass::Video, root)
                    && takes_over(before, after, i, p) && forall|j: int|
                    0 <= j < ds.len() && #[trigger] stem_leads(ds[j], side, FileClass::Video, root)
                        ==> ds[j].source.stem()->0.len() <= ds[p].source.stem()->0.len()
            &&& kind == FileClass::Subtitle && !named ==> after[i].draft().readiness is NeedsReview
            &&& (kind == FileClass::Artwork || kind == FileClass::Metadata) && !named ==> {
                ||| after[i].draft().readiness is NeedsReview
                ||| exists|p: int|
                    0 <= p < ds.len() && #[trigger] is_ready_in(
                        ds[p],
                        FileClass::Video,
                        home_of(side, root),
                        root,
                    ) && takes_over(before, after, i, p) && planner::one_movie(
                        ds,
                        planner::rests(before),
                        home_of(side, root),
                        root,
                        before[p].rest().movie_id.key(),
                    )
            }
        }),
{
    let ds = drafts(before);
    let list = planner::rests(before);
    let side = ds[i];
    assert(side == before[i].draft());
    assert(planner::associated_item(before, before[i], after[i], root, i));
    law_anchor_has_the_longest_leading_stem(ds, side, FileClass::Video, root);
    law_first_anchor_is_the_first(ds, FileClass::Video, home_of(side, root), root);
    if let (Some(p), true) = (planner::anchor_of(ds, list, root, i), goes_along(side.class)) {
        assert(list[p] == before[p].rest());
        assert(takes_over(before, after, i, p));
    }
}

/// Whether a sidecar has taken over the episode of a video.
pub open spec fn takes_over_episode(
    before: Seq<PlanItemInternalTv>,
    after: Seq<PlanItemInternalTv>,
    i: int,
    p: int,
) -> bool {
    &&& after[i].draft().readiness is Ready
    &&& after[i].rest().show_id == before[p].rest().show_id
    &&& after[i].rest().episode_id == before[p].rest().episode_id
    &&& after[i].rest().resolved == before[p].rest().resolved
}

/// Whether a file is a ready video in a directory, of given episodes.
pub open spec fn is_video_of(
    d: DraftView,
    r: TvRest,
    dir: PathView,
    root: PathView,
    season: u16,
    episodes: Seq<u16>,
) -> bool {
    &&& is_ready_in(d, FileClass::Video, dir, root)
    &&& r.episode_id matches Some(e) && e.season == season && e.episodes == episodes
}

/// The first video of given episodes from a place on.
proof fn lemma_first_of_episodes(
    ds: Seq<DraftView>,
    list: Seq<TvRest>,
    dir: PathView,
    root: PathView,
    season: u16,
    episodes: Seq<u16>,
    from: int,
)
    requires
        0 <= from,
    ensures
        match tv_plan::anchor_by_episodes(ds, list, dir, root, season, episodes, from) {
            Some(b) => from <= b < ds.len() && is_video_of(
                ds[b],
                list[b],
                dir,
                root,
                season,
                episodes,
            ),
            None => forall|j: int|
                from <= j < ds.len() ==> !is_video_of(
                    #[trigger] ds[j],
                    list[j],
                    dir,
                    root,
                    season,
                    episodes,
                ),
        },
    decreases ds.len() - from,
{
    if from < ds.len() {
        lemma_first_of_episodes(ds, list, dir, root, season, episodes, from + 1);
    }
}

/// A sidecar of an episode takes over just what its video is.
proof fn lemma_adopts(
    before: Seq<PlanItemInternalTv>,
    after: Seq<PlanItemInternalTv>,
    root: PathView,
    i: int,
)
    requires
        tv_plan::associated(before, after, root),
        0 <= i < before.len(),
    ensures
        after[i].draft().source == before[i].draft().source,
        after[i].draft().class == before[i].draft().class,
        !goes_along(before[i].draft().class) ==> after[i].draft() == before[i].draft()
            && after[i].rest() == before[i].rest(),
        goes_along(before[i].draft().class) ==> match tv_plan::anchor_of(
            drafts(before),
            tv_plan::rests(before),
            root,
            i,
        ) {
            Some(p) => takes_over_episode(before, after, i, p),
            None => after[i].draft().readiness is NeedsReview,
        },
{
    assert(tv_plan::associated_item(before, before[i], after[i], root, i));
}

/// A subtitle whose own name gives the episodes of a ready video beside it takes
/// over these episodes, whatever it is called. What is no sidecar stays as it
/// is.
pub proof fn law_subtitle_takes_over_its_episodes(
    before: Seq<PlanItemInternalTv>,
    after: Seq<PlanItemInternalTv>,
    root: PathView,
    i: int,
    season: u16,
    episodes: Seq<u16>,
    j: int,
)
    requires
        tv_plan::associated(before, after, root),
        0 <= i < before.len(),
        0 <= j < before.len(),
        before[i].draft().class == FileClass::Subtitle,
        before[i].draft().source.file_name() is Some,
        tv_plan::parsed_from_name(before[i].draft().source).season.ok() == Some(season),
        tv_plan::parsed_from_name(before[i].draft().source).episodes.ok() == Some(episodes),
        is_video_of(
            before[j].draft(),
            before[j].rest(),
            home_of(before[i].draft(), root),
            root,
            season,
            episodes,
        ),
    ensures
        exists|p: int|
            0 <= p < before.len() && is_video_of(
                (#[trigger] before[p]).draft(),
                before[p].rest(),
                home_of(before[i].draft(), root),
                root,
                season,
                episodes,
            ) && takes_over_episode(before, after, i, p),
{
    let ds = drafts(before);
    let list = tv_plan::rests(before);
    let dir = home_of(before[i].draft(), root);
    assert(ds[i] == before[i].draft());
    assert(ds[j] == before[j].draft() && list[j] == before[j].rest());
    lemma_first_of_episodes(ds, list, dir, root, season, episodes, 0);
    lemma_adopts(before, after, root, i);
    let p = tv_plan::anchor_by_episodes(ds, list, dir, root, season, episodes, 0)->0;
    assert(ds[p] == before[p].draft() && list[p] == before[p].rest());
}

/// A sidecar whose own name gives no episodes, or is no subtitle, and whose stem
/// begins with that of a ready video beside it, takes over the episode of one,
/// none of whose like has a longer stem. Without such a video a subtitle is an
/// orphan.
pub proof fn law_sidecar_takes_over_its_episode(
    before: Seq<PlanItemInternalTv>,
    after: Seq<PlanItemInternalTv>,
    root: PathView,
    i: int,
)
    requires
        tv_plan::associated(before, after, root),
        0 <= i < before.len(),
        before[i].draft().class == FileClass::Artwork || before[i].draft().class
            == FileClass::Metadata || (before[i].draft().class == FileClass::Subtitle
            && tv_plan::parsed_from_name(before[i].draft().source).episodes.ok() is None),
    ensures
        ({
            let ds = drafts(before);
            let side = ds[i];
            let named = exists|j: int|
                0 <= j < ds.len() && #[trigger] stem_leads(ds[j], side, FileClass::Video, root);
            &&& named ==> exists|p: int|
                0 <= p < ds.len() && #[trigger] stem_leads(ds[p], side, FileClass::Video, root)
                    && takes_over_episode(before, after, i, p) && forall|j: int|
                    0 <= j < ds.len() && #[trigger] stem_leads(ds[j], side, FileClass::Video, root)
                        ==> ds[j].source.stem()->0.len() <= ds[p].source.stem()->0.len()
            &&& side.class == FileClass::Subtitle && !named ==> after[i].draft().readiness
                is NeedsReview
        }),
{
    let ds = drafts(before);
    let side = ds[i];
    assert(side == before[i].draft());
    law_anchor_has_the_longest_leading_stem(ds, side, FileClass::Video, root);
    lemma_adopts(before, after, root, i);
}

/// Artwork and metadata take over the album of the first ready track beside
/// them, and are orphans where there is none. Whatever else there is stays as it
/// is.
pub proof fn law_artwork_takes_over_its_album(
    before: Seq<MusicItemInternal>,
    after: Seq<MusicItemInternal>,
    root: PathView,
    i: int,
)
    requires
        music_plan::associated(before, after, root),
        0 <= i < before.len(),
    ensures
        ({
            let ds = drafts(before);
            let side = ds[i];
            let goes = side.class == FileClass::Artwork || side.class == FileClass::Metadata;
            let dir = home_of(side, root);
            let some = exists|j: int|
                0 <= j < ds.len() && #[trigger] is_ready_in(ds[j], FileClass::Audio, dir, root);
            &&& !goes ==> after[i].draft() == side && after[i].rest() == before[i].rest()
            &&& goes && !some ==> after[i].draft().readiness is NeedsReview
            &&& goes && some ==> exists|p: int|
                0 <= p < ds.len() && #[trigger] is_ready_in(ds[p], FileClass::Audio, dir, root)
                    && (forall|j: int|
                    0 <= j < p ==> !#[trigger] is_ready_in(ds[j], FileClass::Audio, dir, root))
                    && after[i].draft().readiness is Ready && after[i].rest().album_id
                    == before[p].rest().album_id && after[i].rest().resolved
                    == before[p].rest().resolved
        }),
{
    let ds = drafts(before);
    let side = ds[i];
    assert(side == before[i].draft());
    law_first_anchor_is_the_first(ds, FileClass::Audio, home_of(side, root), root);
    assert(music_plan::associated_item(before, before[i], after[i], root, i));
}

} // verus!
