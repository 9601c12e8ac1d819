//! What a planner item is at the start, and what becomes of it when it is
//! given its place.

use crate::domain::classify::FileClass;
use crate::domain::config::Config;
use crate::domain::path::FilePath;
use crate::domain::plan::{ActionView, ReadinessView};
use crate::domain::volume::VolumeSemantics;
use crate::engine::draft::{DraftView, Drafted};
use crate::engine::music_plan::MusicItemInternal;
use crate::engine::music_route::MusicRouteContext;
use crate::engine::planner::PlanItemInternal;
use crate::engine::route::RouteContext;
use crate::engine::scan::ScannedView;
use crate::engine::tv_plan::PlanItemInternalTv;
use crate::engine::{music_plan, planner, tv_plan, tv_route};
use vstd::prelude::*;

verus! {

/// Whether an item is the file that was found, with no place to go to yet.
pub open spec fn stands_for(d: DraftView, n: int, f: ScannedView) -> bool {
    &&& d.id.0 == n
    &&& d.source == f.absolute
    &&& d.relative == f.relative
    &&& d.class == f.class
    &&& d.destination is None
    &&& d.destination_relative is None
    &&& d.action is NoOp
}

/// An item starts as the file that was found, in the order of the files. What
/// goes along with another file is ready as it is; only the files that the plan
/// is about are read for what they are.
pub proof fn law_item_starts_as_the_file_found(n: int, f: ScannedView, cfg: Config)
    requires
        0 <= n <= u64::MAX,
    ensures
        stands_for(planner::started_draft(n, f, cfg), n, f),
        stands_for(tv_plan::started_draft(n, f, cfg), n, f),
        stands_for(music_plan::started_draft(n, f, cfg), n, f),
        planner::started_rest(f).resolved is Some <==> f.class == FileClass::Video,
        tv_plan::started_rest(f).resolved is Some <==> f.class == FileClass::Video,
        music_plan::started_rest(f).resolved is Some <==> f.class == FileClass::Audio,
        f.class != FileClass::Video ==> planner::started_draft(n, f, cfg).readiness is Ready
            && tv_plan::started_draft(n, f, cfg).readiness is Ready,
        f.class != FileClass::Audio ==> music_plan::started_draft(n, f, cfg).readiness is Ready,
{
}

/// Whether an item is the same but for its place and for what is to be done.
pub open spec fn is_same_file(a: DraftView, b: DraftView) -> bool {
    &&& a.id == b.id
    &&& a.source == b.source
    &&& a.relative == b.relative
    &&& a.class == b.class
    &&& a.readiness == b.readiness
}

/// Whether an item is given no place and asks for a review of its source.
pub open spec fn is_held_back(before: DraftView, after: DraftView) -> bool {
    &&& after.action matches ActionView::NeedsReview { path, missing } && path == before.source
    &&& after.destination == before.destination
    &&& after.destination_relative == before.destination_relative
}

/// Giving a movie its place leaves the file what it is. One that is not ready
/// is held back for a review; one that is ready goes where its fields lead.
pub proof fn law_ready_movie_is_given_its_place(
    it: PlanItemInternal,
    root: FilePath,
    v: VolumeSemantics,
    cfg: Config,
    ctx: RouteContext,
)
    requires
        it.resolved matches Some(m) && *ctx.resolved == m,
        *ctx.root == root,
        *ctx.id == it.movie_id,
        *ctx.volume == v,
        *ctx.cfg == cfg,
    ensures
        ({
            let before = it.draft();
            let after = planner::routed_draft(it, root, v, cfg);
            &&& is_same_file(before, after)
            &&& !(before.readiness is Ready) ==> is_held_back(before, after)
            &&& before.readiness is Ready ==> after.action == before.action
            &&& before.readiness is Ready && ctx.destination(before.class, before.source) is Some
                ==> after.destination == Some(
                (ctx.destination(before.class, before.source)->0).0,
            ) && after.destination_relative == Some(
                (ctx.destination(before.class, before.source)->0).1,
            )
        }),
{
}

/// Whether a review asks for what an item lacks, where that is told.
pub open spec fn asks_for_what_lacks(before: DraftView, after: DraftView) -> bool {
    before.readiness matches ReadinessView::NeedsReview { missing: told, .. } ==> (
    after.action matches ActionView::NeedsReview { missing, .. } && missing == told)
}

/// Giving an episode its place leaves the file what it is. One that is not
/// ready is held back for a review of what it lacks; one that is ready goes
/// where its fields lead.
pub proof fn law_ready_episode_is_given_its_place(
    it: PlanItemInternalTv,
    root: FilePath,
    v: VolumeSemantics,
    cfg: Config,
    ctx: tv_route::RouteContext,
)
    requires
        it.resolved matches Some(e) && *ctx.resolved == e,
        it.episode_id matches Some(id) && *ctx.id == id,
        *ctx.root == root,
        *ctx.volume == v,
        *ctx.cfg == cfg,
        ctx.language == it.language,
        ctx.flags == it.flags,
    ensures
        ({
            let before = it.draft();
            let after = tv_plan::routed_draft(it, root, v, cfg);
            &&& is_same_file(before, after)
            &&& !(before.readiness is Ready) ==> is_held_back(before, after)
                && asks_for_what_lacks(before, after)
            &&& before.readiness is Ready ==> after.action == before.action
            &&& before.readiness is Ready && ctx.destination(before.class, before.source) is Some
                ==> after.destination == Some(
                (ctx.destination(before.class, before.source)->0).0,
            ) && after.destination_relative == Some(
                (ctx.destination(before.class, before.source)->0).1,
            )
        }),
{
}

/// Giving a track its place leaves the file what it is. One that is not ready
/// is held back for a review of what it lacks; one that is ready goes where its
/// fields lead.
pub proof fn law_ready_track_is_given_its_place(
    it: MusicItemInternal,
    root: FilePath,
    v: VolumeSemantics,
    cfg: Config,
    ctx: MusicRouteContext,
)
    requires
        it.resolved matches Some(t) && *ctx.resolved == t,
        *ctx.root == root,
        *ctx.id == it.album_id,
        ctx.multi_disc == it.multi_disc,
        *ctx.volume == v,
        *ctx.cfg == cfg,
    ensures
        ({
            let before = it.draft();
            let after = music_plan::routed_draft(it, root, v, cfg);
            &&& is_same_file(before, after)
            &&& !(before.readiness is Ready) ==> is_held_back(before, after)
                && asks_for_what_lacks(before, after)
            &&& before.readiness is Ready ==> after.action == before.action
            &&& before.readiness is Ready && ctx.destination(before.class, before.source) is Some
                ==> after.destination == Some(
                (ctx.destination(before.class, before.source)->0).0,
            ) && after.destination_relative == Some(
                (ctx.destination(before.class, before.source)->0).1,
            )
        }),
{
}

} // verus!
