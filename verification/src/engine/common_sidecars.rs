//! What artwork and metadata take over that are named after no single video.

use crate::domain::classify::FileClass;
use crate::domain::path::PathView;
use crate::engine::associate::{
    first_anchor, home_of, is_ready_in, law_anchor_has_the_longest_leading_stem,
    law_first_anchor_is_the_first, may_anchor, stem_leads,
};
use crate::engine::draft::{drafts, DraftView, Drafted};
use crate::engine::planner;
use crate::engine::planner::PlanItemInternal;
use crate::engine::tv_plan;
use crate::engine::tv_plan::PlanItemInternalTv;
use crate::engine::tv_route::language_and_flags;
use vstd::prelude::*;

verus! {

/// Whether a file is a video in the directory of another file.
pub open spec fn is_video_beside(d: DraftView, side: DraftView, root: PathView) -> bool {
    d.class == FileClass::Video && home_of(d, root) == home_of(side, root)
}

/// Whether a file is artwork or metadata whose stem begins with that of no ready
/// video beside it.
pub open spec fn is_common(ds: Seq<DraftView>, side: DraftView, root: PathView) -> bool {
    &&& side.class == FileClass::Artwork || side.class == FileClass::Metadata
    &&& forall|j: int|
        0 <= j < ds.len() ==> !#[trigger] stem_leads(ds[j], side, FileClass::Video, root)
}

/// Artwork and metadata that are named after no video take over a movie exactly
/// where there is a video beside them and every video beside them is ready and
/// of that movie. Otherwise they are orphans.
pub proof fn law_common_sidecar_takes_over_the_only_movie(
    before: Seq<PlanItemInternal>,
    after: Seq<PlanItemInternal>,
    root: PathView,
    i: int,
    movie: (Seq<char>, Option<Seq<char>>),
)
    requires
        planner::associated(before, after, root),
        0 <= i < before.len(),
        is_common(drafts(before), before[i].draft(), root),
    ensures
        ({
            let side = before[i].draft();
            let some = exists|j: int|
                0 <= j < before.len() && is_video_beside(
                    (#[trigger] before[j]).draft(),
                    side,
                    root,
                );
            let all = forall|j: int|
                0 <= j < before.len() && is_video_beside((#[trigger] before[j]).draft(), side, root)
                    ==> before[j].draft().readiness is Ready && before[j].rest().movie_id.key()
                    == movie;
            let done = after[i].draft().readiness is Ready;
            &&& some && all ==> done && after[i].rest().movie_id.key() == movie
            &&& done && after[i].rest().movie_id.key() == movie ==> some && all
            &&& !done ==> after[i].draft().readiness is NeedsReview
        }),
{
    let ds = drafts(before);
    let list = planner::rests(before);
    let side = before[i].draft();
    let home = home_of(side, root);
    assert(ds[i] == side);
    assert forall|j: int| 0 <= j < before.len() implies ds[j] == (#[trigger] before[j]).draft()
        && list[j] == before[j].rest() by {}
    assert(planner::associated_item(before, before[i], after[i], root, i));
    law_anchor_has_the_longest_leading_stem(ds, side, FileClass::Video, root);
    law_first_anchor_is_the_first(ds, FileClass::Video, home, root);
    let f = planner::anchor_of(ds, list, root, i);
    if f is Some {
        let p = f->0;
        assert(before[p].draft() == ds[p]);
        let key = list[p].movie_id.key();
        assert forall|j: int|
            0 <= j < before.len() && is_video_beside((#[trigger] before[j]).draft(), side, root)
            implies before[j].draft().readiness is Ready && before[j].rest().movie_id.key()
            == key by {
            assert(ds[j] == before[j].draft());
        }
    } else if forall|j: int|
        0 <= j < before.len() && is_video_beside((#[trigger] before[j]).draft(), side, root)
            ==> before[j].draft().readiness is Ready && before[j].rest().movie_id.key() == movie {
        assert forall|j: int|
            0 <= j < ds.len() && (#[trigger] ds[j]).class == FileClass::Video && home_of(
                ds[j],
                root,
            ) == home implies ds[j].readiness is Ready && list[j].movie_id.key() == movie by {
            assert(ds[j] == before[j].draft());
        }
        let g = first_anchor(ds, FileClass::Video, home, root, 0);
        if g is Some {
            assert(before[g->0].draft() == ds[g->0]);
            assert(list[g->0].movie_id.key() == movie);
            assert(planner::one_movie(ds, list, home, root, movie));
        } else {
            assert forall|j: int| 0 <= j < before.len() implies !is_video_beside(
                (#[trigger] before[j]).draft(),
                side,
                root,
            ) by {
                assert(ds[j] == before[j].draft());
                assert(!is_ready_in(ds[j], FileClass::Video, home, root));
            }
        }
    }
}

/// Artwork and metadata that are named after no video take over a show exactly
/// where there is a ready video beside them and every ready video beside them is
/// of that show. Otherwise they are orphans.
pub proof fn law_common_sidecar_takes_over_the_only_show(
    before: Seq<PlanItemInternalTv>,
    after: Seq<PlanItemInternalTv>,
    root: PathView,
    i: int,
    show: (Seq<char>, Option<u16>),
)
    requires
        tv_plan::associated(before, after, root),
        0 <= i < before.len(),
        is_common(drafts(before), before[i].draft(), root),
    ensures
        ({
            let side = before[i].draft();
            let some = exists|j: int|
                0 <= j < before.len() && is_video_beside((#[trigger] before[j]).draft(), side, root)
                    && before[j].draft().readiness is Ready;
            let all = forall|j: int|
                0 <= j < before.len() && is_video_beside((#[trigger] before[j]).draft(), side, root)
                    && before[j].draft().readiness is Ready ==> before[j].rest().show_id.key()
                    == show;
            let done = after[i].draft().readiness is Ready;
            &&& some && all ==> done && after[i].rest().show_id.key() == show
            &&& done && after[i].rest().show_id.key() == show ==> some && all
            &&& !done ==> after[i].draft().readiness is NeedsReview
        }),
{
    let ds = drafts(before);
    let list = tv_plan::rests(before);
    let side = before[i].draft();
    let home = home_of(side, root);
    assert(ds[i] == side);
    assert forall|j: int| 0 <= j < before.len() implies ds[j] == (#[trigger] before[j]).draft()
        && list[j] == before[j].rest() by {}
    assert(tv_plan::associated_item(before, before[i], after[i], root, i));
    law_anchor_has_the_longest_leading_stem(ds, side, FileClass::Video, root);
    law_first_anchor_is_the_first(ds, FileClass::Video, home, root);
    let f = tv_plan::anchor_of(ds, list, root, i);
    if f is Some {
        let p = f->0;
        assert(before[p].draft() == ds[p]);
        let key = list[p].show_id.key();
        assert forall|j: int|
            0 <= j < before.len() && is_video_beside((#[trigger] before[j]).draft(), side, root)
                && before[j].draft().readiness is Ready implies before[j].rest().show_id.key()
            == key by {
            assert(ds[j] == before[j].draft());
        }
    } else {
        let g = first_anchor(ds, FileClass::Video, home, root, 0);
        if g is Some {
            assert(before[g->0].draft() == ds[g->0]);
            let key = list[g->0].show_id.key();
            assert(!tv_plan::one_show(ds, list, home, root, key));
            let j = choose|j: int|
                0 <= j < ds.len() && may_anchor(#[trigger] ds[j], FileClass::Video, home, root)
                    && list[j].show_id.key() != key;
            assert(before[j].draft() == ds[j]);
        } else {
            assert forall|j: int| 0 <= j < before.len() && before[j].draft().readiness is Ready
                implies !is_video_beside((#[trigger] before[j]).draft(), side, root) by {
                assert(ds[j] == before[j].draft());
                assert(!is_ready_in(ds[j], FileClass::Video, home, root));
            }
        }
    }
}

/// A subtitle that has been associated is in the language, and has the flags,
/// that its own name tells.
pub proof fn law_subtitle_keeps_its_own_language(
    before: Seq<PlanItemInternalTv>,
    after: Seq<PlanItemInternalTv>,
    root: PathView,
    i: int,
)
    requires
        tv_plan::associated(before, after, root),
        0 <= i < before.len(),
        before[i].draft().class == FileClass::Subtitle,
        before[i].draft().source.stem() is Some,
        after[i].draft().readiness is Ready,
    ensures
        after[i].rest().language == language_and_flags(before[i].draft().source.stem()->0).0,
        after[i].rest().flags == language_and_flags(before[i].draft().source.stem()->0).1,
{
    assert(tv_plan::associated_item(before, before[i], after[i], root, i));
}

} // verus!
