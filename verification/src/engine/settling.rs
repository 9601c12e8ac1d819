//! What reconciling makes of the items that get in each other's way.

use crate::domain::path::PathView;
use crate::domain::plan::ActionView;
use crate::domain::volume::VolumeSemantics;
use crate::engine::draft::DraftView;
use crate::engine::places::is_same_file;
use crate::engine::reconcile::{
    applied, claims_path, clash_key, collided, deduplicated, first_twin, path_key, DecisionView,
};
use vstd::prelude::*;

verus! {

/// Whether two items are to be moved to places that collide.
pub open spec fn collide(a: DraftView, b: DraftView, v: VolumeSemantics) -> bool {
    &&& claims_path(a)
    &&& claims_path(b)
    &&& clash_key(a.destination->0, v) == clash_key(b.destination->0, v)
}

/// Of the items whose destinations collide the first stays as it is, and every
/// later one becomes a conflict about its own destination. Items that collide
/// with no earlier one stay as they are.
pub proof fn law_first_of_colliding_items_stays(ds: Seq<DraftView>, v: VolumeSemantics, i: int)
    requires
        0 <= i < ds.len(),
    ensures
        collided(ds, v).len() == ds.len(),
        is_same_file(ds[i], collided(ds, v)[i]),
        collided(ds, v)[i].destination == ds[i].destination,
        (forall|j: int| 0 <= j < i ==> !collide(#[trigger] ds[j], ds[i], v)) ==> collided(ds, v)[i]
            == ds[i],
        (exists|j: int| 0 <= j < i && collide(#[trigger] ds[j], ds[i], v)) ==> (collided(
            ds,
            v,
        )[i].action matches ActionView::Conflict { from, to, .. } && from == ds[i].source && Some(to)
            == ds[i].destination),
{
}

/// The first twin is the first.
proof fn lemma_first_twin<K>(keys: Seq<Option<K>>, i: int, j: int)
    requires
        0 <= j <= i < keys.len(),
    ensures
        j <= first_twin(keys, i, j) <= i,
        keys[first_twin(keys, i, j)] == keys[i],
        forall|k: int| j <= k < first_twin(keys, i, j) ==> #[trigger] keys[k] != keys[i],
    decreases i - j,
{
    if j < i && keys[j] != keys[i] {
        lemma_first_twin(keys, i, j + 1);
    }
}

/// Of the items that hold the same the first stays as it is, and every later
/// one becomes a duplicate of that first one. An item without a key, or with
/// one that no earlier item has, stays as it is.
pub proof fn law_later_twins_are_duplicates_of_the_first<K>(
    ds: Seq<DraftView>,
    keys: Seq<Option<K>>,
    i: int,
    first: int,
)
    requires
        0 <= first <= i < ds.len(),
        keys.len() == ds.len(),
        keys[first] == keys[i],
        forall|k: int| 0 <= k < first ==> #[trigger] keys[k] != keys[i],
    ensures
        is_same_file(ds[i], deduplicated(ds, keys)[i]),
        deduplicated(ds, keys)[i].destination == ds[i].destination,
        keys[i] is None || first == i ==> deduplicated(ds, keys)[i] == ds[i],
        keys[i] is Some && first < i ==> (deduplicated(ds, keys)[i].action matches
            ActionView::Duplicate { from, identical_to } && from == ds[i].source && (
        ds[first].destination is Some ==> Some(identical_to) == ds[first].destination)),
{
    lemma_first_twin(keys, i, 0);
    let f = first_twin(keys, i, 0);
    if f < first {
        assert(keys[f] != keys[i]);
    }
    if first < f {
        assert(keys[first] != keys[i]);
    }
}

/// What has been decided about a taken destination is done with the item, and
/// nothing else of it changes: it is moved from where it is to the place
/// decided on, unless that is where it is already; it is skipped for the reason
/// given; it becomes a conflict with what is there; or it stays to be moved.
pub proof fn law_decision_is_carried_out(d: DraftView, decision: DecisionView, v: VolumeSemantics)
    requires
        d.destination is Some,
    ensures
        ({
            let r = applied(d, decision, v);
            &&& is_same_file(d, r)
            &&& match decision {
                DecisionView::Move { to } => {
                    &&& r.destination == Some(to)
                    &&& r.action is NoOp <==> path_key(d.source, v) == path_key(to, v)
                    &&& !(r.action is NoOp) ==> moves(r.action, d.source, to)
                },
                DecisionView::Skip { reason } => r.destination == d.destination && r.action
                    == (ActionView::Skip { reason }),
                DecisionView::Conflict { existing } => r.destination == d.destination && r.action
                    == (ActionView::Conflict { from: d.source, to: d.destination->0, existing }),
                DecisionView::Replace => r == d,
            }
        }),
{
}

/// Whether an action is to move from one path to another.
pub open spec fn moves(a: ActionView, source: PathView, target: PathView) -> bool {
    a matches ActionView::Move { from, to } && from == source && to == target
}

} // verus!
