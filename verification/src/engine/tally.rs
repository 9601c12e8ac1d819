//! What the counts and the directories of a plan say of its items.

use crate::domain::path::PathView;
use crate::domain::plan::{ActionView, FieldName};
use crate::domain::volume::VolumeSemantics;
use crate::engine::draft::DraftView;
use crate::engine::stages::{checked, dest_dirs, stats_of, vacated_by, vacated_dirs, with_one};
use vstd::prelude::*;

verus! {

/// How many items have an action of a kind.
pub open spec fn count_of(ds: Seq<DraftView>, kind: spec_fn(ActionView) -> bool) -> nat {
    ds.filter(|d: DraftView| kind(d.action)).len()
}

/// One more item counts where it is of the kind.
proof fn lemma_count(ds: Seq<DraftView>, kind: spec_fn(ActionView) -> bool)
    requires
        ds.len() > 0,
    ensures
        count_of(ds, kind) == count_of(ds.drop_last(), kind) + (if kind(ds.last().action) {
            1nat
        } else {
            0nat
        }),
{
    reveal(Seq::filter);
}

/// The counts of a plan are the numbers of its items: all of them, those that
/// are to be moved, those that stay where they are, and those that need review,
/// are in conflict, are duplicates or are skipped. Every item is in just one of
/// the six.
pub proof fn law_counts_are_those_of_the_items(ds: Seq<DraftView>)
    requires
        ds.len() <= u64::MAX,
    ensures
        ({
            let s = stats_of(ds);
            &&& s.total == ds.len()
            &&& s.ready == count_of(ds, |a: ActionView| a is Move)
            &&& s.noop == count_of(ds, |a: ActionView| a is NoOp)
            &&& s.needs_review == count_of(ds, |a: ActionView| a is NeedsReview)
            &&& s.conflicts == count_of(ds, |a: ActionView| a is Conflict)
            &&& s.duplicates == count_of(ds, |a: ActionView| a is Duplicate)
            &&& s.skipped == count_of(ds, |a: ActionView| a is Skip)
            &&& s.total == s.ready + s.noop + s.needs_review + s.conflicts + s.duplicates
                + s.skipped
        }),
    decreases ds.len(),
{
    if ds.len() == 0 {
        reveal(Seq::filter);
    } else {
        let less = ds.drop_last();
        law_counts_are_those_of_the_items(less);
        lemma_count(ds, |a: ActionView| a is Move);
        lemma_count(ds, |a: ActionView| a is NoOp);
        lemma_count(ds, |a: ActionView| a is NeedsReview);
        lemma_count(ds, |a: ActionView| a is Conflict);
        lemma_count(ds, |a: ActionView| a is Duplicate);
        lemma_count(ds, |a: ActionView| a is Skip);
        assert(stats_of(ds) == with_one(stats_of(less), ds.last().action));
    }
}

/// Whether the destination of an item is in a directory.
pub open spec fn goes_to(d: DraftView, dir: PathView) -> bool {
    d.destination matches Some(p) && p.parent() == Some(dir)
}

/// Whether an item is to be moved out of a directory.
pub open spec fn leaves(d: DraftView, dir: PathView) -> bool {
    d.action matches ActionView::Move { from, .. } && from.parent() == Some(dir)
}

/// The directories of the destinations are those that the destinations are in,
/// and no others.
pub proof fn law_destinations_have_their_directories(ds: Seq<DraftView>, dir: PathView)
    ensures
        dest_dirs(ds).contains(dir) <==> exists|i: int|
            0 <= i < ds.len() && goes_to(#[trigger] ds[i], dir),
    decreases ds.len(),
{
    if ds.len() > 0 {
        let less = ds.drop_last();
        let n = ds.len() - 1;
        law_destinations_have_their_directories(less, dir);
        assert(ds.last() == ds[n]);
        let rest = dest_dirs(less);
        let all = dest_dirs(ds);
        if rest.contains(dir) {
            let k = choose|k: int| 0 <= k < rest.len() && rest[k] == dir;
            assert(all[k] == dir);
            let i = choose|i: int|
                0 <= i < less.len() && goes_to(#[trigger] less[i], dir);
            assert(ds[i] == less[i]);
        }
        if all.contains(dir) {
            let k = choose|k: int| 0 <= k < all.len() && all[k] == dir;
            if k < rest.len() {
                assert(rest[k] == dir);
            } else {
                assert(ds[n].destination is Some);
            }
        }
        if exists|i: int|
            0 <= i < ds.len() && goes_to(#[trigger] ds[i], dir) {
            let i = choose|i: int|
                0 <= i < ds.len() && goes_to(#[trigger] ds[i], dir);
            if i < n {
                assert(less[i] == ds[i]);
            } else {
                assert(all[all.len() - 1] == dir);
            }
        }
    }
}

/// The directories that may be left empty are those that something is moved out
/// of, the root left out, and no others.
pub proof fn law_vacated_directories_are_left_by_moves(
    ds: Seq<DraftView>,
    root: PathView,
    dir: PathView,
)
    ensures
        vacated_dirs(ds, root).contains(dir) <==> dir != root && exists|i: int|
            0 <= i < ds.len() && leaves(#[trigger] ds[i], dir),
    decreases ds.len(),
{
    if ds.len() > 0 {
        let less = ds.drop_last();
        let n = ds.len() - 1;
        law_vacated_directories_are_left_by_moves(less, root, dir);
        assert(ds.last() == ds[n]);
        let rest = vacated_dirs(less, root);
        let all = vacated_dirs(ds, root);
        if rest.contains(dir) {
            let k = choose|k: int| 0 <= k < rest.len() && rest[k] == dir;
            assert(all[k] == dir);
            let i = choose|i: int|
                0 <= i < less.len() && leaves(#[trigger] less[i], dir);
            assert(ds[i] == less[i]);
        }
        if all.contains(dir) {
            let k = choose|k: int| 0 <= k < all.len() && all[k] == dir;
            if k < rest.len() {
                assert(rest[k] == dir);
            } else {
                assert(vacated_by(ds[n].action, root) == Some(dir));
            }
        }
        if dir != root && exists|i: int|
            0 <= i < ds.len() && leaves(#[trigger] ds[i], dir) {
            let i = choose|i: int|
                0 <= i < ds.len() && leaves(#[trigger] ds[i], dir);
            if i < n {
                assert(less[i] == ds[i]);
            } else {
                assert(vacated_by(ds[n].action, root) == Some(dir));
                assert(all[all.len() - 1] == dir);
            }
        }
    }
}

/// An item with a destination that has been validated is moved from where it is
/// to that destination, or not at all; it is not moved where the volume takes
/// the two for the same file.
pub proof fn law_checked_item_moves_to_its_destination(
    d: DraftView,
    v: VolumeSemantics,
    missing: Seq<FieldName>,
)
    requires
        d.destination is Some,
    ensures
        checked(d, v, missing).action matches ActionView::Move { from, to } ==> from == d.source
            && Some(to) == d.destination && !crate::engine::validate::same_file(from, to, v),
        checked(d, v, missing).source == d.source,
        checked(d, v, missing).destination == d.destination,
        checked(d, v, missing).readiness == d.readiness,
{
}

} // verus!
