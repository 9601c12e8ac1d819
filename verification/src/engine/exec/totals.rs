//! What the totals of a report say of the items and outcomes counted.

use crate::domain::classify::FileClass;
use crate::domain::error::{exit_code_of, Outcome, Tally};
use crate::domain::plan::PlanItemView;
use crate::engine::exec::run::{counted, planned_counts, planned_pending};
use vstd::prelude::*;

verus! {

/// How many items are of a kind.
pub open spec fn how_many(items: Seq<PlanItemView>, kind: spec_fn(PlanItemView) -> bool) -> nat {
    items.filter(kind).len()
}

/// One more item counts where it is of the kind.
proof fn lemma_how_many(items: Seq<PlanItemView>, kind: spec_fn(PlanItemView) -> bool)
    requires
        items.len() > 0,
    ensures
        how_many(items, kind) == how_many(items.drop_last(), kind) + (if kind(items.last()) {
            1nat
        } else {
            0nat
        }),
        how_many(items, kind) <= items.len(),
        how_many(items.drop_last(), kind) < items.len(),
    decreases items.len(),
{
    reveal(Seq::filter);
    if items.len() > 1 {
        lemma_how_many(items.drop_last(), kind);
    }
}

/// Whether an item is to be looked at because it could be several things.
pub open spec fn is_ambiguous(item: PlanItemView) -> bool {
    item.action is NeedsReview && item.readiness is Ambiguous
}

/// Whether an item is to be looked at because nothing is known of its class.
pub open spec fn is_unclassified(item: PlanItemView) -> bool {
    item.action is NeedsReview && !(item.readiness is Ambiguous) && item.class
        == FileClass::Unknown
}

/// Before anything is applied a report counts the items that are not to be
/// moved, each by what it is, and no move.
pub proof fn law_report_counts_what_is_not_moved(items: Seq<PlanItemView>)
    requires
        items.len() <= u64::MAX,
    ensures
        ({
            let c = planned_counts(items);
            &&& c.moved == 0
            &&& c.failed == 0
            &&& c.noop == how_many(items, |i: PlanItemView| i.action is NoOp)
            &&& c.skipped == how_many(items, |i: PlanItemView| i.action is Skip)
            &&& c.conflicted == how_many(items, |i: PlanItemView| i.action is Conflict)
            &&& c.duplicated == how_many(items, |i: PlanItemView| i.action is Duplicate)
            &&& c.ambiguous == how_many(items, |i: PlanItemView| is_ambiguous(i))
            &&& c.unclassified == how_many(items, |i: PlanItemView| is_unclassified(i))
            &&& c.ambiguous + c.unclassified + c.needs_review == how_many(
                items,
                |i: PlanItemView| i.action is NeedsReview,
            )
        }),
    decreases items.len(),
{
    if items.len() == 0 {
        reveal(Seq::filter);
    } else {
        law_report_counts_what_is_not_moved(items.drop_last());
        lemma_how_many(items, |i: PlanItemView| i.action is NoOp);
        lemma_how_many(items, |i: PlanItemView| i.action is Skip);
        lemma_how_many(items, |i: PlanItemView| i.action is Conflict);
        lemma_how_many(items, |i: PlanItemView| i.action is Duplicate);
        lemma_how_many(items, |i: PlanItemView| is_ambiguous(i));
        lemma_how_many(items, |i: PlanItemView| is_unclassified(i));
        lemma_how_many(items, |i: PlanItemView| i.action is NeedsReview);
    }
}

/// What a report says is left to be done are the items that do not stay where
/// they are: the moves, and all that was not moved but for those in place.
pub proof fn law_report_tells_what_is_left(items: Seq<PlanItemView>)
    requires
        items.len() <= u64::MAX,
    ensures
        ({
            let c = planned_counts(items);
            let p = planned_pending(items);
            &&& p.noop == 0
            &&& p.moved == how_many(items, |i: PlanItemView| i.action is Move)
            &&& p.failed == c.failed
            &&& p.skipped == c.skipped
            &&& p.conflicted == c.conflicted
            &&& p.duplicated == c.duplicated
            &&& p.ambiguous == c.ambiguous
            &&& p.unclassified == c.unclassified
            &&& p.needs_review == c.needs_review
        }),
    decreases items.len(),
{
    if items.len() == 0 {
        reveal(Seq::filter);
    } else {
        law_report_tells_what_is_left(items.drop_last());
        lemma_how_many(items, |i: PlanItemView| i.action is Move);
    }
}

/// How often an outcome is among outcomes.
pub open spec fn how_often(done: Seq<Outcome>, o: Outcome) -> nat {
    done.filter(|x: Outcome| x == o).len()
}

/// Every outcome adds to the count of that outcome alone.
pub proof fn law_outcomes_add_to_their_counts(t: Tally, done: Seq<Outcome>, o: Outcome)
    requires
        t.of(o) + done.len() <= u64::MAX,
    ensures
        counted(t, done).of(o) == t.of(o) + how_often(done, o),
        how_often(done, o) <= done.len(),
    decreases done.len(),
{
    reveal(Seq::filter);
    if done.len() > 0 {
        law_outcomes_add_to_their_counts(t, done.drop_last(), o);
    }
}

/// Whether a run has come to something that calls for an exit code.
pub open spec fn calls_for(
    cancelled: bool,
    fatal: bool,
    counts: Tally,
    pending: Tally,
    strict: bool,
    code: u8,
) -> bool {
    ||| code == 130 && cancelled
    ||| code == 50 && fatal
    ||| code == 40 && counts.failed > 0
    ||| code == 30 && counts.conflicted > 0
    ||| code == 25 && counts.duplicated > 0
    ||| code == 20 && (counts.needs_review > 0 || counts.ambiguous > 0 || strict && counts.skipped
        > 0)
    ||| code == 10 && pending != Tally::zero()
    ||| code == 0
}

/// The exit code is the highest of those that what has come about calls for.
pub proof fn law_highest_exit_code_wins(
    cancelled: bool,
    fatal: bool,
    counts: Tally,
    pending: Tally,
    strict: bool,
    other: u8,
)
    ensures
        ({
            let code = exit_code_of(cancelled, fatal, counts, pending, strict);
            &&& calls_for(cancelled, fatal, counts, pending, strict, code)
            &&& calls_for(cancelled, fatal, counts, pending, strict, other) ==> other <= code
        }),
{
}

} // verus!
