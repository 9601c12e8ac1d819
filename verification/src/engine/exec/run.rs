//! Applying a plan, phase by phase.
//!
//! 1. Create directories, shallowest first
//! 2. Move files
//! 3. Rename directories, deepest first
//! 4. Remove the directories that have been vacated, deepest first
//! 5. Reclaim the reservations of this run that have no outcome
//!
//! A run that is cancelled starts no further step of the first four phases.

use crate::domain::classify::FileClass;
use crate::domain::config::{Config, ConflictPolicy};
use crate::domain::duplicate::Duplicate;
use crate::domain::error::{
    Diagnostic, DiagnosticView, FatalReason, Outcome, RunMode, RunReport, Severity, Tally,
};
use crate::domain::fs::keep::{
    all_stay, keeps_files, lemma_adding_dirs_stays, lemma_keeping_is_transitive,
    lemma_staying_keeps_files, others_stay,
};
use crate::domain::fs::{only_adds_dirs, only_asks, FileSystem, Tree};
use crate::domain::path::{FilePath, PathView};
use crate::domain::plan::{Action, ActionView, Plan, PlanItem, PlanItemView, PlanView, Readiness};
use crate::domain::run_id::RunId;
use crate::engine::exec::cleanup::{
    add_path, cleaned, dirs_removed_as, is_candidate, law_cleanup_loses_no_file, only_removals,
    removal_steps_in, remove_empty_directories, Removal,
};
use crate::engine::exec::dirs::{
    all_created, create_directories, creation_accords, dirs_created, dirs_renamed, in_order,
    lemma_notes_chain, lemma_steps_on_any, only_notes, push_note, rename_directories, rename_notes,
    rename_steps, took_steps, Found, Renaming,
};
use crate::engine::exec::moves::{
    cancelled_safely, landed_near, leaves_nothing_open, leaves_open_only, lemma_move_is_recorded,
    lemma_open_chain, lemma_recording_is_transitive, move_one, records_changes, replaced,
    result_view, unwritable, went, Course, MoveResult, MoveResultView,
};
use crate::engine::exec::reclaim::{
    is_leftover, law_nothing_to_reclaim, law_reclaiming_loses_no_file, only_reclaims,
    reclaim_accords, reclaim_this_run, reclaimable, reclaimed, reclaimed_as, takes_leftovers,
    Reclaiming,
};
use crate::engine::exec::{broken_off, heed, ExecOptions};
use crate::engine::journal::{
    is_open, nothing_open, unmatched, Journal, JournalOp, JournalStore, RecordView,
};
use crate::engine::reconcile::Footing;
use vstd::prelude::*;

verus! {

/// The outcome of an item that is not to be moved.
pub open spec fn outcome_of(item: PlanItemView) -> Outcome {
    match item.action {
        ActionView::NoOp => Outcome::NoOp,
        ActionView::Move { .. } => Outcome::Moved,
        ActionView::Skip { .. } => Outcome::Skipped,
        ActionView::Conflict { .. } => Outcome::Conflicted,
        ActionView::Duplicate { .. } => Outcome::Duplicated,
        ActionView::NeedsReview { .. } => if item.readiness is Ambiguous {
            Outcome::Ambiguous
        } else if item.class == FileClass::Unknown {
            Outcome::Unclassified
        } else {
            Outcome::NeedsReview
        },
    }
}

/// The outcome of an item that is not to be moved; what a move is to come to.
pub fn planned_outcome(item: &PlanItem) -> (r: Outcome)
    ensures
        r == outcome_of(item.deep_view()),
{
    match &item.action {
        Action::NoOp => Outcome::NoOp,
        Action::Move { .. } => Outcome::Moved,
        Action::Skip { .. } => Outcome::Skipped,
        Action::Conflict { .. } => Outcome::Conflicted,
        Action::Duplicate { .. } => Outcome::Duplicated,
        Action::NeedsReview { .. } => match &item.readiness {
            Readiness::Ambiguous { .. } => Outcome::Ambiguous,
            _ => if item.class == FileClass::Unknown {
                Outcome::Unclassified
            } else {
                Outcome::NeedsReview
            },
        },
    }
}

/// What a plan counts before anything is applied: every item that is not to be
/// moved.
pub open spec fn planned_counts(items: Seq<PlanItemView>) -> Tally
    decreases items.len(),
{
    if items.len() == 0 {
        Tally::zero()
    } else {
        let rest = planned_counts(items.drop_last());
        if items.last().action is Move {
            rest
        } else {
            rest.plus(outcome_of(items.last()))
        }
    }
}

/// What a plan leaves to be done: every item for which there is something to
/// do or to decide.
pub open spec fn planned_pending(items: Seq<PlanItemView>) -> Tally
    decreases items.len(),
{
    if items.len() == 0 {
        Tally::zero()
    } else {
        let rest = planned_pending(items.drop_last());
        if items.last().action is NoOp {
            rest
        } else {
            rest.plus(outcome_of(items.last()))
        }
    }
}

/// Fill a report from a plan without writing.
pub fn report_from_plan(plan: &Plan, mode: RunMode) -> (r: RunReport)
    ensures
        r.run_id == plan.run_id,
        r.mode == mode,
        r.kind == plan.kind,
        r.root.deep_view() == plan.root.deep_view(),
        r.counts == planned_counts(plan.items.deep_view()),
        r.pending == planned_pending(plan.items.deep_view()),
        r.diagnostics.deep_view() == plan.diagnostics.deep_view(),
        r.dirs_removed == 0,
        r.dirs_not_removable@.len() == 0,
        r.reservations_reclaimed == 0,
        r.fatal is None,
        !r.cancelled,
        r.duration_ms == 0,
{
    let mut report = RunReport::new(plan.run_id, mode, plan.kind, plan.root.duplicate());
    report.diagnostics = plan.diagnostics.duplicate();
    let ghost items = plan.items.deep_view();
    let mut i: usize = 0;
    proof {
        assert(items.take(0) =~= Seq::empty());
    }
    while i < plan.items.len()
        invariant
            i <= plan.items@.len(),
            items == plan.items.deep_view(),
            report.run_id == plan.run_id,
            report.mode == mode,
            report.kind == plan.kind,
            report.root.deep_view() == plan.root.deep_view(),
            report.counts == planned_counts(items.take(i as int)),
            report.pending == planned_pending(items.take(i as int)),
            report.diagnostics.deep_view() == plan.diagnostics.deep_view(),
            report.dirs_removed == 0,
            report.dirs_not_removable@.len() == 0,
            report.reservations_reclaimed == 0,
            report.fatal is None,
            !report.cancelled,
            report.duration_ms == 0,
        decreases plan.items@.len() - i,
    {
        proof {
            assert(items.take(i + 1).drop_last() =~= items.take(i as int));
            assert(items.take(i + 1).last() == plan.items@[i as int].deep_view());
        }
        let item = &plan.items[i];
        let outcome = planned_outcome(item);
        match &item.action {
            Action::NoOp => report.count(outcome),
            Action::Move { .. } => report.pending_count(outcome),
            _ => {
                report.count(outcome);
                report.pending_count(outcome);
            },
        }
        i = i + 1;
    }
    proof {
        assert(items.take(i as int) =~= items);
    }
    report
}

/// Whether an outcome is one that an item may have.
pub open spec fn fits(item: PlanItemView, o: Outcome) -> bool {
    if item.action is Move {
        o == Outcome::Moved || o == Outcome::Skipped || o == Outcome::Conflicted || o
            == Outcome::Failed || o == Outcome::NoOp
    } else {
        o == outcome_of(item)
    }
}

/// Counts with outcomes added.
pub open spec fn counted(t: Tally, done: Seq<Outcome>) -> Tally
    decreases done.len(),
{
    if done.len() == 0 {
        t
    } else {
        counted(t, done.drop_last()).plus(done.last())
    }
}

/// What is said of an item that could not be moved, given why.
pub open spec fn failure_note(
    item: PlanItemView,
    why: (Seq<char>, Option<Seq<char>>),
) -> DiagnosticView {
    DiagnosticView {
        severity: Severity::Failure,
        item: Some(item.id),
        stage: "exec"@,
        message: why.0,
        io_kind: why.1,
    }
}

/// What is said of the items that could not be moved, given why of each.
pub open spec fn failure_notes(
    items: Seq<PlanItemView>,
    done: Seq<Outcome>,
    why: Seq<(Seq<char>, Option<Seq<char>>)>,
) -> Seq<DiagnosticView>
    decreases done.len(),
{
    if done.len() == 0 {
        Seq::empty()
    } else {
        let rest = failure_notes(items, done.drop_last(), why);
        let k = done.len() - 1;
        if done.last() == Outcome::Failed {
            rest.push(failure_note(items[k], why[k]))
        } else {
            rest
        }
    }
}

/// What is said of the items stays said when more is known of later ones.
proof fn lemma_failure_notes(
    items: Seq<PlanItemView>,
    done: Seq<Outcome>,
    a: Seq<(Seq<char>, Option<Seq<char>>)>,
    b: Seq<(Seq<char>, Option<Seq<char>>)>,
)
    requires
        done.len() <= a.len(),
        a.is_prefix_of(b),
    ensures
        failure_notes(items, done, a) == failure_notes(items, done, b),
    decreases done.len(),
{
    if done.len() > 0 {
        lemma_failure_notes(items, done.drop_last(), a, b);
        assert(a[done.len() - 1] == b[done.len() - 1]);
    }
}

/// What an item with an outcome may have changed.
///
/// - Moved: the file has landed where it was to go, or has replaced what was
///   there where that is allowed.
/// - Failed: everything stays, or the file has landed but could not be
///   verified.
/// - Conflicted: nothing has changed but for new directories.
/// - All else: nothing has changed.
pub open spec fn item_step(
    t0: Tree,
    t1: Tree,
    plan: PlanView,
    cfg: Config,
    replacing: bool,
    item: PlanItemView,
    o: Outcome,
) -> bool {
    &&& fits(item, o)
    &&& match item.action {
        ActionView::Move { from, to } => {
            &&& !replacing ==> keeps_files(t0, t1) && others_stay(t0, t1, from)
            &&& match o {
                Outcome::Moved => landed_near(t0, t1, cfg, plan.volume, from, to) || replacing
                    && replaced(t0, t1, from, to),
                Outcome::Failed => !replacing ==> all_stay(t0, t1) || landed_near(
                    t0,
                    t1,
                    cfg,
                    plan.volume,
                    from,
                    to,
                ),
                Outcome::Conflicted => only_adds_dirs(t0, t1),
                _ => t1 == t0,
            }
        },
        _ => t1 == t0,
    }
}

/// What the first items of a plan, with their outcomes, may have changed.
pub open spec fn item_steps(
    t0: Tree,
    t1: Tree,
    plan: PlanView,
    cfg: Config,
    replacing: bool,
    done: Seq<Outcome>,
) -> bool
    decreases done.len(),
{
    if done.len() == 0 {
        t1 == t0
    } else {
        exists|mid: Tree|
            item_steps(t0, mid, plan, cfg, replacing, done.drop_last()) && #[trigger] item_step(
                mid,
                t1,
                plan,
                cfg,
                replacing,
                plan.items[done.len() - 1],
                done.last(),
            )
    }
}

/// Unless destinations are replaced, moving files loses none.
pub proof fn law_item_steps_lose_no_file(
    t0: Tree,
    t1: Tree,
    plan: PlanView,
    cfg: Config,
    done: Seq<Outcome>,
)
    requires
        item_steps(t0, t1, plan, cfg, false, done),
    ensures
        keeps_files(t0, t1),
    decreases done.len(),
{
    if done.len() == 0 {
        lemma_staying_keeps_files(t0, t1);
    } else {
        let mid = choose|mid: Tree|
            item_steps(t0, mid, plan, cfg, false, done.drop_last()) && #[trigger] item_step(
                mid,
                t1,
                plan,
                cfg,
                false,
                plan.items[done.len() - 1],
                done.last(),
            );
        law_item_steps_lose_no_file(t0, mid, plan, cfg, done.drop_last());
        if !(plan.items[done.len() - 1].action is Move) {
            lemma_staying_keeps_files(mid, t1);
        }
        lemma_keeping_is_transitive(t0, mid, t1);
    }
}

/// Unless destinations are replaced, moving files overwrites nothing: whatever
/// is neither a source nor under one stands where it stood.
pub proof fn law_nothing_is_overwritten(
    t0: Tree,
    t1: Tree,
    plan: PlanView,
    cfg: Config,
    done: Seq<Outcome>,
    q: PathView,
)
    requires
        item_steps(t0, t1, plan, cfg, false, done),
        t0.dom().contains(q),
        forall|k: int|
            0 <= k < done.len() ==> ((#[trigger] plan.items[k]).action matches ActionView::Move {
                from,
                ..
            } ==> !q.starts_with(from)),
    ensures
        t1.dom().contains(q),
        t1[q] == t0[q],
    decreases done.len(),
{
    if done.len() > 0 {
        let mid = choose|mid: Tree|
            item_steps(t0, mid, plan, cfg, false, done.drop_last()) && #[trigger] item_step(
                mid,
                t1,
                plan,
                cfg,
                false,
                plan.items[done.len() - 1],
                done.last(),
            );
        law_nothing_is_overwritten(t0, mid, plan, cfg, done.drop_last(), q);
    }
}

/// What a move that was cut short may have changed.
pub open spec fn unfinished(t0: Tree, t1: Tree, replacing: bool, item: PlanItemView) -> bool {
    item.action matches ActionView::Move { from, .. } && (!replacing ==> keeps_files(t0, t1)
        && others_stay(t0, t1, from))
}

/// What may come of moving the files of a plan: so many items have an outcome,
/// and where the run was cut short one more move may have been under way.
pub open spec fn files_moved(
    t0: Tree,
    t1: Tree,
    plan: PlanView,
    cfg: Config,
    replacing: bool,
    done: Seq<Outcome>,
    cut_short: bool,
) -> bool {
    &&& done.len() <= plan.items.len()
    &&& {
        ||| item_steps(t0, t1, plan, cfg, replacing, done)
        ||| cut_short && done.len() < plan.items.len() && exists|mid: Tree|
            item_steps(t0, mid, plan, cfg, replacing, done) && #[trigger] unfinished(
                mid,
                t1,
                replacing,
                plan.items[done.len() as int],
            )
    }
}

/// Whether every item has its outcome, or the run has stopped at the first
/// failure as it was told to.
pub open spec fn all_done(plan: PlanView, fail_fast: bool, done: Seq<Outcome>) -> bool {
    ||| done.len() == plan.items.len()
    ||| fail_fast && 0 < done.len() <= plan.items.len() && done.last() == Outcome::Failed
}

/// Whether none of the first so many items has failed.
pub open spec fn none_failed(done: Seq<Outcome>, n: int) -> bool {
    forall|k: int| 0 <= k < n && k < done.len() ==> #[trigger] done[k] != Outcome::Failed
}

/// Whether a file has been moved out of a directory.
pub open spec fn vacated(plan: PlanView, done: Seq<Outcome>, d: PathView) -> bool {
    exists|i: int|
        0 <= i < done.len() && #[trigger] done[i] == Outcome::Moved && (plan.items[i].action matches
            ActionView::Move { from, .. } && from.parent() == Some(d))
}

/// Whether a report differs from an earlier one in nothing but counts, further
/// diagnostics and in having been cancelled.
pub open spec fn only_counts(a: RunReport, b: RunReport) -> bool {
    &&& b.run_id == a.run_id
    &&& b.mode == a.mode
    &&& b.kind == a.kind
    &&& b.root == a.root
    &&& b.pending == a.pending
    &&& b.dirs_removed == a.dirs_removed
    &&& b.dirs_not_removable == a.dirs_not_removable
    &&& b.reservations_reclaimed == a.reservations_reclaimed
    &&& b.fatal == a.fatal
    &&& b.duration_ms == a.duration_ms
    &&& a.cancelled ==> b.cancelled
    &&& a.diagnostics.deep_view().is_prefix_of(b.diagnostics.deep_view())
}

/// Whether destinations are replaced.
pub open spec fn replaces(cfg: Config, opts: ExecOptions) -> bool {
    opts.allow_replace && cfg.conflict.policy == ConflictPolicy::Replace
}

/// Where nothing is open and files are kept, reclaiming can do no harm.
proof fn lemma_settled_is_reclaimable(
    base: Tree,
    t: Tree,
    entries: Seq<RecordView>,
    run: RunId,
    root: PathView,
)
    requires
        keeps_files(base, t),
        nothing_open(entries, run, root),
    ensures
        reclaimable(base, t, entries, run, root),
{
    let spare = Set::<PathView>::empty();
    assert(t.remove_keys(spare) =~= t);
    assert forall|q: PathView| !#[trigger] is_leftover(t, entries, run, root, q) by {
        if is_leftover(t, entries, run, root, q) {
            let i = choose|i: int| #[trigger]
                is_open(entries, i, run, root) && entries[i].to == Some(q) && (entries[i].from
                    matches Some(f) && t.dom().contains(f));
            assert(is_open(entries, i, run, root));
        }
    }
    assert(keeps_files(base, t.remove_keys(spare)));
}

/// Where a move was cancelled safely, reclaiming can do no harm.
proof fn lemma_cancelled_is_reclaimable(
    base: Tree,
    t0: Tree,
    t1: Tree,
    a: Seq<RecordView>,
    b: Seq<RecordView>,
    from: PathView,
    run: RunId,
    root: PathView,
)
    requires
        keeps_files(base, t0),
        keeps_files(base, t1),
        nothing_open(a, run, root),
        cancelled_safely(t0, t1, a, b, from),
    ensures
        reclaimable(base, t1, b, run, root),
{
    if leaves_nothing_open(a, b) {
        assert(nothing_open(b, run, root));
        lemma_settled_is_reclaimable(base, t1, b, run, root);
    } else {
        let dest = choose|dest: PathView| #[trigger]
            leaves_open_only(a, b, from, dest) && (!t1.dom().contains(from) || all_stay(
                t0,
                t1.remove(dest),
            ));
        if !t1.dom().contains(from) {
            let spare = Set::<PathView>::empty();
            assert(t1.remove_keys(spare) =~= t1);
            assert forall|q: PathView| !#[trigger] is_leftover(t1, b, run, root, q) by {
                if is_leftover(t1, b, run, root, q) {
                    let i = choose|i: int| #[trigger]
                        is_open(b, i, run, root) && b[i].to == Some(q) && (b[i].from matches Some(f)
                            && t1.dom().contains(f));
                    assert(b[i].from == Some(from));
                }
            }
            assert(keeps_files(base, t1.remove_keys(spare)));
        } else {
            let spare = set![dest];
            let kept = t1.remove(dest);
            assert(t1.remove_keys(spare) =~= kept);
            lemma_staying_keeps_files(t0, kept);
            lemma_keeping_is_transitive(base, t0, kept);
            assert forall|q: PathView| #[trigger]
                is_leftover(t1, b, run, root, q) implies spare.contains(q) by {
                let i = choose|i: int| #[trigger]
                    is_open(b, i, run, root) && b[i].to == Some(q) && (b[i].from matches Some(f)
                        && t1.dom().contains(f));
                assert(b[i].to == Some(dest));
            }
            assert(keeps_files(base, t1.remove_keys(spare)));
        }
    }
}

/// What may come of moving the files of a plan: what stands where, what is
/// counted and reported of every item, and which directories files have been
/// moved out of.
pub open spec fn move_phase(
    t0: Tree,
    t1: Tree,
    plan: PlanView,
    cfg: Config,
    opts: ExecOptions,
    before: RunReport,
    after: RunReport,
    sources: Seq<PathView>,
    more_sources: Seq<PathView>,
    r: Result<(), FatalReason>,
    done: Seq<Outcome>,
    why: Seq<(Seq<char>, Option<Seq<char>>)>,
) -> bool {
    &&& files_moved(
        t0,
        t1,
        plan,
        cfg,
        replaces(cfg, opts),
        done,
        r is Err || after.cancelled,
    )
    &&& r is Ok && !after.cancelled ==> all_done(plan, opts.fail_fast, done)
    &&& opts.fail_fast ==> none_failed(done, done.len() - 1)
    &&& after.counts == counted(before.counts, done)
    &&& why.len() == done.len()
    &&& after.diagnostics.deep_view() == before.diagnostics.deep_view() + failure_notes(
        plan.items,
        done,
        why,
    )
    &&& forall|d: PathView| #[trigger]
        more_sources.contains(d) <==> sources.contains(d) || vacated(plan, done, d)
}

/// The outcome that the result of a move comes to. A cancelled move has none.
pub open spec fn result_outcome(r: MoveResultView) -> Option<Outcome> {
    match r {
        MoveResultView::Moved { .. } => Some(Outcome::Moved),
        MoveResultView::Skipped => Some(Outcome::Skipped),
        MoveResultView::Conflicted => Some(Outcome::Conflicted),
        MoveResultView::NoOp => Some(Outcome::NoOp),
        MoveResultView::Failed { .. } => Some(Outcome::Failed),
        MoveResultView::Cancelled => None,
    }
}

/// The moves of a plan, one after the other: the tree and the journal before
/// the first item and after each, the result of each and how it went; how one
/// went that was cancelled; and what could be relied on.
pub struct Moves<S: JournalStore> {
    pub trees: Seq<Tree>,
    pub journals: Seq<Journal<S>>,
    pub results: Seq<MoveResultView>,
    pub courses: Seq<Course<S>>,
    pub last: Option<Course<S>>,
    pub on: Footing,
}

impl<S: JournalStore> Moves<S> {
    /// Whether an item was dealt with as its action calls for: what is to be
    /// moved went in a course, with the outcome of its result and the reason
    /// that is in it; all else is left, and nothing is journaled.
    pub open spec fn deals_with(
        self,
        plan: PlanView,
        cfg: Config,
        opts: ExecOptions,
        done: Seq<Outcome>,
        why: Seq<(Seq<char>, Option<Seq<char>>)>,
        k: int,
    ) -> bool {
        match plan.items[k].action {
            ActionView::Move { from, to } => {
                &&& went(
                    self.trees[k],
                    self.trees[k + 1],
                    self.journals[k],
                    self.journals[k + 1],
                    cfg,
                    plan.volume,
                    opts.allow_replace,
                    from,
                    to,
                    self.results[k],
                    self.courses[k],
                    self.on,
                )
                &&& result_outcome(self.results[k]) == Some(done[k])
                &&& self.results[k] matches MoveResultView::Failed { message, io_kind } ==> why[k]
                    == (message, io_kind)
            },
            _ => {
                &&& self.trees[k + 1] == self.trees[k]
                &&& self.journals[k + 1] == self.journals[k]
                &&& done[k] == outcome_of(plan.items[k])
            },
        }
    }

    /// Whether items were dealt with one after the other.
    pub open spec fn logs(
        self,
        t: Tree,
        j: Journal<S>,
        plan: PlanView,
        cfg: Config,
        opts: ExecOptions,
        done: Seq<Outcome>,
        why: Seq<(Seq<char>, Option<Seq<char>>)>,
    ) -> bool {
        &&& self.trees.len() == done.len() + 1
        &&& self.journals.len() == done.len() + 1
        &&& self.results.len() == done.len()
        &&& self.courses.len() == done.len()
        &&& self.trees[0] == t
        &&& self.journals[0] == j
        &&& forall|k: int|
            0 <= k < done.len() ==> #[trigger] self.deals_with(plan, cfg, opts, done, why, k)
    }

    /// Whether the moves end with a tree and a journal: those after the last
    /// item, or after a move that was cancelled. Between moves nothing is
    /// cancelled that nobody can cancel.
    pub open spec fn ends(
        self,
        t: Tree,
        j: Journal<S>,
        plan: PlanView,
        cfg: Config,
        opts: ExecOptions,
        cancelled: bool,
    ) -> bool {
        let n = self.results.len();
        match self.last {
            None => {
                &&& cancelled ==> !self.on.idle
                &&& t == self.trees.last()
                &&& j == self.journals.last()
            },
            Some(c) => {
                &&& cancelled
                &&& n < plan.items.len()
                &&& plan.items[n as int].action matches ActionView::Move { from, to } && went(
                    self.trees.last(),
                    t,
                    self.journals.last(),
                    j,
                    cfg,
                    plan.volume,
                    opts.allow_replace,
                    from,
                    to,
                    MoveResultView::Cancelled,
                    c,
                    self.on,
                )
            },
        }
    }

    /// The moves with one more item.
    pub open spec fn followed_by(
        self,
        t: Tree,
        j: Journal<S>,
        r: MoveResultView,
        c: Course<S>,
    ) -> Moves<S> {
        Moves {
            trees: self.trees.push(t),
            journals: self.journals.push(j),
            results: self.results.push(r),
            courses: self.courses.push(c),
            last: None,
            on: self.on,
        }
    }
}

/// Items that were dealt with, with one more, were dealt with.
proof fn lemma_one_more_move<S: JournalStore>(
    log: Moves<S>,
    t0: Tree,
    j0: Journal<S>,
    plan: PlanView,
    cfg: Config,
    opts: ExecOptions,
    done: Seq<Outcome>,
    why: Seq<(Seq<char>, Option<Seq<char>>)>,
    t: Tree,
    j: Journal<S>,
    r: MoveResultView,
    c: Course<S>,
    o: Outcome,
    reason: (Seq<char>, Option<Seq<char>>),
)
    requires
        log.logs(t0, j0, plan, cfg, opts, done, why),
        why.len() == done.len(),
        match plan.items[done.len() as int].action {
            ActionView::Move { from, to } => {
                &&& went(
                    log.trees.last(),
                    t,
                    log.journals.last(),
                    j,
                    cfg,
                    plan.volume,
                    opts.allow_replace,
                    from,
                    to,
                    r,
                    c,
                    log.on,
                )
                &&& result_outcome(r) == Some(o)
                &&& r matches MoveResultView::Failed { message, io_kind } ==> reason == (
                    message,
                    io_kind,
                )
            },
            _ => {
                &&& t == log.trees.last()
                &&& j == log.journals.last()
                &&& o == outcome_of(plan.items[done.len() as int])
            },
        },
    ensures
        log.followed_by(t, j, r, c).logs(t0, j0, plan, cfg, opts, done.push(o), why.push(reason)),
{
    let more = log.followed_by(t, j, r, c);
    assert forall|k: int| 0 <= k < done.push(o).len() implies #[trigger] more.deals_with(
        plan,
        cfg,
        opts,
        done.push(o),
        why.push(reason),
        k,
    ) by {
        if k < done.len() {
            assert(log.deals_with(plan, cfg, opts, done, why, k));
        }
    }
}

/// Moves the files of a plan and counts what becomes of every item.
pub fn move_files<F: FileSystem, S: JournalStore>(
    fs: &mut F,
    plan: &Plan,
    cfg: &Config,
    opts: &ExecOptions,
    journal: &mut Journal<S>,
    report: &mut RunReport,
    sources: &mut Vec<FilePath>,
) -> (r: Result<(), FatalReason>)
    requires
        !old(report).cancelled,
    ensures
        old(fs).is_steady() ==> final(fs).is_steady(),
        exists|
            done: Seq<Outcome>,
            why: Seq<(Seq<char>, Option<Seq<char>>)>,
            log: Moves<S>,
        |
            #![trigger log.logs(old(fs).tree(), *old(journal), plan.deep_view(), *cfg, *opts, done, why)]
            move_phase(
                old(fs).tree(),
                final(fs).tree(),
                plan.deep_view(),
                *cfg,
                *opts,
                *old(report),
                *final(report),
                old(sources).deep_view(),
                final(sources).deep_view(),
                r,
                done,
                why,
            ) && log.logs(
                old(fs).tree(),
                *old(journal),
                plan.deep_view(),
                *cfg,
                *opts,
                done,
                why,
            ) && log.on == (Footing {
                steady: old(fs).is_steady(),
                idle: opts.cancel.is_idle(),
            }) && (r is Ok ==> log.ends(
                final(fs).tree(),
                *final(journal),
                plan.deep_view(),
                *cfg,
                *opts,
                final(report).cancelled,
            )),
        final(journal).same_binding(old(journal)),
        old(journal).records().is_prefix_of(final(journal).records()),
        !replaces(*cfg, *opts) ==> keeps_files(old(fs).tree(), final(fs).tree()),
        r is Ok && !final(report).cancelled ==> leaves_nothing_open(
            old(journal).records(),
            final(journal).records(),
        ),
        r is Ok && !replaces(*cfg, *opts) ==> forall|run: RunId, root: PathView|
            nothing_open(old(journal).records(), run, root) ==> #[trigger] reclaimable(
                old(fs).tree(),
                final(fs).tree(),
                final(journal).records(),
                run,
                root,
            ),
        only_counts(*old(report), *final(report)),
        r matches Err(f) ==> unwritable(f, *old(journal), *final(journal)),
        records_changes(old(fs).tree(), final(fs).tree(), *old(journal), *final(journal)),
        // Nothing is broken off that nobody can cancel.
        old(fs).is_steady() && opts.cancel.is_idle() ==> !final(report).cancelled,
        // Once the run is cancelled, nothing is done, and the report says so.
        opts.cancel.is_spent() ==> {
            &&& r is Ok
            &&& final(fs).tree() == old(fs).tree()
            &&& final(fs).history() == old(fs).history()
            &&& *final(journal) == *old(journal)
            &&& final(sources).deep_view() == old(sources).deep_view()
            &&& broken_off(*old(report), *final(report), plan.items@.len() > 0)
        },
{
    let ghost h0 = fs.history();
    let ghost t0 = fs.tree();
    let ghost j0 = *journal;
    let ghost r0 = *report;
    let ghost s0 = sources.deep_view();
    let ghost start = journal.records();
    let ghost pv = plan.deep_view();
    let ghost replacing = replaces(*cfg, *opts);
    let ghost mut done: Seq<Outcome> = Seq::empty();
    let ghost mut why: Seq<(Seq<char>, Option<Seq<char>>)> = Seq::empty();
    let ghost d0 = report.diagnostics.deep_view();
    let ghost on = Footing { steady: fs.is_steady(), idle: opts.cancel.is_idle() };
    let ghost mut log: Moves<S> = Moves {
        trees: seq![t0],
        journals: seq![j0],
        results: Seq::empty(),
        courses: Seq::empty(),
        last: None,
        on,
    };
    proof {
        assert(log.logs(t0, j0, pv, *cfg, *opts, done, why));
        assert(start =~= start.subrange(0, start.len() as int));
        assert(d0 =~= d0.subrange(0, d0.len() as int));
        assert(d0 =~= d0 + failure_notes(pv.items, done, why));
        lemma_staying_keeps_files(t0, t0);
        assert(item_steps(t0, t0, pv, *cfg, replacing, done));
    }
    let mut i: usize = 0;
    while i < plan.items.len()
        invariant
            old(fs).is_steady() ==> fs.is_steady(),
            h0 == old(fs).history(),
            opts.cancel.is_spent() ==> i == 0 && fs.tree() == t0 && fs.history() == h0 && *journal
                == j0 && *report == r0 && sources.deep_view() == s0,
            i <= plan.items@.len(),
            done.len() == i,
            pv == plan.deep_view(),
            replacing == replaces(*cfg, *opts),
            start == j0.records(),
            t0 == old(fs).tree(),
            j0 == *old(journal),
            r0 == *old(report),
            s0 == old(sources).deep_view(),
            item_steps(t0, fs.tree(), pv, *cfg, replacing, done),
            log.logs(t0, j0, pv, *cfg, *opts, done, why),
            log.last is None,
            log.on == on,
            on == (Footing { steady: old(fs).is_steady(), idle: opts.cancel.is_idle() }),
            log.trees.last() == fs.tree(),
            log.journals.last() == *journal,
            !replacing ==> keeps_files(t0, fs.tree()),
            report.counts == counted(r0.counts, done),
            d0 == r0.diagnostics.deep_view(),
            why.len() == done.len(),
            opts.fail_fast ==> none_failed(done, done.len() as int),
            report.diagnostics.deep_view() == d0 + failure_notes(pv.items, done, why),
            forall|d: PathView| #[trigger]
                sources.deep_view().contains(d) <==> s0.contains(d) || vacated(pv, done, d),
            journal.same_binding(&j0),
            leaves_nothing_open(start, journal.records()),
            records_changes(t0, fs.tree(), j0, *journal),
            only_counts(r0, *report),
            !report.cancelled,
        decreases plan.items@.len() - i,
    {
        let ghost t1 = fs.tree();
        let ghost j1 = *journal;
        proof {
            assert(files_moved(t0, t1, pv, *cfg, replacing, done, true));
            if !replacing {
                assert forall|run: RunId, root: PathView|
                    nothing_open(start, run, root) implies #[trigger] reclaimable(
                    t0,
                    t1,
                    j1.records(),
                    run,
                    root,
                ) by {
                    assert(nothing_open(j1.records(), run, root));
                    lemma_settled_is_reclaimable(t0, t1, j1.records(), run, root);
                }
            }
        }
        if heed(report, opts.cancel.is_cancelled()) {
            proof {
                assert(log.ends(t1, *journal, pv, *cfg, *opts, true));
                assert(move_phase(
                    t0,
                    t1,
                    pv,
                    *cfg,
                    *opts,
                    r0,
                    *report,
                    s0,
                    sources.deep_view(),
                    Ok(()),
                    done,
                    why,
                ));
            }
            return Ok(());
        }
        let item = &plan.items[i];
        let ghost iv = item.deep_view();
        proof {
            assert(pv.items[i as int] == iv);
        }
        let ghost held = done;
        let ghost mut reason: (Seq<char>, Option<Seq<char>>) = (Seq::empty(), None);
        let ghost notes = report.diagnostics.deep_view();
        let ghost sources1 = sources.deep_view();
        let ghost mut result_v: MoveResultView = MoveResultView::NoOp;
        let ghost mut course: Course<S> = Course::Cancelled;
        let outcome: Outcome = match &item.action {
            Action::Move { from, to } => {
                let ghost now = Footing { steady: fs.is_steady(), ..on };
                let result = move_one(fs, plan, cfg, opts, journal, from, to);
                let ghost fv = from.deep_view();
                proof {
                    let t2 = fs.tree();
                    if !replacing {
                        lemma_keeping_is_transitive(t0, t1, t2);
                    }
                    lemma_open_chain(start, j1.records(), journal.records());
                    assert(unfinished(t1, t2, replacing, iv));
                    assert(files_moved(t0, t2, pv, *cfg, replacing, done, true));
                    if result is Ok {
                        result_v = result->Ok_0.deep_view();
                        course = choose|c: Course<S>| #[trigger]
                            went(
                                t1,
                                t2,
                                j1,
                                *journal,
                                *cfg,
                                pv.volume,
                                opts.allow_replace,
                                fv,
                                to.deep_view(),
                                result_v,
                                c,
                                now,
                            );
                        assert(went(
                            t1,
                            t2,
                            j1,
                            *journal,
                            *cfg,
                            pv.volume,
                            opts.allow_replace,
                            fv,
                            to.deep_view(),
                            result_v,
                            course,
                            on,
                        ));
                    }
                    lemma_move_is_recorded(
                        t1,
                        t2,
                        j1,
                        *journal,
                        *cfg,
                        pv.volume,
                        opts.allow_replace,
                        fv,
                        to.deep_view(),
                        result_view(result),
                        course,
                        on,
                    );
                    lemma_recording_is_transitive(t0, t1, t2, j0, j1, *journal);
                }
                match result {
                    Err(fatal) => {
                        proof {
                            assert(move_phase(
                                t0,
                                fs.tree(),
                                pv,
                                *cfg,
                                *opts,
                                r0,
                                *report,
                                s0,
                                sources.deep_view(),
                                Err(fatal),
                                done,
                                why,
                            ));
                        }
                        return Err(fatal);
                    },
                    Ok(MoveResult::Moved { source_dir }) => {
                        if let Some(dir) = source_dir {
                            add_path(sources, dir);
                        }
                        Outcome::Moved
                    },
                    Ok(MoveResult::Skipped) => Outcome::Skipped,
                    Ok(MoveResult::Conflicted) => Outcome::Conflicted,
                    Ok(MoveResult::NoOp) => Outcome::NoOp,
                    Ok(MoveResult::Failed { message, io_kind }) => {
                        let note = Diagnostic {
                            severity: Severity::Failure,
                            item: Some(item.id),
                            stage: "exec".to_string(),
                            message,
                            io_kind,
                        };
                        proof {
                            reason = (note.message@, note.io_kind.deep_view());
                            assert(note.deep_view() == failure_note(iv, reason));
                        }
                        push_note(report, note);
                        proof {
                            lemma_notes_chain(d0, notes, *report);
                        }
                        Outcome::Failed
                    },
                    Ok(MoveResult::Cancelled) => {
                        report.cancelled = true;
                        proof {
                            let cut = Moves { last: Some(course), ..log };
                            assert forall|k: int| 0 <= k < done.len() implies #[trigger] cut.deals_with(
                                pv,
                                *cfg,
                                *opts,
                                done,
                                why,
                                k,
                            ) by {
                                assert(log.deals_with(pv, *cfg, *opts, done, why, k));
                            }
                            assert(cut.logs(t0, j0, pv, *cfg, *opts, done, why));
                            assert(cut.ends(fs.tree(), *journal, pv, *cfg, *opts, true));
                            assert(move_phase(
                                t0,
                                fs.tree(),
                                pv,
                                *cfg,
                                *opts,
                                r0,
                                *report,
                                s0,
                                sources.deep_view(),
                                Ok(()),
                                done,
                                why,
                            ));
                            if !replacing {
                                assert forall|run: RunId, root: PathView|
                                    nothing_open(start, run, root) implies #[trigger] reclaimable(
                                    t0,
                                    fs.tree(),
                                    journal.records(),
                                    run,
                                    root,
                                ) by {
                                    assert(nothing_open(j1.records(), run, root));
                                    lemma_cancelled_is_reclaimable(
                                        t0,
                                        t1,
                                        fs.tree(),
                                        j1.records(),
                                        journal.records(),
                                        fv,
                                        run,
                                        root,
                                    );
                                }
                            }
                        }
                        return Ok(());
                    },
                }
            },
            _ => planned_outcome(item),
        };
        report.count(outcome);
        proof {
            lemma_one_more_move(
                log,
                t0,
                j0,
                pv,
                *cfg,
                *opts,
                held,
                why,
                fs.tree(),
                *journal,
                result_v,
                course,
                outcome,
                reason,
            );
            log = log.followed_by(fs.tree(), *journal, result_v, course);
            let reasons = why.push(reason);
            done = held.push(outcome);
            assert(done.drop_last() =~= held);
            assert(done.last() == outcome);
            assert(why =~= reasons.subrange(0, why.len() as int));
            lemma_failure_notes(pv.items, held, why, reasons);
            why = reasons;
            assert(report.diagnostics.deep_view() =~= d0 + failure_notes(pv.items, done, why));
            assert(item_step(t1, fs.tree(), pv, *cfg, replacing, iv, outcome));
            assert(item_steps(t0, fs.tree(), pv, *cfg, replacing, done));
            assert forall|d: PathView| #[trigger]
                sources.deep_view().contains(d) <==> s0.contains(d) || vacated(pv, done, d) by {
                lemma_vacated_grows(pv, held, outcome, d);
                lemma_added_path(sources1, sources.deep_view(), iv.action, outcome, d);
            }
        }
        i = i + 1;
        if outcome == Outcome::Failed && opts.fail_fast {
            proof {
                assert(log.ends(fs.tree(), *journal, pv, *cfg, *opts, false));
                assert(move_phase(
                    t0,
                    fs.tree(),
                    pv,
                    *cfg,
                    *opts,
                    r0,
                    *report,
                    s0,
                    sources.deep_view(),
                    Ok(()),
                    done,
                    why,
                ));
                if !replacing {
                    assert forall|run: RunId, root: PathView|
                        nothing_open(start, run, root) implies #[trigger] reclaimable(
                        t0,
                        fs.tree(),
                        journal.records(),
                        run,
                        root,
                    ) by {
                        assert(nothing_open(journal.records(), run, root));
                        lemma_settled_is_reclaimable(t0, fs.tree(), journal.records(), run, root);
                    }
                }
            }
            return Ok(());
        }
    }
    proof {
        assert(log.ends(fs.tree(), *journal, pv, *cfg, *opts, false));
        assert(move_phase(
            t0,
            fs.tree(),
            pv,
            *cfg,
            *opts,
            r0,
            *report,
            s0,
            sources.deep_view(),
            Ok(()),
            done,
            why,
        ));
        if !replacing {
            assert forall|run: RunId, root: PathView|
                nothing_open(start, run, root) implies #[trigger] reclaimable(
                t0,
                fs.tree(),
                journal.records(),
                run,
                root,
            ) by {
                assert(nothing_open(journal.records(), run, root));
                lemma_settled_is_reclaimable(t0, fs.tree(), journal.records(), run, root);
            }
        }
    }
    Ok(())
}

/// The directories vacated by one more item.
proof fn lemma_vacated_grows(plan: PlanView, done: Seq<Outcome>, o: Outcome, d: PathView)
    ensures
        vacated(plan, done.push(o), d) <==> vacated(plan, done, d) || (o == Outcome::Moved && (
        plan.items[done.len() as int].action matches ActionView::Move { from, .. } && from.parent()
            == Some(d))),
{
    let more = done.push(o);
    if vacated(plan, done, d) {
        let i = choose|i: int|
            0 <= i < done.len() && #[trigger] done[i] == Outcome::Moved && (plan.items[i].action
                matches ActionView::Move { from, .. } && from.parent() == Some(d));
        assert(more[i] == Outcome::Moved);
    }
    if vacated(plan, more, d) {
        let i = choose|i: int|
            0 <= i < more.len() && #[trigger] more[i] == Outcome::Moved && (plan.items[i].action
                matches ActionView::Move { from, .. } && from.parent() == Some(d));
        if i < done.len() {
            assert(done[i] == Outcome::Moved);
        }
    }
    if o == Outcome::Moved {
        assert(more[done.len() as int] == Outcome::Moved);
    }
}

/// The directory that an item has vacated, if any.
spec fn vacated_by(action: ActionView, o: Outcome) -> Option<PathView> {
    if o == Outcome::Moved {
        match action {
            ActionView::Move { from, .. } => from.parent(),
            _ => None,
        }
    } else {
        None
    }
}

/// What a list holds that has grown by the directory that an item has vacated.
proof fn lemma_added_path(
    a: Seq<PathView>,
    b: Seq<PathView>,
    action: ActionView,
    o: Outcome,
    d: PathView,
)
    requires
        match vacated_by(action, o) {
            Some(p) => b == (if a.contains(p) {
                a
            } else {
                a.push(p)
            }),
            None => b == a,
        },
    ensures
        b.contains(d) <==> a.contains(d) || vacated_by(action, o) == Some(d),
{
    if let Some(p) = vacated_by(action, o) {
        if !a.contains(p) {
            assert(b[a.len() as int] == p);
            if a.contains(d) {
                let k = choose|k: int| 0 <= k < a.len() && a[k] == d;
                assert(b[k] == d);
            }
            if b.contains(d) && d != p {
                let k = choose|k: int| 0 <= k < b.len() && b[k] == d;
                assert(a[k] == d);
            }
        }
    }
}

/// A run, phase by phase: the tree, the journal and the report before the run
/// and after each of its phases, and what was found out in each.
pub struct Run<S: JournalStore> {
    pub trees: Seq<Tree>,
    pub journals: Seq<Journal<S>>,
    pub reports: Seq<RunReport>,
    pub create_order: Seq<usize>,
    pub found: Seq<Found>,
    pub done: Seq<Outcome>,
    pub why: Seq<(Seq<char>, Option<Seq<char>>)>,
    pub log: Moves<S>,
    pub sources: Seq<PathView>,
    pub rename_order: Seq<usize>,
    pub renamed: Seq<Renaming>,
    pub paths: Seq<PathView>,
    pub removal_order: Seq<usize>,
    pub removed: Seq<Removal>,
    pub removal_trees: Seq<Tree>,
    pub reclaimed: Seq<Reclaiming>,
    pub on: Footing,
}

impl<S: JournalStore> Run<S> {
    /// Whether nothing was done in a phase.
    pub open spec fn skipped(self, k: int) -> bool {
        &&& self.trees[k + 1] == self.trees[k]
        &&& self.journals[k + 1] == self.journals[k]
        &&& self.reports[k + 1] == self.reports[k]
    }

    /// Whether a run begins in a tree, with a journal that is bound to the plan,
    /// beside which the plan has been saved, and a report in which nothing is
    /// said.
    pub open spec fn begins(self, t: Tree, j: Journal<S>, plan: PlanView) -> bool {
        let r = self.reports[0];
        let b = self.journals[0];
        &&& self.trees.len() == 6
        &&& self.journals.len() == 6
        &&& self.reports.len() == 6
        &&& self.trees[0] == t
        &&& b.run() == plan.run_id
        &&& b.bound_root() == plan.root
        &&& b.digest() == plan.config_digest
        &&& b.records() == j.records()
        &&& b.next() == j.next()
        &&& b.same_store(&j)
        &&& b.adds_nothing(&j)
        &&& saves(j, b, plan)
        &&& r.run_id == plan.run_id
        &&& r.mode == RunMode::Apply
        &&& r.kind == plan.kind
        &&& r.root.deep_view() == plan.root
        &&& r.counts == Tally::zero()
        &&& r.pending == Tally::zero()
        &&& r.diagnostics.deep_view() == Seq::<DiagnosticView>::empty()
        &&& r.dirs_removed == 0
        &&& r.dirs_not_removable@.len() == 0
        &&& r.reservations_reclaimed == 0
        &&& r.fatal is None
        &&& !r.cancelled
        &&& r.duration_ms == 0
    }

    /// Whether the directories that the plan needs are created.
    pub open spec fn creates(self, plan: PlanView) -> bool {
        let before = self.reports[0];
        let after = self.reports[1];
        &&& only_adds_dirs(self.trees[0], self.trees[1])
        &&& only_notes(before, after)
        &&& dirs_created(
            self.journals[0],
            self.journals[1],
            before.diagnostics.deep_view(),
            after.diagnostics.deep_view(),
            plan.dir_creates,
            self.create_order,
            self.found,
        )
        &&& creation_accords(
            self.trees[0],
            self.trees[1],
            in_order(plan.dir_creates, self.create_order),
            self.found,
            self.on.steady,
        )
        &&& !after.cancelled ==> {
            &&& self.found.len() == plan.dir_creates.len()
            &&& all_created(plan.dir_creates, self.trees[1], after.diagnostics.deep_view())
        }
    }

    /// Whether the files of the plan are moved, unless the run was cancelled.
    pub open spec fn moves(self, plan: PlanView, cfg: Config, opts: ExecOptions) -> bool {
        let before = self.reports[1];
        let after = self.reports[2];
        if before.cancelled {
            &&& self.skipped(1)
            &&& self.done.len() == 0
            &&& self.sources.len() == 0
        } else {
            &&& only_counts(before, after)
            &&& self.journals[2].same_binding(&self.journals[1])
            &&& self.journals[1].records().is_prefix_of(self.journals[2].records())
            &&& move_phase(
                self.trees[1],
                self.trees[2],
                plan,
                cfg,
                opts,
                before,
                after,
                Seq::empty(),
                self.sources,
                Ok(()),
                self.done,
                self.why,
            )
            &&& self.on.steady ==> self.log.on.steady
            &&& self.on.idle == self.log.on.idle
            &&& self.log.logs(
                self.trees[1],
                self.journals[1],
                plan,
                cfg,
                opts,
                self.done,
                self.why,
            )
            &&& self.log.ends(
                self.trees[2],
                self.journals[2],
                plan,
                cfg,
                opts,
                after.cancelled,
            )
        }
    }

    /// Whether directories are renamed, unless the run was cancelled.
    pub open spec fn renames(self, plan: PlanView) -> bool {
        let before = self.reports[2];
        let after = self.reports[3];
        let todo = in_order(plan.dir_renames, self.rename_order);
        if before.cancelled {
            self.skipped(2)
        } else {
            &&& only_notes(before, after)
            &&& dirs_renamed(
                self.trees[2],
                self.trees[3],
                plan.dir_renames,
                self.rename_order,
                self.renamed,
                self.on.steady,
            )
            &&& !after.cancelled ==> self.renamed.len() == plan.dir_renames.len()
            &&& after.diagnostics.deep_view() == before.diagnostics.deep_view() + rename_notes(
                todo,
                self.renamed,
            )
            &&& took_steps(
                self.journals[2],
                self.journals[3],
                JournalOp::DirRename,
                rename_steps(todo, self.renamed),
            )
        }
    }

    /// Whether vacated directories are removed, unless the run was cancelled or
    /// they are to be left.
    pub open spec fn removes(self, plan: PlanView, cfg: Config) -> bool {
        let before = self.reports[3];
        let after = self.reports[4];
        if before.cancelled || !cfg.cleanup.remove_empty_dirs {
            self.skipped(3)
        } else {
            &&& only_removals(before, after)
            &&& cleaned(self.trees[3], self.trees[4], plan, cfg, self.sources)
            &&& dirs_removed_as(
                self.journals[3],
                self.journals[4],
                before,
                after,
                plan,
                self.sources,
                self.paths,
                self.removal_order,
                self.removed,
            )
            &&& removal_steps_in(
                self.removal_trees,
                self.trees[3],
                self.trees[4],
                in_order(self.paths, self.removal_order),
                cfg,
                self.removed,
                self.on.steady,
            )
            &&& !after.cancelled ==> self.removed.len() == self.paths.len()
        }
    }

    /// Whether the reservations without an outcome are reclaimed.
    pub open spec fn reclaims(self, plan: PlanView) -> bool {
        let before = self.reports[4];
        let after = self.reports[5];
        let entries = self.journals[4].records();
        let list = unmatched(entries, Some(plan.root));
        &&& only_reclaims(before, after)
        &&& reclaimed(self.trees[4], self.trees[5], entries, plan.run_id, plan.root)
        &&& reclaimed_as(
            self.trees[4],
            self.trees[5],
            self.on.steady,
            self.journals[4],
            self.journals[5],
            before,
            after,
            list,
            plan.run_id,
            self.reclaimed,
        )
        &&& self.reclaimed.len() == list.len()
    }
}

/// Whether a plan has been saved beside a journal, and no other.
pub open spec fn saves<S: JournalStore>(
    before: Journal<S>,
    after: Journal<S>,
    plan: PlanView,
) -> bool {
    after.plans() == before.plans().push((before.plan_path(plan.run_id), plan))
}

/// What comes of applying a plan, given a run of it.
pub open spec fn phases<S: JournalStore>(
    run: Run<S>,
    t0: Tree,
    t1: Tree,
    j0: Journal<S>,
    j1: Journal<S>,
    plan: PlanView,
    cfg: Config,
    opts: ExecOptions,
    r: RunReport,
) -> bool {
    &&& run.begins(t0, j0, plan)
    &&& run.creates(plan)
    &&& run.moves(plan, cfg, opts)
    &&& run.renames(plan)
    &&& run.removes(plan, cfg)
    &&& run.reclaims(plan)
    &&& run.trees[5] == t1
    &&& run.journals[5] == j1
    &&& run.reports[5] == r
}

/// Whether there is something to do in a plan.
pub open spec fn has_work(plan: PlanView, cfg: Config) -> bool {
    ||| plan.dir_creates.len() > 0
    ||| plan.items.len() > 0
    ||| plan.dir_renames.len() > 0
    ||| cfg.cleanup.remove_empty_dirs && plan.dir_removals.len() > 0
}

/// The report on a run whose journal could not be opened: nothing was done.
pub fn report_unopened(plan: &Plan, fatal: FatalReason) -> (r: RunReport)
    ensures
        r.fatal == Some(fatal),
        r.run_id == plan.run_id,
        r.mode == RunMode::Apply,
        r.kind == plan.kind,
        r.root.deep_view() == plan.root.deep_view(),
        r.counts == Tally::zero(),
        r.pending == Tally::zero(),
        r.diagnostics@.len() == 0,
        r.dirs_removed == 0,
        r.dirs_not_removable@.len() == 0,
        r.reservations_reclaimed == 0,
        !r.cancelled,
        r.duration_ms == 0,
{
    let mut report = RunReport::new(
        plan.run_id,
        RunMode::Apply,
        plan.kind,
        plan.root.duplicate(),
    );
    report.fatal = Some(fatal);
    report
}

/// Apply `plan` to `fs`. Nothing ends the run early but a journal that cannot
/// be written and cancellation. A run that is cancelled before it begins changes
/// nothing but that it reclaims what an earlier one has left.
#[verifier::rlimit(60)]
pub fn execute<F: FileSystem, S: JournalStore>(
    fs: &mut F,
    plan: &Plan,
    cfg: &Config,
    opts: &ExecOptions,
    journal: &mut Journal<S>,
) -> (r: RunReport)
    ensures
        old(fs).is_steady() ==> final(fs).is_steady(),
        r.run_id == plan.run_id,
        r.mode == RunMode::Apply,
        r.kind == plan.kind,
        r.root.deep_view() == plan.root.deep_view(),
        r.pending == Tally::zero(),
        old(journal).records().is_prefix_of(final(journal).records()),
        r.fatal matches Some(f) ==> f is JournalUnwritable && (old(journal).is_reliable()
            ==> final(journal).next() == u64::MAX),
        final(journal).same_store(old(journal)),
        // The plan is saved before anything else is done: where it could not be,
        // nothing is.
        saves(*old(journal), *final(journal), plan.deep_view()) || {
            &&& r.fatal is Some
            &&& !old(journal).is_reliable()
            &&& final(journal).plans() == old(journal).plans()
            &&& final(journal).adds_nothing(old(journal))
            &&& final(fs).tree() == old(fs).tree()
            &&& final(fs).history() == old(fs).history()
        },
        r.fatal is None ==> exists|run: Run<S>| #[trigger]
            phases(
                run,
                old(fs).tree(),
                final(fs).tree(),
                *old(journal),
                *final(journal),
                plan.deep_view(),
                *cfg,
                *opts,
                r,
            ) && run.on == (Footing {
                steady: old(fs).is_steady(),
                idle: opts.cancel.is_idle(),
            }),
        // Nothing changes unrecorded but what does not matter as the
        // configuration has it.
        !cfg.cleanup.tolerate_junk ==> records_changes(
            old(fs).tree(),
            final(fs).tree(),
            *old(journal),
            *final(journal),
        ),
        // No file is lost, unless it is replaced or does not matter as the
        // configuration has it.
        !replaces(*cfg, *opts) && !cfg.cleanup.tolerate_junk && nothing_open(
            old(journal).records(),
            plan.run_id,
            plan.root.deep_view(),
        ) ==> keeps_files(old(fs).tree(), final(fs).tree()),
        // A run that nobody can cancel goes through.
        old(fs).is_steady() && opts.cancel.is_idle() ==> !r.cancelled,
        // Once the run is cancelled, no directory is made, no file or directory
        // is moved or cleaned up, and the report says so.
        opts.cancel.is_spent() ==> {
            &&& r.fatal is None ==> r.cancelled == has_work(plan.deep_view(), *cfg)
            &&& r.counts == Tally::zero()
            &&& r.dirs_removed == 0
            &&& takes_leftovers(
                old(fs).history(),
                final(fs).history(),
                old(fs).tree(),
                old(journal).records(),
                plan.run_id,
                plan.root.deep_view(),
            )
            &&& nothing_open(old(journal).records(), plan.run_id, plan.root.deep_view()) ==> {
                &&& final(fs).tree() == old(fs).tree()
                &&& only_asks(old(fs).history(), final(fs).history())
            }
        },
{
    let ghost h0 = fs.history();
    let ghost t0 = fs.tree();
    let ghost on = Footing { steady: fs.is_steady(), idle: opts.cancel.is_idle() };
    let ghost before = *journal;
    let ghost e0 = journal.records();
    let ghost pv = plan.deep_view();
    let ghost run = plan.run_id;
    let ghost root = plan.root.deep_view();
    let ghost safe = !replaces(*cfg, *opts) && !cfg.cleanup.tolerate_junk && nothing_open(
        e0,
        run,
        root,
    );
    proof {
        assert(e0 =~= e0.subrange(0, e0.len() as int));
        lemma_staying_keeps_files(t0, t0);
    }
    let mut report = RunReport::new(
        plan.run_id,
        RunMode::Apply,
        plan.kind,
        plan.root.duplicate(),
    );
    journal.bind(plan.run_id, plan.root.duplicate(), plan.config_digest.clone());
    match journal.persist_plan(plan) {
        Ok(_) => {},
        Err(fatal) => {
            report.fatal = Some(fatal);
            return report;
        },
    }
    let ghost j0 = *journal;
    let ghost r0 = report;
    proof {
        assert(r0.diagnostics.deep_view() =~= Seq::empty());
    }
    match create_directories(fs, plan, opts, journal, &mut report) {
        Ok(()) => {},
        Err(fatal) => {
            proof {
                lemma_adding_dirs_stays(t0, fs.tree());
            }
            report.fatal = Some(fatal);
            return report;
        },
    }
    let ghost t1 = fs.tree();
    let ghost j1 = *journal;
    let ghost r1 = report;
    let ghost e1 = journal.records();
    let ghost (create_order, found) = choose|order: Seq<usize>, found: Seq<Found>| #[trigger]
        dirs_created(
            j0,
            j1,
            r0.diagnostics.deep_view(),
            r1.diagnostics.deep_view(),
            pv.dir_creates,
            order,
            found,
        ) && creation_accords(t0, t1, in_order(pv.dir_creates, order), found, on.steady)
            && (!r1.cancelled ==> found.len() == pv.dir_creates.len());
    let ghost mut done: Seq<Outcome> = Seq::empty();
    let ghost mut why: Seq<(Seq<char>, Option<Seq<char>>)> = Seq::empty();
    let ghost mut log: Moves<S> = arbitrary();
    let ghost mut now = on;
    let ghost mut rename_order: Seq<usize> = Seq::empty();
    let ghost mut renamed: Seq<Renaming> = Seq::empty();
    let ghost mut paths: Seq<PathView> = Seq::empty();
    let ghost mut removal_order: Seq<usize> = Seq::empty();
    let ghost mut removed: Seq<Removal> = Seq::empty();
    let ghost mut removal_trees: Seq<Tree> = Seq::empty();
    let mut sources: Vec<FilePath> = Vec::new();
    proof {
        lemma_adding_dirs_stays(t0, t1);
        assert(sources.deep_view() =~= Seq::empty());
        lemma_staying_keeps_files(t1, t1);
        if safe {
            assert(nothing_open(e1, run, root));
            lemma_settled_is_reclaimable(t1, t1, e1, run, root);
        }
    }
    if !report.cancelled {
        proof {
            now = Footing { steady: fs.is_steady(), ..on };
        }
        let r = move_files(fs, plan, cfg, opts, journal, &mut report, &mut sources);
        proof {
            let (o, w, l) = choose|
                done: Seq<Outcome>,
                why: Seq<(Seq<char>, Option<Seq<char>>)>,
                log: Moves<S>,
            |
                #![trigger log.logs(t1, j1, pv, *cfg, *opts, done, why)]
                move_phase(
                    t1,
                    fs.tree(),
                    pv,
                    *cfg,
                    *opts,
                    r1,
                    report,
                    Seq::empty(),
                    sources.deep_view(),
                    r,
                    done,
                    why,
                ) && log.logs(t1, j1, pv, *cfg, *opts, done, why) && log.on == now && (r is Ok
                    ==> log.ends(
                    fs.tree(),
                    *journal,
                    pv,
                    *cfg,
                    *opts,
                    report.cancelled,
                ));
            done = o;
            why = w;
            log = l;
            lemma_open_chain(e0, e1, journal.records());
            lemma_recording_is_transitive(t0, t1, fs.tree(), before, j1, *journal);
            if safe {
                lemma_keeping_is_transitive(t0, t1, fs.tree());
            }
        }
        match r {
            Ok(()) => {},
            Err(fatal) => {
                report.fatal = Some(fatal);
                return report;
            },
        }
    }
    let ghost t2 = fs.tree();
    let ghost j2 = *journal;
    let ghost r2 = report;
    let ghost e2 = journal.records();
    proof {
        if safe {
            lemma_keeping_is_transitive(t0, t1, t2);
            assert(reclaimable(t1, t2, e2, run, root));
            if !r2.cancelled {
                assert(nothing_open(e2, run, root));
            }
        }
    }
    if !report.cancelled {
        let ghost steady2 = fs.is_steady();
        let r = rename_directories(fs, plan, opts, journal, &mut report);
        proof {
            let (o, told) = choose|order: Seq<usize>, told: Seq<Renaming>| #[trigger]
                dirs_renamed(t2, fs.tree(), pv.dir_renames, order, told, steady2) && (r is Ok
                    && !report.cancelled ==> told.len() == plan.dir_renames@.len()) && (r is Ok
                    ==> took_steps(
                    j2,
                    *journal,
                    JournalOp::DirRename,
                    rename_steps(in_order(pv.dir_renames, order), told),
                ) && report.diagnostics.deep_view() == r2.diagnostics.deep_view() + rename_notes(
                    in_order(pv.dir_renames, order),
                    told,
                ));
            rename_order = o;
            renamed = told;
            lemma_steps_on_any(
                t2,
                fs.tree(),
                in_order(pv.dir_renames, o),
                told,
                steady2,
                on.steady,
            );
            lemma_open_chain(e0, e2, journal.records());
            assert(only_adds_dirs(t2, t2));
            lemma_recording_is_transitive(t0, t2, fs.tree(), before, j2, *journal);
            if safe {
                lemma_keeping_is_transitive(t0, t2, fs.tree());
            }
        }
        match r {
            Ok(()) => {},
            Err(fatal) => {
                report.fatal = Some(fatal);
                return report;
            },
        }
    }
    let ghost t3 = fs.tree();
    let ghost j3 = *journal;
    let ghost r3 = report;
    let ghost e3 = journal.records();
    if !report.cancelled {
        let ghost steady3 = fs.is_steady();
        let r = remove_empty_directories(
            fs,
            plan,
            cfg,
            opts,
            &sources,
            journal,
            &mut report,
        );
        proof {
            lemma_open_chain(e0, e3, journal.records());
            if !cfg.cleanup.tolerate_junk {
                assert(only_adds_dirs(t3, t3));
                lemma_recording_is_transitive(t0, t3, fs.tree(), before, j3, *journal);
            }
            if safe {
                law_cleanup_loses_no_file(t3, fs.tree(), pv, *cfg, sources.deep_view());
                lemma_keeping_is_transitive(t0, t3, fs.tree());
            }
            if r is Ok && cfg.cleanup.remove_empty_dirs {
                let (ps, o, told, between) = choose|
                    paths: Seq<PathView>,
                    order: Seq<usize>,
                    told: Seq<Removal>,
                    trees: Seq<Tree>,
                | #[trigger]
                    removal_steps_in(
                        trees,
                        t3,
                        fs.tree(),
                        in_order(paths, order),
                        *cfg,
                        told,
                        steady3,
                    ) && #[trigger] dirs_removed_as(
                        j3,
                        *journal,
                        r3,
                        report,
                        pv,
                        sources.deep_view(),
                        paths,
                        order,
                        told,
                    ) && (!report.cancelled ==> told.len() == paths.len());
                paths = ps;
                removal_order = o;
                removed = told;
                removal_trees = between;
                assert(removal_steps_in(
                    removal_trees,
                    t3,
                    fs.tree(),
                    in_order(paths, removal_order),
                    *cfg,
                    removed,
                    on.steady,
                ));
            }
        }
        match r {
            Ok(()) => {},
            Err(fatal) => {
                report.fatal = Some(fatal);
                return report;
            },
        }
    }
    let ghost t4 = fs.tree();
    let ghost j4 = *journal;
    let ghost r4 = report;
    let ghost e4 = journal.records();
    let ghost steady4 = fs.is_steady();
    proof {
        if opts.cancel.is_spent() {
            assert(t4 == t0 && e4 == e0 && fs.history() == h0);
            assert(sources.deep_view() =~= Seq::empty());
            assert(pv.dir_removals.len() == plan.dir_removals@.len());
            assert((exists|q: PathView| is_candidate(pv, sources.deep_view(), q))
                == (pv.dir_removals.len() > 0)) by {
                if pv.dir_removals.len() > 0 {
                    assert(is_candidate(pv, sources.deep_view(), pv.dir_removals[0].path));
                }
            }
        }
    }
    let r = reclaim_this_run(fs, plan, journal, &mut report);
    proof {
        let t5 = fs.tree();
        if !cfg.cleanup.tolerate_junk {
            assert(only_adds_dirs(t4, t4));
            lemma_recording_is_transitive(t0, t4, t5, before, j4, *journal);
        }
        if opts.cancel.is_spent() && nothing_open(e0, run, root) {
            law_nothing_to_reclaim(h0, fs.history(), t0, e0, run, root);
            assert forall|q: PathView| #[trigger] t0.dom().contains(q) implies t5.dom().contains(
                q,
            ) by {
                if !t5.dom().contains(q) {
                    assert(is_leftover(t0, e0, run, root, q));
                }
            }
            assert(t5 =~= t0);
        }
        if safe {
            if r2.cancelled {
                law_reclaiming_loses_no_file(t1, t4, t5, e4, run, root);
                lemma_keeping_is_transitive(t0, t1, t5);
            } else {
                assert(nothing_open(e4, run, root));
                lemma_settled_is_reclaimable(t0, t4, e4, run, root);
                law_reclaiming_loses_no_file(t0, t4, t5, e4, run, root);
            }
        }
        assert(e0.is_prefix_of(journal.records())) by {
            assert(e0 =~= journal.records().subrange(0, e0.len() as int));
        }
        if r is Ok {
            let list = unmatched(e4, Some(root));
            let told = choose|told: Seq<Reclaiming>| #[trigger]
                reclaimed_as(
                    t4,
                    t5,
                    steady4,
                    j4,
                    *journal,
                    r4,
                    report,
                    list,
                    run,
                    told,
                ) && told.len() == list.len();
            assert(reclaim_accords(t4, e4, list, run, told, on.steady));
            let whole = Run {
                trees: seq![t0, t1, t2, t3, t4, t5],
                journals: seq![j0, j1, j2, j3, j4, *journal],
                reports: seq![r0, r1, r2, r3, r4, report],
                create_order,
                found,
                done,
                why,
                log,
                sources: sources.deep_view(),
                rename_order,
                renamed,
                paths,
                removal_order,
                removed,
                removal_trees,
                reclaimed: told,
                on,
            };
            assert(whole.begins(t0, before, pv));
            assert(whole.creates(pv));
            assert(whole.moves(pv, *cfg, *opts));
            assert(whole.renames(pv));
            assert(whole.removes(pv, *cfg));
            assert(whole.reclaims(pv));
            assert(phases(whole, t0, t5, before, *journal, pv, *cfg, *opts, report));
        }
    }
    match r {
        Ok(()) => {},
        Err(fatal) => {
            report.fatal = Some(fatal);
        },
    }
    report
}

} // verus!
