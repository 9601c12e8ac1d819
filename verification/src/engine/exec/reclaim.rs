//! Reclaiming reservations that an interrupted move has left behind.
//!
//! A leftover is deleted only where the journal shows that a move made it, an
//! intent without an outcome that has not been reclaimed since, and the source
//! is still there.

use crate::domain::classify::MediaKind;
use crate::domain::duplicate::Duplicate;
use crate::domain::error::{
    bump, note, Diagnostic, DiagnosticView, FatalReason, RunMode, RunReport, Severity, Tally,
};
use crate::domain::fs::keep::{keeps_files, lemma_keeping_survives_growth};
use crate::domain::fs::{asks, goes_on, is_dir, only_asks, Call, FileSystem, IoErrorView, Tree};
use crate::domain::path::{FilePath, PathView};
use crate::domain::plan::Plan;
use crate::domain::run_id::RunId;
use crate::engine::exec::cleanup::{counted_up, shrunk};
use crate::engine::exec::dirs::{
    close_step, lemma_notes_chain, lemma_one_more_step, open_step, push_note, step_records,
    took_steps, StepView,
};
use crate::engine::exec::moves::{has_begun, leaves_nothing_open, unwritable};
use crate::engine::exec::GcOptions;
use crate::engine::journal::{
    is_open, is_reclaimed, is_unmatched, lemma_unmatched, nothing_open, said, unmatched, Journal,
    JournalOp, JournalPhase, JournalStore, RecordView,
};
use crate::text;
use vstd::prelude::*;

verus! {

/// What is to be done about a reservation without an outcome.
#[derive(Debug, Clone, Copy, PartialEq, Eq, Structural)]
pub enum Leftover {
    /// The source is gone: nothing may be deleted.
    SourceMissing,
    /// There is nothing at the destination.
    Nothing,
    /// There is a leftover, and it is to be told of only.
    Listed,
    /// There is a leftover, and it is to be deleted.
    Deletable,
}

/// What is to be done about a reservation without an outcome.
pub open spec fn triaged(source_there: bool, dest_there: bool, yes: bool) -> Leftover {
    if !source_there {
        Leftover::SourceMissing
    } else if !dest_there {
        Leftover::Nothing
    } else if !yes {
        Leftover::Listed
    } else {
        Leftover::Deletable
    }
}

/// What is to be done about a reservation without an outcome.
pub fn triage(source_there: bool, dest_there: bool, yes: bool) -> (r: Leftover)
    ensures
        r == triaged(source_there, dest_there, yes),
{
    if !source_there {
        Leftover::SourceMissing
    } else if !dest_there {
        Leftover::Nothing
    } else if !yes {
        Leftover::Listed
    } else {
        Leftover::Deletable
    }
}

/// Whether a list holds what is in one tree and not in another, each path once.
pub open spec fn are_lost(t0: Tree, t1: Tree, lost: Seq<PathView>) -> bool {
    &&& lost.no_duplicates()
    &&& forall|q: PathView| #[trigger]
        lost.contains(q) <==> t0.dom().contains(q) && !t1.dom().contains(q)
}

/// What was there and is no more is one more that is lost.
proof fn lemma_one_more_is_lost(t0: Tree, t1: Tree, lost: Seq<PathView>, p: PathView)
    requires
        are_lost(t0, t1, lost),
        t1.dom().contains(p),
        shrunk(t0, t1),
    ensures
        are_lost(t0, t1.remove(p), lost.push(p)),
{
    let more = lost.push(p);
    assert(!lost.contains(p));
    assert(more[lost.len() as int] == p);
    assert forall|q: PathView| #[trigger]
        more.contains(q) <==> t0.dom().contains(q) && !t1.remove(p).dom().contains(q) by {
        if lost.contains(q) {
            let k = choose|k: int| 0 <= k < lost.len() && lost[k] == q;
            assert(more[k] == q);
        }
        if more.contains(q) && q != p {
            let k = choose|k: int| 0 <= k < more.len() && more[k] == q;
            assert(lost[k] == q);
        }
    }
}

/// Whether something is the leftover of a move of a run that has no outcome,
/// has not been reclaimed and whose source is there.
pub open spec fn is_leftover(
    t: Tree,
    entries: Seq<RecordView>,
    run: RunId,
    root: PathView,
    q: PathView,
) -> bool {
    exists|i: int| #[trigger]
        is_open(entries, i, run, root) && !is_reclaimed(entries, entries[i]) && entries[i].to
            == Some(q) && (entries[i].from matches Some(f) && t.dom().contains(f))
}

/// Whether nothing is asked for that changes anything but the removal of
/// leftovers of a run.
pub open spec fn takes_leftovers(
    h0: Seq<Call>,
    h1: Seq<Call>,
    t: Tree,
    entries: Seq<RecordView>,
    run: RunId,
    root: PathView,
) -> bool {
    &&& goes_on(h0, h1)
    &&& forall|k: int|
        h0.len() <= k < h1.len() ==> asks(#[trigger] h1[k]) || (h1[k] matches Call::Remove {
            path,
            ..
        } && is_leftover(t, entries, run, root, path))
}

/// Where no move of a run lacks its outcome, reclaiming asks for nothing that
/// changes anything.
pub proof fn law_nothing_to_reclaim(
    h0: Seq<Call>,
    h1: Seq<Call>,
    t: Tree,
    entries: Seq<RecordView>,
    run: RunId,
    root: PathView,
)
    requires
        takes_leftovers(h0, h1, t, entries, run, root),
        nothing_open(entries, run, root),
    ensures
        only_asks(h0, h1),
{
}

/// What may come of reclaiming: nothing is added or changed, and nothing goes
/// but leftovers of the run.
pub open spec fn reclaimed(
    t0: Tree,
    t1: Tree,
    entries: Seq<RecordView>,
    run: RunId,
    root: PathView,
) -> bool {
    &&& shrunk(t0, t1)
    &&& forall|q: PathView| #[trigger]
        t0.dom().contains(q) && !t1.dom().contains(q) ==> !is_dir(t0, q) && is_leftover(
            t0,
            entries,
            run,
            root,
            q,
        )
}

/// Whether reclaiming can do no harm to the files of an earlier tree: they are
/// kept even without the destinations of the moves that have no outcome and
/// whose source is there.
pub open spec fn reclaimable(
    base: Tree,
    t: Tree,
    entries: Seq<RecordView>,
    run: RunId,
    root: PathView,
) -> bool {
    exists|spare: Set<PathView>| #[trigger]
        keeps_files(base, t.remove_keys(spare)) && forall|q: PathView| #[trigger]
            is_leftover(t, entries, run, root, q) ==> spare.contains(q)
}

/// Where reclaiming can do no harm, it loses no file.
pub proof fn law_reclaiming_loses_no_file(
    base: Tree,
    t0: Tree,
    t1: Tree,
    entries: Seq<RecordView>,
    run: RunId,
    root: PathView,
)
    requires
        reclaimable(base, t0, entries, run, root),
        reclaimed(t0, t1, entries, run, root),
    ensures
        keeps_files(base, t1),
{
    let spare = choose|spare: Set<PathView>| #[trigger]
        keeps_files(base, t0.remove_keys(spare)) && forall|q: PathView| #[trigger]
            is_leftover(t0, entries, run, root, q) ==> spare.contains(q);
    let kept = t0.remove_keys(spare);
    assert forall|q: PathView| #[trigger] kept.dom().contains(q) implies t1.dom().contains(q)
        && t1[q] == kept[q] by {
        assert(t0.dom().contains(q));
        if !t1.dom().contains(q) {
            assert(is_leftover(t0, entries, run, root, q));
        }
    }
    lemma_keeping_survives_growth(base, kept, t1);
}

/// Whether a report differs from an earlier one in nothing but further
/// diagnostics and reclaimed reservations.
pub open spec fn only_reclaims(a: RunReport, b: RunReport) -> bool {
    &&& b.run_id == a.run_id
    &&& b.mode == a.mode
    &&& b.kind == a.kind
    &&& b.root == a.root
    &&& b.counts == a.counts
    &&& b.pending == a.pending
    &&& b.dirs_removed == a.dirs_removed
    &&& b.dirs_not_removable == a.dirs_not_removable
    &&& b.fatal == a.fatal
    &&& b.cancelled == a.cancelled
    &&& b.duration_ms == a.duration_ms
    &&& a.diagnostics.deep_view().is_prefix_of(b.diagnostics.deep_view())
}

/// Whether something can be learnt of a path.
fn is_there<F: FileSystem>(fs: &mut F, p: &FilePath) -> (r: bool)
    ensures
        old(fs).is_steady() ==> final(fs).is_steady(),
        final(fs).tree() == old(fs).tree(),
        r ==> old(fs).tree().dom().contains(p.deep_view()),
        old(fs).is_steady() ==> r == old(fs).tree().dom().contains(p.deep_view()),
        only_asks(old(fs).history(), final(fs).history()),
{
    match fs.metadata(p) {
        Ok(_) => true,
        Err(_) => false,
    }
}

/// What was found out about an intent without an outcome: it is not of a move
/// of this run or has been reclaimed before, there is nothing to reclaim, its
/// reservation has been removed, or it could not be.
#[verifier::ext_equal]
pub enum Reclaiming {
    Passed,
    Kept,
    Removed,
    Refused(IoErrorView),
}

/// Whether a record is of a move of a run.
pub open spec fn is_move_of(e: RecordView, run: RunId) -> bool {
    e.run_id == run && e.op == JournalOp::Move && e.from is Some && e.to is Some
}

/// What is said of reservations that could not be removed.
pub open spec fn reclaim_notes(list: Seq<RecordView>, told: Seq<Reclaiming>) -> Seq<DiagnosticView>
    decreases told.len(),
{
    if told.len() == 0 {
        Seq::empty()
    } else {
        let rest = reclaim_notes(list, told.drop_last());
        match told.last() {
            Reclaiming::Refused(e) => rest.push(
                note(
                    Severity::Warning,
                    "exec"@,
                    "reclaim "@ + list[told.len() - 1].to->0.text() + " failed: "@ + e.message,
                ),
            ),
            _ => rest,
        }
    }
}

/// The steps by which reservations were removed.
pub open spec fn reclaim_steps(list: Seq<RecordView>, told: Seq<Reclaiming>) -> Seq<StepView>
    decreases told.len(),
{
    if told.len() == 0 {
        Seq::empty()
    } else {
        let rest = reclaim_steps(list, told.drop_last());
        let e = list[told.len() - 1];
        match told.last() {
            Reclaiming::Removed => rest.push(StepView { from: e.from, to: e.to, error: None }),
            Reclaiming::Refused(x) => rest.push(
                StepView { from: e.from, to: e.to, error: Some(x.message) },
            ),
            _ => rest,
        }
    }
}

/// How many reservations have been removed.
pub open spec fn reclaim_count(told: Seq<Reclaiming>) -> nat
    decreases told.len(),
{
    if told.len() == 0 {
        0
    } else {
        reclaim_count(told.drop_last()) + if told.last() is Removed {
            1nat
        } else {
            0nat
        }
    }
}

/// What stands once the first so many intents have been dealt with.
pub open spec fn reclaim_tree(t: Tree, list: Seq<RecordView>, told: Seq<Reclaiming>) -> Tree
    decreases told.len(),
{
    if told.len() == 0 {
        t
    } else {
        let rest = reclaim_tree(t, list, told.drop_last());
        if told.last() is Removed {
            rest.remove(list[told.len() - 1].to->0)
        } else {
            rest
        }
    }
}

/// Whether what was found out about an intent accords with the records and
/// with what stands where. On a steady file system it is wholly so.
pub open spec fn reclaim_step(
    t: Tree,
    entries: Seq<RecordView>,
    e: RecordView,
    run: RunId,
    c: Reclaiming,
    steady: bool,
) -> bool {
    let source = e.from is Some && t.dom().contains(e.from->0);
    let dest = e.to is Some && t.dom().contains(e.to->0);
    &&& (c is Passed) == (!is_move_of(e, run) || is_reclaimed(entries, e))
    &&& c is Removed || c is Refused ==> source && dest
    &&& c is Removed ==> !is_dir(t, e.to->0)
    &&& steady && c is Kept ==> !source || !dest
    &&& steady && c is Refused ==> is_dir(t, e.to->0)
}

/// Whether what was found out about intents accords with the records and with
/// what stood where at the time.
pub open spec fn reclaim_accords(
    t: Tree,
    entries: Seq<RecordView>,
    list: Seq<RecordView>,
    run: RunId,
    told: Seq<Reclaiming>,
    steady: bool,
) -> bool {
    &&& told.len() <= list.len()
    &&& forall|k: int|
        0 <= k < told.len() ==> reclaim_step(
            reclaim_tree(t, list, told.take(k)),
            entries,
            list[k],
            run,
            #[trigger] told[k],
            steady,
        )
}

/// What accords goes on to accord.
proof fn lemma_one_more_reclaimed(
    t: Tree,
    entries: Seq<RecordView>,
    list: Seq<RecordView>,
    run: RunId,
    told: Seq<Reclaiming>,
    c: Reclaiming,
    steady: bool,
)
    requires
        reclaim_accords(t, entries, list, run, told, steady),
        told.len() < list.len(),
        reclaim_step(
            reclaim_tree(t, list, told),
            entries,
            list[told.len() as int],
            run,
            c,
            steady,
        ),
    ensures
        reclaim_accords(t, entries, list, run, told.push(c), steady),
{
    let more = told.push(c);
    assert forall|k: int| 0 <= k < more.len() implies reclaim_step(
        reclaim_tree(t, list, more.take(k)),
        entries,
        list[k],
        run,
        #[trigger] more[k],
        steady,
    ) by {
        if k < told.len() {
            assert(told[k] == more[k]);
            assert(more.take(k) =~= told.take(k));
        } else {
            assert(more.take(k) =~= told);
        }
    }
}

/// What comes of reclaiming, given what was found out about the first so many
/// intents without an outcome: what goes, what is counted and said of them, and
/// how they are journaled.
pub open spec fn reclaimed_as<S: JournalStore>(
    t0: Tree,
    t1: Tree,
    steady: bool,
    j0: Journal<S>,
    j1: Journal<S>,
    before: RunReport,
    after: RunReport,
    list: Seq<RecordView>,
    run: RunId,
    told: Seq<Reclaiming>,
) -> bool {
    &&& reclaim_accords(t0, j0.records(), list, run, told, steady)
    &&& t1 == reclaim_tree(t0, list, told)
    &&& after.reservations_reclaimed == counted_up(
        before.reservations_reclaimed,
        reclaim_count(told),
    )
    &&& after.diagnostics.deep_view() == before.diagnostics.deep_view() + reclaim_notes(list, told)
    &&& took_steps(j0, j1, JournalOp::Reclaim, reclaim_steps(list, told))
}

/// Reclaims the reservations that this run has left without an outcome.
pub fn reclaim_this_run<F: FileSystem, S: JournalStore>(
    fs: &mut F,
    plan: &Plan,
    journal: &mut Journal<S>,
    report: &mut RunReport,
) -> (r: Result<(), FatalReason>)
    ensures
        old(fs).is_steady() ==> final(fs).is_steady(),
        reclaimed(
            old(fs).tree(),
            final(fs).tree(),
            old(journal).records(),
            plan.run_id,
            plan.root.deep_view(),
        ),
        takes_leftovers(
            old(fs).history(),
            final(fs).history(),
            old(fs).tree(),
            old(journal).records(),
            plan.run_id,
            plan.root.deep_view(),
        ),
        final(journal).same_binding(old(journal)),
        leaves_nothing_open(old(journal).records(), final(journal).records()),
        only_reclaims(*old(report), *final(report)),
        r is Ok ==> exists|lost: Seq<PathView>| #[trigger]
            are_lost(old(fs).tree(), final(fs).tree(), lost)
                && final(report).reservations_reclaimed == counted_up(
                old(report).reservations_reclaimed,
                lost.len(),
            ),
        r matches Err(f) ==> unwritable(f, *old(journal), *final(journal)),
        final(fs).tree() == old(fs).tree() || has_begun(*old(journal), *final(journal)),
        r is Ok ==> exists|told: Seq<Reclaiming>| #[trigger]
            reclaimed_as(
                old(fs).tree(),
                final(fs).tree(),
                old(fs).is_steady(),
                *old(journal),
                *final(journal),
                *old(report),
                *final(report),
                unmatched(old(journal).records(), Some(plan.root.deep_view())),
                plan.run_id,
                told,
            ) && told.len() == unmatched(
                old(journal).records(),
                Some(plan.root.deep_view()),
            ).len(),
{
    let ghost h0 = fs.history();
    let ghost t0 = fs.tree();
    let ghost j0 = *journal;
    let ghost r0 = *report;
    let ghost start = journal.records();
    let ghost run = plan.run_id;
    let ghost root = plan.root.deep_view();
    let ghost mut lost: Seq<PathView> = Seq::empty();
    let ghost steady = fs.is_steady();
    let list = journal.unmatched_intents(Some(&plan.root));
    let settled = journal.settled_among(&list);
    let ghost lv = said(list.deep_view());
    let ghost d0 = report.diagnostics.deep_view();
    let ghost mut told: Seq<Reclaiming> = Seq::empty();
    proof {
        assert(start =~= start.subrange(0, start.len() as int));
        assert(d0 =~= d0.subrange(0, d0.len() as int));
        assert(are_lost(t0, t0, lost));
        assert(d0 =~= d0 + reclaim_notes(lv, told));
        assert(start =~= start + step_records(
            j0,
            JournalOp::Reclaim,
            reclaim_steps(lv, told),
        ));
    }
    let mut i: usize = 0;
    while i < list.len()
        invariant
            steady == old(fs).is_steady(),
            steady ==> fs.is_steady(),
            i <= list@.len(),
            settled@.len() == list@.len(),
            forall|k: int|
                0 <= k < settled@.len() ==> #[trigger] settled@[k] == is_reclaimed(
                    start,
                    list@[k].record(),
                ),
            lv == said(list.deep_view()),
            lv == unmatched(start, Some(root)),
            start == j0.records(),
            d0 == r0.diagnostics.deep_view(),
            run == plan.run_id,
            root == plan.root.deep_view(),
            t0 == old(fs).tree(),
            j0 == *old(journal),
            r0 == *old(report),
            told.len() == i,
            reclaimed_as(t0, fs.tree(), steady, j0, *journal, r0, *report, lv, run, told),
            h0 == old(fs).history(),
            takes_leftovers(h0, fs.history(), t0, start, run, root),
            reclaimed(t0, fs.tree(), start, run, root),
            are_lost(t0, fs.tree(), lost),
            lost.len() == reclaim_count(told),
            leaves_nothing_open(start, journal.records()),
            fs.tree() == t0 || has_begun(j0, *journal),
            only_reclaims(r0, *report),
        decreases list@.len() - i,
    {
        let intent = &list[i];
        let ghost held = told;
        let ghost j1 = *journal;
        i = i + 1;
        let ghost t1 = fs.tree();
        let ghost e1 = intent.record();
        proof {
            assert(lv[i - 1] == e1);
            assert(settled@[i - 1] == is_reclaimed(start, e1));
        }
        let paths = match (&intent.from, &intent.to) {
            (Some(from), Some(to)) => if intent.run_id == plan.run_id && intent.op
                == JournalOp::Move && !settled[i - 1] {
                Some((from, to))
            } else {
                None
            },
            _ => None,
        };
        let (from, to) = match paths {
            Some(p) => p,
            None => {
                proof {
                    lemma_one_more_reclaimed(
                        t0,
                        start,
                        lv,
                        run,
                        held,
                        Reclaiming::Passed,
                        steady,
                    );
                    told = held.push(Reclaiming::Passed);
                    assert(told.drop_last() =~= held);
                }
                continue;
            },
        };
        let source_there = is_there(fs, from);
        let dest_there = source_there && is_there(fs, to);
        if triage(source_there, dest_there, true) != Leftover::Deletable {
            proof {
                lemma_one_more_reclaimed(t0, start, lv, run, held, Reclaiming::Kept, steady);
                told = held.push(Reclaiming::Kept);
                assert(told.drop_last() =~= held);
            }
            continue;
        }
        let ghost d = to.deep_view();
        proof {
            lemma_unmatched(start, start.len() as int, Some(root), i - 1);
            let k = choose|k: int|
                0 <= k < start.len() && #[trigger] start[k] == unmatched(start, Some(root))[i - 1];
            assert(is_open(start, k, run, root));
            assert(t0.dom().contains(from.deep_view()));
            assert(is_leftover(t0, start, run, root, d));
        }
        let seq: u64 = match open_step(
            journal,
            JournalOp::Reclaim,
            Some(from),
            Some(to),
            Ghost(start),
        ) {
            Ok(s) => s,
            Err(fatal) => {
                return Err(fatal);
            },
        };
        match fs.remove_file(to) {
            Ok(()) => {
                proof {
                    lemma_one_more_is_lost(t0, t1, lost, d);
                    lost = lost.push(d);
                }
                match close_step(
                    journal,
                    seq,
                    JournalOp::Reclaim,
                    Some(from),
                    Some(to),
                    None,
                    Ghost(start),
                ) {
                    Ok(()) => {},
                    Err(fatal) => {
                        return Err(fatal);
                    },
                }
                report.reservations_reclaimed = bump(report.reservations_reclaimed);
                proof {
                    lemma_one_more_reclaimed(t0, start, lv, run, held, Reclaiming::Removed, steady);
                    told = held.push(Reclaiming::Removed);
                    assert(told.drop_last() =~= held);
                    let step = StepView {
                        from: Some(from.deep_view()),
                        to: Some(d),
                        error: None,
                    };
                    lemma_one_more_step(
                        j0,
                        j1,
                        *journal,
                        JournalOp::Reclaim,
                        reclaim_steps(lv, held),
                        step,
                    );
                }
            },
            Err(e) => {
                match close_step(
                    journal,
                    seq,
                    JournalOp::Reclaim,
                    Some(from),
                    Some(to),
                    Some(&e),
                    Ghost(start),
                ) {
                    Ok(()) => {},
                    Err(fatal) => {
                        return Err(fatal);
                    },
                }
                let message = "reclaim ".to_string().concat(&to.to_text()).concat(
                    " failed: ",
                ).concat(&e.message);
                let ghost notes = report.diagnostics.deep_view();
                push_note(report, Diagnostic::warning("exec", message));
                proof {
                    lemma_notes_chain(d0, notes, *report);
                    lemma_one_more_reclaimed(
                        t0,
                        start,
                        lv,
                        run,
                        held,
                        Reclaiming::Refused(e.deep_view()),
                        steady,
                    );
                    told = held.push(Reclaiming::Refused(e.deep_view()));
                    assert(told.drop_last() =~= held);
                    let step = StepView {
                        from: Some(from.deep_view()),
                        to: Some(d),
                        error: Some(e.message@),
                    };
                    lemma_one_more_step(
                        j0,
                        j1,
                        *journal,
                        JournalOp::Reclaim,
                        reclaim_steps(lv, held),
                        step,
                    );
                    assert(report.diagnostics.deep_view() =~= d0 + reclaim_notes(lv, told));
                }
            },
        }
    }
    Ok(())
}

/// Whether something is the destination of a move under a root that has no
/// outcome, has not been reclaimed and whose source is there.
pub open spec fn is_reservation(
    t: Tree,
    entries: Seq<RecordView>,
    root: PathView,
    q: PathView,
) -> bool {
    exists|i: int|
        0 <= i < entries.len() && #[trigger] is_unmatched(entries, entries[i], Some(root))
            && !is_reclaimed(entries, entries[i]) && entries[i].op == JournalOp::Move
            && entries[i].to == Some(q) && (entries[i].from matches Some(f) && t.dom().contains(f))
}

/// Whether nothing is asked for that changes anything but the removal of
/// reservations under a root.
pub open spec fn takes_reservations(
    h0: Seq<Call>,
    h1: Seq<Call>,
    t: Tree,
    entries: Seq<RecordView>,
    root: PathView,
) -> bool {
    &&& goes_on(h0, h1)
    &&& forall|k: int|
        h0.len() <= k < h1.len() ==> asks(#[trigger] h1[k]) || (h1[k] matches Call::Remove {
            path,
            ..
        } && is_reservation(t, entries, root, path))
}

/// What was found out about an intent without an outcome: it is not of a move
/// or has been reclaimed before, its source is gone, nothing stands at its
/// destination, something does and is told of only, it has been deleted, or it
/// could not be.
#[verifier::ext_equal]
pub enum Collecting {
    Passed,
    SourceGone,
    Vacant,
    Listed,
    Deleted,
    Refused(IoErrorView),
}

/// Whether a record is of a move.
pub open spec fn is_whole_move(e: RecordView) -> bool {
    e.op == JournalOp::Move && e.from is Some && e.to is Some
}

/// What is said of an intent whose source is gone.
pub open spec fn gone_note(e: RecordView) -> DiagnosticView {
    note(
        Severity::Warning,
        "gc"@,
        "unmatched intent seq="@ + text::decimal(e.seq as nat) + " dest="@ + e.to->0.text()
            + " but source missing; not deleting"@,
    )
}

/// What is said of a leftover whose source is intact.
pub open spec fn found_note(to: PathView) -> DiagnosticView {
    note(
        Severity::Info,
        "gc"@,
        "reservation leftover: "@ + to.text() + " (source intact)"@,
    )
}

/// What is said of a leftover that could not be deleted.
pub open spec fn stuck_note(to: PathView, e: IoErrorView) -> DiagnosticView {
    note(Severity::Warning, "gc"@, "could not delete "@ + to.text() + ": "@ + e.message)
}

/// What is said of intents without an outcome.
pub open spec fn gc_notes(list: Seq<RecordView>, told: Seq<Collecting>) -> Seq<DiagnosticView>
    decreases told.len(),
{
    if told.len() == 0 {
        Seq::empty()
    } else {
        let rest = gc_notes(list, told.drop_last());
        let e = list[told.len() - 1];
        match told.last() {
            Collecting::Passed | Collecting::Vacant => rest,
            Collecting::SourceGone => rest.push(gone_note(e)),
            Collecting::Listed | Collecting::Deleted => rest.push(found_note(e.to->0)),
            Collecting::Refused(x) => rest.push(found_note(e.to->0)).push(
                stuck_note(e.to->0, x),
            ),
        }
    }
}

/// How many leftovers have been deleted.
pub open spec fn gc_count(told: Seq<Collecting>) -> nat
    decreases told.len(),
{
    if told.len() == 0 {
        0
    } else {
        gc_count(told.drop_last()) + if told.last() is Deleted {
            1nat
        } else {
            0nat
        }
    }
}

/// How many leftovers it was tried to delete.
pub open spec fn gc_tries(told: Seq<Collecting>) -> nat
    decreases told.len(),
{
    if told.len() == 0 {
        0
    } else {
        gc_tries(told.drop_last()) + if told.last() is Deleted || told.last() is Refused {
            1nat
        } else {
            0nat
        }
    }
}

/// A record of an attempt to delete what an intent has left over. It belongs to
/// the run of that intent.
pub open spec fn gc_record(
    e: RecordView,
    seq: u64,
    phase: JournalPhase,
    status: Option<Seq<char>>,
    message: Option<Seq<char>>,
) -> RecordView {
    RecordView {
        run_id: e.run_id,
        root: e.root,
        config_digest: e.config_digest,
        seq,
        phase,
        op: JournalOp::Reclaim,
        from: e.from,
        to: e.to,
        status,
        bytes: None,
        message,
    }
}

/// The records of attempts to delete, numbered from a number on.
pub open spec fn gc_records(list: Seq<RecordView>, told: Seq<Collecting>, next: u64) -> Seq<
    RecordView,
>
    decreases told.len(),
{
    if told.len() == 0 {
        Seq::empty()
    } else {
        let rest = gc_records(list, told.drop_last(), next);
        let e = list[told.len() - 1];
        let n = (next + gc_tries(told.drop_last())) as u64;
        match told.last() {
            Collecting::Deleted => rest.push(
                gc_record(e, n, JournalPhase::Intent, None, None),
            ).push(gc_record(e, n, JournalPhase::Outcome, Some("SUCCESS"@), None)),
            Collecting::Refused(x) => rest.push(
                gc_record(e, n, JournalPhase::Intent, None, None),
            ).push(gc_record(e, n, JournalPhase::Outcome, Some("FAIL"@), Some(x.message))),
            _ => rest,
        }
    }
}

/// What stands once the first so many intents have been looked at.
pub open spec fn gc_tree(t: Tree, list: Seq<RecordView>, told: Seq<Collecting>) -> Tree
    decreases told.len(),
{
    if told.len() == 0 {
        t
    } else {
        let rest = gc_tree(t, list, told.drop_last());
        if told.last() is Deleted {
            rest.remove(list[told.len() - 1].to->0)
        } else {
            rest
        }
    }
}

/// Whether what was found out about an intent accords with the records and with
/// what stands where: what is not of a move or has been reclaimed is passed
/// over, and something is found, told of or deleted only where the source and
/// the destination are there. Nothing is deleted without `yes`, and nothing is
/// left to be told of with it. On a steady file system what is not found is not
/// there, and nothing but a directory resists.
pub open spec fn gc_step(
    t: Tree,
    entries: Seq<RecordView>,
    e: RecordView,
    c: Collecting,
    yes: bool,
    steady: bool,
) -> bool {
    let source = e.from is Some && t.dom().contains(e.from->0);
    let dest = e.to is Some && t.dom().contains(e.to->0);
    &&& (c is Passed) == (!is_whole_move(e) || is_reclaimed(entries, e))
    &&& c is Listed ==> !yes
    &&& c is Deleted || c is Refused ==> yes
    &&& c is Vacant || c is Listed || c is Deleted || c is Refused ==> source
    &&& c is Listed || c is Deleted || c is Refused ==> dest
    &&& c is Deleted ==> !is_dir(t, e.to->0)
    &&& steady && c is SourceGone ==> !source
    &&& steady && c is Vacant ==> !dest
    &&& steady && c is Refused ==> is_dir(t, e.to->0)
}

/// Whether what was found out about intents accords with the records and with
/// what stood where at the time.
pub open spec fn gc_accords(
    t: Tree,
    entries: Seq<RecordView>,
    list: Seq<RecordView>,
    told: Seq<Collecting>,
    yes: bool,
    steady: bool,
) -> bool {
    &&& told.len() <= list.len()
    &&& forall|k: int|
        0 <= k < told.len() ==> gc_step(
            gc_tree(t, list, told.take(k)),
            entries,
            list[k],
            #[trigger] told[k],
            yes,
            steady,
        )
}

/// What comes of looking through intents without an outcome, given what was
/// found out about them: what is counted and said of them, and how attempts to
/// delete are journaled. Where the journal could not be written at one of them
/// the rest is not looked at.
pub open spec fn gc_told<S: JournalStore>(
    t0: Tree,
    t1: Tree,
    steady: bool,
    j0: Journal<S>,
    j1: Journal<S>,
    list: Seq<RecordView>,
    yes: bool,
    r: RunReport,
    told: Seq<Collecting>,
) -> bool {
    &&& gc_accords(t0, j0.records(), list, told, yes, steady)
    &&& t1 == gc_tree(t0, list, told)
    &&& r.reservations_reclaimed == counted_up(0, gc_count(told))
    &&& match r.fatal {
        None => {
            &&& told.len() == list.len()
            &&& r.diagnostics.deep_view() == gc_notes(list, told)
            &&& j0.is_reliable() ==> j1.records() == j0.records() + gc_records(
                list,
                told,
                j0.next(),
            )
        },
        Some(_) => {
            &&& told.len() < list.len()
            &&& r.diagnostics.deep_view() == gc_notes(list, told).push(
                found_note(list[told.len() as int].to->0),
            )
        },
    }
}

/// List the reservations under `root` without an outcome. With `yes`, delete
/// those of which the journal shows that a move made them, and only where the
/// source still exists. What has been reclaimed once is not the move's any more:
/// whatever has come to stand there since then is left alone.
pub fn gc<F: FileSystem, S: JournalStore>(
    fs: &mut F,
    root: &FilePath,
    opts: &GcOptions,
    journal: &mut Journal<S>,
) -> (r: RunReport)
    ensures
        old(fs).is_steady() ==> final(fs).is_steady(),
        shrunk(old(fs).tree(), final(fs).tree()),
        !opts.yes ==> final(fs).tree() == old(fs).tree() && final(journal).records() == old(
            journal,
        ).records() && r.fatal is None,
        // Without `yes` no call is made that changes anything, and with it
        // none but those that remove reservations.
        !opts.yes ==> only_asks(old(fs).history(), final(fs).history()),
        takes_reservations(
            old(fs).history(),
            final(fs).history(),
            old(fs).tree(),
            old(journal).records(),
            root.deep_view(),
        ),
        forall|q: PathView| #[trigger]
            old(fs).tree().dom().contains(q) && !final(fs).tree().dom().contains(q) ==> !is_dir(
                old(fs).tree(),
                q,
            ) && is_reservation(old(fs).tree(), old(journal).records(), root.deep_view(), q),
        exists|lost: Seq<PathView>| #[trigger]
            are_lost(old(fs).tree(), final(fs).tree(), lost) && r.reservations_reclaimed
                == counted_up(0, lost.len()),
        // Every intent without an outcome is told of as it was found.
        exists|told: Seq<Collecting>| #[trigger]
            gc_told(
                old(fs).tree(),
                final(fs).tree(),
                old(fs).is_steady(),
                *old(journal),
                *final(journal),
                unmatched(old(journal).records(), Some(root.deep_view())),
                opts.yes,
                r,
                told,
            ),
        old(journal).records().is_prefix_of(final(journal).records()),
        final(journal).same_store(old(journal)),
        final(journal).plans() == old(journal).plans(),
        r.fatal matches Some(f) ==> unwritable(f, *old(journal), *final(journal)),
        r.run_id == RunId(0),
        r.mode == RunMode::Apply,
        r.kind == MediaKind::Movies,
        r.root.deep_view() == root.deep_view(),
        r.counts == Tally::zero(),
        r.pending == Tally::zero(),
        r.dirs_removed == 0,
        r.dirs_not_removable@.len() == 0,
        !r.cancelled,
        r.duration_ms == 0,
{
    let ghost h0 = fs.history();
    let ghost t0 = fs.tree();
    let ghost j0 = *journal;
    let ghost start = journal.records();
    let ghost rv = root.deep_view();
    let ghost mut lost: Seq<PathView> = Seq::empty();
    let ghost mut told: Seq<Collecting> = Seq::empty();
    let mut report = RunReport::new(
        RunId::nil(),
        RunMode::Apply,
        MediaKind::Movies,
        root.duplicate(),
    );
    let ghost steady = fs.is_steady();
    let list = journal.unmatched_intents(Some(root));
    let settled = journal.settled_among(&list);
    let ghost lv = said(list.deep_view());
    proof {
        assert(start =~= start.subrange(0, start.len() as int));
        assert(are_lost(t0, t0, lost));
        assert(report.diagnostics.deep_view() =~= Seq::empty());
        assert(start =~= start + gc_records(lv, told, j0.next()));
    }
    let mut i: usize = 0;
    while i < list.len()
        invariant_except_break
            report.fatal is None,
            told.len() == i,
            report.diagnostics.deep_view() == gc_notes(lv, told),
            j0.is_reliable() ==> journal.records() == start + gc_records(lv, told, j0.next())
                && journal.next() == j0.next() + gc_tries(told),
        invariant
            steady == old(fs).is_steady(),
            steady ==> fs.is_steady(),
            i <= list@.len(),
            settled@.len() == list@.len(),
            forall|k: int|
                0 <= k < settled@.len() ==> #[trigger] settled@[k] == is_reclaimed(
                    start,
                    list@[k].record(),
                ),
            fs.tree() == gc_tree(t0, lv, told),
            lv == said(list.deep_view()),
            lv == unmatched(start, Some(rv)),
            start == j0.records(),
            rv == root.deep_view(),
            t0 == old(fs).tree(),
            j0 == *old(journal),
            h0 == old(fs).history(),
            takes_reservations(h0, fs.history(), t0, start, rv),
            !opts.yes ==> only_asks(h0, fs.history()),
            shrunk(t0, fs.tree()),
            gc_accords(t0, start, lv, told, opts.yes, steady),
            !opts.yes ==> fs.tree() == t0 && journal.records() == start && report.fatal is None,
            forall|q: PathView| #[trigger]
                t0.dom().contains(q) && !fs.tree().dom().contains(q) ==> !is_dir(t0, q)
                    && is_reservation(t0, start, rv, q),
            are_lost(t0, fs.tree(), lost),
            lost.len() == gc_count(told),
            report.reservations_reclaimed == counted_up(0, lost.len()),
            start.is_prefix_of(journal.records()),
            journal.same_store(&j0),
            journal.plans() == j0.plans(),
            report.run_id == RunId(0),
            report.mode == RunMode::Apply,
            report.kind == MediaKind::Movies,
            report.root.deep_view() == rv,
            report.counts == Tally::zero(),
            report.pending == Tally::zero(),
            report.dirs_removed == 0,
            report.dirs_not_removable@.len() == 0,
            !report.cancelled,
            report.duration_ms == 0,
        ensures
            match report.fatal {
                None => {
                    &&& told.len() == lv.len()
                    &&& report.diagnostics.deep_view() == gc_notes(lv, told)
                    &&& j0.is_reliable() ==> journal.records() == start + gc_records(
                        lv,
                        told,
                        j0.next(),
                    )
                },
                Some(f) => {
                    &&& told.len() < lv.len()
                    &&& report.diagnostics.deep_view() == gc_notes(lv, told).push(
                        found_note(lv[told.len() as int].to->0),
                    )
                    &&& unwritable(f, j0, *journal)
                },
            },
        decreases list@.len() - i,
    {
        let intent = &list[i];
        let ghost held = told;
        let ghost e = intent.record();
        i = i + 1;
        proof {
            assert(lv[i - 1] == e);
            assert(settled@[i - 1] == is_reclaimed(start, e));
        }
        let paths = match (&intent.from, &intent.to) {
            (Some(from), Some(to)) => if intent.op == JournalOp::Move && !settled[i - 1] {
                Some((from, to))
            } else {
                None
            },
            _ => None,
        };
        let (from, to) = match paths {
            Some(p) => p,
            None => {
                proof {
                    told = held.push(Collecting::Passed);
                    lemma_one_more_told(t0, start, lv, held, told.last(), opts.yes, steady);
                    assert(told.drop_last() =~= held);
                }
                continue;
            },
        };
        let source_there = is_there(fs, from);
        let dest_there = source_there && is_there(fs, to);
        match triage(source_there, dest_there, opts.yes) {
            Leftover::SourceMissing => {
                let message = "unmatched intent seq=".to_string().concat(
                    &text::decimal_text(intent.seq),
                ).concat(" dest=").concat(&to.to_text()).concat(
                    " but source missing; not deleting",
                );
                push_note(&mut report, Diagnostic::warning("gc", message));
                proof {
                    told = held.push(Collecting::SourceGone);
                    lemma_one_more_told(t0, start, lv, held, told.last(), opts.yes, steady);
                    assert(told.drop_last() =~= held);
                }
            },
            Leftover::Nothing => {
                proof {
                    told = held.push(Collecting::Vacant);
                    lemma_one_more_told(t0, start, lv, held, told.last(), opts.yes, steady);
                    assert(told.drop_last() =~= held);
                }
            },
            Leftover::Listed => {
                push_note(&mut report, leftover_note(to));
                proof {
                    told = held.push(Collecting::Listed);
                    lemma_one_more_told(t0, start, lv, held, told.last(), opts.yes, steady);
                    assert(told.drop_last() =~= held);
                }
            },
            Leftover::Deletable => {
                push_note(&mut report, leftover_note(to));
                let ghost d = to.deep_view();
                proof {
                    lemma_unmatched(start, start.len() as int, Some(rv), i - 1);
                    let k = choose|k: int|
                        0 <= k < start.len() && #[trigger] start[k] == unmatched(
                            start,
                            Some(rv),
                        )[i - 1];
                    assert(is_unmatched(start, start[k], Some(rv)));
                    assert(t0.dom().contains(from.deep_view()));
                    assert(is_reservation(t0, start, rv, d));
                }
                journal.bind(
                    intent.run_id,
                    intent.root.duplicate(),
                    intent.config_digest.clone(),
                );
                let seq: u64 = match journal.write_intent(
                    JournalOp::Reclaim,
                    Some(from),
                    Some(to),
                ) {
                    Ok(s) => s,
                    Err(fatal) => {
                        report.fatal = Some(fatal);
                        break;
                    },
                };
                proof {
                    assert(start =~= journal.records().subrange(0, start.len() as int));
                }
                let ghost t1 = fs.tree();
                match fs.remove_file(to) {
                    Ok(()) => {
                        proof {
                            lemma_one_more_is_lost(t0, t1, lost, d);
                            lost = lost.push(d);
                        }
                        report.reservations_reclaimed = bump(report.reservations_reclaimed);
                        let _ = journal.write_outcome(
                            seq,
                            JournalOp::Reclaim,
                            Some(from),
                            Some(to),
                            "SUCCESS",
                            None,
                            None,
                        );
                        proof {
                            told = held.push(Collecting::Deleted);
                        }
                    },
                    Err(x) => {
                        let message = "could not delete ".to_string().concat(&to.to_text()).concat(
                            ": ",
                        ).concat(&x.message);
                        push_note(&mut report, Diagnostic::warning("gc", message));
                        let _ = journal.write_outcome(
                            seq,
                            JournalOp::Reclaim,
                            Some(from),
                            Some(to),
                            "FAIL",
                            None,
                            Some(&x.message),
                        );
                        proof {
                            told = held.push(Collecting::Refused(x.deep_view()));
                        }
                    },
                }
                proof {
                    lemma_one_more_told(t0, start, lv, held, told.last(), opts.yes, steady);
                    assert(told.drop_last() =~= held);
                    assert(start =~= journal.records().subrange(0, start.len() as int));
                    if j0.is_reliable() {
                        assert(journal.records() =~= start + gc_records(lv, told, j0.next()));
                    }
                }
            },
        }
        proof {
            assert(report.diagnostics.deep_view() =~= gc_notes(lv, told));
        }
    }
    proof {
        assert(gc_told(t0, fs.tree(), steady, j0, *journal, lv, opts.yes, report, told));
    }
    report
}

/// What accords goes on to accord.
proof fn lemma_one_more_told(
    t: Tree,
    entries: Seq<RecordView>,
    list: Seq<RecordView>,
    told: Seq<Collecting>,
    c: Collecting,
    yes: bool,
    steady: bool,
)
    requires
        gc_accords(t, entries, list, told, yes, steady),
        told.len() < list.len(),
        gc_step(gc_tree(t, list, told), entries, list[told.len() as int], c, yes, steady),
    ensures
        gc_accords(t, entries, list, told.push(c), yes, steady),
{
    let more = told.push(c);
    assert forall|k: int| 0 <= k < more.len() implies gc_step(
        gc_tree(t, list, more.take(k)),
        entries,
        list[k],
        #[trigger] more[k],
        yes,
        steady,
    ) by {
        if k < told.len() {
            assert(told[k] == more[k]);
            assert(more.take(k) =~= told.take(k));
        } else {
            assert(more.take(k) =~= told);
        }
    }
}

/// What is said of a leftover whose source is intact.
fn leftover_note(to: &FilePath) -> (r: Diagnostic)
    ensures
        r.deep_view() == found_note(to.deep_view()),
{
    let message = "reservation leftover: ".to_string().concat(&to.to_text()).concat(
        " (source intact)",
    );
    Diagnostic::info("gc", message)
}

} // verus!
