//! Directories: creating those that are needed, renaming those whose case or
//! normalisation is off, removing those that have been vacated.

use crate::domain::duplicate::Duplicate;
use crate::domain::error::{note, Diagnostic, DiagnosticView, FatalReason, RunReport, Severity};
use crate::domain::fs::keep::{
    keeps_files, lemma_adding_dirs_is_transitive, lemma_keeping_is_transitive, lemma_rebase_starts,
    lemma_relocation_keeps_files, lemma_staying_keeps_files, others_stay,
};
use crate::domain::fs::{
    is_dir, is_file, lemma_obstruction_stays, obstructed, only_adds_dirs, relocated, vacant,
    FileSystem, IoError, IoErrorView, Tree,
};
use crate::domain::path::{FilePath, PathView};
use crate::domain::plan::{DirRenameView, Plan};
use crate::domain::run_id::{hex, RunId};
use crate::engine::exec::moves::{create_dir_retry, has_begun, leaves_nothing_open, unwritable};
use crate::engine::exec::{broken_off, heed, ExecOptions};
use crate::engine::journal::{
    is_open, lemma_record_opens_nothing, nothing_open, Journal, JournalOp, JournalStore, RecordView,
};
use crate::engine::order::{is_order, order_by};
use crate::text;
use vstd::prelude::*;

verus! {

/// Whether a report differs from an earlier one in nothing but further
/// diagnostics and in having been cancelled.
pub open spec fn only_notes(a: RunReport, b: RunReport) -> bool {
    &&& b.run_id == a.run_id
    &&& b.mode == a.mode
    &&& b.kind == a.kind
    &&& b.root == a.root
    &&& b.counts == a.counts
    &&& b.pending == a.pending
    &&& b.dirs_removed == a.dirs_removed
    &&& b.dirs_not_removable == a.dirs_not_removable
    &&& b.reservations_reclaimed == a.reservations_reclaimed
    &&& b.fatal == a.fatal
    &&& b.duration_ms == a.duration_ms
    &&& a.cancelled ==> b.cancelled
    &&& a.diagnostics.deep_view().is_prefix_of(b.diagnostics.deep_view())
}

/// A record that is not of a move leaves nothing open.
proof fn lemma_other_record(a: Seq<RecordView>, b: Seq<RecordView>, e: RecordView)
    requires
        leaves_nothing_open(a, b),
        e.op != JournalOp::Move,
    ensures
        leaves_nothing_open(a, b.push(e)),
{
    let c = b.push(e);
    assert(a =~= c.subrange(0, a.len() as int));
    assert forall|run: RunId, root: PathView|
        nothing_open(a, run, root) implies #[trigger] nothing_open(c, run, root) by {
        assert(nothing_open(b, run, root));
        assert forall|i: int| !is_open(c, i, run, root) by {
            if is_open(c, i, run, root) {
                lemma_record_opens_nothing(b, e, i, run, root);
            }
        }
    }
}

/// A step that is not a move, as it is journaled: what it was done to, and why
/// it failed where it did.
#[verifier::ext_equal]
pub struct StepView {
    pub from: Option<PathView>,
    pub to: Option<PathView>,
    pub error: Option<Seq<char>>,
}

/// The records of steps: the intent and the outcome of each, numbered from the
/// next number of a journal on.
pub open spec fn step_records<S: JournalStore>(
    j: Journal<S>,
    op: JournalOp,
    steps: Seq<StepView>,
) -> Seq<RecordView>
    decreases steps.len(),
{
    if steps.len() == 0 {
        Seq::empty()
    } else {
        let s = steps.last();
        let n = (j.next() + steps.len() - 1) as u64;
        let status = if s.error is None {
            "SUCCESS"@
        } else {
            "FAIL"@
        };
        step_records(j, op, steps.drop_last()).push(
            RecordView { seq: n, ..j.intent(op, s.from, s.to) },
        ).push(j.outcome(n, op, s.from, s.to, status, None, s.error))
    }
}

/// Whether a journal differs from an earlier one by the records of steps.
pub open spec fn took_steps<S: JournalStore>(
    j0: Journal<S>,
    j1: Journal<S>,
    op: JournalOp,
    steps: Seq<StepView>,
) -> bool {
    &&& j1.same_binding(&j0)
    &&& j1.records() == j0.records() + step_records(j0, op, steps)
    &&& j1.next() == j0.next() + steps.len()
}

/// A step with its outcome is one more step.
pub proof fn lemma_one_more_step<S: JournalStore>(
    j0: Journal<S>,
    j1: Journal<S>,
    j2: Journal<S>,
    op: JournalOp,
    steps: Seq<StepView>,
    step: StepView,
)
    requires
        took_steps(j0, j1, op, steps),
        j2.same_binding(&j1),
        j2.next() == j1.next() + 1,
        j2.records() == j1.records().push(j1.intent(op, step.from, step.to)).push(
            j1.outcome(
                j1.next(),
                op,
                step.from,
                step.to,
                if step.error is None {
                    "SUCCESS"@
                } else {
                    "FAIL"@
                },
                None,
                step.error,
            ),
        ),
    ensures
        took_steps(j0, j2, op, steps.push(step)),
{
    let more = steps.push(step);
    assert(more.drop_last() =~= steps);
    assert(j2.records() =~= j0.records() + step_records(j0, op, more));
}

/// Journals the intent of a step that is not a move.
pub(crate) fn open_step<S: JournalStore>(
    journal: &mut Journal<S>,
    op: JournalOp,
    from: Option<&FilePath>,
    to: Option<&FilePath>,
    start: Ghost<Seq<RecordView>>,
) -> (r: Result<u64, FatalReason>)
    requires
        op != JournalOp::Move,
        leaves_nothing_open(start@, old(journal).records()),
    ensures
        final(journal).same_binding(old(journal)),
        leaves_nothing_open(start@, final(journal).records()),
        r matches Err(f) ==> unwritable(f, *old(journal), *final(journal)),
        r is Err ==> final(journal).records() == old(journal).records(),
        r matches Ok(seq) ==> seq == old(journal).next() && final(journal).next() == seq + 1
            && final(journal).records() == old(journal).records().push(
            old(journal).intent(op, from.deep_view(), to.deep_view()),
        ),
{
    let ghost e = journal.intent(op, from.deep_view(), to.deep_view());
    proof {
        lemma_other_record(start@, journal.records(), e);
    }
    journal.write_intent(op, from, to)
}

/// Journals the outcome of a step that is not a move.
pub(crate) fn close_step<S: JournalStore>(
    journal: &mut Journal<S>,
    seq: u64,
    op: JournalOp,
    from: Option<&FilePath>,
    to: Option<&FilePath>,
    error: Option<&IoError>,
    start: Ghost<Seq<RecordView>>,
) -> (r: Result<(), FatalReason>)
    requires
        op != JournalOp::Move,
        leaves_nothing_open(start@, old(journal).records()),
    ensures
        final(journal).same_binding(old(journal)),
        leaves_nothing_open(start@, final(journal).records()),
        final(journal).next() == old(journal).next(),
        r matches Err(f) ==> unwritable(f, *old(journal), *final(journal)),
        r is Err ==> final(journal).records() == old(journal).records(),
        r is Ok ==> final(journal).records() == old(journal).records().push(
            match error {
                None => old(journal).outcome(
                    seq,
                    op,
                    from.deep_view(),
                    to.deep_view(),
                    "SUCCESS"@,
                    None,
                    None,
                ),
                Some(e) => old(journal).outcome(
                    seq,
                    op,
                    from.deep_view(),
                    to.deep_view(),
                    "FAIL"@,
                    None,
                    Some(e.message@),
                ),
            },
        ),
{
    let ghost f = from.deep_view();
    let ghost t = to.deep_view();
    match error {
        None => {
            let ghost o = journal.outcome(seq, op, f, t, "SUCCESS"@, None, None);
            proof {
                lemma_other_record(start@, journal.records(), o);
            }
            journal.write_outcome(seq, op, from, to, "SUCCESS", None, None)
        },
        Some(e) => {
            let ghost o = journal.outcome(seq, op, f, t, "FAIL"@, None, Some(e.message@));
            proof {
                lemma_other_record(start@, journal.records(), o);
            }
            journal.write_outcome(seq, op, from, to, "FAIL", None, Some(&e.message))
        },
    }
}

/// Adds a diagnostic to a report.
pub fn push_note(report: &mut RunReport, note: Diagnostic)
    ensures
        final(report).diagnostics.deep_view() == old(report).diagnostics.deep_view().push(
            note.deep_view(),
        ),
        only_notes(*old(report), *final(report)),
        final(report).cancelled == old(report).cancelled,
{
    let ghost before = report.diagnostics.deep_view();
    report.diagnostics.push(note);
    proof {
        let after = report.diagnostics.deep_view();
        assert(after =~= before.push(note.deep_view()));
        assert(before =~= after.subrange(0, before.len() as int));
    }
}

/// What is said of a directory that could not be created.
pub open spec fn create_note(dir: PathView, e: IoErrorView) -> DiagnosticView {
    DiagnosticView {
        severity: Severity::Warning,
        item: None,
        stage: "exec"@,
        message: "create_dir "@ + dir.text() + " failed: "@ + e.message,
        io_kind: Some(e.kind.label()),
    }
}

/// Whether it is said of a directory that it could not be created.
pub open spec fn creation_failed(notes: Seq<DiagnosticView>, dir: PathView) -> bool {
    exists|e: IoErrorView| #[trigger] notes.contains(create_note(dir, e))
}

/// A number, or the greatest that there is room for.
pub open spec fn capped(n: nat) -> u64 {
    if n <= u64::MAX {
        n as u64
    } else {
        u64::MAX
    }
}

/// The key that orders directories from the shallowest to the deepest.
pub open spec fn shallow_first(p: PathView) -> (u64, u64) {
    (capped(p.depth()), capped(text::utf8_len(p.text())))
}

/// Orders directories from the shallowest to the deepest.
fn shallow_keys(dirs: &Vec<FilePath>) -> (r: Vec<(u64, u64)>)
    ensures
        r@.len() == dirs@.len(),
        forall|i: int|
            0 <= i < r@.len() ==> #[trigger] r@[i] == shallow_first(dirs@[i].deep_view()),
{
    let mut out: Vec<(u64, u64)> = Vec::new();
    let mut i: usize = 0;
    while i < dirs.len()
        invariant
            i <= dirs@.len(),
            out@.len() == i,
            forall|k: int|
                0 <= k < i ==> #[trigger] out@[k] == shallow_first(dirs@[k].deep_view()),
        decreases dirs@.len() - i,
    {
        let size: usize = text::byte_len(&dirs[i].to_text());
        out.push((dirs[i].depth(), size as u64));
        i = i + 1;
    }
    out
}

/// Whether every directory of a list is there, or it is said that it could not
/// be created.
pub open spec fn all_created(dirs: Seq<PathView>, t: Tree, notes: Seq<DiagnosticView>) -> bool {
    forall|i: int|
        0 <= i < dirs.len() ==> t.dom().contains(#[trigger] dirs[i]) && !is_file(t, dirs[i])
            || creation_failed(notes, dirs[i])
}

/// What was found out about a directory that is needed: it is there, it has
/// been created, or it could not be created.
#[verifier::ext_equal]
pub enum Found {
    There,
    Created,
    Refused(IoErrorView),
}

/// What is said of directories that could not be created.
pub open spec fn create_notes(dirs: Seq<PathView>, found: Seq<Found>) -> Seq<DiagnosticView>
    decreases found.len(),
{
    if found.len() == 0 {
        Seq::empty()
    } else {
        let rest = create_notes(dirs, found.drop_last());
        match found.last() {
            Found::Refused(e) => rest.push(create_note(dirs[found.len() - 1], e)),
            _ => rest,
        }
    }
}

/// The steps by which directories were created.
pub open spec fn create_steps(dirs: Seq<PathView>, found: Seq<Found>) -> Seq<StepView>
    decreases found.len(),
{
    if found.len() == 0 {
        Seq::empty()
    } else {
        let rest = create_steps(dirs, found.drop_last());
        let to = Some(dirs[found.len() - 1]);
        match found.last() {
            Found::There => rest,
            Found::Created => rest.push(StepView { from: None, to, error: None }),
            Found::Refused(e) => rest.push(StepView { from: None, to, error: Some(e.message) }),
        }
    }
}

/// The keys that order directories from the shallowest to the deepest.
pub open spec fn create_keys(dirs: Seq<PathView>) -> Seq<(u64, u64)> {
    Seq::new(dirs.len(), |i: int| shallow_first(dirs[i]))
}

/// Whether what was found out about directories that are needed accords with
/// what stands where. On a steady file system none is created that was there,
/// and one is refused only where something that is no directory stands at it or
/// on the way to it.
pub open spec fn creation_accords(
    t0: Tree,
    t1: Tree,
    dirs: Seq<PathView>,
    found: Seq<Found>,
    steady: bool,
) -> bool {
    forall|k: int|
        0 <= k < found.len() ==> match #[trigger] found[k] {
            Found::There => t1.dom().contains(dirs[k]) && !is_file(t1, dirs[k]),
            Found::Created => {
                &&& t1.dom().contains(dirs[k])
                &&& !is_file(t1, dirs[k])
                &&& steady ==> !is_dir(t0, dirs[k])
            },
            Found::Refused(_) => steady ==> obstructed(t0, dirs[k]),
        }
}

/// What accords goes on to accord where nothing but directories is added.
proof fn lemma_one_more_found(
    t0: Tree,
    t1: Tree,
    t2: Tree,
    dirs: Seq<PathView>,
    found: Seq<Found>,
    a: Found,
    steady: bool,
)
    requires
        creation_accords(t0, t1, dirs, found, steady),
        only_adds_dirs(t1, t2),
        match a {
            Found::There | Found::Created => {
                &&& t2.dom().contains(dirs[found.len() as int])
                &&& !is_file(t2, dirs[found.len() as int])
                &&& a is Created && steady ==> !is_dir(t0, dirs[found.len() as int])
            },
            Found::Refused(_) => steady ==> obstructed(t0, dirs[found.len() as int]),
        },
    ensures
        creation_accords(t0, t2, dirs, found.push(a), steady),
{
    let more = found.push(a);
    assert forall|k: int| 0 <= k < more.len() implies match #[trigger] more[k] {
        Found::There => t2.dom().contains(dirs[k]) && !is_file(t2, dirs[k]),
        Found::Created => {
            &&& t2.dom().contains(dirs[k])
            &&& !is_file(t2, dirs[k])
            &&& steady ==> !is_dir(t0, dirs[k])
        },
        Found::Refused(_) => steady ==> obstructed(t0, dirs[k]),
    } by {
        if k < found.len() {
            assert(found[k] == more[k]);
        }
    }
}

/// What comes of creating the directories that a plan needs, given what was
/// found out about the first so many of them: what is said of them, and how
/// they are journaled.
pub open spec fn dirs_created<S: JournalStore>(
    j0: Journal<S>,
    j1: Journal<S>,
    before: Seq<DiagnosticView>,
    after: Seq<DiagnosticView>,
    dirs: Seq<PathView>,
    order: Seq<usize>,
    found: Seq<Found>,
) -> bool {
    let todo = in_order(dirs, order);
    &&& is_order(create_keys(dirs), order)
    &&& found.len() <= dirs.len()
    &&& after == before + create_notes(todo, found)
    &&& took_steps(j0, j1, JournalOp::DirCreate, create_steps(todo, found))
}

/// Creates the directories that a plan needs, shallowest first. One that is
/// there already is left alone; one that cannot be created is reported.
pub fn create_directories<F: FileSystem, S: JournalStore>(
    fs: &mut F,
    plan: &Plan,
    opts: &ExecOptions,
    journal: &mut Journal<S>,
    report: &mut RunReport,
) -> (r: Result<(), FatalReason>)
    ensures
        old(fs).is_steady() ==> final(fs).is_steady(),
        only_adds_dirs(old(fs).tree(), final(fs).tree()),
        final(journal).same_binding(old(journal)),
        leaves_nothing_open(old(journal).records(), final(journal).records()),
        only_notes(*old(report), *final(report)),
        r matches Err(f) ==> unwritable(f, *old(journal), *final(journal)),
        r is Ok && !final(report).cancelled ==> all_created(
            plan.dir_creates.deep_view(),
            final(fs).tree(),
            final(report).diagnostics.deep_view(),
        ),
        r is Ok ==> exists|order: Seq<usize>, found: Seq<Found>| #[trigger]
            dirs_created(
                *old(journal),
                *final(journal),
                old(report).diagnostics.deep_view(),
                final(report).diagnostics.deep_view(),
                plan.dir_creates.deep_view(),
                order,
                found,
            ) && creation_accords(
                old(fs).tree(),
                final(fs).tree(),
                in_order(plan.dir_creates.deep_view(), order),
                found,
                old(fs).is_steady(),
            ) && (!final(report).cancelled ==> found.len() == plan.dir_creates@.len()),
        // Once the run is cancelled, nothing is done, and the report says so.
        opts.cancel.is_spent() ==> {
            &&& r is Ok
            &&& final(fs).tree() == old(fs).tree()
            &&& final(fs).history() == old(fs).history()
            &&& *final(journal) == *old(journal)
            &&& broken_off(*old(report), *final(report), plan.dir_creates@.len() > 0)
        },
        opts.cancel.is_idle() ==> final(report).cancelled == old(report).cancelled,
{
    let ghost h0 = fs.history();
    let ghost t0 = fs.tree();
    let ghost steady = fs.is_steady();
    let ghost j0 = *journal;
    let ghost r0 = *report;
    let ghost d0 = report.diagnostics.deep_view();
    let ghost start = journal.records();
    let ghost dirs = plan.dir_creates.deep_view();
    let keys = shallow_keys(&plan.dir_creates);
    let order = order_by(&keys);
    let ghost todo = in_order(dirs, order@);
    let ghost mut found: Seq<Found> = Seq::empty();
    let mut n: usize = 0;
    proof {
        assert(start =~= start.subrange(0, start.len() as int));
        assert(d0 =~= d0.subrange(0, d0.len() as int));
        assert(keys@ =~= create_keys(dirs));
        assert(d0 =~= d0 + create_notes(todo, found));
        assert(start =~= start + step_records(
            j0,
            JournalOp::DirCreate,
            create_steps(todo, found),
        ));
    }
    while n < order.len()
        invariant
            steady == old(fs).is_steady(),
            steady ==> fs.is_steady(),
            creation_accords(t0, fs.tree(), todo, found, steady),
            h0 == old(fs).history(),
            opts.cancel.is_spent() ==> n == 0 && fs.tree() == t0 && fs.history() == h0 && *journal
                == j0 && *report == r0,
            n <= order@.len(),
            is_order(keys@, order@),
            keys@ == create_keys(dirs),
            dirs == plan.dir_creates.deep_view(),
            todo == in_order(dirs, order@),
            start == j0.records(),
            d0 == r0.diagnostics.deep_view(),
            t0 == old(fs).tree(),
            j0 == *old(journal),
            r0 == *old(report),
            found.len() == n,
            dirs_created(
                j0,
                *journal,
                d0,
                report.diagnostics.deep_view(),
                dirs,
                order@,
                found,
            ),
            only_adds_dirs(t0, fs.tree()),
            leaves_nothing_open(start, journal.records()),
            only_notes(r0, *report),
            report.cancelled == r0.cancelled,
            forall|k: int|
                0 <= k < n ==> fs.tree().dom().contains(dirs[#[trigger] order@[k] as int])
                    && !is_file(fs.tree(), dirs[order@[k] as int]) || creation_failed(
                    report.diagnostics.deep_view(),
                    dirs[order@[k] as int],
                ),
        decreases order@.len() - n,
    {
        if heed(report, opts.cancel.is_cancelled()) {
            proof {
                assert(dirs_created(
                    j0,
                    *journal,
                    d0,
                    report.diagnostics.deep_view(),
                    dirs,
                    order@,
                    found,
                ));
            }
            return Ok(());
        }
        let at: usize = order[n];
        let dir = &plan.dir_creates[at];
        proof {
            assert(dirs[at as int] == dir.deep_view());
            assert(todo[n as int] == dir.deep_view());
        }
        let there = match fs.metadata(dir) {
            Ok(m) => m.is_dir,
            Err(_) => false,
        };
        let ghost held = found;
        if !there {
            let ghost j1 = *journal;
            let seq: u64 = match open_step(
                journal,
                JournalOp::DirCreate,
                None,
                Some(dir),
                Ghost(start),
            ) {
                Ok(s) => s,
                Err(fatal) => {
                    return Err(fatal);
                },
            };
            let ghost t1 = fs.tree();
            let ghost notes = report.diagnostics.deep_view();
            let made = create_dir_retry(fs, dir);
            proof {
                lemma_adding_dirs_is_transitive(t0, t1, fs.tree());
            }
            match made {
                Ok(()) => {
                    match close_step(
                        journal,
                        seq,
                        JournalOp::DirCreate,
                        None,
                        Some(dir),
                        None,
                        Ghost(start),
                    ) {
                        Ok(()) => {},
                        Err(fatal) => {
                            return Err(fatal);
                        },
                    }
                    proof {
                        lemma_one_more_found(
                            t0,
                            t1,
                            fs.tree(),
                            todo,
                            held,
                            Found::Created,
                            steady,
                        );
                        found = held.push(Found::Created);
                        let step = StepView { from: None, to: Some(dir.deep_view()), error: None };
                        lemma_one_more_step(
                            j0,
                            j1,
                            *journal,
                            JournalOp::DirCreate,
                            create_steps(todo, held),
                            step,
                        );
                    }
                },
                Err(e) => {
                    match close_step(
                        journal,
                        seq,
                        JournalOp::DirCreate,
                        None,
                        Some(dir),
                        Some(&e),
                        Ghost(start),
                    ) {
                        Ok(()) => {},
                        Err(fatal) => {
                            return Err(fatal);
                        },
                    }
                    let message = "create_dir ".to_string().concat(&dir.to_text()).concat(
                        " failed: ",
                    ).concat(&e.message);
                    let note = Diagnostic {
                        severity: Severity::Warning,
                        item: None,
                        stage: "exec".to_string(),
                        message,
                        io_kind: Some(e.kind.as_str().to_string()),
                    };
                    proof {
                        assert(note.deep_view() == create_note(dir.deep_view(), e.deep_view()));
                    }
                    push_note(report, note);
                    proof {
                        let after = report.diagnostics.deep_view();
                        assert(d0 =~= after.subrange(0, d0.len() as int));
                        assert(after[notes.len() as int] == note.deep_view());
                        assert(after.contains(create_note(dir.deep_view(), e.deep_view())));
                        assert(creation_failed(after, dir.deep_view()));
                        lemma_obstruction_stays(t0, t1, dir.deep_view());
                        lemma_one_more_found(
                            t0,
                            t1,
                            fs.tree(),
                            todo,
                            held,
                            Found::Refused(e.deep_view()),
                            steady,
                        );
                        found = held.push(Found::Refused(e.deep_view()));
                        let step = StepView {
                            from: None,
                            to: Some(dir.deep_view()),
                            error: Some(e.message@),
                        };
                        lemma_one_more_step(
                            j0,
                            j1,
                            *journal,
                            JournalOp::DirCreate,
                            create_steps(todo, held),
                            step,
                        );
                        assert(found.drop_last() =~= held);
                        assert(after =~= d0 + create_notes(todo, found));
                    }
                },
            }
            proof {
                let after = report.diagnostics.deep_view();
                assert forall|k: int| 0 <= k < n + 1 implies fs.tree().dom().contains(
                    dirs[#[trigger] order@[k] as int],
                ) && !is_file(fs.tree(), dirs[order@[k] as int]) || creation_failed(
                    after,
                    dirs[order@[k] as int],
                ) by {
                    let p = dirs[order@[k] as int];
                    if k == n {
                        assert(p == dir.deep_view());
                    } else if t1.dom().contains(p) && !is_file(t1, p) {
                        assert(fs.tree().dom().contains(p) && fs.tree()[p] == t1[p]);
                    } else {
                        assert(creation_failed(notes, p));
                        let e = choose|e: IoErrorView| #[trigger] notes.contains(create_note(p, e));
                        let i = choose|i: int| 0 <= i < notes.len() && notes[i] == create_note(p, e);
                        assert(after[i] == create_note(p, e));
                        assert(after.contains(create_note(p, e)));
                    }
                }
            }
        } else {
            proof {
                lemma_one_more_found(
                    t0,
                    fs.tree(),
                    fs.tree(),
                    todo,
                    held,
                    Found::There,
                    steady,
                );
                found = held.push(Found::There);
            }
        }
        proof {
            assert(found.drop_last() =~= held);
        }
        n = n + 1;
    }
    proof {
        assert forall|i: int| 0 <= i < dirs.len() implies fs.tree().dom().contains(
            #[trigger] dirs[i],
        ) && !is_file(fs.tree(), dirs[i]) || creation_failed(
            report.diagnostics.deep_view(),
            dirs[i],
        ) by {
            assert(order@.contains(i as usize));
            let k = choose|k: int| 0 <= k < order@.len() && order@[k] == i as usize;
            assert(dirs[order@[k] as int] == dirs[i]);
        }
    }
    Ok(())
}

/// The path that a directory is renamed to on the way.
pub open spec fn way_station(parent: PathView, id: RunId) -> PathView {
    parent.child(".mm-rename-"@ + hex(id.0 as nat, 32))
}

/// The path that a directory is renamed to on the way.
pub fn unique_temp_dir(parent: &FilePath, id: RunId) -> (r: FilePath)
    ensures
        r.deep_view() == way_station(parent.deep_view(), id),
{
    parent.child(&".mm-rename-".to_string().concat(&id.simple()))
}

/// The path above, or the empty one.
pub open spec fn parent_or_empty(p: PathView) -> PathView {
    match p.parent() {
        Some(d) => d,
        None => PathView::empty(),
    }
}

/// Whether a directory has got no further than the way.
pub open spec fn stuck_on_the_way(t0: Tree, t1: Tree, from: PathView) -> bool {
    exists|id: RunId| #[trigger]
        vacant(t0, way_station(parent_or_empty(from), id)) && t1 == relocated(
            t0,
            from,
            way_station(parent_or_empty(from), id),
        )
}

/// What was found out about a directory that is to be renamed: its name is
/// right already, it is missing, it has been renamed, it could not leave its
/// place, or it could not take the other.
#[verifier::ext_equal]
pub enum Renaming {
    Right,
    Missing,
    Done,
    Stays(IoErrorView),
    Refused(IoErrorView),
}

/// What comes of renaming a directory, given what was found out about it:
/// nothing has changed, or what stood at one path and under it stands at the
/// other, or, where it could not take the other, it may be stuck on the way. No
/// file is lost and everything else stays. What is not there is not renamed. On a
/// steady file system a directory
/// that is missing is not there, and one that could not take the other place is
/// back in its own.
pub open spec fn dir_step(
    t0: Tree,
    t1: Tree,
    r: DirRenameView,
    a: Renaming,
    steady: bool,
) -> bool {
    &&& keeps_files(t0, t1)
    &&& others_stay(t0, t1, r.from)
    &&& (a is Right) == (r.from.file_name() == r.to.file_name())
    &&& match a {
        Renaming::Done => t1 == relocated(t0, r.from, r.to),
        Renaming::Refused(_) => t1 == t0 || !steady && stuck_on_the_way(t0, t1, r.from),
        _ => t1 == t0,
    }
    &&& a is Done || a is Stays || a is Refused ==> t0.dom().contains(r.from)
    &&& steady && a is Missing ==> !t0.dom().contains(r.from)
}

/// What comes of renaming directories one after the other.
pub open spec fn dir_steps(
    t0: Tree,
    t1: Tree,
    rs: Seq<DirRenameView>,
    told: Seq<Renaming>,
    steady: bool,
) -> bool
    decreases told.len(),
{
    if told.len() == 0 {
        t1 == t0
    } else {
        exists|mid: Tree|
            dir_steps(t0, mid, rs, told.drop_last(), steady) && #[trigger] dir_step(
                mid,
                t1,
                rs[told.len() - 1],
                told.last(),
                steady,
            )
    }
}

/// What is said of a directory that is to be renamed.
pub open spec fn rename_note(r: DirRenameView, a: Renaming) -> Option<DiagnosticView> {
    match a {
        Renaming::Right | Renaming::Done => None,
        Renaming::Missing => Some(
            note(Severity::Warning, "exec"@, "dir rename source missing: "@ + r.from.text()),
        ),
        Renaming::Stays(e) => Some(
            note(
                Severity::Warning,
                "exec"@,
                "dir rename "@ + r.from.text() + " failed: "@ + e.message,
            ),
        ),
        Renaming::Refused(e) => Some(
            note(
                Severity::Warning,
                "exec"@,
                "dir rename to "@ + r.to.text() + " failed: "@ + e.message,
            ),
        ),
    }
}

/// What is said of directories that are to be renamed.
pub open spec fn rename_notes(rs: Seq<DirRenameView>, told: Seq<Renaming>) -> Seq<DiagnosticView>
    decreases told.len(),
{
    if told.len() == 0 {
        Seq::empty()
    } else {
        let rest = rename_notes(rs, told.drop_last());
        match rename_note(rs[told.len() - 1], told.last()) {
            Some(n) => rest.push(n),
            None => rest,
        }
    }
}

/// The steps by which directories were renamed.
pub open spec fn rename_steps(rs: Seq<DirRenameView>, told: Seq<Renaming>) -> Seq<StepView>
    decreases told.len(),
{
    if told.len() == 0 {
        Seq::empty()
    } else {
        let rest = rename_steps(rs, told.drop_last());
        let r = rs[told.len() - 1];
        match told.last() {
            Renaming::Right | Renaming::Missing => rest,
            Renaming::Done => rest.push(
                StepView { from: Some(r.from), to: Some(r.to), error: None },
            ),
            Renaming::Stays(e) | Renaming::Refused(e) => rest.push(
                StepView { from: Some(r.from), to: Some(r.to), error: Some(e.message) },
            ),
        }
    }
}

/// Renaming by way of a third path is renaming.
pub proof fn law_two_step_rename_is_a_rename(t: Tree, from: PathView, way: PathView, to: PathView)
    requires
        vacant(t, way),
        !to.starts_with(way),
    ensures
        relocated(relocated(t, from, way), way, to) == relocated(t, from, to),
{
    let mid = relocated(t, from, way);
    let a = relocated(mid, way, to);
    let b = relocated(t, from, to);
    assert forall|q: PathView| #[trigger] a.dom().contains(q) == b.dom().contains(q) by {
        if q.starts_with(to) {
            lemma_rebase_starts(q, to, way);
            let x = q.rebase(to, way);
            assert(mid.dom().contains(x) == t.dom().contains(x.rebase(way, from)));
            assert(x.rebase(way, from).parts =~= q.rebase(to, from).parts) by {
                assert(x.parts.skip(way.parts.len() as int) =~= q.parts.skip(
                    to.parts.len() as int,
                ));
            }
        }
    }
    assert forall|q: PathView| #[trigger] a.dom().contains(q) implies a[q] == b[q] by {
        if q.starts_with(to) {
            lemma_rebase_starts(q, to, way);
            let x = q.rebase(to, way);
            assert(x.rebase(way, from).parts =~= q.rebase(to, from).parts) by {
                assert(x.parts.skip(way.parts.len() as int) =~= q.parts.skip(
                    to.parts.len() as int,
                ));
            }
            assert(mid.dom().contains(x));
        }
    }
    assert(a =~= b);
}

/// Renaming to the same path changes nothing.
proof fn lemma_relocation_to_itself(t: Tree, p: PathView)
    ensures
        relocated(t, p, p) == t,
{
    let b = relocated(t, p, p);
    assert forall|q: PathView| q.starts_with(p) implies #[trigger] q.rebase(p, p) == q by {
        assert(p.parts + q.parts.skip(p.parts.len() as int) =~= q.parts);
    }
    assert forall|q: PathView| #[trigger] b.dom().contains(q) == t.dom().contains(q) by {}
    assert(b =~= t);
}

/// The two renames of a step, and the one back, are a step.
proof fn lemma_two_renames_are_a_step(t: Tree, r: DirRenameView, id: RunId, e: IoErrorView)
    requires
        r.from.file_name() != r.to.file_name(),
        t.dom().contains(r.from),
        vacant(t, way_station(parent_or_empty(r.from), id)),
    ensures
        ({
            let way = way_station(parent_or_empty(r.from), id);
            let mid = relocated(t, r.from, way);
            &&& dir_step(t, mid, r, Renaming::Refused(e), false)
            &&& vacant(mid, r.to) && !r.to.starts_with(way) ==> dir_step(
                t,
                relocated(mid, way, r.to),
                r,
                Renaming::Done,
                true,
            )
            &&& vacant(mid, r.from) && !r.from.starts_with(way) ==> dir_step(
                t,
                relocated(mid, way, r.from),
                r,
                Renaming::Refused(e),
                true,
            )
        }),
{
    let way = way_station(parent_or_empty(r.from), id);
    let mid = relocated(t, r.from, way);
    lemma_relocation_keeps_files(t, r.from, way);
    lemma_staying_keeps_files(t, t);
    assert(stuck_on_the_way(t, mid, r.from));
    if vacant(mid, r.to) && !r.to.starts_with(way) {
        let end = relocated(mid, way, r.to);
        law_two_step_rename_is_a_rename(t, r.from, way, r.to);
        lemma_relocation_keeps_files(mid, way, r.to);
        lemma_keeping_is_transitive(t, mid, end);
        assert forall|q: PathView| #[trigger]
            t.dom().contains(q) && !q.starts_with(r.from) implies end.dom().contains(q) && end[q]
            == t[q] by {
            assert(mid.dom().contains(q) && mid[q] == t[q]);
            assert(!q.starts_with(way));
        }
    }
    if vacant(mid, r.from) && !r.from.starts_with(way) {
        law_two_step_rename_is_a_rename(t, r.from, way, r.from);
        lemma_relocation_to_itself(t, r.from);
    }
}

/// Nothing stands where a directory came from, and it can go back.
proof fn lemma_way_back_is_free(t: Tree, from: PathView, way: PathView)
    requires
        t.dom().contains(from),
        vacant(t, way),
        !way.starts_with(from),
    ensures
        vacant(relocated(t, from, way), from),
        !from.starts_with(way),
        relocated(t, from, way).dom().contains(way),
{
    let mid = relocated(t, from, way);
    assert(!from.starts_with(way));
    assert(way.parts.take(way.parts.len() as int) =~= way.parts);
    assert(way.starts_with(way));
    assert(way.rebase(way, from) == from) by {
        assert(from.parts + way.parts.skip(way.parts.len() as int) =~= from.parts);
    }
    assert forall|q: PathView| #[trigger] mid.dom().contains(q) implies !q.starts_with(from) by {
        if q.starts_with(way) && q.starts_with(from) {
            if way.parts.len() <= from.parts.len() {
                assert(from.parts.take(way.parts.len() as int) =~= q.parts.take(
                    way.parts.len() as int,
                ));
            } else {
                assert(way.parts.take(from.parts.len() as int) =~= q.parts.take(
                    from.parts.len() as int,
                ));
            }
        }
    }
}

/// What comes of renaming on a steady file system may come of it on any.
pub proof fn lemma_steps_on_any(
    t0: Tree,
    t1: Tree,
    rs: Seq<DirRenameView>,
    told: Seq<Renaming>,
    now: bool,
    steady: bool,
)
    requires
        dir_steps(t0, t1, rs, told, now),
        steady ==> now,
    ensures
        dir_steps(t0, t1, rs, told, steady),
    decreases told.len(),
{
    if told.len() > 0 {
        let mid = choose|mid: Tree|
            dir_steps(t0, mid, rs, told.drop_last(), now) && #[trigger] dir_step(
                mid,
                t1,
                rs[told.len() - 1],
                told.last(),
                now,
            );
        lemma_steps_on_any(t0, mid, rs, told.drop_last(), now, steady);
        assert(dir_step(mid, t1, rs[told.len() - 1], told.last(), steady));
    }
}

/// Renaming directories loses no file.
pub proof fn law_dir_steps_lose_no_file(
    t0: Tree,
    t1: Tree,
    rs: Seq<DirRenameView>,
    told: Seq<Renaming>,
    steady: bool,
)
    requires
        dir_steps(t0, t1, rs, told, steady),
    ensures
        keeps_files(t0, t1),
    decreases told.len(),
{
    if told.len() == 0 {
        lemma_staying_keeps_files(t0, t1);
    } else {
        let mid = choose|mid: Tree|
            dir_steps(t0, mid, rs, told.drop_last(), steady) && #[trigger] dir_step(
                mid,
                t1,
                rs[told.len() - 1],
                told.last(),
                steady,
            );
        law_dir_steps_lose_no_file(t0, mid, rs, told.drop_last(), steady);
        lemma_keeping_is_transitive(t0, mid, t1);
    }
}

/// The key that orders directory renames from the deepest to the shallowest.
pub open spec fn deep_first(r: DirRenameView) -> (u64, u64) {
    ((u64::MAX - capped(r.from.depth())) as u64, 0)
}

/// The keys of directory renames.
pub open spec fn rename_keys(rs: Seq<DirRenameView>) -> Seq<(u64, u64)> {
    Seq::new(rs.len(), |i: int| deep_first(rs[i]))
}

/// Items in a given order.
pub open spec fn in_order<A>(s: Seq<A>, order: Seq<usize>) -> Seq<A> {
    Seq::new(order.len(), |i: int| s[order[i] as int])
}

/// What comes of renaming the directories of a plan, deepest first, given what
/// was found out about the first so many of them.
pub open spec fn dirs_renamed(
    t0: Tree,
    t1: Tree,
    rs: Seq<DirRenameView>,
    order: Seq<usize>,
    told: Seq<Renaming>,
    steady: bool,
) -> bool {
    &&& is_order(rename_keys(rs), order)
    &&& told.len() <= rs.len()
    &&& dir_steps(t0, t1, in_order(rs, order), told, steady)
}

/// The keys of directory renames.
fn keys_of_renames(plan: &Plan) -> (r: Vec<(u64, u64)>)
    ensures
        r@ == rename_keys(plan.dir_renames.deep_view()),
{
    let ghost rs = plan.dir_renames.deep_view();
    let mut out: Vec<(u64, u64)> = Vec::new();
    let mut i: usize = 0;
    while i < plan.dir_renames.len()
        invariant
            i <= plan.dir_renames@.len(),
            rs == plan.dir_renames.deep_view(),
            out@ == rename_keys(rs).take(i as int),
        decreases plan.dir_renames@.len() - i,
    {
        proof {
            assert(rs[i as int] == plan.dir_renames@[i as int].deep_view());
        }
        let depth: u64 = plan.dir_renames[i].from.depth();
        out.push((u64::MAX - depth, 0));
        proof {
            assert(out@ =~= rename_keys(rs).take(i + 1));
        }
        i = i + 1;
    }
    proof {
        assert(rename_keys(rs).take(i as int) =~= rename_keys(rs));
    }
    out
}

/// Whether the last components of two paths are the same.
fn same_name(a: &FilePath, b: &FilePath) -> (r: bool)
    ensures
        r == (a.deep_view().file_name() == b.deep_view().file_name()),
{
    match (a.file_name(), b.file_name()) {
        (Some(x), Some(y)) => text::same_text(x, y),
        (None, None) => true,
        _ => false,
    }
}

/// What an attempt to rename by way of a third path says about a directory.
spec fn renaming_of(r: Result<(), (bool, IoError)>) -> Renaming {
    match r {
        Ok(()) => Renaming::Done,
        Err((first, e)) => if first {
            Renaming::Stays(e.deep_view())
        } else {
            Renaming::Refused(e.deep_view())
        },
    }
}

/// Renames one directory by way of a third path. Where the second step is
/// refused the first is taken back.
fn rename_in_two_steps<F: FileSystem>(fs: &mut F, from: &FilePath, to: &FilePath) -> (r: Result<
    (),
    (bool, IoError),
>)
    requires
        from.deep_view().file_name() != to.deep_view().file_name(),
        old(fs).tree().dom().contains(from.deep_view()),
    ensures
        old(fs).is_steady() ==> final(fs).is_steady(),
        forall|d: DirRenameView|
            d.from == from.deep_view() && d.to == to.deep_view() ==> #[trigger] dir_step(
                old(fs).tree(),
                final(fs).tree(),
                d,
                renaming_of(r),
                old(fs).is_steady(),
            ),
{
    let ghost t = fs.tree();
    let ghost steady = fs.is_steady();
    let parent = match from.parent() {
        Some(p) => p,
        None => FilePath::empty(),
    };
    let id = RunId::fresh();
    let temp = unique_temp_dir(&parent, id);
    proof {
        lemma_staying_keeps_files(t, t);
    }
    match fs.rename_no_replace(from, &temp) {
        Ok(()) => {
            proof {
                lemma_way_back_is_free(t, from.deep_view(), temp.deep_view());
            }
        },
        Err(e) => {
            return Err((true, e));
        },
    }
    match fs.rename_no_replace(&temp, to) {
        Ok(()) => {
            proof {
                assert forall|d: DirRenameView|
                    d.from == from.deep_view() && d.to == to.deep_view() implies #[trigger] dir_step(
                    t,
                    fs.tree(),
                    d,
                    Renaming::Done,
                    steady,
                ) by {
                    lemma_two_renames_are_a_step(t, d, id, arbitrary());
                }
            }
            Ok(())
        },
        Err(e) => {
            let _ = fs.rename_no_replace(&temp, from);
            proof {
                assert forall|d: DirRenameView|
                    d.from == from.deep_view() && d.to == to.deep_view() implies #[trigger] dir_step(
                    t,
                    fs.tree(),
                    d,
                    Renaming::Refused(e.deep_view()),
                    steady,
                ) by {
                    lemma_two_renames_are_a_step(t, d, id, e.deep_view());
                }
            }
            Err((false, e))
        },
    }
}

/// Renames the directories of a plan, deepest first. One whose name is right
/// already is left alone; one that is missing or cannot be renamed is reported.
pub fn rename_directories<F: FileSystem, S: JournalStore>(
    fs: &mut F,
    plan: &Plan,
    opts: &ExecOptions,
    journal: &mut Journal<S>,
    report: &mut RunReport,
) -> (r: Result<(), FatalReason>)
    ensures
        old(fs).is_steady() ==> final(fs).is_steady(),
        exists|order: Seq<usize>, told: Seq<Renaming>| #[trigger]
            dirs_renamed(
                old(fs).tree(),
                final(fs).tree(),
                plan.dir_renames.deep_view(),
                order,
                told,
                old(fs).is_steady(),
            ) && (r is Ok && !final(report).cancelled ==> told.len() == plan.dir_renames@.len())
                && (r is Ok ==> took_steps(
                *old(journal),
                *final(journal),
                JournalOp::DirRename,
                rename_steps(in_order(plan.dir_renames.deep_view(), order), told),
            ) && final(report).diagnostics.deep_view() == old(report).diagnostics.deep_view()
                + rename_notes(in_order(plan.dir_renames.deep_view(), order), told)),
        keeps_files(old(fs).tree(), final(fs).tree()),
        final(journal).same_binding(old(journal)),
        leaves_nothing_open(old(journal).records(), final(journal).records()),
        only_notes(*old(report), *final(report)),
        r matches Err(f) ==> unwritable(f, *old(journal), *final(journal)),
        final(fs).tree() == old(fs).tree() || has_begun(*old(journal), *final(journal)),
        // Once the run is cancelled, nothing is done, and the report says so.
        opts.cancel.is_spent() ==> {
            &&& r is Ok
            &&& final(fs).tree() == old(fs).tree()
            &&& final(fs).history() == old(fs).history()
            &&& *final(journal) == *old(journal)
            &&& broken_off(*old(report), *final(report), plan.dir_renames@.len() > 0)
        },
        opts.cancel.is_idle() ==> final(report).cancelled == old(report).cancelled,
{
    let ghost h0 = fs.history();
    let ghost t0 = fs.tree();
    let ghost steady = fs.is_steady();
    let ghost j0 = *journal;
    let ghost r0 = *report;
    let ghost d0 = report.diagnostics.deep_view();
    let ghost start = journal.records();
    let ghost rs = plan.dir_renames.deep_view();
    let keys = keys_of_renames(plan);
    let order = order_by(&keys);
    let ghost todo = in_order(rs, order@);
    let ghost mut told: Seq<Renaming> = Seq::empty();
    let mut n: usize = 0;
    proof {
        assert(start =~= start.subrange(0, start.len() as int));
        assert(d0 =~= d0.subrange(0, d0.len() as int));
        assert(d0 =~= d0 + rename_notes(todo, told));
        assert(start =~= start + step_records(
            j0,
            JournalOp::DirRename,
            rename_steps(todo, told),
        ));
    }
    while n < order.len()
        invariant
            steady == old(fs).is_steady(),
            steady ==> fs.is_steady(),
            h0 == old(fs).history(),
            opts.cancel.is_spent() ==> n == 0 && fs.tree() == t0 && fs.history() == h0 && *journal
                == j0 && *report == r0,
            report.cancelled == r0.cancelled,
            n <= order@.len(),
            is_order(keys@, order@),
            keys@ == rename_keys(rs),
            rs == plan.dir_renames.deep_view(),
            todo == in_order(rs, order@),
            start == j0.records(),
            d0 == r0.diagnostics.deep_view(),
            t0 == old(fs).tree(),
            j0 == *old(journal),
            r0 == *old(report),
            told.len() == n,
            dir_steps(t0, fs.tree(), todo, told, steady),
            took_steps(j0, *journal, JournalOp::DirRename, rename_steps(todo, told)),
            report.diagnostics.deep_view() == d0 + rename_notes(todo, told),
            leaves_nothing_open(start, journal.records()),
            fs.tree() == t0 || has_begun(j0, *journal),
            only_notes(r0, *report),
        decreases order@.len() - n,
    {
        let ghost t1 = fs.tree();
        let ghost j1 = *journal;
        let ghost held = told;
        let ghost notes = report.diagnostics.deep_view();
        proof {
            law_dir_steps_lose_no_file(t0, t1, todo, told, steady);
            assert(dirs_renamed(t0, t1, rs, order@, told, steady));
        }
        if heed(report, opts.cancel.is_cancelled()) {
            return Ok(());
        }
        let r = &plan.dir_renames[order[n]];
        let ghost rv = r.deep_view();
        proof {
            assert(rs[order@[n as int] as int] == rv);
            assert(todo[n as int] == rv);
            lemma_staying_keeps_files(t1, t1);
        }
        if same_name(&r.from, &r.to) {
            proof {
                told = held.push(Renaming::Right);
            }
        } else {
            let there = match fs.metadata(&r.from) {
                Ok(_) => true,
                Err(_) => false,
            };
            if !there {
                let message = "dir rename source missing: ".to_string().concat(&r.from.to_text());
                push_note(report, Diagnostic::warning("exec", message));
                proof {
                    lemma_notes_chain(d0, notes, *report);
                    told = held.push(Renaming::Missing);
                }
            } else {
                let seq: u64 = match open_step(
                    journal,
                    JournalOp::DirRename,
                    Some(&r.from),
                    Some(&r.to),
                    Ghost(start),
                ) {
                    Ok(s) => s,
                    Err(fatal) => {
                        return Err(fatal);
                    },
                };
                let ghost now = fs.is_steady();
                let done = rename_in_two_steps(fs, &r.from, &r.to);
                proof {
                    told = held.push(renaming_of(done));
                    assert(told.drop_last() =~= held);
                    assert(dir_step(t1, fs.tree(), rv, told.last(), now));
                    assert(dir_step(t1, fs.tree(), rv, told.last(), steady));
                    assert(dir_steps(t0, fs.tree(), todo, told, steady));
                    law_dir_steps_lose_no_file(t0, fs.tree(), todo, told, steady);
                    assert(dirs_renamed(t0, fs.tree(), rs, order@, told, steady));
                }
                match done {
                    Ok(()) => {
                        match close_step(
                            journal,
                            seq,
                            JournalOp::DirRename,
                            Some(&r.from),
                            Some(&r.to),
                            None,
                            Ghost(start),
                        ) {
                            Ok(()) => {},
                            Err(fatal) => {
                                return Err(fatal);
                            },
                        }
                        proof {
                            let step = StepView {
                                from: Some(rv.from),
                                to: Some(rv.to),
                                error: None,
                            };
                            lemma_one_more_step(
                                j0,
                                j1,
                                *journal,
                                JournalOp::DirRename,
                                rename_steps(todo, held),
                                step,
                            );
                        }
                    },
                    Err((first, e)) => {
                        match close_step(
                            journal,
                            seq,
                            JournalOp::DirRename,
                            Some(&r.from),
                            Some(&r.to),
                            Some(&e),
                            Ghost(start),
                        ) {
                            Ok(()) => {},
                            Err(fatal) => {
                                return Err(fatal);
                            },
                        }
                        let what = if first {
                            "dir rename ".to_string().concat(&r.from.to_text())
                        } else {
                            "dir rename to ".to_string().concat(&r.to.to_text())
                        };
                        let message = what.concat(" failed: ").concat(&e.message);
                        push_note(report, Diagnostic::warning("exec", message));
                        proof {
                            lemma_notes_chain(d0, notes, *report);
                            let step = StepView {
                                from: Some(rv.from),
                                to: Some(rv.to),
                                error: Some(e.message@),
                            };
                            lemma_one_more_step(
                                j0,
                                j1,
                                *journal,
                                JournalOp::DirRename,
                                rename_steps(todo, held),
                                step,
                            );
                        }
                    },
                }
            }
        }
        proof {
            assert(told.drop_last() =~= held);
            assert(dir_step(t1, fs.tree(), rv, told.last(), steady));
            assert(dir_steps(t0, fs.tree(), todo, told, steady));
            assert(report.diagnostics.deep_view() =~= d0 + rename_notes(todo, told));
        }
        n = n + 1;
    }
    proof {
        law_dir_steps_lose_no_file(t0, fs.tree(), todo, told, steady);
        assert(dirs_renamed(t0, fs.tree(), rs, order@, told, steady));
    }
    Ok(())
}

/// What is said stays said.
pub proof fn lemma_notes_chain(a: Seq<DiagnosticView>, b: Seq<DiagnosticView>, r: RunReport)
    requires
        a.is_prefix_of(b),
        b.is_prefix_of(r.diagnostics.deep_view()),
    ensures
        a.is_prefix_of(r.diagnostics.deep_view()),
{
    let c = r.diagnostics.deep_view();
    assert(a =~= c.subrange(0, a.len() as int));
}

} // verus!
