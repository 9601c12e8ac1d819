//! Removing the directories that moves have vacated.

use crate::domain::config::Config;
use crate::domain::duplicate::Duplicate;
use crate::domain::error::{bump, FatalReason, RunReport};
use crate::domain::fs::keep::{keeps_files, lemma_staying_files_are_kept};
use crate::domain::fs::{
    asks, bytes, goes_on, is_dir, is_file, lists_dir, lists_each_once, only_asks, Call, FileSystem,
    IoError, IoErrorView, Tree,
};
use crate::domain::path::{FilePath, PathView};
use crate::domain::plan::{Plan, PlanView};
use crate::engine::exec::dirs::{
    capped, close_step, in_order, lemma_one_more_step, open_step, step_records, took_steps,
    StepView,
};
use crate::engine::exec::moves::{has_begun, leaves_nothing_open, unwritable};
use crate::engine::exec::{broken_off, heed, ExecOptions};
use crate::engine::journal::{Journal, JournalOp, JournalStore};
use crate::engine::order::{is_order, order_by};
use crate::text;
use vstd::prelude::*;

verus! {

/// Whether a name is that of a file that does not matter.
pub open spec fn is_junk(junk: Seq<Seq<char>>, name: Seq<char>) -> bool {
    exists|i: int| 0 <= i < junk.len() && text::eq_ignore_case(#[trigger] junk[i], name)
}

/// Whether a name is that of a file that does not matter.
pub fn is_junk_name(junk: &Vec<String>, name: &str) -> (r: bool)
    ensures
        r == is_junk(junk.deep_view(), name@),
{
    let ghost v = junk.deep_view();
    let mut i: usize = 0;
    while i < junk.len()
        invariant
            i <= junk@.len(),
            v == junk.deep_view(),
            forall|k: int| 0 <= k < i ==> !text::eq_ignore_case(#[trigger] v[k], name@),
        decreases junk@.len() - i,
    {
        proof {
            assert(v[i as int] == junk@[i as int]@);
        }
        if text::same_ignoring_case(&junk[i], name) {
            return true;
        }
        i = i + 1;
    }
    false
}

/// Whether a path lies under the root.
pub fn inside_root(path: &FilePath, root: &FilePath) -> (r: bool)
    ensures
        r == (path.deep_view().starts_with(root.deep_view()) && path.deep_view()
            != root.deep_view()),
{
    path.starts_with(root) && !path.same(root)
}

/// Whether nothing but what does not matter stands directly under a path.
pub open spec fn empty_enough(t: Tree, p: PathView, tolerate: bool, junk: Seq<Seq<char>>) -> bool {
    forall|q: PathView| #[trigger]
        t.dom().contains(q) && q.is_child_of(p) ==> tolerate && is_junk(junk, q.parts.last())
}

/// Whether nothing but what does not matter stands directly under a path.
pub fn dir_empty_enough<F: FileSystem>(fs: &mut F, path: &FilePath, cfg: &Config) -> (r: Result<
    bool,
    IoError,
>)
    ensures
        old(fs).is_steady() ==> final(fs).is_steady(),
        final(fs).tree() == old(fs).tree(),
        old(fs).is_steady() ==> r is Ok == is_dir(old(fs).tree(), path.deep_view()),
        r matches Ok(b) ==> is_dir(old(fs).tree(), path.deep_view()) && b == empty_enough(
            old(fs).tree(),
            path.deep_view(),
            cfg.cleanup.tolerate_junk,
            cfg.cleanup.junk_names.deep_view(),
        ),
        only_asks(old(fs).history(), final(fs).history()),
        (r matches Ok(b) && b) && !cfg.cleanup.tolerate_junk ==> final(fs).history()
            == old(fs).history().push((Call::Look { path: path.deep_view(), empty: Some(true) })),
{
    let ghost h0 = fs.history();
    let ghost t = fs.tree();
    let ghost p = path.deep_view();
    let ghost junk = cfg.cleanup.junk_names.deep_view();
    match fs.is_dir_empty(path) {
        Ok(true) => {
            return Ok(true);
        },
        Ok(false) => {},
        Err(e) => {
            return Err(e);
        },
    }
    if !cfg.cleanup.tolerate_junk {
        return Ok(false);
    }
    let list = match fs.read_dir(path) {
        Ok(l) => l,
        Err(e) => {
            return Err(e);
        },
    };
    let mut i: usize = 0;
    while i < list.len()
        invariant
            i <= list@.len(),
            old(fs).is_steady() ==> fs.is_steady() && lists_each_once(list@),
            only_asks(h0, fs.history()),
            h0 == old(fs).history(),
            fs.tree() == t,
            t == old(fs).tree(),
            p == path.deep_view(),
            is_dir(t, p),
            junk == cfg.cleanup.junk_names.deep_view(),
            cfg.cleanup.tolerate_junk,
            lists_dir(list@, t, p),
            forall|k: int|
                0 <= k < i ==> (#[trigger] list@[k]) is Ok && is_junk(
                    junk,
                    list@[k]->Ok_0.file_name@,
                ),
        decreases list@.len() - i,
    {
        match &list[i] {
            Ok(entry) => {
                if !is_junk_name(&cfg.cleanup.junk_names, &entry.file_name) {
                    proof {
                        assert(list@[i as int] is Ok);
                        let q = entry.path.deep_view();
                        assert(t.dom().contains(q) && q.is_child_of(p));
                        assert(q.parts.last() == entry.file_name@);
                    }
                    return Ok(false);
                }
            },
            Err(e) => {
                return Err(e.duplicate());
            },
        }
        i = i + 1;
    }
    proof {
        assert forall|q: PathView| #[trigger] t.dom().contains(q) && q.is_child_of(p) implies is_junk(
            junk,
            q.parts.last(),
        ) by {
            let k = choose|k: int|
                0 <= k < list@.len() && (#[trigger] list@[k])->Ok_0.path.deep_view() == q;
            assert(list@[k] is Ok);
        }
    }
    Ok(true)
}

/// Whether nothing has been added or changed.
pub open spec fn shrunk(a: Tree, b: Tree) -> bool {
    forall|q: PathView| #[trigger]
        b.dom().contains(q) ==> a.dom().contains(q) && b[q] == a[q]
}

/// Whether nothing directly under a path that has the name of what does not
/// matter is a directory.
pub open spec fn no_junk_dirs(t: Tree, p: PathView, junk: Seq<Seq<char>>) -> bool {
    forall|q: PathView| #[trigger]
        t.dom().contains(q) && q.is_child_of(p) && is_junk(junk, q.parts.last()) ==> !is_dir(t, q)
}

/// Whether nothing is asked for that changes anything but the removal of what
/// does not matter directly under a path.
pub open spec fn sheds_only_junk(
    h0: Seq<Call>,
    h1: Seq<Call>,
    p: PathView,
    junk: Seq<Seq<char>>,
) -> bool {
    &&& goes_on(h0, h1)
    &&& forall|k: int|
        h0.len() <= k < h1.len() ==> asks(#[trigger] h1[k]) || (h1[k] matches Call::Remove {
            path,
            ..
        } && path.is_child_of(p) && is_junk(junk, path.parts.last()))
}

/// Removes the files that do not matter from a directory. A directory with such
/// a name ends it.
pub fn delete_junk<F: FileSystem>(fs: &mut F, path: &FilePath, cfg: &Config) -> (r: Result<
    (),
    IoError,
>)
    ensures
        shrunk(old(fs).tree(), final(fs).tree()),
        forall|q: PathView| #[trigger]
            old(fs).tree().dom().contains(q) && !final(fs).tree().dom().contains(q) ==> !is_dir(
                old(fs).tree(),
                q,
            ) && q.is_child_of(path.deep_view()) && is_junk(
                cfg.cleanup.junk_names.deep_view(),
                q.parts.last(),
            ),
        r is Ok ==> is_dir(old(fs).tree(), path.deep_view()) && forall|q: PathView| #[trigger]
            final(fs).tree().dom().contains(q) && q.is_child_of(path.deep_view()) ==> !is_junk(
                cfg.cleanup.junk_names.deep_view(),
                q.parts.last(),
            ),
        old(fs).is_steady() ==> final(fs).is_steady(),
        old(fs).is_steady() ==> r is Ok == (is_dir(old(fs).tree(), path.deep_view()) && no_junk_dirs(
            old(fs).tree(),
            path.deep_view(),
            cfg.cleanup.junk_names.deep_view(),
        )),
        sheds_only_junk(
            old(fs).history(),
            final(fs).history(),
            path.deep_view(),
            cfg.cleanup.junk_names.deep_view(),
        ),
{
    let ghost h0 = fs.history();
    let ghost t0 = fs.tree();
    let ghost steady = fs.is_steady();
    let ghost p = path.deep_view();
    let ghost junk = cfg.cleanup.junk_names.deep_view();
    let list = match fs.read_dir(path) {
        Ok(l) => l,
        Err(e) => {
            return Err(e);
        },
    };
    let mut i: usize = 0;
    while i < list.len()
        invariant
            i <= list@.len(),
            t0 == old(fs).tree(),
            p == path.deep_view(),
            junk == cfg.cleanup.junk_names.deep_view(),
            steady == old(fs).is_steady(),
            is_dir(t0, p),
            h0 == old(fs).history(),
            sheds_only_junk(h0, fs.history(), p, junk),
            lists_dir(list@, t0, p),
            shrunk(t0, fs.tree()),
            steady ==> fs.is_steady() && lists_each_once(list@),
            forall|k: int|
                0 <= k < i ==> (#[trigger] list@[k]) is Ok && (is_junk(
                    junk,
                    list@[k]->Ok_0.file_name@,
                ) ==> !fs.tree().dom().contains(list@[k]->Ok_0.path.deep_view()) && !is_dir(
                    t0,
                    list@[k]->Ok_0.path.deep_view(),
                )),
            steady ==> forall|k: int|
                i <= k < list@.len() ==> fs.tree().dom().contains(
                    (#[trigger] list@[k])->Ok_0.path.deep_view(),
                ),
            forall|q: PathView| #[trigger]
                t0.dom().contains(q) && !fs.tree().dom().contains(q) ==> !is_dir(t0, q)
                    && q.is_child_of(p) && is_junk(junk, q.parts.last()),
        decreases list@.len() - i,
    {
        match &list[i] {
            Ok(entry) => {
                proof {
                    assert(list@[i as int] is Ok);
                }
                if is_junk_name(&cfg.cleanup.junk_names, &entry.file_name) {
                    let ghost t1 = fs.tree();
                    proof {
                        let q = entry.path.deep_view();
                        assert(t0.dom().contains(q) && q.is_child_of(p));
                        assert(q.parts.last() == entry.file_name@);
                    }
                    match fs.remove_file(&entry.path) {
                        Ok(()) => {},
                        Err(e) => {
                            proof {
                                let q = entry.path.deep_view();
                                if steady {
                                    assert(t1.dom().contains(list@[i as int]->Ok_0.path.deep_view()));
                                    assert(is_dir(t0, q));
                                    assert(t0.dom().contains(q) && q.is_child_of(p));
                                }
                            }
                            return Err(e);
                        },
                    }
                    proof {
                        assert(t1.dom().contains(entry.path.deep_view()));
                    }
                }
            },
            Err(e) => {
                return Err(e.duplicate());
            },
        }
        i = i + 1;
    }
    proof {
        assert forall|q: PathView| #[trigger]
            t0.dom().contains(q) && q.is_child_of(p) && is_junk(
                junk,
                q.parts.last(),
            ) implies !fs.tree().dom().contains(q) && !is_dir(t0, q) by {
            let k = choose|k: int|
                0 <= k < list@.len() && (#[trigger] list@[k])->Ok_0.path.deep_view() == q;
            assert(list@[k] is Ok);
        }
    }
    Ok(())
}

/// Whether a directory may be removed: it lies under the root, the run has not
/// created it, and a file has been moved out of it or the plan names it.
pub open spec fn removable(plan: PlanView, sources: Seq<PathView>, q: PathView) -> bool {
    &&& q.starts_with(plan.root)
    &&& q != plan.root
    &&& !plan.dir_creates.contains(q)
    &&& is_candidate(plan, sources, q)
}

/// Whether a file has been moved out of a directory or the plan names it.
pub open spec fn is_candidate(plan: PlanView, sources: Seq<PathView>, q: PathView) -> bool {
    sources.contains(q) || exists|i: int|
        0 <= i < plan.dir_removals.len() && (#[trigger] plan.dir_removals[i]).path == q
}

/// Whether something may go in the clean-up: a removable directory, or a file
/// that does not matter in one, where those are tolerated.
pub open spec fn may_go(
    t: Tree,
    plan: PlanView,
    cfg: Config,
    sources: Seq<PathView>,
    q: PathView,
) -> bool {
    ||| is_dir(t, q) && removable(plan, sources, q)
    ||| {
        &&& cfg.cleanup.tolerate_junk
        &&& !is_dir(t, q)
        &&& is_junk(cfg.cleanup.junk_names.deep_view(), q.parts.last())
        &&& q.parent() matches Some(d) && removable(plan, sources, d)
    }
}

/// What may come of cleaning up: nothing is added or changed, nothing goes
/// that may not, and nothing is left under a directory that has gone.
pub open spec fn cleaned(
    t0: Tree,
    t1: Tree,
    plan: PlanView,
    cfg: Config,
    sources: Seq<PathView>,
) -> bool {
    &&& shrunk(t0, t1)
    &&& forall|q: PathView| #[trigger]
        t0.dom().contains(q) && !t1.dom().contains(q) ==> may_go(t0, plan, cfg, sources, q)
    &&& forall|d: PathView, q: PathView| #[trigger]
        is_dir(t0, d) && !t1.dom().contains(d) && #[trigger] t1.dom().contains(q)
            ==> !q.is_child_of(d)
}

/// Unless junk is tolerated, cleaning up loses no file.
pub proof fn law_cleanup_loses_no_file(
    t0: Tree,
    t1: Tree,
    plan: PlanView,
    cfg: Config,
    sources: Seq<PathView>,
)
    requires
        cleaned(t0, t1, plan, cfg, sources),
        !cfg.cleanup.tolerate_junk,
    ensures
        keeps_files(t0, t1),
        forall|p: PathView| #[trigger]
            is_file(t0, p) ==> is_file(t1, p) && bytes(t1, p) == bytes(t0, p),
{
    assert forall|p: PathView| #[trigger] is_file(t0, p) implies is_file(t1, p) && bytes(t1, p)
        == bytes(t0, p) by {
        assert(t0.dom().contains(p));
        assert(!may_go(t0, plan, cfg, sources, p));
        assert(t1.dom().contains(p));
    }
    lemma_staying_files_are_kept(t0, t1);
}

/// Unless junk is tolerated, a directory in which a file is left is not removed.
pub proof fn law_directory_with_a_file_stays(
    t0: Tree,
    t1: Tree,
    plan: PlanView,
    cfg: Config,
    sources: Seq<PathView>,
    d: PathView,
    q: PathView,
)
    requires
        cleaned(t0, t1, plan, cfg, sources),
        !cfg.cleanup.tolerate_junk,
        is_dir(t0, d),
        is_file(t0, q),
        q.is_child_of(d),
    ensures
        is_dir(t1, d),
{
    law_cleanup_loses_no_file(t0, t1, plan, cfg, sources);
    assert(t1.dom().contains(q));
    assert(t1.dom().contains(d));
}

/// Whether a path is in a list.
pub fn holds_path(list: &Vec<FilePath>, p: &FilePath) -> (r: bool)
    ensures
        r == list.deep_view().contains(p.deep_view()),
{
    let ghost v = list.deep_view();
    let mut i: usize = 0;
    while i < list.len()
        invariant
            i <= list@.len(),
            v == list.deep_view(),
            forall|k: int| 0 <= k < i ==> v[k] != p.deep_view(),
        decreases list@.len() - i,
    {
        proof {
            assert(v[i as int] == list@[i as int].deep_view());
        }
        if list[i].same(p) {
            return true;
        }
        i = i + 1;
    }
    false
}

/// Adds a path to a list unless it is there.
pub fn add_path(list: &mut Vec<FilePath>, p: FilePath)
    ensures
        final(list).deep_view() == (if old(list).deep_view().contains(p.deep_view()) {
            old(list).deep_view()
        } else {
            old(list).deep_view().push(p.deep_view())
        }),
{
    if !holds_path(list, &p) {
        let ghost before = list.deep_view();
        list.push(p);
        proof {
            assert(list.deep_view() =~= before.push(p.deep_view()));
        }
    }
}

/// The directories out of which files have been moved and those that a plan
/// names, each once.
fn candidates(plan: &Plan, sources: &Vec<FilePath>) -> (r: Vec<FilePath>)
    ensures
        forall|q: PathView| #[trigger]
            r.deep_view().contains(q) <==> is_candidate(
                plan.deep_view(),
                sources.deep_view(),
                q,
            ),
{
    let mut out = sources.duplicate();
    let ghost s = sources.deep_view();
    let ghost removals = plan.dir_removals.deep_view();
    let mut i: usize = 0;
    while i < plan.dir_removals.len()
        invariant
            i <= plan.dir_removals@.len(),
            removals == plan.dir_removals.deep_view(),
            forall|q: PathView| #[trigger]
                out.deep_view().contains(q) <==> s.contains(q) || exists|k: int|
                    0 <= k < i && (#[trigger] removals[k]).path == q,
        decreases plan.dir_removals@.len() - i,
    {
        let ghost before = out.deep_view();
        proof {
            assert(removals[i as int] == plan.dir_removals@[i as int].deep_view());
        }
        let p = plan.dir_removals[i].path.duplicate();
        let ghost pv = p.deep_view();
        add_path(&mut out, p);
        proof {
            assert forall|q: PathView| #[trigger]
                out.deep_view().contains(q) <==> s.contains(q) || exists|k: int|
                    0 <= k < i + 1 && (#[trigger] removals[k]).path == q by {
                if out.deep_view() != before {
                    assert(out.deep_view() == before.push(pv));
                    assert(before.push(pv)[before.len() as int] == pv);
                    if before.contains(q) {
                        let k = choose|k: int| 0 <= k < before.len() && before[k] == q;
                        assert(before.push(pv)[k] == q);
                    }
                }
                if q == pv {
                    assert(removals[i as int].path == q);
                }
            }
        }
        i = i + 1;
    }
    proof {
        let pv = plan.deep_view();
        assert(pv.dir_removals == removals);
        assert forall|q: PathView| #[trigger]
            out.deep_view().contains(q) <==> is_candidate(pv, s, q) by {
            if out.deep_view().contains(q) && !s.contains(q) {
                let k = choose|k: int| 0 <= k < i && (#[trigger] removals[k]).path == q;
                assert(pv.dir_removals[k].path == q);
            }
            if is_candidate(pv, s, q) && !s.contains(q) {
                let k = choose|k: int|
                    0 <= k < pv.dir_removals.len() && (#[trigger] pv.dir_removals[k]).path == q;
                assert(removals[k].path == q);
            }
        }
    }
    out
}

/// The keys that order paths from the longest to the shortest.
pub open spec fn removal_keys(paths: Seq<PathView>) -> Seq<(u64, u64)> {
    Seq::new(
        paths.len(),
        |i: int| ((u64::MAX - capped(text::utf8_len(paths[i].text()))) as u64, 0u64),
    )
}

/// The keys that order paths from the longest to the shortest.
fn long_first(paths: &Vec<FilePath>) -> (r: Vec<(u64, u64)>)
    ensures
        r@ == removal_keys(paths.deep_view()),
{
    let ghost v = paths.deep_view();
    let mut out: Vec<(u64, u64)> = Vec::new();
    let mut i: usize = 0;
    while i < paths.len()
        invariant
            i <= paths@.len(),
            v == paths.deep_view(),
            out@ == removal_keys(v).take(i as int),
        decreases paths@.len() - i,
    {
        proof {
            assert(v[i as int] == paths@[i as int].deep_view());
        }
        let size: usize = text::byte_len(&paths[i].to_text());
        out.push((u64::MAX - size as u64, 0));
        proof {
            assert(out@ =~= removal_keys(v).take(i + 1));
        }
        i = i + 1;
    }
    proof {
        assert(removal_keys(v).take(i as int) =~= removal_keys(v));
    }
    out
}

/// A count with so many more, up to the greatest number.
pub open spec fn counted_up(n: u64, more: nat) -> u64 {
    capped((n + more) as nat)
}

/// Whether a report differs from an earlier one in nothing but what it says of
/// removed directories and in having been cancelled.
pub open spec fn only_removals(a: RunReport, b: RunReport) -> bool {
    &&& b.run_id == a.run_id
    &&& b.mode == a.mode
    &&& b.kind == a.kind
    &&& b.root == a.root
    &&& b.counts == a.counts
    &&& b.pending == a.pending
    &&& b.diagnostics == a.diagnostics
    &&& b.reservations_reclaimed == a.reservations_reclaimed
    &&& b.fatal == a.fatal
    &&& b.duration_ms == a.duration_ms
    &&& a.cancelled ==> b.cancelled
}

/// Whether a list holds the directories of one tree that are not in another,
/// each once.
pub open spec fn are_gone(t0: Tree, t1: Tree, gone: Seq<PathView>) -> bool {
    &&& gone.no_duplicates()
    &&& forall|q: PathView| #[trigger]
        gone.contains(q) <==> is_dir(t0, q) && !t1.dom().contains(q)
}

/// A directory that was there and is no more is one more that has gone.
proof fn lemma_one_more_is_gone(t0: Tree, t1: Tree, gone: Seq<PathView>, p: PathView)
    requires
        are_gone(t0, t1, gone),
        is_dir(t1, p),
        shrunk(t0, t1),
    ensures
        are_gone(t0, t1.remove(p), gone.push(p)),
{
    let more = gone.push(p);
    assert(t1.dom().contains(p));
    assert(!gone.contains(p));
    assert(more[gone.len() as int] == p);
    assert forall|q: PathView| #[trigger]
        more.contains(q) <==> is_dir(t0, q) && !t1.remove(p).dom().contains(q) by {
        if gone.contains(q) {
            let k = choose|k: int| 0 <= k < gone.len() && gone[k] == q;
            assert(more[k] == q);
        }
        if more.contains(q) && q != p {
            let k = choose|k: int| 0 <= k < more.len() && more[k] == q;
            assert(gone[k] == q);
        }
    }
}

/// What was found out about a directory that may have been vacated: it is not
/// to be removed, something stands in it, it could not be read, what does not
/// matter in it could not be removed, it has been removed, or it could not be.
#[verifier::ext_equal]
pub enum Removal {
    Kept,
    Filled,
    Unread(IoErrorView),
    Littered(IoErrorView),
    Removed,
    Refused(IoErrorView),
}

/// How many directories have been removed.
pub open spec fn removed_count(told: Seq<Removal>) -> nat
    decreases told.len(),
{
    if told.len() == 0 {
        0
    } else {
        removed_count(told.drop_last()) + if told.last() is Removed {
            1nat
        } else {
            0nat
        }
    }
}

/// The directories that could not be removed, and why.
pub open spec fn unremovable(paths: Seq<PathView>, told: Seq<Removal>) -> Seq<
    (PathView, Seq<char>),
>
    decreases told.len(),
{
    if told.len() == 0 {
        Seq::empty()
    } else {
        let rest = unremovable(paths, told.drop_last());
        match told.last() {
            Removal::Unread(e) | Removal::Littered(e) | Removal::Refused(e) => rest.push(
                (paths[told.len() - 1], e.message),
            ),
            _ => rest,
        }
    }
}

/// The steps by which directories were removed.
pub open spec fn removal_steps(paths: Seq<PathView>, told: Seq<Removal>) -> Seq<StepView>
    decreases told.len(),
{
    if told.len() == 0 {
        Seq::empty()
    } else {
        let rest = removal_steps(paths, told.drop_last());
        let from = Some(paths[told.len() - 1]);
        match told.last() {
            Removal::Removed => rest.push(StepView { from, to: None, error: None }),
            Removal::Refused(e) => rest.push(StepView { from, to: None, error: Some(e.message) }),
            _ => rest,
        }
    }
}

/// The contents of a list of paths with reasons.
pub open spec fn reasons_view(v: Seq<(FilePath, String)>) -> Seq<(PathView, Seq<char>)> {
    Seq::new(v.len(), |i: int| (v[i].0.deep_view(), v[i].1@))
}

/// What comes of removing vacated directories, the longest path first, given
/// what was found out about the first so many of them: what is counted and
/// said of them, and how they are journaled.
pub open spec fn dirs_removed_as<S: JournalStore>(
    j0: Journal<S>,
    j1: Journal<S>,
    before: RunReport,
    after: RunReport,
    plan: PlanView,
    sources: Seq<PathView>,
    paths: Seq<PathView>,
    order: Seq<usize>,
    told: Seq<Removal>,
) -> bool {
    let todo = in_order(paths, order);
    &&& forall|q: PathView| #[trigger] paths.contains(q) <==> is_candidate(plan, sources, q)
    &&& is_order(removal_keys(paths), order)
    &&& told.len() <= paths.len()
    &&& forall|k: int|
        0 <= k < told.len() ==> (#[trigger] told[k] is Kept) == !removable(plan, sources, todo[k])
    &&& after.dirs_removed == counted_up(before.dirs_removed, removed_count(told))
    &&& reasons_view(after.dirs_not_removable@) == reasons_view(before.dirs_not_removable@)
        + unremovable(todo, told)
    &&& took_steps(j0, j1, JournalOp::DirRemove, removal_steps(todo, told))
}

/// Whether nothing goes but files that do not matter, directly under a path.
pub open spec fn sheds_junk(t0: Tree, t1: Tree, p: PathView, cfg: Config) -> bool {
    &&& shrunk(t0, t1)
    &&& forall|q: PathView| #[trigger]
        t0.dom().contains(q) && !t1.dom().contains(q) ==> cfg.cleanup.tolerate_junk && !is_dir(
            t0,
            q,
        ) && q.is_child_of(p) && is_junk(cfg.cleanup.junk_names.deep_view(), q.parts.last())
}

/// What comes of one directory that may have been vacated, given what was found
/// out about it. On a steady file system one that is empty enough goes, unless
/// a directory has the name of what does not matter.
pub open spec fn removal_step(
    t0: Tree,
    t1: Tree,
    p: PathView,
    cfg: Config,
    a: Removal,
    steady: bool,
) -> bool {
    let junk = cfg.cleanup.junk_names.deep_view();
    let empty = is_dir(t0, p) && empty_enough(t0, p, cfg.cleanup.tolerate_junk, junk);
    match a {
        Removal::Kept => t1 == t0,
        Removal::Filled => t1 == t0 && is_dir(t0, p) && !empty,
        Removal::Unread(_) => t1 == t0 && (steady ==> !is_dir(t0, p)),
        Removal::Littered(_) => empty && sheds_junk(t0, t1, p, cfg) && (steady ==> !no_junk_dirs(
            t0,
            p,
            junk,
        )),
        Removal::Removed => empty && exists|mid: Tree|
            sheds_junk(t0, mid, p, cfg) && t1 == #[trigger] mid.remove(p),
        Removal::Refused(_) => empty && sheds_junk(t0, t1, p, cfg) && !steady,
    }
}

/// Whether directories were dealt with one after the other, given the trees
/// between.
pub open spec fn removal_steps_in(
    trees: Seq<Tree>,
    t0: Tree,
    t1: Tree,
    todo: Seq<PathView>,
    cfg: Config,
    told: Seq<Removal>,
    steady: bool,
) -> bool {
    &&& trees.len() == told.len() + 1
    &&& trees[0] == t0
    &&& trees.last() == t1
    &&& forall|k: int|
        0 <= k < told.len() ==> removal_step(
            trees[k],
            trees[k + 1],
            todo[k],
            cfg,
            #[trigger] told[k],
            steady,
        )
}

/// What comes of one more directory, in the tree.
proof fn lemma_one_more_step_in(
    trees: Seq<Tree>,
    t0: Tree,
    t1: Tree,
    t2: Tree,
    todo: Seq<PathView>,
    cfg: Config,
    told: Seq<Removal>,
    a: Removal,
    steady: bool,
)
    requires
        removal_steps_in(trees, t0, t1, todo, cfg, told, steady),
        removal_step(t1, t2, todo[told.len() as int], cfg, a, steady),
    ensures
        removal_steps_in(trees.push(t2), t0, t2, todo, cfg, told.push(a), steady),
{
    let more = told.push(a);
    let all = trees.push(t2);
    assert forall|k: int| 0 <= k < more.len() implies removal_step(
        all[k],
        all[k + 1],
        todo[k],
        cfg,
        #[trigger] more[k],
        steady,
    ) by {
        assert(all[k] == trees[k]);
        if k < told.len() {
            assert(more[k] == told[k]);
            assert(all[k + 1] == trees[k + 1]);
        }
    }
}

/// How many directories calls have removed.
pub open spec fn dirs_gone(calls: Seq<Call>) -> nat
    decreases calls.len(),
{
    if calls.len() == 0 {
        0
    } else {
        dirs_gone(calls.drop_last()) + match calls.last() {
            Call::RemoveDir { done: true, .. } => 1nat,
            _ => 0nat,
        }
    }
}

/// Whether a call may be made in the clean-up: one that changes nothing, one
/// that removes a removable directory, or one that removes what does not matter
/// from one, where that is tolerated.
pub open spec fn may_call(c: Call, plan: PlanView, cfg: Config, sources: Seq<PathView>) -> bool {
    match c {
        Call::RemoveDir { path, .. } => removable(plan, sources, path),
        Call::Remove { path, .. } => {
            &&& cfg.cleanup.tolerate_junk
            &&& is_junk(cfg.cleanup.junk_names.deep_view(), path.parts.last())
            &&& path.parent() matches Some(d) && removable(plan, sources, d)
        },
        _ => asks(c),
    }
}

/// Whether the clean-up made these calls, by which so many directories were
/// removed. Where nothing is tolerated in a directory, it is removed only just
/// after it was found to be empty, and no file is removed.
pub open spec fn cleanup_traced(
    h0: Seq<Call>,
    h1: Seq<Call>,
    plan: PlanView,
    cfg: Config,
    sources: Seq<PathView>,
    n: nat,
) -> bool {
    &&& goes_on(h0, h1)
    &&& dirs_gone(h1.skip(h0.len() as int)) == n
    &&& forall|k: int|
        h0.len() <= k < h1.len() ==> may_call(#[trigger] h1[k], plan, cfg, sources)
    &&& forall|k: int|
        h0.len() <= k < h1.len() && (#[trigger] h1[k]) is RemoveDir && !cfg.cleanup.tolerate_junk
            ==> h0.len() < k && h1[k - 1] == (Call::Look {
            path: h1[k]->RemoveDir_path,
            empty: Some(true),
        })
}

/// Calls that remove no directory go on with a clean-up.
proof fn lemma_cleanup_goes_on(
    h0: Seq<Call>,
    h1: Seq<Call>,
    h2: Seq<Call>,
    plan: PlanView,
    cfg: Config,
    sources: Seq<PathView>,
    n: nat,
)
    requires
        cleanup_traced(h0, h1, plan, cfg, sources, n),
        goes_on(h1, h2),
        forall|k: int|
            h1.len() <= k < h2.len() ==> may_call(#[trigger] h2[k], plan, cfg, sources) && !(
            h2[k] is RemoveDir),
    ensures
        cleanup_traced(h0, h2, plan, cfg, sources, n),
    decreases h2.len(),
{
    let a = h0.len() as int;
    assert forall|k: int| a <= k < h2.len() implies may_call(#[trigger] h2[k], plan, cfg, sources)
        && (h2[k] is RemoveDir && !cfg.cleanup.tolerate_junk ==> a < k && h2[k - 1] == (Call::Look {
        path: h2[k]->RemoveDir_path,
        empty: Some(true),
    })) by {
        if k < h1.len() {
            assert(h1[k] == h2[k]);
            if a < k {
                assert(h1[k - 1] == h2[k - 1]);
            }
        }
    }
    if h2.len() == h1.len() {
        assert(h2 =~= h1);
    } else {
        let rest = h2.drop_last();
        lemma_cleanup_goes_on(h0, h1, rest, plan, cfg, sources, n);
        let more = h2.skip(a);
        assert(more.drop_last() =~= rest.skip(a));
        assert(more.last() == h2[h2.len() - 1]);
    }
}

/// The removal of a removable directory goes on with a clean-up.
proof fn lemma_cleanup_removes(
    h0: Seq<Call>,
    h1: Seq<Call>,
    plan: PlanView,
    cfg: Config,
    sources: Seq<PathView>,
    n: nat,
    p: PathView,
    done: bool,
)
    requires
        cleanup_traced(h0, h1, plan, cfg, sources, n),
        removable(plan, sources, p),
        !cfg.cleanup.tolerate_junk ==> h0.len() < h1.len() && h1.last() == (Call::Look {
            path: p,
            empty: Some(true),
        }),
    ensures
        cleanup_traced(
            h0,
            h1.push(Call::RemoveDir { path: p, done }),
            plan,
            cfg,
            sources,
            if done {
                n + 1
            } else {
                n
            },
        ),
{
    let h2 = h1.push(Call::RemoveDir { path: p, done });
    let a = h0.len() as int;
    let more = h2.skip(a);
    assert(more.drop_last() =~= h1.skip(a));
    assert(more.last() == h2.last());
    assert forall|k: int| a <= k < h2.len() implies may_call(#[trigger] h2[k], plan, cfg, sources)
        && (h2[k] is RemoveDir && !cfg.cleanup.tolerate_junk ==> a < k && h2[k - 1] == (Call::Look {
        path: h2[k]->RemoveDir_path,
        empty: Some(true),
    })) by {
        if k < h1.len() {
            assert(h1[k] == h2[k]);
            if a < k {
                assert(h1[k - 1] == h2[k - 1]);
            }
        }
    }
}

/// Adds a directory that could not be removed to a report.
fn push_reason(report: &mut RunReport, path: &FilePath, e: IoError)
    ensures
        reasons_view(final(report).dirs_not_removable@) == reasons_view(
            old(report).dirs_not_removable@,
        ).push((path.deep_view(), e.message@)),
        only_removals(*old(report), *final(report)),
        final(report).dirs_removed == old(report).dirs_removed,
        final(report).cancelled == old(report).cancelled,
{
    let ghost before = reasons_view(report.dirs_not_removable@);
    report.dirs_not_removable.push((path.duplicate(), e.message));
    proof {
        assert(reasons_view(report.dirs_not_removable@) =~= before.push(
            (path.deep_view(), e.message@),
        ));
    }
}

/// Removes the directories that moves have vacated, deepest first. One that
/// cannot be removed is reported.
pub fn remove_empty_directories<F: FileSystem, S: JournalStore>(
    fs: &mut F,
    plan: &Plan,
    cfg: &Config,
    opts: &ExecOptions,
    sources: &Vec<FilePath>,
    journal: &mut Journal<S>,
    report: &mut RunReport,
) -> (r: Result<(), FatalReason>)
    ensures
        old(fs).is_steady() ==> final(fs).is_steady(),
        cleaned(
            old(fs).tree(),
            final(fs).tree(),
            plan.deep_view(),
            *cfg,
            sources.deep_view(),
        ),
        !cfg.cleanup.remove_empty_dirs ==> {
            &&& final(fs).tree() == old(fs).tree()
            &&& final(fs).history() == old(fs).history()
        },
        final(journal).same_binding(old(journal)),
        leaves_nothing_open(old(journal).records(), final(journal).records()),
        only_removals(*old(report), *final(report)),
        // Nothing is asked for but what the clean-up may do, and what has gone
        // is counted.
        exists|gone: Seq<PathView>| #[trigger]
            are_gone(old(fs).tree(), final(fs).tree(), gone) && cleanup_traced(
                old(fs).history(),
                final(fs).history(),
                plan.deep_view(),
                *cfg,
                sources.deep_view(),
                gone.len(),
            ) && (r is Ok ==> final(report).dirs_removed == counted_up(
                old(report).dirs_removed,
                gone.len(),
            )),
        r matches Err(f) ==> unwritable(f, *old(journal), *final(journal)),
        !cfg.cleanup.tolerate_junk ==> final(fs).tree() == old(fs).tree() || has_begun(
            *old(journal),
            *final(journal),
        ),
        r is Ok && cfg.cleanup.remove_empty_dirs ==> exists|
            paths: Seq<PathView>,
            order: Seq<usize>,
            told: Seq<Removal>,
            trees: Seq<Tree>,
        | #[trigger]
            removal_steps_in(
                trees,
                old(fs).tree(),
                final(fs).tree(),
                in_order(paths, order),
                *cfg,
                told,
                old(fs).is_steady(),
            ) && #[trigger] dirs_removed_as(
                *old(journal),
                *final(journal),
                *old(report),
                *final(report),
                plan.deep_view(),
                sources.deep_view(),
                paths,
                order,
                told,
            ) && (!final(report).cancelled ==> told.len() == paths.len()),
        !cfg.cleanup.remove_empty_dirs ==> r is Ok && *final(report) == *old(report)
            && *final(journal) == *old(journal),
        // Once the run is cancelled, nothing is done, and the report says so.
        opts.cancel.is_spent() ==> {
            &&& r is Ok
            &&& final(fs).tree() == old(fs).tree()
            &&& final(fs).history() == old(fs).history()
            &&& *final(journal) == *old(journal)
            &&& broken_off(*old(report), *final(report), cfg.cleanup.remove_empty_dirs
                && exists|q: PathView| is_candidate(plan.deep_view(), sources.deep_view(), q))
        },
        opts.cancel.is_idle() ==> final(report).cancelled == old(report).cancelled,
{
    let ghost h0 = fs.history();
    let ghost t0 = fs.tree();
    let ghost j0 = *journal;
    let ghost r0 = *report;
    let ghost start = journal.records();
    let ghost pv = plan.deep_view();
    let ghost sv = sources.deep_view();
    let ghost mut gone: Seq<PathView> = Seq::empty();
    proof {
        assert(start =~= start.subrange(0, start.len() as int));
        assert(are_gone(t0, t0, gone));
        assert(h0.skip(h0.len() as int) =~= Seq::empty());
        assert(cleanup_traced(h0, h0, pv, *cfg, sv, 0));
    }
    if !cfg.cleanup.remove_empty_dirs {
        return Ok(());
    }
    let paths = candidates(plan, sources);
    let keys = long_first(&paths);
    let order = order_by(&keys);
    let ghost cv = paths.deep_view();
    let ghost todo = in_order(cv, order@);
    let ghost mut told: Seq<Removal> = Seq::empty();
    let ghost steady = fs.is_steady();
    let ghost mut trees: Seq<Tree> = seq![t0];
    proof {
        assert(reasons_view(r0.dirs_not_removable@) =~= reasons_view(r0.dirs_not_removable@)
            + unremovable(todo, told));
        assert(start =~= start + step_records(
            j0,
            JournalOp::DirRemove,
            removal_steps(todo, told),
        ));
        assert(dirs_removed_as(j0, j0, r0, r0, pv, sv, cv, order@, told));
    }
    let mut n: usize = 0;
    while n < order.len()
        invariant
            steady == old(fs).is_steady(),
            steady ==> fs.is_steady(),
            removal_steps_in(trees, t0, fs.tree(), todo, *cfg, told, steady),
            h0 == old(fs).history(),
            opts.cancel.is_spent() ==> n == 0 && fs.tree() == t0 && fs.history() == h0 && *journal
                == j0 && *report == r0,
            report.cancelled == r0.cancelled,
            cleanup_traced(h0, fs.history(), pv, *cfg, sv, gone.len()),
            n <= order@.len(),
            is_order(keys@, order@),
            keys@ == removal_keys(cv),
            cv == paths.deep_view(),
            todo == in_order(cv, order@),
            told.len() == n,
            cfg.cleanup.remove_empty_dirs,
            pv == plan.deep_view(),
            sv == sources.deep_view(),
            start == j0.records(),
            t0 == old(fs).tree(),
            j0 == *old(journal),
            r0 == *old(report),
            dirs_removed_as(j0, *journal, r0, *report, pv, sv, cv, order@, told),
            cleaned(t0, fs.tree(), pv, *cfg, sv),
            are_gone(t0, fs.tree(), gone),
            gone.len() == removed_count(told),
            leaves_nothing_open(start, journal.records()),
            !cfg.cleanup.tolerate_junk ==> fs.tree() == t0 || has_begun(j0, *journal),
            only_removals(r0, *report),
        decreases order@.len() - n,
    {
        if heed(report, opts.cancel.is_cancelled()) {
            proof {
                assert(is_candidate(pv, sv, cv[order@[n as int] as int])) by {
                    assert(cv.contains(cv[order@[n as int] as int]));
                }
                assert(dirs_removed_as(j0, *journal, r0, *report, pv, sv, cv, order@, told));
            }
            return Ok(());
        }
        let path = &paths[order[n]];
        let ghost p = path.deep_view();
        let ghost held = told;
        let ghost j1 = *journal;
        let ghost r1 = *report;
        let ghost ta = fs.tree();
        let ghost ha = fs.history();
        n = n + 1;
        proof {
            assert(cv[order@[n - 1] as int] == p);
            assert(todo[n - 1] == p);
            assert(cv.contains(p));
        }
        if !inside_root(path, &plan.root) || holds_path(&plan.dir_creates, path) {
            proof {
                told = held.push(Removal::Kept);
                lemma_one_more_step_in(
                    trees,
                    t0,
                    ta,
                    fs.tree(),
                    todo,
                    *cfg,
                    held,
                    told.last(),
                    steady,
                );
                trees = trees.push(fs.tree());
                lemma_one_more_removal(
                    j0,
                    j1,
                    j1,
                    r0,
                    r1,
                    r1,
                    pv,
                    sv,
                    cv,
                    order@,
                    held,
                    told.last(),
                );
            }
            continue;
        }
        proof {
            assert(removable(pv, sv, p));
        }
        let emptied = dir_empty_enough(fs, path, cfg);
        proof {
            assert forall|k: int| ha.len() <= k < fs.history().len() implies may_call(
                #[trigger] fs.history()[k],
                pv,
                *cfg,
                sv,
            ) && !(fs.history()[k] is RemoveDir) by {
                assert(asks(fs.history()[k]));
            }
            lemma_cleanup_goes_on(h0, ha, fs.history(), pv, *cfg, sv, gone.len());
        }
        match emptied {
            Ok(true) => {},
            Ok(false) => {
                proof {
                    told = held.push(Removal::Filled);
                    lemma_one_more_step_in(
                        trees,
                        t0,
                        ta,
                        fs.tree(),
                        todo,
                        *cfg,
                        held,
                        told.last(),
                        steady,
                    );
                    trees = trees.push(fs.tree());
                    lemma_one_more_removal(
                        j0,
                        j1,
                        j1,
                        r0,
                        r1,
                        r1,
                        pv,
                        sv,
                        cv,
                        order@,
                        held,
                        told.last(),
                    );
                }
                continue;
            },
            Err(e) => {
                proof {
                    told = held.push(Removal::Unread(e.deep_view()));
                }
                push_reason(report, path, e);
                proof {
                    lemma_one_more_step_in(
                        trees,
                        t0,
                        ta,
                        fs.tree(),
                        todo,
                        *cfg,
                        held,
                        told.last(),
                        steady,
                    );
                    trees = trees.push(fs.tree());
                    lemma_one_more_removal(
                        j0,
                        j1,
                        j1,
                        r0,
                        r1,
                        *report,
                        pv,
                        sv,
                        cv,
                        order@,
                        held,
                        told.last(),
                    );
                }
                continue;
            },
        }
        if cfg.cleanup.tolerate_junk {
            let ghost t1 = fs.tree();
            let ghost hb = fs.history();
            let deleted = delete_junk(fs, path, cfg);
            proof {
                lemma_cleanup_goes_on(h0, hb, fs.history(), pv, *cfg, sv, gone.len());
                lemma_junk_is_clean(t0, t1, fs.tree(), pv, *cfg, sv, p, gone);
            }
            match deleted {
                Ok(()) => {},
                Err(e) => {
                    proof {
                        told = held.push(Removal::Littered(e.deep_view()));
                    }
                    push_reason(report, path, e);
                    proof {
                        lemma_one_more_step_in(
                            trees,
                            t0,
                            ta,
                            fs.tree(),
                            todo,
                            *cfg,
                            held,
                            told.last(),
                            steady,
                        );
                        trees = trees.push(fs.tree());
                        lemma_one_more_removal(
                            j0,
                            j1,
                            j1,
                            r0,
                            r1,
                            *report,
                            pv,
                            sv,
                            cv,
                            order@,
                            held,
                            told.last(),
                        );
                    }
                    continue;
                },
            }
        }
        let seq: u64 = match open_step(
            journal,
            JournalOp::DirRemove,
            Some(path),
            None,
            Ghost(start),
        ) {
            Ok(s) => s,
            Err(fatal) => {
                return Err(fatal);
            },
        };
        let ghost t2 = fs.tree();
        let ghost hc = fs.history();
        let removed = fs.remove_dir(path);
        proof {
            lemma_cleanup_removes(h0, hc, pv, *cfg, sv, gone.len(), p, removed is Ok);
        }
        match removed {
            Ok(()) => {
                proof {
                    lemma_one_more_is_gone(t0, t2, gone, p);
                    gone = gone.push(p);
                    assert(cleaned(t0, fs.tree(), pv, *cfg, sv));
                }
                match close_step(
                    journal,
                    seq,
                    JournalOp::DirRemove,
                    Some(path),
                    None,
                    None,
                    Ghost(start),
                ) {
                    Ok(()) => {},
                    Err(fatal) => {
                        return Err(fatal);
                    },
                }
                report.dirs_removed = bump(report.dirs_removed);
                proof {
                    told = held.push(Removal::Removed);
                    lemma_one_more_step_in(
                        trees,
                        t0,
                        ta,
                        fs.tree(),
                        todo,
                        *cfg,
                        held,
                        told.last(),
                        steady,
                    );
                    trees = trees.push(fs.tree());
                    lemma_one_more_removal(
                        j0,
                        j1,
                        *journal,
                        r0,
                        r1,
                        *report,
                        pv,
                        sv,
                        cv,
                        order@,
                        held,
                        told.last(),
                    );
                }
            },
            Err(e) => {
                match close_step(
                    journal,
                    seq,
                    JournalOp::DirRemove,
                    Some(path),
                    None,
                    Some(&e),
                    Ghost(start),
                ) {
                    Ok(()) => {},
                    Err(fatal) => {
                        return Err(fatal);
                    },
                }
                proof {
                    told = held.push(Removal::Refused(e.deep_view()));
                }
                push_reason(report, path, e);
                proof {
                    lemma_one_more_step_in(
                        trees,
                        t0,
                        ta,
                        fs.tree(),
                        todo,
                        *cfg,
                        held,
                        told.last(),
                        steady,
                    );
                    trees = trees.push(fs.tree());
                    lemma_one_more_removal(
                        j0,
                        j1,
                        *journal,
                        r0,
                        r1,
                        *report,
                        pv,
                        sv,
                        cv,
                        order@,
                        held,
                        told.last(),
                    );
                }
            },
        }
    }
    proof {
        if opts.cancel.is_spent() {
            assert forall|q: PathView| !is_candidate(pv, sv, q) by {
                if is_candidate(pv, sv, q) {
                    assert(cv.contains(q));
                }
            }
        }
    }
    Ok(())
}

/// What comes of one more directory.
proof fn lemma_one_more_removal<S: JournalStore>(
    j0: Journal<S>,
    j1: Journal<S>,
    j2: Journal<S>,
    r0: RunReport,
    r1: RunReport,
    r2: RunReport,
    plan: PlanView,
    sources: Seq<PathView>,
    paths: Seq<PathView>,
    order: Seq<usize>,
    told: Seq<Removal>,
    a: Removal,
)
    requires
        dirs_removed_as(j0, j1, r0, r1, plan, sources, paths, order, told),
        told.len() < paths.len(),
        (a is Kept) == !removable(plan, sources, in_order(paths, order)[told.len() as int]),
        r2.dirs_removed == (if a is Removed {
            counted_up(r1.dirs_removed, 1)
        } else {
            r1.dirs_removed
        }),
        reasons_view(r2.dirs_not_removable@) == (match a {
            Removal::Unread(e) | Removal::Littered(e) | Removal::Refused(e) => reasons_view(
                r1.dirs_not_removable@,
            ).push((in_order(paths, order)[told.len() as int], e.message)),
            _ => reasons_view(r1.dirs_not_removable@),
        }),
        match a {
            Removal::Removed | Removal::Refused(_) => {
                let from = Some(in_order(paths, order)[told.len() as int]);
                let status = if a is Removed {
                    "SUCCESS"@
                } else {
                    "FAIL"@
                };
                let error = if a is Removed {
                    None
                } else {
                    Some(a->Refused_0.message)
                };
                &&& j2.same_binding(&j1)
                &&& j2.next() == j1.next() + 1
                &&& j2.records() == j1.records().push(
                    j1.intent(JournalOp::DirRemove, from, None),
                ).push(
                    j1.outcome(j1.next(), JournalOp::DirRemove, from, None, status, None, error),
                )
            },
            _ => j2 == j1,
        },
    ensures
        dirs_removed_as(j0, j2, r0, r2, plan, sources, paths, order, told.push(a)),
        removed_count(told.push(a)) == removed_count(told) + if a is Removed {
            1nat
        } else {
            0nat
        },
{
    let todo = in_order(paths, order);
    let more = told.push(a);
    assert(more.drop_last() =~= told);
    assert(reasons_view(r2.dirs_not_removable@) =~= reasons_view(r0.dirs_not_removable@)
        + unremovable(todo, more));
    assert forall|k: int| 0 <= k < more.len() implies (#[trigger] more[k] is Kept) == !removable(
        plan,
        sources,
        todo[k],
    ) by {
        if k < told.len() {
            assert(told[k] == more[k]);
        }
    }
    let from = Some(todo[told.len() as int]);
    match a {
        Removal::Removed => {
            let step = StepView { from, to: None, error: None };
            lemma_one_more_step(
                j0,
                j1,
                j2,
                JournalOp::DirRemove,
                removal_steps(todo, told),
                step,
            );
        },
        Removal::Refused(e) => {
            let step = StepView { from, to: None, error: Some(e.message) };
            lemma_one_more_step(
                j0,
                j1,
                j2,
                JournalOp::DirRemove,
                removal_steps(todo, told),
                step,
            );
        },
        _ => {},
    }
}

/// Removing what does not matter from a removable directory is cleaning up.
proof fn lemma_junk_is_clean(
    t0: Tree,
    t1: Tree,
    t2: Tree,
    plan: PlanView,
    cfg: Config,
    sources: Seq<PathView>,
    p: PathView,
    gone: Seq<PathView>,
)
    requires
        cleaned(t0, t1, plan, cfg, sources),
        are_gone(t0, t1, gone),
        removable(plan, sources, p),
        cfg.cleanup.tolerate_junk,
        shrunk(t1, t2),
        forall|q: PathView| #[trigger]
            t1.dom().contains(q) && !t2.dom().contains(q) ==> !is_dir(t1, q) && q.is_child_of(p)
                && is_junk(cfg.cleanup.junk_names.deep_view(), q.parts.last()),
    ensures
        cleaned(t0, t2, plan, cfg, sources),
        are_gone(t0, t2, gone),
{
    assert forall|q: PathView| #[trigger] t2.dom().contains(q) implies t0.dom().contains(q)
        && t2[q] == t0[q] by {
        assert(t1.dom().contains(q));
    }
    assert forall|q: PathView| #[trigger]
        t0.dom().contains(q) && !t2.dom().contains(q) implies may_go(
        t0,
        plan,
        cfg,
        sources,
        q,
    ) by {
        if t1.dom().contains(q) {
            assert(t1[q] == t0[q]);
        }
    }
    assert forall|q: PathView| #[trigger]
        gone.contains(q) <==> is_dir(t0, q) && !t2.dom().contains(q) by {
        if t1.dom().contains(q) {
            assert(t1[q] == t0[q]);
        } else if t2.dom().contains(q) {
            assert(t1.dom().contains(q));
        }
    }
    assert forall|d: PathView, q: PathView| #[trigger]
        is_dir(t0, d) && !t2.dom().contains(d) && #[trigger] t2.dom().contains(
        q,
    ) implies !q.is_child_of(d) by {
        assert(t1.dom().contains(q));
        if t1.dom().contains(d) {
            assert(t1[d] == t0[d]);
        }
    }
}

} // verus!
