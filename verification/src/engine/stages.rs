//! The last stages of planning, which all pipelines share: validating
//! destinations and putting the plan together.

use crate::domain::config::Config;
use crate::domain::duplicate::Duplicate;
use crate::domain::error::{Diagnostic, DiagnosticView, Severity};
use crate::domain::fs::{is_dir, lists_dir, only_asks, DirEntry, FileSystem, IoError, Tree};
use crate::domain::path::{FilePath, PathView};
use crate::domain::path_order::{insert_in_order, ordered_of};
use crate::domain::plan::{
    copy_names, no_stats, Action, ActionView, DirRemoval, DirRemovalId, DirRemovalView, DirRename,
    DirRenameId, DirRenameView, FieldName, ItemId, Plan, PlanItem, PlanItemView,
    PlanStats, PlanView,
};
use crate::domain::volume::VolumeSemantics;
use crate::engine::draft::{drafts, same_rest, DraftView, Drafted};
use crate::engine::reconcile::{
    copy_path, goes_near, law_reconciled_move_was_planned,
    law_reconciling_leaves_other_items_alone, reconciled, Findings,
};
use crate::engine::validate::{
    is_contained, remarks, validate_destination, verdict, Validation, ValidationView,
};
use crate::text;
use vstd::prelude::*;

verus! {

/// The destination from the root; the destination itself where that is not
/// known.
pub open spec fn relative_of(d: DraftView) -> PathView {
    match d.destination_relative {
        Some(p) => p,
        None => d.destination->0,
    }
}

/// An item whose destination has been validated. One that cannot be used asks
/// for a review of the given fields.
pub open spec fn checked(d: DraftView, v: VolumeSemantics, missing: Seq<FieldName>) -> DraftView {
    match d.destination {
        None => d,
        Some(dest) => DraftView {
            action: match verdict(d.source, dest, relative_of(d), v) {
                ValidationView::Passed => ActionView::Move { from: d.source, to: dest },
                ValidationView::NoOp => ActionView::NoOp,
                _ => ActionView::NeedsReview { path: d.source, missing },
            },
            ..d
        },
    }
}

/// Items whose destinations have been validated.
pub open spec fn all_checked(
    ds: Seq<DraftView>,
    v: VolumeSemantics,
    missing: Seq<FieldName>,
) -> Seq<DraftView> {
    Seq::new(ds.len(), |i: int| checked(ds[i], v, missing))
}

/// What is said of an item whose destination leads out of the root.
pub open spec fn breach_note(id: ItemId, dest: PathView) -> DiagnosticView {
    DiagnosticView {
        severity: Severity::Failure,
        item: Some(id),
        stage: "validate"@,
        message: "destination escapes root: "@ + dest.text(),
        io_kind: None,
    }
}

/// What is said of the destination of an item.
pub open spec fn check_notes(d: DraftView, v: VolumeSemantics) -> Seq<DiagnosticView> {
    match d.destination {
        None => Seq::empty(),
        Some(dest) => {
            let said = remarks(d.source, dest, relative_of(d), v);
            if verdict(d.source, dest, relative_of(d), v) is ContainmentBreach {
                said.push(breach_note(d.id, dest))
            } else {
                said
            }
        },
    }
}

/// What is said of the destinations of items.
pub open spec fn all_check_notes(ds: Seq<DraftView>, v: VolumeSemantics) -> Seq<DiagnosticView>
    decreases ds.len(),
{
    if ds.len() == 0 {
        Seq::empty()
    } else {
        all_check_notes(ds.drop_last(), v) + check_notes(ds.last(), v)
    }
}

/// Appends notes.
pub fn append_notes(notes: &mut Vec<Diagnostic>, more: Vec<Diagnostic>)
    ensures
        final(notes).deep_view() == old(notes).deep_view() + more.deep_view(),
{
    let ghost before = notes.deep_view();
    let mut more = more;
    let ghost added = more.deep_view();
    notes.append(&mut more);
    proof {
        assert(notes.deep_view() =~= before + added);
    }
}

/// Validates the destination of an item.
fn validate_item<T: Drafted>(
    item: &mut T,
    root: &FilePath,
    volume: &VolumeSemantics,
    missing: &Vec<FieldName>,
    notes: &mut Vec<Diagnostic>,
)
    ensures
        final(item).draft() == checked(old(item).draft(), *volume, missing@),
        final(item).identity() == old(item).identity(),
        final(item).rest() == old(item).rest(),
        final(notes).deep_view() == old(notes).deep_view() + check_notes(
            old(item).draft(),
            *volume,
        ),
{
    let ghost d = item.draft();
    let ghost before = notes.deep_view();
    let dest = match item.destination() {
        Some(p) => p.duplicate(),
        None => {
            proof {
                assert(before + check_notes(d, *volume) =~= before);
            }
            return;
        },
    };
    let rel = match item.destination_relative() {
        Some(p) => p.duplicate(),
        None => dest.duplicate(),
    };
    let (validation, diags) = validate_destination(root, item.source(), &dest, &rel, volume);
    append_notes(notes, diags);
    let source = item.source().duplicate();
    match validation {
        Validation::NoOp => {
            item.set_action(Action::NoOp);
        },
        Validation::Passed => {
            item.set_action(Action::Move { from: source, to: dest });
        },
        Validation::ContainmentBreach { path } => {
            item.set_action(Action::NeedsReview { path: source, missing: copy_names(missing) });
            let ghost held = notes.deep_view();
            let message = "destination escapes root: ".to_string().concat(&path.to_text());
            notes.push(
                Diagnostic {
                    severity: Severity::Failure,
                    item: Some(item.id()),
                    stage: "validate".to_string(),
                    message,
                    io_kind: None,
                },
            );
            proof {
                assert(notes.deep_view() =~= held.push(breach_note(d.id, dest.deep_view())));
                assert(notes.deep_view() =~= before + check_notes(d, *volume));
            }
        },
        _ => {
            item.set_action(Action::NeedsReview { path: source, missing: copy_names(missing) });
        },
    }
}

/// Validates the destinations of items. Where one cannot be used, the item
/// asks for a review of the given fields.
pub fn validate_items<T: Drafted>(
    items: &mut Vec<T>,
    root: &FilePath,
    volume: &VolumeSemantics,
    missing: &Vec<FieldName>,
    notes: &mut Vec<Diagnostic>,
)
    ensures
        drafts(final(items)@) == all_checked(drafts(old(items)@), *volume, missing@),
        same_rest(old(items)@, final(items)@),
        final(notes).deep_view() == old(notes).deep_view() + all_check_notes(
            drafts(old(items)@),
            *volume,
        ),
{
    let ghost start = items@;
    let ghost ds = drafts(start);
    let ghost before = notes.deep_view();
    let mut i: usize = 0;
    proof {
        assert(before + all_check_notes(ds.take(0), *volume) =~= before);
    }
    while i < items.len()
        invariant
            i <= items@.len(),
            start == old(items)@,
            ds == drafts(start),
            before == old(notes).deep_view(),
            items@.len() == start.len(),
            same_rest(start, items@),
            forall|k: int|
                0 <= k < i ==> (#[trigger] items@[k]).draft() == checked(ds[k], *volume, missing@),
            forall|k: int| i <= k < start.len() ==> (#[trigger] items@[k]) == start[k],
            notes.deep_view() == before + all_check_notes(ds.take(i as int), *volume),
        decreases items@.len() - i,
    {
        let ghost held = items@;
        validate_item(&mut items[i], root, volume, missing, notes);
        proof {
            let t = ds.take(i + 1);
            assert(t.drop_last() =~= ds.take(i as int));
            assert(t.last() == held[i as int].draft());
            assert(notes.deep_view() =~= before + all_check_notes(t, *volume));
            assert forall|k: int| 0 <= k < start.len() implies (#[trigger] start[k]).identity()
                == items@[k].identity() && start[k].rest() == items@[k].rest() by {
                assert(start[k].identity() == held[k].identity());
                if k != i {
                    assert(items@[k] == held[k]);
                }
            }
            assert forall|k: int| 0 <= k < i + 1 implies (#[trigger] items@[k]).draft() == checked(
                ds[k],
                *volume,
                missing@,
            ) by {
                if k < i {
                    assert(items@[k] == held[k]);
                }
            }
        }
        i = i + 1;
    }
    proof {
        assert(ds.take(i as int) =~= ds);
        assert(drafts(items@) =~= all_checked(ds, *volume, missing@));
    }
}

/// The common part of an item, as the plan has it.
pub open spec fn plan_item(d: DraftView) -> PlanItemView {
    PlanItemView {
        id: d.id,
        source: d.source,
        relative: d.relative,
        class: d.class,
        readiness: d.readiness,
        action: d.action,
        destination: d.destination,
    }
}

/// The items of the plan.
pub open spec fn plan_items(ds: Seq<DraftView>) -> Seq<PlanItemView> {
    Seq::new(ds.len(), |i: int| plan_item(ds[i]))
}

/// Counts with one more item.
pub open spec fn with_one(s: PlanStats, a: ActionView) -> PlanStats {
    let t = PlanStats { total: (s.total + 1) as u64, ..s };
    match a {
        ActionView::NoOp => PlanStats { noop: (s.noop + 1) as u64, ..t },
        ActionView::Move { .. } => PlanStats { ready: (s.ready + 1) as u64, ..t },
        ActionView::Skip { .. } => PlanStats { skipped: (s.skipped + 1) as u64, ..t },
        ActionView::Conflict { .. } => PlanStats { conflicts: (s.conflicts + 1) as u64, ..t },
        ActionView::Duplicate { .. } => PlanStats { duplicates: (s.duplicates + 1) as u64, ..t },
        ActionView::NeedsReview { .. } => PlanStats {
            needs_review: (s.needs_review + 1) as u64,
            ..t
        },
    }
}

/// The counts of items.
pub open spec fn stats_of(ds: Seq<DraftView>) -> PlanStats
    decreases ds.len(),
{
    if ds.len() == 0 {
        no_stats()
    } else {
        with_one(stats_of(ds.drop_last()), ds.last().action)
    }
}

/// Whether no count exceeds a number.
spec fn within(s: PlanStats, n: int) -> bool {
    s.total <= n && s.ready <= n && s.noop <= n && s.needs_review <= n && s.conflicts <= n
        && s.duplicates <= n && s.skipped <= n
}

/// Counts one more item.
fn count_action(s: PlanStats, a: &Action, Ghost(n): Ghost<int>) -> (r: PlanStats)
    requires
        within(s, n),
        0 <= n < u64::MAX,
    ensures
        r == with_one(s, a.deep_view()),
        within(r, n + 1),
{
    let mut t = s;
    t.total = s.total + 1;
    match a {
        Action::NoOp => {
            t.noop = s.noop + 1;
        },
        Action::Move { .. } => {
            t.ready = s.ready + 1;
        },
        Action::Skip { .. } => {
            t.skipped = s.skipped + 1;
        },
        Action::Conflict { .. } => {
            t.conflicts = s.conflicts + 1;
        },
        Action::Duplicate { .. } => {
            t.duplicates = s.duplicates + 1;
        },
        Action::NeedsReview { .. } => {
            t.needs_review = s.needs_review + 1;
        },
    }
    t
}

/// The directories that the destinations of items are in.
pub open spec fn dest_dirs(ds: Seq<DraftView>) -> Seq<PathView>
    decreases ds.len(),
{
    if ds.len() == 0 {
        Seq::empty()
    } else {
        let rest = dest_dirs(ds.drop_last());
        match ds.last().destination {
            Some(p) => match p.parent() {
                Some(d) => rest.push(d),
                None => rest,
            },
            None => rest,
        }
    }
}

/// The directory that an item is to be moved out of, unless it is the root.
pub open spec fn vacated_by(a: ActionView, root: PathView) -> Option<PathView> {
    match a {
        ActionView::Move { from, .. } => match from.parent() {
            Some(d) if d != root => Some(d),
            _ => None,
        },
        _ => None,
    }
}

/// The directories that items are to be moved out of, the root left out.
pub open spec fn vacated_dirs(ds: Seq<DraftView>, root: PathView) -> Seq<PathView>
    decreases ds.len(),
{
    if ds.len() == 0 {
        Seq::empty()
    } else {
        let rest = vacated_dirs(ds.drop_last(), root);
        match vacated_by(ds.last().action, root) {
            Some(d) => rest.push(d),
            None => rest,
        }
    }
}

/// The directory that an item is to be moved out of, unless it is the root.
fn vacates(a: &Action, root: &FilePath) -> (r: Option<FilePath>)
    ensures
        r.deep_view() == vacated_by(a.deep_view(), root.deep_view()),
{
    match a {
        Action::Move { from, .. } => match from.parent() {
            Some(d) => if d.same(root) {
                None
            } else {
                Some(d)
            },
            None => None,
        },
        _ => None,
    }
}

/// The item, as the plan has it.
fn to_plan_item<T: Drafted>(item: &T) -> (r: PlanItem)
    ensures
        r.deep_view() == plan_item(item.draft()),
{
    let destination = match item.destination() {
        Some(p) => Some(p.duplicate()),
        None => None,
    };
    PlanItem {
        id: item.id(),
        source: item.source().duplicate(),
        relative: item.relative().duplicate(),
        class: item.class(),
        readiness: item.readiness().duplicate(),
        action: item.action().duplicate(),
        destination,
    }
}

/// What putting items into a plan yields.
struct Gathered {
    items: Vec<PlanItem>,
    stats: PlanStats,
    creates: Vec<FilePath>,
    vacated: Vec<FilePath>,
}

/// Puts items into a plan.
fn gather<T: Drafted>(items: &Vec<T>, root: &FilePath) -> (r: Gathered)
    ensures
        r.items.deep_view() == plan_items(drafts(items@)),
        r.stats == stats_of(drafts(items@)),
        ordered_of(r.creates.deep_view(), dest_dirs(drafts(items@)), false),
        ordered_of(r.vacated.deep_view(), vacated_dirs(drafts(items@), root.deep_view()), true),
{
    let ghost ds = drafts(items@);
    let ghost rv = root.deep_view();
    let mut out: Vec<PlanItem> = Vec::new();
    let mut stats = PlanStats::default();
    let mut creates: Vec<FilePath> = Vec::new();
    let mut vacated: Vec<FilePath> = Vec::new();
    let mut i: usize = 0;
    proof {
        assert(out.deep_view() =~= plan_items(ds.take(0)));
    }
    while i < items.len()
        invariant
            i <= items@.len(),
            ds == drafts(items@),
            rv == root.deep_view(),
            out.deep_view() == plan_items(ds.take(i as int)),
            stats == stats_of(ds.take(i as int)),
            within(stats, i as int),
            ordered_of(creates.deep_view(), dest_dirs(ds.take(i as int)), false),
            ordered_of(vacated.deep_view(), vacated_dirs(ds.take(i as int), rv), true),
        decreases items@.len() - i,
    {
        let item = &items[i];
        let ghost t = ds.take(i + 1);
        proof {
            assert(t.drop_last() =~= ds.take(i as int));
            assert(t.last() == item.draft());
        }
        if let Some(dest) = item.destination() {
            if let Some(dir) = dest.parent() {
                let ghost was = dest_dirs(ds.take(i as int));
                let ghost dv = dir.deep_view();
                insert_in_order(&mut creates, dir, false);
                proof {
                    lemma_push_contains(was, dv);
                }
            }
        }
        if let Some(dir) = vacates(item.action(), root) {
            let ghost was = vacated_dirs(ds.take(i as int), rv);
            let ghost dv = dir.deep_view();
            insert_in_order(&mut vacated, dir, true);
            proof {
                lemma_push_contains(was, dv);
            }
        }
        stats = count_action(stats, item.action(), Ghost(i as int));
        let ghost held = out.deep_view();
        out.push(to_plan_item(item));
        proof {
            assert(out.deep_view() =~= held.push(plan_item(item.draft())));
            assert(out.deep_view() =~= plan_items(t));
        }
        i = i + 1;
    }
    proof {
        assert(ds.take(i as int) =~= ds);
    }
    Gathered { items: out, stats, creates, vacated }
}

/// What a list with one more holds.
proof fn lemma_push_contains(list: Seq<PathView>, p: PathView)
    ensures
        forall|q: PathView| #[trigger] list.push(p).contains(q) <==> list.contains(q) || q == p,
{
    assert forall|q: PathView| #[trigger] list.push(p).contains(q) <==> list.contains(q) || q
        == p by {
        if list.contains(q) {
            let k = choose|k: int| 0 <= k < list.len() && list[k] == q;
            assert(list.push(p)[k] == q);
        }
        if q == p {
            assert(list.push(p)[list.len() as int] == q);
        }
    }
}

/// Whether an entry is a directory with a name that the volume takes for the
/// given one, though it is written otherwise.
pub open spec fn miswritten(e: Result<DirEntry, IoError>, name: Seq<char>, v: VolumeSemantics) -> bool {
    e matches Ok(d) && d.is_dir && d.file_name@ != name && v.key(d.file_name@) == v.key(name)
}

/// Whether an entry is a directory with the given name.
pub open spec fn well_written(e: Result<DirEntry, IoError>, name: Seq<char>) -> bool {
    e matches Ok(d) && d.is_dir && d.file_name@ == name
}

/// The last miswritten directory among entries, if none is well written.
pub open spec fn last_miswritten(
    list: Seq<Result<DirEntry, IoError>>,
    name: Seq<char>,
    v: VolumeSemantics,
) -> Option<PathView>
    decreases list.len(),
{
    if list.len() == 0 {
        None
    } else if miswritten(list.last(), name, v) {
        Some(list.last()->Ok_0.path.deep_view())
    } else {
        last_miswritten(list.drop_last(), name, v)
    }
}

/// Whether there is a directory among entries that has the given name.
pub open spec fn has_well_written(list: Seq<Result<DirEntry, IoError>>, name: Seq<char>) -> bool {
    exists|i: int| 0 <= i < list.len() && well_written(#[trigger] list[i], name)
}

/// The directory that is to be renamed for one with the given name.
pub fn pick_case_rename(
    list: &Vec<Result<DirEntry, IoError>>,
    name: &str,
    volume: &VolumeSemantics,
) -> (r: Option<FilePath>)
    ensures
        r.deep_view() == (if has_well_written(list@, name@) {
            None
        } else {
            last_miswritten(list@, name@, *volume)
        }),
{
    let wanted = volume.collision_key(name);
    let mut found: Option<FilePath> = None;
    let mut i: usize = 0;
    while i < list.len()
        invariant
            i <= list@.len(),
            wanted@ == volume.key(name@),
            forall|k: int| 0 <= k < i ==> !well_written(#[trigger] list@[k], name@),
            found.deep_view() == last_miswritten(list@.take(i as int), name@, *volume),
        decreases list@.len() - i,
    {
        proof {
            assert(list@.take(i + 1).drop_last() =~= list@.take(i as int));
            assert(list@.take(i + 1).last() == list@[i as int]);
        }
        if let Ok(entry) = &list[i] {
            if entry.is_dir {
                if text::same_text(&entry.file_name, name) {
                    proof {
                        assert(well_written(list@[i as int], name@));
                    }
                    return None;
                }
                let key = volume.collision_key(&entry.file_name);
                if text::same_text(&key, &wanted) {
                    found = Some(entry.path.duplicate());
                }
            }
        }
        i = i + 1;
    }
    proof {
        assert(list@.take(i as int) =~= list@);
    }
    found
}

/// Whether a directory may be renamed to a path: it stands where the path
/// would, under another name that the volume takes for the same.
pub open spec fn may_rename(t: Tree, from: PathView, to: PathView, v: VolumeSemantics) -> bool {
    &&& to.parent() is Some
    &&& to.file_name() is Some
    &&& t.dom().contains(from)
    &&& from.is_child_of(to.parent()->0)
    &&& v.key(from.parts.last()) == v.key(to.file_name()->0)
    &&& from.parts.last() != to.file_name()->0
    &&& !(v.case_sensitive && v.normalisation_sensitive)
}

/// What holds of the entry that is last miswritten.
proof fn lemma_last_miswritten(
    list: Seq<Result<DirEntry, IoError>>,
    name: Seq<char>,
    v: VolumeSemantics,
)
    requires
        last_miswritten(list, name, v) is Some,
    ensures
        exists|i: int|
            0 <= i < list.len() && miswritten(#[trigger] list[i], name, v)
                && list[i]->Ok_0.path.deep_view() == last_miswritten(list, name, v)->0,
{
    assert(list.take(list.len() as int) =~= list);
    lemma_last_miswritten_at(list, name, v, list.len() as int);
}

/// The entry that is last miswritten among the first ones is one of them.
proof fn lemma_last_miswritten_at(
    list: Seq<Result<DirEntry, IoError>>,
    name: Seq<char>,
    v: VolumeSemantics,
    n: int,
)
    requires
        0 <= n <= list.len(),
        last_miswritten(list.take(n), name, v) is Some,
    ensures
        exists|i: int|
            0 <= i < n && miswritten(#[trigger] list[i], name, v)
                && list[i]->Ok_0.path.deep_view() == last_miswritten(list.take(n), name, v)->0,
    decreases n,
{
    assert(list.take(n).drop_last() =~= list.take(n - 1));
    assert(list.take(n).last() == list[n - 1]);
    if !miswritten(list[n - 1], name, v) {
        lemma_last_miswritten_at(list, name, v, n - 1);
    }
}

/// Whether a listing is one of the directory that a path is to stand in. There
/// may be none.
pub open spec fn lists_parent(
    t: Tree,
    path: PathView,
    list: Option<Seq<Result<DirEntry, IoError>>>,
) -> bool {
    list matches Some(l) ==> path.parent() is Some && lists_dir(l, t, path.parent()->0)
}

/// The directory that is to be renamed for a planned one, given a listing of
/// the directory that it is to stand in.
pub open spec fn rename_in(
    path: PathView,
    v: VolumeSemantics,
    list: Option<Seq<Result<DirEntry, IoError>>>,
) -> Option<PathView> {
    if v.case_sensitive && v.normalisation_sensitive || path.parent() is None || path.file_name()
        is None || list is None || has_well_written(list->0, path.file_name()->0) {
        None
    } else {
        last_miswritten(list->0, path.file_name()->0, v)
    }
}

/// Whether there is a directory to look into for one to be renamed to a path.
pub open spec fn may_look(t: Tree, path: PathView, v: VolumeSemantics) -> bool {
    &&& !(v.case_sensitive && v.normalisation_sensitive)
    &&& path.file_name() is Some
    &&& path.parent() matches Some(up) && is_dir(t, up)
}

/// What is renamed may be.
proof fn lemma_rename_in(
    t: Tree,
    path: PathView,
    v: VolumeSemantics,
    list: Option<Seq<Result<DirEntry, IoError>>>,
)
    requires
        lists_parent(t, path, list),
        rename_in(path, v, list) is Some,
    ensures
        may_rename(t, rename_in(path, v, list)->0, path, v),
{
    lemma_last_miswritten(list->0, path.file_name()->0, v);
}

/// Detect a directory that has the name of a planned one but for case or
/// normalisation.
fn detect_case_rename<F: FileSystem>(
    fs: &mut F,
    path: &FilePath,
    volume: &VolumeSemantics,
) -> (r: Option<FilePath>)
    ensures
        old(fs).is_steady() ==> final(fs).is_steady(),
        only_asks(old(fs).history(), final(fs).history()),
        final(fs).tree() == old(fs).tree(),
        exists|list: Option<Seq<Result<DirEntry, IoError>>>| #[trigger]
            lists_parent(old(fs).tree(), path.deep_view(), list) && r.deep_view() == rename_in(
                path.deep_view(),
                *volume,
                list,
            ) && (old(fs).is_steady() && may_look(old(fs).tree(), path.deep_view(), *volume)
                ==> list is Some),
{
    proof {
        assert(lists_parent(fs.tree(), path.deep_view(), None));
    }
    if volume.case_sensitive && volume.normalisation_sensitive {
        return None;
    }
    let parent = match path.parent() {
        Some(p) => p,
        None => {
            return None;
        },
    };
    let name = match path.file_name() {
        Some(n) => n,
        None => {
            return None;
        },
    };
    match fs.read_dir(&parent) {
        Ok(list) => {
            proof {
                assert(lists_parent(fs.tree(), path.deep_view(), Some(list@)));
            }
            pick_case_rename(&list, name, volume)
        },
        Err(_) => None,
    }
}

/// Whether directory renames are for planned directories, numbered from zero.
pub open spec fn renames_for(
    t: Tree,
    renames: Seq<DirRenameView>,
    creates: Seq<PathView>,
    v: VolumeSemantics,
) -> bool {
    forall|i: int| 0 <= i < renames.len() ==> is_rename_for(t, #[trigger] renames[i], i, creates, v)
}

/// Whether a directory rename is for one of the planned directories.
pub open spec fn is_rename_for(
    t: Tree,
    r: DirRenameView,
    n: int,
    creates: Seq<PathView>,
    v: VolumeSemantics,
) -> bool {
    &&& r.id == DirRenameId(n as u64)
    &&& creates.contains(r.to)
    &&& may_rename(t, r.from, r.to, v)
}

/// Whether listings are those of the directories that paths are to stand in.
pub open spec fn list_parents(
    t: Tree,
    paths: Seq<PathView>,
    lists: Seq<Option<Seq<Result<DirEntry, IoError>>>>,
) -> bool {
    &&& lists.len() == paths.len()
    &&& forall|i: int| 0 <= i < lists.len() ==> lists_parent(t, paths[i], #[trigger] lists[i])
}

/// Whether, on a steady file system, every directory that there is to look into
/// was looked into.
pub open spec fn all_looked(
    t: Tree,
    paths: Seq<PathView>,
    v: VolumeSemantics,
    lists: Seq<Option<Seq<Result<DirEntry, IoError>>>>,
    steady: bool,
) -> bool {
    steady ==> forall|i: int|
        0 <= i < lists.len() && may_look(t, paths[i], v) ==> #[trigger] lists[i] is Some
}

/// The directory renames for planned directories, in their order and numbered
/// from zero, given listings of the directories that they are to stand in.
pub open spec fn renames_in(
    creates: Seq<PathView>,
    v: VolumeSemantics,
    lists: Seq<Option<Seq<Result<DirEntry, IoError>>>>,
) -> Seq<DirRenameView>
    decreases lists.len(),
{
    if lists.len() == 0 {
        Seq::empty()
    } else {
        let before = renames_in(creates, v, lists.drop_last());
        let to = creates[lists.len() - 1];
        match rename_in(to, v, lists.last()) {
            Some(from) => before.push(
                DirRenameView { id: DirRenameId(before.len() as u64), from, to },
            ),
            None => before,
        }
    }
}

/// Directory renames are for planned directories, and of directories that the
/// volume takes for them.
pub proof fn law_renames_are_for_planned_dirs(
    t: Tree,
    creates: Seq<PathView>,
    v: VolumeSemantics,
    lists: Seq<Option<Seq<Result<DirEntry, IoError>>>>,
)
    requires
        lists.len() <= creates.len(),
        forall|i: int| 0 <= i < lists.len() ==> lists_parent(t, creates[i], #[trigger] lists[i]),
    ensures
        renames_in(creates, v, lists).len() <= lists.len(),
        renames_for(t, renames_in(creates, v, lists), creates, v),
    decreases lists.len(),
{
    if lists.len() > 0 {
        let n = lists.len() - 1;
        assert forall|i: int| 0 <= i < n implies lists_parent(
            t,
            creates[i],
            #[trigger] lists.drop_last()[i],
        ) by {
            assert(lists.drop_last()[i] == lists[i]);
        }
        law_renames_are_for_planned_dirs(t, creates, v, lists.drop_last());
        if rename_in(creates[n], v, lists.last()) is Some {
            assert(lists[n] == lists.last());
            lemma_rename_in(t, creates[n], v, lists.last());
            assert(creates.contains(creates[n]));
        }
    }
}

/// Finds the directory renames for planned directories.
fn find_renames<F: FileSystem>(
    fs: &mut F,
    creates: &Vec<FilePath>,
    volume: &VolumeSemantics,
) -> (r: Vec<DirRename>)
    ensures
        old(fs).is_steady() ==> final(fs).is_steady(),
        only_asks(old(fs).history(), final(fs).history()),
        final(fs).tree() == old(fs).tree(),
        exists|lists: Seq<Option<Seq<Result<DirEntry, IoError>>>>| #[trigger]
            list_parents(old(fs).tree(), creates.deep_view(), lists) && r.deep_view()
                == renames_in(creates.deep_view(), *volume, lists) && all_looked(
                old(fs).tree(),
                creates.deep_view(),
                *volume,
                lists,
                old(fs).is_steady(),
            ),
{
    let ghost t = fs.tree();
    let ghost steady = fs.is_steady();
    let ghost mut lists: Seq<Option<Seq<Result<DirEntry, IoError>>>> = Seq::empty();
    let mut out: Vec<DirRename> = Vec::new();
    let mut i: usize = 0;
    proof {
        assert(out.deep_view() =~= Seq::empty());
    }
    while i < creates.len()
        invariant
            only_asks(old(fs).history(), fs.history()),
            steady == old(fs).is_steady(),
            steady ==> fs.is_steady(),
            all_looked(t, creates.deep_view(), *volume, lists, steady),
            i <= creates@.len(),
            t == old(fs).tree(),
            fs.tree() == t,
            lists.len() == i,
            out@.len() <= i,
            forall|k: int|
                0 <= k < i ==> lists_parent(t, creates.deep_view()[k], #[trigger] lists[k]),
            out.deep_view() == renames_in(creates.deep_view(), *volume, lists),
        decreases creates@.len() - i,
    {
        let ghost known = lists;
        let ghost held = out.deep_view();
        let ghost to = creates.deep_view()[i as int];
        let ghost now = fs.is_steady();
        let found = detect_case_rename(fs, &creates[i], volume);
        proof {
            let list = choose|list: Option<Seq<Result<DirEntry, IoError>>>| #[trigger]
                lists_parent(t, to, list) && found.deep_view() == rename_in(to, *volume, list) && (
                now && may_look(t, to, *volume) ==> list is Some);
            lists = known.push(list);
            assert(lists.drop_last() =~= known);
            assert(all_looked(t, creates.deep_view(), *volume, lists, steady)) by {
                assert forall|k: int|
                    steady && 0 <= k < lists.len() && may_look(
                        t,
                        creates.deep_view()[k],
                        *volume,
                    ) implies #[trigger] lists[k] is Some by {
                    if k < i {
                        assert(known[k] == lists[k]);
                    }
                }
            }
        }
        if let Some(from) = found {
            let n: u64 = out.len() as u64;
            let one = DirRename { id: DirRenameId(n), from, to: creates[i].duplicate() };
            let ghost ov = one.deep_view();
            out.push(one);
            proof {
                assert(out.deep_view() =~= held.push(ov));
            }
        }
        i = i + 1;
    }
    proof {
        assert(list_parents(t, creates.deep_view(), lists));
    }
    out
}

/// Directory removals for directories, numbered from zero.
pub open spec fn removals_for(dirs: Seq<PathView>) -> Seq<DirRemovalView> {
    Seq::new(
        dirs.len(),
        |i: int| DirRemovalView { id: DirRemovalId(i as u64), path: dirs[i] },
    )
}

/// Numbers directories for removal.
fn number_removals(dirs: &Vec<FilePath>) -> (r: Vec<DirRemoval>)
    ensures
        r.deep_view() == removals_for(dirs.deep_view()),
{
    let ghost dv = dirs.deep_view();
    let mut out: Vec<DirRemoval> = Vec::new();
    let mut i: usize = 0;
    while i < dirs.len()
        invariant
            i <= dirs@.len(),
            dv == dirs.deep_view(),
            out@.len() == i,
            forall|k: int|
                0 <= k < i ==> (#[trigger] out@[k]).deep_view() == removals_for(dv)[k],
        decreases dirs@.len() - i,
    {
        out.push(DirRemoval { id: DirRemovalId(i as u64), path: dirs[i].duplicate() });
        i = i + 1;
    }
    proof {
        assert(out.deep_view() =~= removals_for(dv));
    }
    out
}

/// Whether a plan is put together from items: one item for each, their counts,
/// the directories of the destinations in order, renames for some of those
/// where they are looked for, and the directories that are moved out of, the
/// deepest first.
pub open spec fn puts_together(
    t: Tree,
    root: PathView,
    v: VolumeSemantics,
    ds: Seq<DraftView>,
    with_renames: bool,
    items: Seq<PlanItemView>,
    stats: PlanStats,
    creates: Seq<PathView>,
    renames: Seq<DirRenameView>,
    removals: Seq<DirRemovalView>,
    steady: bool,
) -> bool {
    &&& items == plan_items(ds)
    &&& stats == stats_of(ds)
    &&& ordered_of(creates, dest_dirs(ds), false)
    &&& if with_renames {
        exists|lists: Seq<Option<Seq<Result<DirEntry, IoError>>>>| #[trigger]
            list_parents(t, creates, lists) && renames == renames_in(creates, v, lists)
                && all_looked(t, creates, v, lists, steady)
    } else {
        renames.len() == 0
    }
    &&& exists|dirs: Seq<PathView>| #[trigger]
        ordered_of(dirs, vacated_dirs(ds, root), true) && removals == removals_for(dirs)
}

/// Puts the plan together. What the plan held of items and directories is
/// replaced.
pub fn finalise_plan<F: FileSystem, T: Drafted>(
    fs: &mut F,
    root: &FilePath,
    volume: &VolumeSemantics,
    items: &Vec<T>,
    with_renames: bool,
    plan: &mut Plan,
)
    ensures
        old(fs).is_steady() ==> final(fs).is_steady(),
        only_asks(old(fs).history(), final(fs).history()),
        final(fs).tree() == old(fs).tree(),
        ({
            let p = final(plan).deep_view();
            &&& puts_together(
                old(fs).tree(),
                root.deep_view(),
                *volume,
                drafts(items@),
                with_renames,
                p.items,
                p.stats,
                p.dir_creates,
                p.dir_renames,
                p.dir_removals,
                old(fs).is_steady(),
            )
            &&& p.version == old(plan).deep_view().version
            &&& p.run_id == old(plan).deep_view().run_id
            &&& p.root == old(plan).deep_view().root
            &&& p.kind == old(plan).deep_view().kind
            &&& p.config_digest == old(plan).deep_view().config_digest
            &&& p.volume == old(plan).deep_view().volume
            &&& p.diagnostics == old(plan).deep_view().diagnostics
        }),
{
    let gathered = gather(items, root);
    let renames: Vec<DirRename> = if with_renames {
        find_renames(fs, &gathered.creates, volume)
    } else {
        Vec::new()
    };
    plan.dir_removals = number_removals(&gathered.vacated);
    plan.dir_renames = renames;
    plan.dir_creates = gathered.creates;
    plan.stats = gathered.stats;
    plan.items = gathered.items;
    proof {
        assert(ordered_of(
            gathered.vacated.deep_view(),
            vacated_dirs(drafts(items@), root.deep_view()),
            true,
        ));
    }
}

/// Whether a plan is what routed items come to: their destinations are
/// validated, the items reconciled, and the plan put together.
pub open spec fn concludes<T: Drafted>(
    t: Tree,
    root: PathView,
    v: VolumeSemantics,
    cfg: Config,
    missing: Seq<FieldName>,
    with_renames: bool,
    routed: Seq<T>,
    validated: Seq<T>,
    settled: Seq<T>,
    read: Findings,
    plan: PlanView,
) -> bool {
    &&& drafts(validated) == all_checked(drafts(routed), v, missing)
    &&& same_rest(routed, validated)
    &&& reconciled(t, cfg, v, validated, settled, read)
    &&& puts_together(
        t,
        root,
        v,
        drafts(settled),
        with_renames,
        plan.items,
        plan.stats,
        plan.dir_creates,
        plan.dir_renames,
        plan.dir_removals,
        read.steady,
    )
}

/// The root is not among the directories that items are moved out of.
proof fn lemma_root_is_not_vacated(ds: Seq<DraftView>, root: PathView)
    ensures
        !vacated_dirs(ds, root).contains(root),
    decreases ds.len(),
{
    if ds.len() > 0 {
        lemma_root_is_not_vacated(ds.drop_last(), root);
        let rest = vacated_dirs(ds.drop_last(), root);
        let all = vacated_dirs(ds, root);
        if all.contains(root) {
            let k = choose|k: int| 0 <= k < all.len() && all[k] == root;
            if k < rest.len() {
                assert(rest[k] == root);
            }
        }
    }
}

/// A plan never removes the root.
pub proof fn law_root_is_never_removed(
    t: Tree,
    root: PathView,
    v: VolumeSemantics,
    ds: Seq<DraftView>,
    with_renames: bool,
    items: Seq<PlanItemView>,
    stats: PlanStats,
    creates: Seq<PathView>,
    renames: Seq<DirRenameView>,
    removals: Seq<DirRemovalView>,
    steady: bool,
    k: int,
)
    requires
        puts_together(
            t,
            root,
            v,
            ds,
            with_renames,
            items,
            stats,
            creates,
            renames,
            removals,
            steady,
        ),
        0 <= k < removals.len(),
    ensures
        removals[k].path != root,
{
    let dirs = choose|dirs: Seq<PathView>| #[trigger]
        ordered_of(dirs, vacated_dirs(ds, root), true) && removals == removals_for(dirs);
    lemma_root_is_not_vacated(ds, root);
    assert(dirs.contains(dirs[k]));
}

/// Every routed item is in the plan, in its place. What is moved has a
/// destination that leads to something under the root, or is a numbered copy
/// beside that; what has no destination is left as it is.
pub proof fn law_plan_follows_routes<T: Drafted>(
    t: Tree,
    root: PathView,
    v: VolumeSemantics,
    cfg: Config,
    missing: Seq<FieldName>,
    with_renames: bool,
    routed: Seq<T>,
    validated: Seq<T>,
    settled: Seq<T>,
    read: Findings,
    plan: PlanView,
    i: int,
)
    requires
        concludes(
            t,
            root,
            v,
            cfg,
            missing,
            with_renames,
            routed,
            validated,
            settled,
            read,
            plan,
        ),
        0 <= i < routed.len(),
    ensures
        plan.items.len() == routed.len(),
        plan.items[i].id == routed[i].draft().id,
        plan.items[i].source == routed[i].draft().source,
        plan.items[i].class == routed[i].draft().class,
        plan.items[i].readiness == routed[i].draft().readiness,
        routed[i].draft().destination is None && !(routed[i].draft().action is Move)
            ==> plan.items[i].action == routed[i].draft().action,
        plan.items[i].action is Move && routed[i].draft().destination is Some ==> is_contained(
            relative_of(routed[i].draft()),
        ) && goes_near(
            plan.items[i].action,
            plan.items[i].destination,
            routed[i].draft().source,
            routed[i].draft().destination->0,
        ),
{
    assert(drafts(routed)[i] == routed[i].draft());
    assert(drafts(validated)[i] == validated[i].draft());
    assert(drafts(settled).len() == settled.len());
    law_reconciled_move_was_planned(t, cfg, v, validated, settled, read, i);
    assert(drafts(settled)[i] == settled[i].draft());
    if !(validated[i].draft().action is Move) {
        law_reconciling_leaves_other_items_alone(t, cfg, v, validated, settled, read, i);
    }
}

/// A numbered copy beside a path under the root is under the root.
pub proof fn law_copy_stays_under_root(root: PathView, dest: PathView, n: nat)
    requires
        dest.starts_with(root),
        dest.parts.len() > root.parts.len(),
    ensures
        copy_path(dest, n).starts_with(root),
        copy_path(dest, n).parent() == dest.parent(),
{
    let p = copy_path(dest, n);
    assert(p.parts.drop_last() =~= dest.parts.drop_last());
    assert(p.parts.take(root.parts.len() as int) =~= dest.parts.take(root.parts.len() as int));
}

} // verus!
