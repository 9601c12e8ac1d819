//! Reconcile stage.
//!
//! Finds destinations that collide within the plan, destinations that are
//! taken, and duplicates. What is done about a taken destination is up to the
//! configured policy.

use crate::domain::config::{CompareField, Config, ConflictPolicy};
use crate::domain::duplicate::Duplicate;
use crate::domain::error::{Diagnostic, DiagnosticView, Severity};
use crate::domain::fs::{
    bytes, describes, is_dir, is_file, only_asks, CancelToken, FileMeta, FileSystem, IoErrorView,
    Tree,
};
use crate::domain::path::{FilePath, PathView};
use crate::domain::plan::{Action, ActionView, ExistingInfo, ExistingView, SkipReason};
use crate::domain::volume::VolumeSemantics;
use crate::engine::planner::PlanItemInternal;
use crate::engine::draft::{drafts, same_rest, DraftView, Drafted};
use crate::hashing;
use crate::parse::extractors::{split_copy, split_copy_suffix};
use crate::text;
use vstd::prelude::*;

verus! {

/// What to do with a destination that is already taken.
#[derive(Debug, Clone, PartialEq)]
pub enum OccupiedDecision {
    Move { to: FilePath },
    Skip { reason: SkipReason },
    Conflict { existing: ExistingInfo },
    /// Reserve a sibling, copy, rename over the destination. Only when the
    /// plan is applied.
    Replace,
}

/// The contents of an [`OccupiedDecision`].
#[verifier::ext_equal]
pub enum DecisionView {
    Move { to: PathView },
    Skip { reason: SkipReason },
    Conflict { existing: ExistingView },
    Replace,
}

impl DeepView for OccupiedDecision {
    type V = DecisionView;

    open spec fn deep_view(&self) -> DecisionView {
        match *self {
            OccupiedDecision::Move { to } => DecisionView::Move { to: to.deep_view() },
            OccupiedDecision::Skip { reason } => DecisionView::Skip { reason },
            OccupiedDecision::Conflict { existing } => DecisionView::Conflict {
                existing: existing.deep_view(),
            },
            OccupiedDecision::Replace => DecisionView::Replace,
        }
    }
}

/// The keys of components.
pub open spec fn part_keys(parts: Seq<Seq<char>>, v: VolumeSemantics) -> Seq<Seq<char>> {
    Seq::new(parts.len(), |i: int| v.key(parts[i]))
}

/// The components of a path, with the root as one of them.
pub open spec fn all_parts(p: PathView) -> Seq<Seq<char>> {
    if p.absolute {
        seq![seq!['/']] + p.parts
    } else {
        p.parts
    }
}

/// The keys of the components of a path, joined.
pub open spec fn joined_keys(p: PathView, v: VolumeSemantics, sep: char) -> Seq<char> {
    text::join(part_keys(all_parts(p), v), seq![sep])
}

/// What two paths share if the volume takes them for the same.
pub open spec fn path_key(p: PathView, v: VolumeSemantics) -> Seq<char> {
    joined_keys(p, v, '\u{1f}')
}

/// Whether the volume takes two paths for the same.
pub open spec fn same_place(a: PathView, b: PathView, v: VolumeSemantics) -> bool {
    path_key(a, v) == path_key(b, v)
}

/// The keys of the components of a path, joined.
pub fn join_keys(p: &FilePath, volume: &VolumeSemantics, between: char) -> (r: Vec<char>)
    ensures
        r@ == joined_keys(p.deep_view(), *volume, between),
{
    let ghost all = all_parts(p.deep_view());
    let mut keys: Vec<Vec<char>> = Vec::new();
    if p.absolute {
        keys.push(text::to_chars(&volume.collision_key("/")));
        proof {
            reveal_strlit("/");
            assert("/"@ =~= seq!['/']);
        }
    }
    let ghost shift = keys@.len() as int;
    let mut i: usize = 0;
    while i < p.parts.len()
        invariant
            i <= p.parts@.len(),
            all == all_parts(p.deep_view()),
            shift == (if p.absolute {
                1int
            } else {
                0int
            }),
            keys@.len() == shift + i,
            forall|k: int| 0 <= k < keys@.len() ==> #[trigger] keys@[k]@ == volume.key(all[k]),
        decreases p.parts@.len() - i,
    {
        proof {
            assert(all[shift + i] == p.deep_view().parts[i as int]);
            assert(p.deep_view().parts[i as int] == p.parts@[i as int]@);
        }
        keys.push(text::to_chars(&volume.collision_key(&p.parts[i])));
        i = i + 1;
    }
    let sep: Vec<char> = vec![between];
    proof {
        assert(sep@ =~= seq![between]);
        assert(text::texts(keys@) =~= part_keys(all, *volume));
    }
    text::joined(&keys, &sep)
}

/// Whether the volume takes two paths for the same.
pub fn same_path(a: &FilePath, b: &FilePath, volume: &VolumeSemantics) -> (r: bool)
    ensures
        r == same_place(a.deep_view(), b.deep_view(), *volume),
{
    let x = join_keys(a, volume, '\u{1f}');
    let y = join_keys(b, volume, '\u{1f}');
    text::same_chars(&x, &y)
}

/// The path of a numbered copy beside a path: `stem (N).ext`.
pub open spec fn copy_path(dest: PathView, n: nat) -> PathView {
    let parent = match dest.parent() {
        Some(p) => p,
        None => PathView::empty(),
    };
    let raw = match dest.stem() {
        Some(s) => s,
        None => "file"@,
    };
    let stem = split_copy(raw).0;
    let numbered = stem + " ("@ + text::decimal(n) + ")"@;
    match dest.extension() {
        Some(ext) => if ext.len() == 0 {
            parent.child(numbered)
        } else {
            parent.child(numbered + "."@ + ext)
        },
        None => parent.child(numbered),
    }
}

/// The path of a numbered copy beside a path: `stem (N).ext`.
fn numbered_copy(dest: &FilePath, n: u16) -> (r: FilePath)
    ensures
        r.deep_view() == copy_path(dest.deep_view(), n as nat),
{
    let parent = match dest.parent() {
        Some(p) => p,
        None => FilePath::empty(),
    };
    let raw = match dest.file_stem() {
        Some(s) => s,
        None => "file".to_string(),
    };
    let (stem, _) = split_copy_suffix(&raw);
    let numbered = stem.to_string().concat(" (").concat(&text::decimal_text(n as u64)).concat(")");
    match dest.extension() {
        Some(ext) => if text::to_chars(&ext).len() == 0 {
            parent.child(&numbered)
        } else {
            parent.child(&numbered.concat(".").concat(&ext))
        },
        None => parent.child(&numbered),
    }
}

/// Whether a path is that of a numbered copy, all lower numbers being taken,
/// and by something other than the source.
pub open spec fn is_next_copy(
    t: Tree,
    v: VolumeSemantics,
    from: PathView,
    dest: PathView,
    next: PathView,
) -> bool {
    exists|n: nat| #[trigger]
        copy_path(dest, n) == next && 2 <= n <= 9999 && forall|m: nat|
            2 <= m < n ==> t.dom().contains(#[trigger] copy_path(dest, m)) && !same_place(
                from,
                copy_path(dest, m),
                v,
            )
}

/// Whether nothing stands at a path, or it is that of the source itself.
pub open spec fn is_free_for(t: Tree, v: VolumeSemantics, from: PathView, next: PathView) -> bool {
    !t.dom().contains(next) || same_place(from, next, v)
}

/// Whether a path is where the next numbered copy goes: the first that is free
/// as far as can be told, the destination itself where every number is taken.
/// On a steady file system it can be told.
pub open spec fn copies_to(
    t: Tree,
    v: VolumeSemantics,
    from: PathView,
    dest: PathView,
    next: PathView,
    steady: bool,
) -> bool {
    ||| is_next_copy(t, v, from, dest, next) && (steady ==> is_free_for(t, v, from, next))
    ||| next == dest && forall|m: nat|
        2 <= m <= 9999 ==> t.dom().contains(#[trigger] copy_path(dest, m)) && !same_place(
            from,
            copy_path(dest, m),
            v,
        )
}

/// Next free `stem (N).ext`, or the one that is the source itself under
/// volume collision semantics; the destination where all are taken.
pub fn next_free_copy_path<F: FileSystem>(
    fs: &mut F,
    volume: &VolumeSemantics,
    from: &FilePath,
    dest: &FilePath,
) -> (r: FilePath)
    ensures
        old(fs).is_steady() ==> final(fs).is_steady(),
        only_asks(old(fs).history(), final(fs).history()),
        final(fs).tree() == old(fs).tree(),
        copies_to(
            old(fs).tree(),
            *volume,
            from.deep_view(),
            dest.deep_view(),
            r.deep_view(),
            old(fs).is_steady(),
        ),
{
    let ghost t = fs.tree();
    let ghost steady = fs.is_steady();
    let mut n: u16 = 2;
    while n <= 9999
        invariant
            2 <= n <= 10000,
            steady == old(fs).is_steady(),
            steady ==> fs.is_steady(),
            fs.tree() == t,
            only_asks(old(fs).history(), fs.history()),
            t == old(fs).tree(),
            forall|m: nat|
                2 <= m < n ==> t.dom().contains(#[trigger] copy_path(dest.deep_view(), m))
                    && !same_place(from.deep_view(), copy_path(dest.deep_view(), m), *volume),
        decreases 10000 - n,
    {
        let candidate = numbered_copy(dest, n);
        if same_path(from, &candidate, volume) {
            return candidate;
        }
        match fs.metadata(&candidate) {
            Ok(_) => {},
            Err(_) => {
                return candidate;
            },
        }
        n = n + 1;
    }
    dest.duplicate()
}

/// Whether two files look the same in what they are compared by.
pub open spec fn look_identical(
    t: Tree,
    compare: Seq<CompareField>,
    from: PathView,
    to: PathView,
) -> bool {
    let by_size = compare.len() == 0 || compare.contains(CompareField::Size);
    let by_hash = compare.contains(CompareField::Blake3);
    &&& t.dom().contains(from)
    &&& t.dom().contains(to)
    &&& by_size || by_hash
    &&& by_size && is_file(t, from) && is_file(t, to) ==> bytes(t, from).len() == bytes(
        t,
        to,
    ).len()
    &&& by_hash ==> is_file(t, from) && is_file(t, to) && hashing::blake3_hex(bytes(t, from))
        == hashing::blake3_hex(bytes(t, to))
}

/// Whether two things can be compared on a steady file system: both are files,
/// and nobody can cancel where their bytes are read.
pub open spec fn may_compare(
    t: Tree,
    compare: Seq<CompareField>,
    from: PathView,
    to: PathView,
    idle: bool,
) -> bool {
    is_file(t, from) && is_file(t, to) && (idle || !compare.contains(CompareField::Blake3))
}

/// Whether a field is among those that files are compared by.
fn compares(list: &Vec<CompareField>, field: CompareField) -> (r: bool)
    ensures
        r == list@.contains(field),
{
    let mut i: usize = 0;
    while i < list.len()
        invariant
            i <= list@.len(),
            forall|k: int| 0 <= k < i ==> list@[k] != field,
        decreases list@.len() - i,
    {
        if list[i] == field {
            return true;
        }
        i = i + 1;
    }
    false
}

/// Whether two files are the same in what they are compared by. Where
/// something cannot be read they are not.
fn files_identical<F: FileSystem>(
    fs: &mut F,
    cfg: &Config,
    from: &FilePath,
    to: &FilePath,
    dest_meta: &FileMeta,
    cancel: &CancelToken,
) -> (r: bool)
    requires
        old(fs).tree().dom().contains(to.deep_view()),
        is_file(old(fs).tree(), to.deep_view()) ==> dest_meta.len as nat == bytes(
            old(fs).tree(),
            to.deep_view(),
        ).len(),
    ensures
        old(fs).is_steady() ==> final(fs).is_steady(),
        only_asks(old(fs).history(), final(fs).history()),
        final(fs).tree() == old(fs).tree(),
        r ==> look_identical(
            old(fs).tree(),
            cfg.conflict.compare@,
            from.deep_view(),
            to.deep_view(),
        ),
        old(fs).is_steady() && may_compare(
            old(fs).tree(),
            cfg.conflict.compare@,
            from.deep_view(),
            to.deep_view(),
            cancel.is_idle(),
        ) ==> r == look_identical(
            old(fs).tree(),
            cfg.conflict.compare@,
            from.deep_view(),
            to.deep_view(),
        ),
{
    let src_meta = match fs.metadata(from) {
        Ok(m) => m,
        Err(_) => {
            return false;
        },
    };
    let compare = &cfg.conflict.compare;
    let want_size = compare.len() == 0 || compares(compare, CompareField::Size);
    let want_hash = compares(compare, CompareField::Blake3);
    if want_size && src_meta.len != dest_meta.len {
        return false;
    }
    if want_hash {
        let a = match fs.hash(from, cancel) {
            Ok(h) => h,
            Err(_) => {
                return false;
            },
        };
        let b = match fs.hash(to, cancel) {
            Ok(h) => h,
            Err(_) => {
                return false;
            },
        };
        return text::same_text(&a.0, &b.0);
    }
    want_size && src_meta.len == dest_meta.len
}

/// What the policy makes of a destination that is taken, given what stands
/// there, whether it is the same as the source, and the next free copy.
pub open spec fn judged(
    policy: ConflictPolicy,
    meta: FileMeta,
    to: PathView,
    identical: bool,
    next: PathView,
) -> DecisionView {
    let existing = ExistingView { path: to, len: meta.len, blake3: None };
    match policy {
        ConflictPolicy::Report => DecisionView::Conflict { existing },
        ConflictPolicy::Skip => DecisionView::Skip { reason: SkipReason::Conflict },
        ConflictPolicy::SkipIfIdentical => if identical && !meta.is_dir {
            DecisionView::Skip { reason: SkipReason::Identical }
        } else {
            DecisionView::Conflict { existing }
        },
        ConflictPolicy::RenameNew => DecisionView::Move { to: next },
        ConflictPolicy::Replace => if meta.is_dir {
            DecisionView::Conflict { existing }
        } else {
            DecisionView::Replace
        },
    }
}

/// What the policy makes of a destination that is taken, given what stands
/// there, whether it is the same as the source, and the next free copy.
pub fn judge(
    policy: ConflictPolicy,
    meta: &FileMeta,
    to: &FilePath,
    identical: bool,
    next: FilePath,
) -> (r: OccupiedDecision)
    ensures
        r.deep_view() == judged(policy, *meta, to.deep_view(), identical, next.deep_view()),
{
    match policy {
        ConflictPolicy::Skip => OccupiedDecision::Skip { reason: SkipReason::Conflict },
        ConflictPolicy::SkipIfIdentical if identical && !meta.is_dir => OccupiedDecision::Skip {
            reason: SkipReason::Identical,
        },
        ConflictPolicy::RenameNew => OccupiedDecision::Move { to: next },
        ConflictPolicy::Replace if !meta.is_dir => OccupiedDecision::Replace,
        _ => OccupiedDecision::Conflict {
            existing: ExistingInfo { path: to.duplicate(), len: meta.len, blake3: None },
        },
    }
}

/// What is learnt of a taken destination.
pub struct Look {
    /// What stands there.
    pub meta: FileMeta,
    /// Whether it was found to be the same as the source.
    pub identical: bool,
    /// Where the next numbered copy goes.
    pub next: PathView,
}

/// What can be relied on while looking: that the file system is steady, and
/// that nobody can cancel.
pub struct Footing {
    pub steady: bool,
    pub idle: bool,
}

/// Whether what is learnt of a destination is so. Nothing may be learnt, but on
/// a steady file system all there is to learn is.
pub open spec fn looks(
    t: Tree,
    cfg: Config,
    v: VolumeSemantics,
    from: PathView,
    to: PathView,
    look: Option<Look>,
    on: Footing,
) -> bool {
    &&& on.steady ==> look is Some == t.dom().contains(to)
    &&& look matches Some(l) ==> {
        &&& t.dom().contains(to)
        &&& describes(l.meta, t[to])
        &&& l.identical ==> cfg.conflict.policy == ConflictPolicy::SkipIfIdentical
            && !l.meta.is_dir && look_identical(t, cfg.conflict.compare@, from, to)
        &&& on.steady && cfg.conflict.policy == ConflictPolicy::SkipIfIdentical && may_compare(
            t,
            cfg.conflict.compare@,
            from,
            to,
            on.idle,
        ) ==> l.identical == look_identical(t, cfg.conflict.compare@, from, to)
        &&& if cfg.conflict.policy == ConflictPolicy::RenameNew {
            copies_to(t, v, from, to, l.next, on.steady)
        } else {
            l.next == to
        }
    }
}

/// What is decided about a destination. One of which nothing can be learnt is
/// taken to be free.
pub open spec fn decided(policy: ConflictPolicy, to: PathView, look: Option<Look>) -> DecisionView {
    match look {
        Some(l) => judged(policy, l.meta, to, l.identical, l.next),
        None => DecisionView::Move { to },
    }
}

/// What is decided accords with the policy: a file is skipped only where the
/// policy says so or both look the same, it goes elsewhere only to the next
/// free copy, and nothing but a file is ever replaced.
pub proof fn law_decision_accords_with_policy(
    t: Tree,
    cfg: Config,
    v: VolumeSemantics,
    from: PathView,
    to: PathView,
    look: Option<Look>,
    on: Footing,
)
    requires
        looks(t, cfg, v, from, to, look, on),
    ensures
        !t.dom().contains(to) ==> decided(cfg.conflict.policy, to, look) == (DecisionView::Move {
            to,
        }),
        match decided(cfg.conflict.policy, to, look) {
            DecisionView::Move { to: next } => next == to || cfg.conflict.policy
                == ConflictPolicy::RenameNew && is_next_copy(t, v, from, to, next),
            DecisionView::Skip { reason } => {
                ||| cfg.conflict.policy == ConflictPolicy::Skip && reason == SkipReason::Conflict
                ||| cfg.conflict.policy == ConflictPolicy::SkipIfIdentical && reason
                    == SkipReason::Identical && !is_dir(t, to) && look_identical(
                    t,
                    cfg.conflict.compare@,
                    from,
                    to,
                )
            },
            DecisionView::Conflict { existing } => {
                &&& existing.path == to
                &&& existing.blake3 is None
                &&& is_file(t, to) ==> existing.len as nat == bytes(t, to).len()
                &&& cfg.conflict.policy == ConflictPolicy::Report || cfg.conflict.policy
                    == ConflictPolicy::SkipIfIdentical || (cfg.conflict.policy
                    == ConflictPolicy::Replace && !is_file(t, to))
            },
            DecisionView::Replace => cfg.conflict.policy == ConflictPolicy::Replace && !is_dir(
                t,
                to,
            ),
        },
        // On a steady file system a taken destination is noticed.
        on.steady && t.dom().contains(to) ==> match decided(cfg.conflict.policy, to, look) {
            DecisionView::Move { to: next } => cfg.conflict.policy == ConflictPolicy::RenameNew
                && copies_to(t, v, from, to, next, true),
            _ => true,
        },
{
}

/// Decide how to treat an occupied destination.
///
/// `SkipIfIdentical` compares before anything is reserved. `RenameNew` picks
/// `stem (N).ext` that does not exist; where that is the source itself there
/// is nothing to do.
pub fn decide_occupied<F: FileSystem>(
    fs: &mut F,
    cfg: &Config,
    volume: &VolumeSemantics,
    from: &FilePath,
    to: &FilePath,
    cancel: &CancelToken,
) -> (r: OccupiedDecision)
    ensures
        old(fs).is_steady() ==> final(fs).is_steady(),
        only_asks(old(fs).history(), final(fs).history()),
        final(fs).tree() == old(fs).tree(),
        exists|look: Option<Look>| #[trigger]
            looks(
                old(fs).tree(),
                *cfg,
                *volume,
                from.deep_view(),
                to.deep_view(),
                look,
                (Footing { steady: old(fs).is_steady(), idle: cancel.is_idle() }),
            ) && r.deep_view() == decided(cfg.conflict.policy, to.deep_view(), look),
{
    let ghost t = fs.tree();
    let ghost on = Footing { steady: fs.is_steady(), idle: cancel.is_idle() };
    let meta = match fs.metadata(to) {
        Ok(m) => m,
        Err(_) => {
            proof {
                assert(looks(t, *cfg, *volume, from.deep_view(), to.deep_view(), None, on));
            }
            return OccupiedDecision::Move { to: to.duplicate() };
        },
    };
    let policy = cfg.conflict.policy;
    let identical = policy == ConflictPolicy::SkipIfIdentical && !meta.is_dir && files_identical(
        fs,
        cfg,
        from,
        to,
        &meta,
        cancel,
    );
    let next = if policy == ConflictPolicy::RenameNew {
        next_free_copy_path(fs, volume, from, to)
    } else {
        to.duplicate()
    };
    proof {
        let look = Some(Look { meta, identical, next: next.deep_view() });
        assert(looks(t, *cfg, *volume, from.deep_view(), to.deep_view(), look, on));
    }
    judge(policy, &meta, to, identical, next)
}

/// Whether an item is to be moved to a known place.
pub open spec fn claims_path(d: DraftView) -> bool {
    d.action is Move && d.destination is Some
}

/// What two destinations share if they collide. Letter case never keeps them
/// apart, whatever the volume.
pub open spec fn clash_key(p: PathView, v: VolumeSemantics) -> Seq<char> {
    (VolumeSemantics { case_sensitive: false, ..v }).key(p.text())
}

/// Whether an earlier item is to be moved to the place of an item.
pub open spec fn clashes(ds: Seq<DraftView>, i: int, v: VolumeSemantics) -> bool {
    claims_path(ds[i]) && exists|j: int|
        0 <= j < i && claims_path(#[trigger] ds[j]) && clash_key(ds[j].destination->0, v)
            == clash_key(ds[i].destination->0, v)
}

/// An item whose destination an earlier item has.
pub open spec fn clashed(d: DraftView) -> DraftView {
    let to = d.destination->0;
    DraftView {
        action: ActionView::Conflict {
            from: d.source,
            to,
            existing: ExistingView { path: to, len: 0, blake3: None },
        },
        ..d
    }
}

/// The items once collisions within the plan have been found: of those with
/// the same destination the first stays.
pub open spec fn collided(ds: Seq<DraftView>, v: VolumeSemantics) -> Seq<DraftView> {
    Seq::new(
        ds.len(),
        |i: int|
            if clashes(ds, i, v) {
                clashed(ds[i])
            } else {
                ds[i]
            },
    )
}

/// Whether something is to be moved.
fn is_move(a: &Action) -> (r: bool)
    ensures
        r == (a.deep_view() is Move),
{
    match a {
        Action::Move { .. } => true,
        _ => false,
    }
}

/// What two destinations share if they collide.
fn key_of_destination(p: &FilePath, volume: &VolumeSemantics) -> (r: String)
    ensures
        r@ == clash_key(p.deep_view(), *volume),
{
    let folding = VolumeSemantics { case_sensitive: false, ..*volume };
    folding.collision_key(&p.to_text())
}

/// The collision keys of the items that are to be moved to a known place.
fn destination_keys<T: Drafted>(items: &Vec<T>, volume: &VolumeSemantics) -> (r: Vec<
    Option<String>,
>)
    ensures
        r@.len() == items@.len(),
        forall|i: int|
            0 <= i < items@.len() ==> (#[trigger] r@[i]) is Some == claims_path(items@[i].draft())
                && (claims_path(items@[i].draft()) ==> r@[i]->0@ == clash_key(
                items@[i].draft().destination->0,
                *volume,
            )),
{
    let mut out: Vec<Option<String>> = Vec::new();
    let mut i: usize = 0;
    while i < items.len()
        invariant
            i <= items@.len(),
            out@.len() == i,
            forall|k: int|
                0 <= k < i ==> (#[trigger] out@[k]) is Some == claims_path(items@[k].draft()) && (
                claims_path(items@[k].draft()) ==> out@[k]->0@ == clash_key(
                    items@[k].draft().destination->0,
                    *volume,
                )),
        decreases items@.len() - i,
    {
        let key = if is_move(items[i].action()) {
            match items[i].destination() {
                Some(dest) => Some(key_of_destination(dest, volume)),
                None => None,
            }
        } else {
            None
        };
        out.push(key);
        i = i + 1;
    }
    out
}

/// Whether one of the first keys is the given one.
fn is_among(keys: &Vec<Option<String>>, upto: usize, key: &str) -> (r: bool)
    requires
        upto <= keys@.len(),
    ensures
        r == (exists|j: int| 0 <= j < upto && (#[trigger] keys@[j]) is Some && keys@[j]->0@ == key@),
{
    let mut j: usize = 0;
    while j < upto
        invariant
            j <= upto <= keys@.len(),
            forall|k: int| 0 <= k < j ==> !((#[trigger] keys@[k]) is Some && keys@[k]->0@ == key@),
        decreases upto - j,
    {
        if let Some(k) = &keys[j] {
            if text::same_text(k, key) {
                return true;
            }
        }
        j = j + 1;
    }
    false
}

/// Finds collisions within the plan.
pub fn find_collisions<T: Drafted>(items: &mut Vec<T>, volume: &VolumeSemantics)
    ensures
        drafts(final(items)@) == collided(drafts(old(items)@), *volume),
        same_rest(old(items)@, final(items)@),
{
    let ghost before = items@;
    let ghost ds = drafts(before);
    let keys = destination_keys(items, volume);
    let mut i: usize = 0;
    while i < items.len()
        invariant
            i <= items@.len(),
            items@.len() == before.len(),
            keys@.len() == before.len(),
            ds == drafts(before),
            same_rest(before, items@),
            forall|k: int|
                0 <= k < before.len() ==> (#[trigger] keys@[k]) is Some == claims_path(ds[k]) && (
                claims_path(ds[k]) ==> keys@[k]->0@ == clash_key(ds[k].destination->0, *volume)),
            forall|k: int|
                0 <= k < i ==> (#[trigger] items@[k]).draft() == collided(ds, *volume)[k],
            forall|k: int| i <= k < before.len() ==> (#[trigger] items@[k]) == before[k],
        decreases items@.len() - i,
    {
        let ghost held = items@;
        proof {
            assert(items@[i as int] == before[i as int]);
            assert(ds[i as int] == before[i as int].draft());
            assert(keys@[i as int] is Some == claims_path(ds[i as int]));
        }
        if let Some(key) = &keys[i] {
            if is_among(&keys, i, key) {
                proof {
                    let j = choose|j: int|
                        0 <= j < i && (#[trigger] keys@[j]) is Some && keys@[j]->0@ == key@;
                    assert(claims_path(ds[j]));
                    assert(clashes(ds, i as int, *volume));
                }
                if let Some(dest) = items[i].destination() {
                    let to = dest.duplicate();
                    let from = items[i].source().duplicate();
                    let existing = ExistingInfo { path: to.duplicate(), len: 0, blake3: None };
                    items[i].set_action(Action::Conflict { from, to, existing });
                }
                proof {
                    assert(items@[i as int].draft() == clashed(ds[i as int]));
                }
            } else {
                proof {
                    if clashes(ds, i as int, *volume) {
                        let j = choose|j: int|
                            0 <= j < i && claims_path(#[trigger] ds[j]) && clash_key(
                                ds[j].destination->0,
                                *volume,
                            ) == clash_key(ds[i as int].destination->0, *volume);
                        assert(keys@[j] is Some);
                    }
                }
            }
        }
        proof {
            assert forall|k: int| 0 <= k < i + 1 implies (#[trigger] items@[k]).draft() == collided(
                ds,
                *volume,
            )[k] by {
                if k < i {
                    assert(items@[k] == held[k]);
                }
            }
        }
        i = i + 1;
    }
    proof {
        assert(drafts(items@) =~= collided(ds, *volume));
    }
}

/// An item once it has been decided what to do with its taken destination.
pub open spec fn applied(d: DraftView, decision: DecisionView, v: VolumeSemantics) -> DraftView {
    match decision {
        DecisionView::Move { to } => DraftView {
            destination: Some(to),
            action: if same_place(d.source, to, v) {
                ActionView::NoOp
            } else {
                ActionView::Move { from: d.source, to }
            },
            ..d
        },
        DecisionView::Skip { reason } => DraftView { action: ActionView::Skip { reason }, ..d },
        DecisionView::Conflict { existing } => DraftView {
            action: ActionView::Conflict { from: d.source, to: d.destination->0, existing },
            ..d
        },
        DecisionView::Replace => d,
    }
}

/// Does with an item what has been decided.
pub fn apply_decision<T: Drafted>(item: &mut T, decision: OccupiedDecision, volume: &VolumeSemantics)
    requires
        old(item).draft().destination is Some,
    ensures
        final(item).draft() == applied(old(item).draft(), decision.deep_view(), *volume),
        final(item).identity() == old(item).identity(),
        final(item).rest() == old(item).rest(),
{
    match decision {
        OccupiedDecision::Move { to } => {
            let here = same_path(item.source(), &to, volume);
            let from = item.source().duplicate();
            item.set_destination(to.duplicate());
            if here {
                item.set_action(Action::NoOp);
            } else {
                item.set_action(Action::Move { from, to });
            }
        },
        OccupiedDecision::Skip { reason } => {
            item.set_action(Action::Skip { reason });
        },
        OccupiedDecision::Conflict { existing } => {
            let from = item.source().duplicate();
            let to = match item.destination() {
                Some(p) => p.duplicate(),
                None => FilePath::empty(),
            };
            item.set_action(Action::Conflict { from, to, existing });
        },
        OccupiedDecision::Replace => {},
    }
}

/// What is found at the destination of an item that is to be moved.
pub enum Occupancy {
    /// Nothing, as far as can be told.
    Free,
    /// Something, of which so much is learnt.
    Taken { look: Option<Look> },
}

/// Whether an item has been dealt with as its destination calls for: as it was
/// where it is not to be moved or its destination is free, else as the policy
/// says.
pub open spec fn occupant_settled(
    t: Tree,
    cfg: Config,
    v: VolumeSemantics,
    before: DraftView,
    after: DraftView,
    found: Occupancy,
    on: Footing,
) -> bool {
    if claims_path(before) {
        match found {
            Occupancy::Free => {
                &&& on.steady ==> !t.dom().contains(before.destination->0)
                &&& after == before
            },
            Occupancy::Taken { look } => {
                &&& t.dom().contains(before.destination->0)
                &&& looks(t, cfg, v, before.source, before.destination->0, look, on)
                &&& after == applied(
                    before,
                    decided(cfg.conflict.policy, before.destination->0, look),
                    v,
                )
            },
        }
    } else {
        after == before
    }
}

/// Whether every item has been dealt with as its destination calls for.
pub open spec fn settled(
    t: Tree,
    cfg: Config,
    v: VolumeSemantics,
    before: Seq<DraftView>,
    after: Seq<DraftView>,
    found: Seq<Occupancy>,
    on: Footing,
) -> bool {
    &&& before.len() == after.len() == found.len()
    &&& forall|i: int|
        0 <= i < before.len() ==> occupant_settled(
            t,
            cfg,
            v,
            before[i],
            #[trigger] after[i],
            found[i],
            on,
        )
}

/// Deals with taken destinations.
pub fn settle_occupants<F: FileSystem, T: Drafted>(
    fs: &mut F,
    items: &mut Vec<T>,
    volume: &VolumeSemantics,
    cfg: &Config,
)
    ensures
        old(fs).is_steady() ==> final(fs).is_steady(),
        only_asks(old(fs).history(), final(fs).history()),
        final(fs).tree() == old(fs).tree(),
        exists|found: Seq<Occupancy>| #[trigger]
            settled(
                old(fs).tree(),
                *cfg,
                *volume,
                drafts(old(items)@),
                drafts(final(items)@),
                found,
                (Footing { steady: old(fs).is_steady(), idle: true }),
            ),
        same_rest(old(items)@, final(items)@),
{
    let ghost t = fs.tree();
    let ghost before = items@;
    let ghost on = Footing { steady: fs.is_steady(), idle: true };
    let ghost mut found: Seq<Occupancy> = Seq::empty();
    let cancel = CancelToken::never();
    let mut i: usize = 0;
    while i < items.len()
        invariant
            only_asks(old(fs).history(), fs.history()),
            i <= items@.len(),
            items@.len() == before.len(),
            found.len() == i,
            t == old(fs).tree(),
            on == (Footing { steady: old(fs).is_steady(), idle: true }),
            on.steady ==> fs.is_steady(),
            cancel.is_idle(),
            fs.tree() == t,
            same_rest(before, items@),
            forall|k: int|
                0 <= k < i ==> occupant_settled(
                    t,
                    *cfg,
                    *volume,
                    before[k].draft(),
                    (#[trigger] items@[k]).draft(),
                    found[k],
                    on,
                ),
            forall|k: int| i <= k < before.len() ==> (#[trigger] items@[k]) == before[k],
        decreases items@.len() - i,
    {
        let ghost held = items@;
        let ghost known = found;
        let ghost mut here = Occupancy::Free;
        proof {
            assert(items@[i as int] == before[i as int]);
        }
        if is_move(items[i].action()) {
            let place = match items[i].destination() {
                Some(p) => Some(p.duplicate()),
                None => None,
            };
            if let Some(dest) = place {
                let taken = match fs.metadata(&dest) {
                    Ok(_) => true,
                    Err(_) => false,
                };
                if taken {
                    let from = items[i].source().duplicate();
                    let ghost now = Footing { steady: fs.is_steady(), idle: true };
                    let decision = decide_occupied(fs, cfg, volume, &from, &dest, &cancel);
                    let ghost d = decision.deep_view();
                    proof {
                        let look = choose|look: Option<Look>| #[trigger]
                            looks(
                                t,
                                *cfg,
                                *volume,
                                from.deep_view(),
                                dest.deep_view(),
                                look,
                                now,
                            ) && d == decided(cfg.conflict.policy, dest.deep_view(), look);
                        assert(looks(
                            t,
                            *cfg,
                            *volume,
                            from.deep_view(),
                            dest.deep_view(),
                            look,
                            on,
                        ));
                        here = Occupancy::Taken { look };
                    }
                    apply_decision(&mut items[i], decision, volume);
                    proof {
                        assert(items@[i as int].draft() == applied(
                            before[i as int].draft(),
                            d,
                            *volume,
                        ));
                    }
                }
            }
        }
        proof {
            found = known.push(here);
            assert forall|k: int| 0 <= k < i + 1 implies occupant_settled(
                t,
                *cfg,
                *volume,
                before[k].draft(),
                (#[trigger] items@[k]).draft(),
                found[k],
                on,
            ) by {
                if k < i {
                    assert(items@[k] == held[k]);
                    assert(found[k] == known[k]);
                }
            }
        }
        i = i + 1;
    }
    proof {
        assert forall|k: int| 0 <= k < before.len() implies occupant_settled(
            t,
            *cfg,
            *volume,
            drafts(before)[k],
            #[trigger] drafts(items@)[k],
            found[k],
            on,
        ) by {
            assert(drafts(items@)[k] == items@[k].draft());
        }
        assert(settled(t, *cfg, *volume, drafts(before), drafts(items@), found, on));
    }
}

/// What items share if they are duplicates: the work and the hash of their
/// bytes. None for an item of which duplicates are not looked for.
pub open spec fn twin_keys<T: Drafted>(t: Tree, items: Seq<T>) -> Seq<
    Option<(T::Key, Seq<char>)>,
> {
    Seq::new(
        items.len(),
        |i: int|
            if items[i].draft().action is Move && items[i].draft().class == T::main_class()
                && items[i].identity() is Some {
                Some(
                    (
                        items[i].identity()->0,
                        hashing::blake3_hex(bytes(t, items[i].draft().source)),
                    ),
                )
            } else {
                None
            },
    )
}

/// The first item from `j` on that shares the key of item `i`; `i` itself
/// where none before it does.
pub open spec fn first_twin<K>(keys: Seq<Option<K>>, i: int, j: int) -> int
    decreases i - j,
{
    if j >= i || keys[j] == keys[i] {
        j
    } else {
        first_twin(keys, i, j + 1)
    }
}

/// An item that holds the same as an earlier one.
pub open spec fn duplicated(d: DraftView, first: DraftView) -> DraftView {
    DraftView {
        action: ActionView::Duplicate {
            from: d.source,
            identical_to: match first.destination {
                Some(p) => p,
                None => d.source,
            },
        },
        ..d
    }
}

/// The items once duplicates have been found: of those with the same key the
/// first stays.
pub open spec fn deduplicated<K>(ds: Seq<DraftView>, keys: Seq<Option<K>>) -> Seq<DraftView> {
    Seq::new(
        ds.len(),
        |i: int|
            if keys[i] is Some && first_twin(keys, i, 0) < i {
                duplicated(ds[i], ds[first_twin(keys, i, 0)])
            } else {
                ds[i]
            },
    )
}

/// The keys of the items that could be read.
pub open spec fn read_keys<K>(
    keys: Seq<Option<K>>,
    failed: Seq<Option<IoErrorView>>,
) -> Seq<Option<K>> {
    Seq::new(
        keys.len(),
        |i: int|
            if failed[i] is None {
                keys[i]
            } else {
                None
            },
    )
}

/// What is said of an item that could not be hashed.
pub open spec fn hash_note(d: DraftView, e: IoErrorView) -> DiagnosticView {
    DiagnosticView {
        severity: Severity::Warning,
        item: Some(d.id),
        stage: "reconcile"@,
        message: "could not hash "@ + d.source.text() + ": "@ + e.message
            + "; not checked for duplicates"@,
        io_kind: Some(e.kind.label()),
    }
}

/// What is said of the items that could not be hashed.
pub open spec fn hash_notes(ds: Seq<DraftView>, failed: Seq<Option<IoErrorView>>) -> Seq<
    DiagnosticView,
>
    decreases failed.len(),
{
    if failed.len() == 0 {
        Seq::empty()
    } else {
        let before = hash_notes(ds, failed.drop_last());
        match failed.last() {
            Some(e) => before.push(hash_note(ds[failed.len() - 1], e)),
            None => before,
        }
    }
}

/// What is said of items depends on nothing but their numbers and sources.
proof fn lemma_same_hash_notes(
    a: Seq<DraftView>,
    b: Seq<DraftView>,
    failed: Seq<Option<IoErrorView>>,
)
    requires
        failed.len() <= a.len(),
        failed.len() <= b.len(),
        forall|i: int|
            0 <= i < failed.len() ==> (#[trigger] a[i]).id == b[i].id && a[i].source == b[i].source,
    ensures
        hash_notes(a, failed) == hash_notes(b, failed),
    decreases failed.len(),
{
    if failed.len() > 0 {
        lemma_same_hash_notes(a, b, failed.drop_last());
        let n = failed.len() - 1;
        assert(a[n].id == b[n].id);
    }
}

/// Whether nothing has failed but what was looked for.
pub open spec fn only_looked_for<K>(
    keys: Seq<Option<K>>,
    failed: Seq<Option<IoErrorView>>,
) -> bool {
    forall|i: int| 0 <= i < failed.len() && failed[i] is Some ==> (#[trigger] keys[i]) is Some
}

/// Whether, on a steady file system, nothing has failed but where there is no
/// file to hash.
pub open spec fn fails_rightly(
    t: Tree,
    ds: Seq<DraftView>,
    failed: Seq<Option<IoErrorView>>,
    steady: bool,
) -> bool {
    steady ==> forall|i: int|
        0 <= i < failed.len() && (#[trigger] failed[i]) is Some ==> !is_file(t, ds[i].source)
}

/// The hashes of the items of which duplicates are looked for. What cannot be
/// read is reported and left out.
fn hash_sources<F: FileSystem, T: Drafted>(
    fs: &mut F,
    items: &Vec<T>,
    notes: &mut Vec<Diagnostic>,
) -> (r: (Vec<Option<String>>, Ghost<Seq<Option<IoErrorView>>>))
    ensures
        old(fs).is_steady() ==> final(fs).is_steady(),
        only_asks(old(fs).history(), final(fs).history()),
        final(fs).tree() == old(fs).tree(),
        fails_rightly(old(fs).tree(), drafts(items@), r.1@, old(fs).is_steady()),
        final(notes).deep_view() == old(notes).deep_view() + hash_notes(drafts(items@), r.1@),
        r.1@.len() == items@.len(),
        only_looked_for(twin_keys(old(fs).tree(), items@), r.1@),
        r.0@.len() == items@.len(),
        forall|i: int|
            0 <= i < items@.len() ==> match read_keys(
                twin_keys(old(fs).tree(), items@),
                r.1@,
            )[i] {
                Some(k) => (#[trigger] r.0@[i]) is Some && r.0@[i]->0@ == k.1,
                None => r.0@[i] is None,
            },
{
    let ghost t = fs.tree();
    let ghost steady = fs.is_steady();
    let ghost n0 = notes.deep_view();
    let ghost mut failed: Seq<Option<IoErrorView>> = Seq::empty();
    let mut out: Vec<Option<String>> = Vec::new();
    let mut i: usize = 0;
    proof {
        assert(n0 =~= n0 + hash_notes(drafts(items@), failed));
    }
    while i < items.len()
        invariant
            only_asks(old(fs).history(), fs.history()),
            i <= items@.len(),
            out@.len() == i,
            failed.len() == i,
            fs.tree() == t,
            t == old(fs).tree(),
            steady == old(fs).is_steady(),
            steady ==> fs.is_steady(),
            fails_rightly(t, drafts(items@), failed, steady),
            n0 == old(notes).deep_view(),
            notes.deep_view() == n0 + hash_notes(drafts(items@), failed),
            only_looked_for(twin_keys(t, items@), failed),
            forall|k: int|
                0 <= k < i ==> match (if failed[k] is None {
                    twin_keys(t, items@)[k]
                } else {
                    None
                }) {
                    Some(key) => (#[trigger] out@[k]) is Some && out@[k]->0@ == key.1,
                    None => out@[k] is None,
                },
        decreases items@.len() - i,
    {
        let ghost held = failed;
        let ghost kept = out@;
        let ghost said = notes.deep_view();
        let ghost mut error: Option<IoErrorView> = None;
        let entry = if is_move(items[i].action()) && items[i].is_main()
            && items[i].is_identified() {
            let cancel = CancelToken::never();
            match fs.hash(items[i].source(), &cancel) {
                Ok(h) => Some(h.0),
                Err(e) => {
                    let message = "could not hash ".to_string().concat(
                        &items[i].source().to_text(),
                    ).concat(": ").concat(&e.message).concat("; not checked for duplicates");
                    notes.push(
                        Diagnostic {
                            severity: Severity::Warning,
                            item: Some(items[i].id()),
                            stage: "reconcile".to_string(),
                            message,
                            io_kind: Some(e.kind.as_str().to_string()),
                        },
                    );
                    proof {
                        error = Some(e.deep_view());
                        assert(notes.deep_view() =~= said.push(
                            hash_note(items@[i as int].draft(), e.deep_view()),
                        ));
                    }
                    None
                },
            }
        } else {
            None
        };
        out.push(entry);
        proof {
            failed = held.push(error);
            assert(failed.drop_last() =~= held);
            assert(drafts(items@)[i as int] == items@[i as int].draft());
            assert(notes.deep_view() =~= n0 + hash_notes(drafts(items@), failed));
            assert(fails_rightly(t, drafts(items@), failed, steady)) by {
                assert forall|k: int|
                    0 <= k < failed.len() && (#[trigger] failed[k]) is Some && steady implies
                    !is_file(t, drafts(items@)[k].source) by {
                    if k < i {
                        assert(failed[k] == held[k]);
                    }
                }
            }
            assert(only_looked_for(twin_keys(t, items@), failed)) by {
                assert forall|k: int| 0 <= k < failed.len() && failed[k] is Some implies (
                #[trigger] twin_keys(t, items@)[k]) is Some by {
                    if k < i {
                        assert(failed[k] == held[k]);
                    }
                }
            }
            assert forall|k: int| 0 <= k < i + 1 implies match (if failed[k] is None {
                twin_keys(t, items@)[k]
            } else {
                None
            }) {
                Some(key) => (#[trigger] out@[k]) is Some && out@[k]->0@ == key.1,
                None => out@[k] is None,
            } by {
                if k < i {
                    assert(out@[k] == kept[k]);
                    assert(failed[k] == held[k]);
                }
            }
        }
        i = i + 1;
    }
    (out, Ghost(failed))
}

/// The first item that shares the key of an item.
fn find_twin<T: Drafted>(
    items: &Vec<T>,
    hashes: &Vec<Option<String>>,
    i: usize,
    keys: Ghost<Seq<Option<(T::Key, Seq<char>)>>>,
) -> (r: usize)
    requires
        i < items@.len() == hashes@.len() == keys@.len(),
        keys@[i as int] is Some,
        forall|k: int|
            0 <= k < items@.len() ==> match #[trigger] keys@[k] {
                Some(key) => hashes@[k] is Some && hashes@[k]->0@ == key.1 && items@[k].identity()
                    == Some(key.0),
                None => hashes@[k] is None,
            },
    ensures
        r == first_twin(keys@, i as int, 0),
        r <= i,
{
    let mut j: usize = 0;
    while j < i
        invariant
            j <= i < items@.len() == hashes@.len() == keys@.len(),
            keys@[i as int] is Some,
            forall|k: int|
                0 <= k < items@.len() ==> match #[trigger] keys@[k] {
                    Some(key) => hashes@[k] is Some && hashes@[k]->0@ == key.1
                        && items@[k].identity() == Some(key.0),
                    None => hashes@[k] is None,
                },
            first_twin(keys@, i as int, 0) == first_twin(keys@, i as int, j as int),
        decreases i - j,
    {
        proof {
            assert(keys@[j as int] is Some || keys@[j as int] is None);
        }
        if let (Some(a), Some(b)) = (&hashes[j], &hashes[i]) {
            if text::same_text(a, b) && items[j].same_identity(&items[i]) {
                proof {
                    let (id_j, hash_j) = keys@[j as int]->0;
                    let (id_i, hash_i) = keys@[i as int]->0;
                    assert(id_j == id_i && hash_j == hash_i);
                }
                return j;
            }
        }
        j = j + 1;
    }
    j
}

/// Finds duplicates among the files that are to be moved.
pub fn find_duplicates<F: FileSystem, T: Drafted>(
    fs: &mut F,
    items: &mut Vec<T>,
    notes: &mut Vec<Diagnostic>,
)
    ensures
        old(fs).is_steady() ==> final(fs).is_steady(),
        only_asks(old(fs).history(), final(fs).history()),
        final(fs).tree() == old(fs).tree(),
        exists|failed: Seq<Option<IoErrorView>>| #[trigger]
            found_duplicates(
                old(fs).tree(),
                old(items)@,
                final(items)@,
                failed,
                old(fs).is_steady(),
            ) && final(notes).deep_view() == old(notes).deep_view() + hash_notes(
                drafts(old(items)@),
                failed,
            ),
        same_rest(old(items)@, final(items)@),
{
    let ghost steady = fs.is_steady();
    let (hashes, Ghost(failed)) = hash_sources(fs, items, notes);
    let ghost t = fs.tree();
    let ghost before = items@;
    let ghost ds = drafts(before);
    let ghost keys = read_keys(twin_keys(t, before), failed);
    let mut i: usize = 0;
    while i < items.len()
        invariant
            only_asks(old(fs).history(), fs.history()),
            i <= items@.len(),
            items@.len() == before.len() == hashes@.len() == keys.len(),
            ds == drafts(before),
            same_rest(before, items@),
            forall|k: int|
                0 <= k < before.len() ==> match #[trigger] keys[k] {
                    Some(key) => hashes@[k] is Some && hashes@[k]->0@ == key.1
                        && before[k].identity() == Some(key.0),
                    None => hashes@[k] is None,
                },
            forall|k: int| 0 <= k < i ==> (#[trigger] items@[k]).draft() == deduplicated(ds, keys)[k],
            forall|k: int|
                0 <= k < before.len() ==> (#[trigger] items@[k]).draft().destination
                    == ds[k].destination && items@[k].draft().source == ds[k].source,
            forall|k: int| i <= k < before.len() ==> (#[trigger] items@[k]) == before[k],
        decreases items@.len() - i,
    {
        let ghost held = items@;
        proof {
            assert(items@[i as int] == before[i as int]);
            assert(keys[i as int] is Some || keys[i as int] is None);
        }
        let looked_for = match &hashes[i] {
            Some(_) => true,
            None => false,
        };
        if looked_for {
            let first = find_twin(items, &hashes, i, Ghost(keys));
            if first < i {
                let from = items[i].source().duplicate();
                let identical_to = match items[first].destination() {
                    Some(p) => p.duplicate(),
                    None => from.duplicate(),
                };
                items[i].set_action(Action::Duplicate { from, identical_to });
            }
        }
        proof {
            assert forall|k: int| 0 <= k < i + 1 implies (#[trigger] items@[k]).draft()
                == deduplicated(ds, keys)[k] by {
                if k < i {
                    assert(items@[k] == held[k]);
                }
            }
        }
        i = i + 1;
    }
    proof {
        assert(drafts(items@) =~= deduplicated(ds, keys));
        assert(found_duplicates(t, before, items@, failed, steady));
    }
}

/// Whether duplicates have been found among the items that could be read.
pub open spec fn found_duplicates<T: Drafted>(
    t: Tree,
    before: Seq<T>,
    after: Seq<T>,
    failed: Seq<Option<IoErrorView>>,
    steady: bool,
) -> bool {
    &&& failed.len() == before.len()
    &&& fails_rightly(t, drafts(before), failed, steady)
    &&& only_looked_for(twin_keys(t, before), failed)
    &&& drafts(after) == deduplicated(drafts(before), read_keys(twin_keys(t, before), failed))
}

/// What is found out about the items of a plan: what is at their destinations,
/// and which of them could not be hashed, and why; and whether that was on a
/// steady file system.
pub struct Findings {
    pub found: Seq<Occupancy>,
    pub failed: Seq<Option<IoErrorView>>,
    pub steady: bool,
}

impl Findings {
    /// What could be relied on.
    pub open spec fn footing(self) -> Footing {
        Footing { steady: self.steady, idle: true }
    }
}

/// Whether items have been reconciled: collisions within the plan, then taken
/// destinations, then duplicates.
pub open spec fn reconciled<T: Drafted>(
    t: Tree,
    cfg: Config,
    v: VolumeSemantics,
    before: Seq<T>,
    after: Seq<T>,
    read: Findings,
) -> bool {
    exists|mid: Seq<T>| #[trigger]
        settled(t, cfg, v, collided(drafts(before), v), drafts(mid), read.found, read.footing()) && same_rest(
            before,
            mid,
        ) && found_duplicates(t, mid, after, read.failed, read.steady)
}

/// Reconciles the items of a pipeline. A file that cannot be hashed is reported
/// and not checked for duplicates.
pub fn reconcile_drafts<F: FileSystem, T: Drafted>(
    fs: &mut F,
    items: &mut Vec<T>,
    volume: &VolumeSemantics,
    cfg: &Config,
    notes: &mut Vec<Diagnostic>,
)
    ensures
        old(fs).is_steady() ==> final(fs).is_steady(),
        only_asks(old(fs).history(), final(fs).history()),
        final(fs).tree() == old(fs).tree(),
        exists|read: Findings| #[trigger]
            reconciled(
                old(fs).tree(),
                *cfg,
                *volume,
                old(items)@,
                final(items)@,
                read,
            ) && final(notes).deep_view() == old(notes).deep_view() + hash_notes(
                drafts(old(items)@),
                read.failed,
            ) && read.steady == old(fs).is_steady(),
        same_rest(old(items)@, final(items)@),
{
    let ghost t = fs.tree();
    let ghost on = Footing { steady: fs.is_steady(), idle: true };
    let ghost start = items@;
    find_collisions(items, volume);
    settle_occupants(fs, items, volume, cfg);
    let ghost mid = items@;
    let ghost said = notes.deep_view();
    let ghost clear = collided(drafts(start), *volume);
    find_duplicates(fs, items, notes);
    proof {
        let found = choose|found: Seq<Occupancy>| #[trigger]
            settled(t, *cfg, *volume, clear, drafts(mid), found, on);
        let failed = choose|failed: Seq<Option<IoErrorView>>| #[trigger]
            found_duplicates(t, mid, items@, failed, on.steady) && notes.deep_view() == said + hash_notes(
                drafts(mid),
                failed,
            );
        let read = Findings { found, failed, steady: on.steady };
        assert(read.footing() == on);
        assert forall|i: int| 0 <= i < failed.len() implies (#[trigger] drafts(start)[i]).id
            == drafts(mid)[i].id && drafts(start)[i].source == drafts(mid)[i].source by {
            assert(occupant_settled(t, *cfg, *volume, clear[i], drafts(mid)[i], found[i], on));
        }
        lemma_same_hash_notes(drafts(start), drafts(mid), failed);
        assert(settled(t, *cfg, *volume, clear, drafts(mid), read.found, on));
        assert(reconciled(t, *cfg, *volume, start, items@, read));
    }
}

/// Run reconcile over plan items, changing their actions and destinations in
/// place.
pub fn reconcile<F: FileSystem>(
    fs: &mut F,
    items: &mut Vec<PlanItemInternal>,
    volume: &VolumeSemantics,
    cfg: &Config,
    notes: &mut Vec<Diagnostic>,
)
    ensures
        old(fs).is_steady() ==> final(fs).is_steady(),
        only_asks(old(fs).history(), final(fs).history()),
        final(fs).tree() == old(fs).tree(),
        exists|read: Findings| #[trigger]
            reconciled(
                old(fs).tree(),
                *cfg,
                *volume,
                old(items)@,
                final(items)@,
                read,
            ) && final(notes).deep_view() == old(notes).deep_view() + hash_notes(
                drafts(old(items)@),
                read.failed,
            ) && read.steady == old(fs).is_steady(),
        same_rest(old(items)@, final(items)@),
{
    reconcile_drafts(fs, items, volume, cfg, notes)
}

/// No two items are left to be moved to colliding destinations once collisions
/// have been found, whatever the volume makes of letter case.
pub proof fn law_no_two_moves_collide(ds: Seq<DraftView>, v: VolumeSemantics, i: int, j: int)
    requires
        0 <= j < i < ds.len(),
        claims_path(collided(ds, v)[i]),
        claims_path(collided(ds, v)[j]),
    ensures
        clash_key(collided(ds, v)[i].destination->0, v) != clash_key(
            collided(ds, v)[j].destination->0,
            v,
        ),
{
    assert(claims_path(ds[j]));
    assert(!clashes(ds, i, v));
}

/// Unless the policy is to number copies, no two items are left to be moved to
/// colliding destinations once a plan has been reconciled.
pub proof fn law_reconciled_moves_never_collide<T: Drafted>(
    t: Tree,
    cfg: Config,
    v: VolumeSemantics,
    before: Seq<T>,
    after: Seq<T>,
    read: Findings,
    i: int,
    j: int,
)
    requires
        reconciled(t, cfg, v, before, after, read),
        cfg.conflict.policy != ConflictPolicy::RenameNew,
        0 <= j < i < after.len(),
        claims_path(after[i].draft()),
        claims_path(after[j].draft()),
    ensures
        clash_key(after[i].draft().destination->0, v) != clash_key(
            after[j].draft().destination->0,
            v,
        ),
{
    let ds = drafts(before);
    let mid = choose|mid: Seq<T>| #[trigger]
        settled(t, cfg, v, collided(ds, v), drafts(mid), read.found, read.footing()) && same_rest(
            before,
            mid,
        ) && found_duplicates(t, mid, after, read.failed, read.steady);
    assert(drafts(after).len() == drafts(mid).len() == ds.len());
    assert(drafts(after)[i] == after[i].draft());
    assert(drafts(after)[j] == after[j].draft());
    assert(drafts(mid)[i] == mid[i].draft());
    assert(drafts(mid)[j] == mid[j].draft());
    assert(occupant_settled(
        t,
        cfg,
        v,
        collided(ds, v)[i],
        drafts(mid)[i],
        read.found[i],
        read.footing(),
    ));
    assert(occupant_settled(
        t,
        cfg,
        v,
        collided(ds, v)[j],
        drafts(mid)[j],
        read.found[j],
        read.footing(),
    ));
    law_no_two_moves_collide(ds, v, i, j);
}

/// What is not to be moved is left alone by reconciling.
pub proof fn law_reconciling_leaves_other_items_alone<T: Drafted>(
    t: Tree,
    cfg: Config,
    v: VolumeSemantics,
    before: Seq<T>,
    after: Seq<T>,
    read: Findings,
    i: int,
)
    requires
        reconciled(t, cfg, v, before, after, read),
        0 <= i < before.len(),
        !(before[i].draft().action is Move),
    ensures
        after.len() == before.len(),
        after[i].draft() == before[i].draft(),
{
    let ds = drafts(before);
    let mid = choose|mid: Seq<T>| #[trigger]
        settled(t, cfg, v, collided(ds, v), drafts(mid), read.found, read.footing()) && same_rest(
            before,
            mid,
        ) && found_duplicates(t, mid, after, read.failed, read.steady);
    assert(drafts(after).len() == drafts(mid).len() == ds.len());
    assert(ds[i] == before[i].draft());
    assert(drafts(after)[i] == after[i].draft());
    assert(drafts(mid)[i] == mid[i].draft());
    assert(occupant_settled(
        t,
        cfg,
        v,
        collided(ds, v)[i],
        drafts(mid)[i],
        read.found[i],
        read.footing(),
    ));
}

/// Only the files that a pipeline is about are ever found to be duplicates, and
/// only of one of the same work that comes before.
pub proof fn law_only_main_files_are_duplicates<T: Drafted>(
    t: Tree,
    cfg: Config,
    v: VolumeSemantics,
    before: Seq<T>,
    after: Seq<T>,
    read: Findings,
    i: int,
)
    requires
        reconciled(t, cfg, v, before, after, read),
        0 <= i < before.len(),
        before[i].draft().action is Move,
        after.len() == before.len(),
        after[i].draft().action is Duplicate,
    ensures
        before[i].draft().class == T::main_class(),
        exists|j: int|
            0 <= j < i && (#[trigger] before[j]).draft().class == T::main_class()
                && before[j].identity() == before[i].identity(),
{
    let ds = drafts(before);
    let mid = choose|mid: Seq<T>| #[trigger]
        settled(t, cfg, v, collided(ds, v), drafts(mid), read.found, read.footing()) && same_rest(
            before,
            mid,
        ) && found_duplicates(t, mid, after, read.failed, read.steady);
    let keys = read_keys(twin_keys(t, mid), read.failed);
    assert(drafts(after)[i] == after[i].draft());
    assert(drafts(mid)[i] == mid[i].draft());
    assert(ds[i] == before[i].draft());
    assert(occupant_settled(
        t,
        cfg,
        v,
        collided(ds, v)[i],
        drafts(mid)[i],
        read.found[i],
        read.footing(),
    ));
    lemma_first_twin(keys, i, 0);
    let j = first_twin(keys, i, 0);
    assert(drafts(mid)[j] == mid[j].draft());
    assert(ds[j] == before[j].draft());
    assert(occupant_settled(
        t,
        cfg,
        v,
        collided(ds, v)[j],
        drafts(mid)[j],
        read.found[j],
        read.footing(),
    ));
    assert(before[j].draft().class == T::main_class());
}

/// What holds of the first item that shares a key.
proof fn lemma_first_twin<K>(keys: Seq<Option<K>>, i: int, j: int)
    requires
        j <= i,
    ensures
        j <= first_twin(keys, i, j) <= i,
        keys[first_twin(keys, i, j)] == keys[i],
    decreases i - j,
{
    if j < i && keys[j] != keys[i] {
        lemma_first_twin(keys, i, j + 1);
    }
}

/// Whether something is to be moved to a place, or to a numbered copy beside
/// it.
pub open spec fn goes_near(
    action: ActionView,
    destination: Option<PathView>,
    source: PathView,
    dest: PathView,
) -> bool {
    &&& destination matches Some(to)
    &&& action == (ActionView::Move { from: source, to })
    &&& to == dest || exists|n: nat| to == #[trigger] copy_path(dest, n)
}

/// What is to be moved once a plan has been reconciled was to be moved before,
/// to the same place or to a numbered copy beside it. Nothing but action and
/// destination changes.
pub proof fn law_reconciled_move_was_planned<T: Drafted>(
    t: Tree,
    cfg: Config,
    v: VolumeSemantics,
    before: Seq<T>,
    after: Seq<T>,
    read: Findings,
    i: int,
)
    requires
        reconciled(t, cfg, v, before, after, read),
        0 <= i < before.len(),
    ensures
        after.len() == before.len(),
        after[i].draft() == (DraftView {
            action: after[i].draft().action,
            destination: after[i].draft().destination,
            ..before[i].draft()
        }),
        after[i].draft().action is Move ==> before[i].draft().action is Move,
        after[i].draft().action is Move && before[i].draft().destination is Some
            && before[i].draft().action == (ActionView::Move {
            from: before[i].draft().source,
            to: before[i].draft().destination->0,
        }) ==> goes_near(
            after[i].draft().action,
            after[i].draft().destination,
            before[i].draft().source,
            before[i].draft().destination->0,
        ),
{
    let ds = drafts(before);
    let mid = choose|mid: Seq<T>| #[trigger]
        settled(t, cfg, v, collided(ds, v), drafts(mid), read.found, read.footing()) && same_rest(
            before,
            mid,
        ) && found_duplicates(t, mid, after, read.failed, read.steady);
    assert(drafts(after).len() == drafts(mid).len() == ds.len());
    assert(ds[i] == before[i].draft());
    assert(drafts(after)[i] == after[i].draft());
    assert(drafts(mid)[i] == mid[i].draft());
    assert(occupant_settled(
        t,
        cfg,
        v,
        collided(ds, v)[i],
        drafts(mid)[i],
        read.found[i],
        read.footing(),
    ));
}

} // verus!
