//! Plan and readiness types.
//!
//! A plan is a value: dry-run output, preview and apply all work on the same
//! struct.

use crate::domain::classify::{FileClass, MediaKind};
use crate::domain::duplicate::Duplicate;
use crate::domain::error::{Diagnostic, DiagnosticView};
use crate::domain::path::{FilePath, PathView};
use crate::domain::run_id::RunId;
use crate::domain::volume::VolumeSemantics;
use vstd::prelude::*;

verus! {

/// Stable identifier for a plan item.
#[derive(Debug, Clone, Copy, PartialEq, Eq, Hash, PartialOrd, Ord, Structural)]
pub struct ItemId(pub u64);

/// Identifier of a directory rename.
#[derive(Debug, Clone, Copy, PartialEq, Eq, Hash, PartialOrd, Ord, Structural)]
pub struct DirRenameId(pub u64);

/// Identifier of a directory removal.
#[derive(Debug, Clone, Copy, PartialEq, Eq, Hash, PartialOrd, Ord, Structural)]
pub struct DirRemovalId(pub u64);

impl ItemId {
    /// The identifier with the given number.
    pub fn new(n: u64) -> (r: Self)
        ensures
            r == ItemId(n),
    {
        ItemId(n)
    }
}

/// A named field, used where a review is asked for.
#[derive(Debug, Clone, Copy, PartialEq, Eq, Hash, Structural)]
pub enum FieldName {
    Title,
    Year,
    Edition,
    Season,
    Episodes,
    EpisodeTitle,
    AlbumArtist,
    Album,
    Track,
    TrackTitle,
    Disc,
    Resolution,
}

impl FieldName {
    /// The name of the field.
    pub open spec fn name(self) -> Seq<char> {
        match self {
            FieldName::Title => "title"@,
            FieldName::Year => "year"@,
            FieldName::Edition => "edition"@,
            FieldName::Season => "season"@,
            FieldName::Episodes => "episodes"@,
            FieldName::EpisodeTitle => "episode_title"@,
            FieldName::AlbumArtist => "album_artist"@,
            FieldName::Album => "album"@,
            FieldName::Track => "track"@,
            FieldName::TrackTitle => "track_title"@,
            FieldName::Disc => "disc"@,
            FieldName::Resolution => "resolution"@,
        }
    }

    /// The name of the field.
    pub fn as_str(&self) -> (r: &'static str)
        ensures
            r@ == self.name(),
    {
        match self {
            FieldName::Title => "title",
            FieldName::Year => "year",
            FieldName::Edition => "edition",
            FieldName::Season => "season",
            FieldName::Episodes => "episodes",
            FieldName::EpisodeTitle => "episode_title",
            FieldName::AlbumArtist => "album_artist",
            FieldName::Album => "album",
            FieldName::Track => "track",
            FieldName::TrackTitle => "track_title",
            FieldName::Disc => "disc",
            FieldName::Resolution => "resolution",
        }
    }
}

/// Copies a list of field names.
pub fn copy_names(list: &Vec<FieldName>) -> (r: Vec<FieldName>)
    ensures
        r@ == list@,
{
    let mut out: Vec<FieldName> = Vec::new();
    let mut i: usize = 0;
    while i < list.len()
        invariant
            i <= list@.len(),
            out@ == list@.take(i as int),
        decreases list@.len() - i,
    {
        out.push(list[i]);
        i = i + 1;
    }
    out
}

/// Readiness of a resolved item.
#[derive(Debug, Clone, PartialEq)]
pub enum Readiness {
    Ready,
    NeedsReview { missing: Vec<FieldName>, reasons: Vec<String> },
    Ambiguous { interpretations: Vec<String> },
}

/// The contents of a [`Readiness`].
#[verifier::ext_equal]
pub enum ReadinessView {
    Ready,
    NeedsReview { missing: Seq<FieldName>, reasons: Seq<Seq<char>> },
    Ambiguous { interpretations: Seq<Seq<char>> },
}

impl DeepView for Readiness {
    type V = ReadinessView;

    open spec fn deep_view(&self) -> ReadinessView {
        match *self {
            Readiness::Ready => ReadinessView::Ready,
            Readiness::NeedsReview { missing, reasons } => ReadinessView::NeedsReview {
                missing: missing@,
                reasons: reasons.deep_view(),
            },
            Readiness::Ambiguous { interpretations } => ReadinessView::Ambiguous {
                interpretations: interpretations.deep_view(),
            },
        }
    }
}

impl Duplicate for Readiness {
    fn duplicate(&self) -> (r: Self) {
        match self {
            Readiness::Ready => Readiness::Ready,
            Readiness::NeedsReview { missing, reasons } => Readiness::NeedsReview {
                missing: copy_names(missing),
                reasons: reasons.duplicate(),
            },
            Readiness::Ambiguous { interpretations } => Readiness::Ambiguous {
                interpretations: interpretations.duplicate(),
            },
        }
    }
}

/// Why a file is left where it is.
#[derive(Debug, Clone, Copy, PartialEq, Eq, Structural)]
pub enum SkipReason {
    Symlink,
    Ignored,
    Junk,
    Unknown,
    Protected,
    /// The destination is taken and the policy says to skip.
    Conflict,
    /// The destination holds the same bytes.
    Identical,
}

/// What occupies a destination.
#[derive(Debug, Clone, PartialEq)]
pub struct ExistingInfo {
    pub path: FilePath,
    pub len: u64,
    pub blake3: Option<String>,
}

/// The contents of an [`ExistingInfo`].
#[verifier::ext_equal]
pub struct ExistingView {
    pub path: PathView,
    pub len: u64,
    pub blake3: Option<Seq<char>>,
}

impl DeepView for ExistingInfo {
    type V = ExistingView;

    open spec fn deep_view(&self) -> ExistingView {
        ExistingView {
            path: self.path.deep_view(),
            len: self.len,
            blake3: self.blake3.deep_view(),
        }
    }
}

impl Duplicate for ExistingInfo {
    fn duplicate(&self) -> (r: Self) {
        ExistingInfo {
            path: self.path.duplicate(),
            len: self.len,
            blake3: self.blake3.duplicate(),
        }
    }
}

/// What to do with a planned item.
#[derive(Debug, Clone, PartialEq)]
pub enum Action {
    NoOp,
    Move { from: FilePath, to: FilePath },
    Skip { reason: SkipReason },
    Conflict { from: FilePath, to: FilePath, existing: ExistingInfo },
    Duplicate { from: FilePath, identical_to: FilePath },
    NeedsReview { path: FilePath, missing: Vec<FieldName> },
}

/// The contents of an [`Action`].
#[verifier::ext_equal]
pub enum ActionView {
    NoOp,
    Move { from: PathView, to: PathView },
    Skip { reason: SkipReason },
    Conflict { from: PathView, to: PathView, existing: ExistingView },
    Duplicate { from: PathView, identical_to: PathView },
    NeedsReview { path: PathView, missing: Seq<FieldName> },
}

impl DeepView for Action {
    type V = ActionView;

    open spec fn deep_view(&self) -> ActionView {
        match *self {
            Action::NoOp => ActionView::NoOp,
            Action::Move { from, to } => ActionView::Move {
                from: from.deep_view(),
                to: to.deep_view(),
            },
            Action::Skip { reason } => ActionView::Skip { reason },
            Action::Conflict { from, to, existing } => ActionView::Conflict {
                from: from.deep_view(),
                to: to.deep_view(),
                existing: existing.deep_view(),
            },
            Action::Duplicate { from, identical_to } => ActionView::Duplicate {
                from: from.deep_view(),
                identical_to: identical_to.deep_view(),
            },
            Action::NeedsReview { path, missing } => ActionView::NeedsReview {
                path: path.deep_view(),
                missing: missing@,
            },
        }
    }
}

impl Duplicate for Action {
    fn duplicate(&self) -> (r: Self) {
        match self {
            Action::NoOp => Action::NoOp,
            Action::Move { from, to } => Action::Move {
                from: from.duplicate(),
                to: to.duplicate(),
            },
            Action::Skip { reason } => Action::Skip { reason: *reason },
            Action::Conflict { from, to, existing } => Action::Conflict {
                from: from.duplicate(),
                to: to.duplicate(),
                existing: existing.duplicate(),
            },
            Action::Duplicate { from, identical_to } => Action::Duplicate {
                from: from.duplicate(),
                identical_to: identical_to.duplicate(),
            },
            Action::NeedsReview { path, missing } => Action::NeedsReview {
                path: path.duplicate(),
                missing: copy_names(missing),
            },
        }
    }
}

/// A directory rename (a case-only or normalisation-only fix).
#[derive(Debug, Clone, PartialEq, Eq)]
pub struct DirRename {
    pub id: DirRenameId,
    pub from: FilePath,
    pub to: FilePath,
}

/// The contents of a [`DirRename`].
#[verifier::ext_equal]
pub struct DirRenameView {
    pub id: DirRenameId,
    pub from: PathView,
    pub to: PathView,
}

impl DeepView for DirRename {
    type V = DirRenameView;

    open spec fn deep_view(&self) -> DirRenameView {
        DirRenameView { id: self.id, from: self.from.deep_view(), to: self.to.deep_view() }
    }
}

impl Duplicate for DirRename {
    fn duplicate(&self) -> (r: Self) {
        DirRename { id: self.id, from: self.from.duplicate(), to: self.to.duplicate() }
    }
}

/// A directory removal candidate.
#[derive(Debug, Clone, PartialEq, Eq)]
pub struct DirRemoval {
    pub id: DirRemovalId,
    pub path: FilePath,
}

/// The contents of a [`DirRemoval`].
#[verifier::ext_equal]
pub struct DirRemovalView {
    pub id: DirRemovalId,
    pub path: PathView,
}

impl DeepView for DirRemoval {
    type V = DirRemovalView;

    open spec fn deep_view(&self) -> DirRemovalView {
        DirRemovalView { id: self.id, path: self.path.deep_view() }
    }
}

/// One planned item.
#[derive(Debug, Clone, PartialEq)]
pub struct PlanItem {
    pub id: ItemId,
    pub source: FilePath,
    pub relative: FilePath,
    pub class: FileClass,
    pub readiness: Readiness,
    pub action: Action,
    pub destination: Option<FilePath>,
}

/// The contents of a [`PlanItem`].
#[verifier::ext_equal]
pub struct PlanItemView {
    pub id: ItemId,
    pub source: PathView,
    pub relative: PathView,
    pub class: FileClass,
    pub readiness: ReadinessView,
    pub action: ActionView,
    pub destination: Option<PathView>,
}

impl DeepView for PlanItem {
    type V = PlanItemView;

    open spec fn deep_view(&self) -> PlanItemView {
        PlanItemView {
            id: self.id,
            source: self.source.deep_view(),
            relative: self.relative.deep_view(),
            class: self.class,
            readiness: self.readiness.deep_view(),
            action: self.action.deep_view(),
            destination: self.destination.deep_view(),
        }
    }
}

impl Duplicate for PlanItem {
    fn duplicate(&self) -> (r: Self) {
        PlanItem {
            id: self.id,
            source: self.source.duplicate(),
            relative: self.relative.duplicate(),
            class: self.class,
            readiness: self.readiness.duplicate(),
            action: self.action.duplicate(),
            destination: self.destination.duplicate(),
        }
    }
}

/// Summary counts.
#[derive(Debug, Clone, Copy, PartialEq, Eq, Structural)]
pub struct PlanStats {
    pub total: u64,
    pub ready: u64,
    pub noop: u64,
    pub needs_review: u64,
    pub ambiguous: u64,
    pub conflicts: u64,
    pub duplicates: u64,
    pub skipped: u64,
    pub unclassified: u64,
}

/// No counts.
pub open spec fn no_stats() -> PlanStats {
    PlanStats {
        total: 0,
        ready: 0,
        noop: 0,
        needs_review: 0,
        ambiguous: 0,
        conflicts: 0,
        duplicates: 0,
        skipped: 0,
        unclassified: 0,
    }
}

impl Default for PlanStats {
    fn default() -> (r: Self)
        ensures
            r == no_stats(),
    {
        PlanStats {
            total: 0,
            ready: 0,
            noop: 0,
            needs_review: 0,
            ambiguous: 0,
            conflicts: 0,
            duplicates: 0,
            skipped: 0,
            unclassified: 0,
        }
    }
}

/// The plan. The directories to create are held without repetition.
#[derive(Debug, Clone)]
pub struct Plan {
    pub version: u32,
    pub run_id: RunId,
    pub root: FilePath,
    pub kind: MediaKind,
    pub config_digest: String,
    pub volume: VolumeSemantics,
    pub items: Vec<PlanItem>,
    pub dir_creates: Vec<FilePath>,
    pub dir_renames: Vec<DirRename>,
    pub dir_removals: Vec<DirRemoval>,
    pub diagnostics: Vec<Diagnostic>,
    pub stats: PlanStats,
}

/// The contents of a [`Plan`].
#[verifier::ext_equal]
pub struct PlanView {
    pub version: u32,
    pub run_id: RunId,
    pub root: PathView,
    pub kind: MediaKind,
    pub config_digest: Seq<char>,
    pub volume: VolumeSemantics,
    pub items: Seq<PlanItemView>,
    pub dir_creates: Seq<PathView>,
    pub dir_renames: Seq<DirRenameView>,
    pub dir_removals: Seq<DirRemovalView>,
    pub diagnostics: Seq<DiagnosticView>,
    pub stats: PlanStats,
}

impl DeepView for Plan {
    type V = PlanView;

    open spec fn deep_view(&self) -> PlanView {
        PlanView {
            version: self.version,
            run_id: self.run_id,
            root: self.root.deep_view(),
            kind: self.kind,
            config_digest: self.config_digest@,
            volume: self.volume,
            items: self.items.deep_view(),
            dir_creates: self.dir_creates.deep_view(),
            dir_renames: self.dir_renames.deep_view(),
            dir_removals: self.dir_removals.deep_view(),
            diagnostics: self.diagnostics.deep_view(),
            stats: self.stats,
        }
    }
}

impl Plan {
    /// A plan with nothing in it yet.
    pub fn new(
        run_id: RunId,
        root: FilePath,
        kind: MediaKind,
        config_digest: String,
        volume: VolumeSemantics,
    ) -> (r: Self)
        ensures
            r.deep_view() == (PlanView {
                version: 1,
                run_id,
                root: root.deep_view(),
                kind,
                config_digest: config_digest@,
                volume,
                items: Seq::empty(),
                dir_creates: Seq::empty(),
                dir_renames: Seq::empty(),
                dir_removals: Seq::empty(),
                diagnostics: Seq::empty(),
                stats: no_stats(),
            }),
    {
        let r = Plan {
            version: 1,
            run_id,
            root,
            kind,
            config_digest,
            volume,
            items: Vec::new(),
            dir_creates: Vec::new(),
            dir_renames: Vec::new(),
            dir_removals: Vec::new(),
            diagnostics: Vec::new(),
            stats: PlanStats::default(),
        };
        proof {
            assert(r.items.deep_view() =~= Seq::empty());
            assert(r.dir_creates.deep_view() =~= Seq::empty());
            assert(r.dir_renames.deep_view() =~= Seq::empty());
            assert(r.dir_removals.deep_view() =~= Seq::empty());
            assert(r.diagnostics.deep_view() =~= Seq::empty());
        }
        r
    }
}

} // verus!
