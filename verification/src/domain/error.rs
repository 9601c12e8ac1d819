//! Error taxonomy and reporting.
//!
//! Errors are classified by blast radius, not by cause: what a caller needs to
//! know is whether to keep going. Only [`Severity::Fatal`] stops a run.

use crate::domain::classify::MediaKind;
use crate::domain::duplicate::Duplicate;
use crate::domain::fs::{IoError, IoErrorView};
use crate::domain::path::{FilePath, PathView};
use crate::domain::plan::ItemId;
use crate::domain::run_id::RunId;
use vstd::prelude::*;

verus! {

/// Severity by blast radius.
#[derive(Debug, Clone, Copy, PartialEq, Eq, PartialOrd, Ord, Hash, Structural)]
pub enum Severity {
    /// Recorded, not surfaced by default.
    Info,
    /// Per item, expected.
    Notice,
    /// Per item, actionable.
    Warning,
    /// Per item, unexpected: the item did not complete.
    Failure,
    /// Run-scoped: continuing would risk the library.
    Fatal,
}

/// Why a run aborted.
#[derive(Debug, Clone, PartialEq, Eq)]
pub enum FatalReason {
    /// Root missing, unreadable, or not a directory.
    RootUnusable { root: FilePath, why: String },
    /// The journal could not be created or written through.
    JournalUnwritable { path: FilePath, why: String },
    /// Both source and destination are missing.
    ResumeLoss { from: FilePath, to: FilePath },
    /// A destination lies outside root.
    ContainmentBreach { path: FilePath },
}

/// A per-item outcome. The derived order is the order of reports.
#[derive(Debug, Clone, Copy, PartialEq, Eq, PartialOrd, Ord, Hash, Structural)]
pub enum Outcome {
    NoOp,
    Moved,
    Skipped,
    Unclassified,
    NeedsReview,
    Ambiguous,
    Conflicted,
    Duplicated,
    Failed,
}

impl Outcome {
    /// The name of the outcome.
    pub fn as_str(self) -> (r: &'static str)
        ensures
            r@ == (match self {
                Outcome::NoOp => "noop"@,
                Outcome::Moved => "moved"@,
                Outcome::Skipped => "skipped"@,
                Outcome::Unclassified => "unclassified"@,
                Outcome::NeedsReview => "review"@,
                Outcome::Ambiguous => "ambiguous"@,
                Outcome::Conflicted => "conflict"@,
                Outcome::Duplicated => "duplicate"@,
                Outcome::Failed => "failed"@,
            }),
    {
        match self {
            Outcome::NoOp => "noop",
            Outcome::Moved => "moved",
            Outcome::Skipped => "skipped",
            Outcome::Unclassified => "unclassified",
            Outcome::NeedsReview => "review",
            Outcome::Ambiguous => "ambiguous",
            Outcome::Conflicted => "conflict",
            Outcome::Duplicated => "duplicate",
            Outcome::Failed => "failed",
        }
    }

    /// The severity for this outcome.
    pub fn severity(self) -> (r: Severity)
        ensures
            r == (match self {
                Outcome::NoOp | Outcome::Moved => Severity::Info,
                Outcome::Skipped | Outcome::Unclassified => Severity::Notice,
                Outcome::NeedsReview | Outcome::Ambiguous | Outcome::Conflicted
                | Outcome::Duplicated => Severity::Warning,
                Outcome::Failed => Severity::Failure,
            }),
    {
        match self {
            Outcome::NoOp => Severity::Info,
            Outcome::Moved => Severity::Info,
            Outcome::Skipped => Severity::Notice,
            Outcome::Unclassified => Severity::Notice,
            Outcome::NeedsReview | Outcome::Ambiguous => Severity::Warning,
            Outcome::Conflicted | Outcome::Duplicated => Severity::Warning,
            Outcome::Failed => Severity::Failure,
        }
    }
}

/// What mode a run executed in.
#[derive(Debug, Clone, Copy, PartialEq, Eq, Structural)]
pub enum RunMode {
    Plan,
    DryRun,
    Apply,
    Verify,
    Resume,
}

/// A diagnostic line, attached to an item or run-scoped.
#[derive(Debug, Clone, PartialEq, Eq)]
pub struct Diagnostic {
    pub severity: Severity,
    /// `None` for run-scoped diagnostics.
    pub item: Option<ItemId>,
    /// Which pipeline stage produced this.
    pub stage: String,
    pub message: String,
    /// The underlying error kind, when relevant.
    pub io_kind: Option<String>,
}

/// The contents of a [`Diagnostic`].
#[verifier::ext_equal]
pub struct DiagnosticView {
    pub severity: Severity,
    pub item: Option<ItemId>,
    pub stage: Seq<char>,
    pub message: Seq<char>,
    pub io_kind: Option<Seq<char>>,
}

impl DeepView for Diagnostic {
    type V = DiagnosticView;

    open spec fn deep_view(&self) -> DiagnosticView {
        DiagnosticView {
            severity: self.severity,
            item: self.item,
            stage: self.stage@,
            message: self.message@,
            io_kind: self.io_kind.deep_view(),
        }
    }
}

impl Duplicate for Diagnostic {
    fn duplicate(&self) -> (r: Self) {
        Diagnostic {
            severity: self.severity,
            item: self.item,
            stage: self.stage.clone(),
            message: self.message.clone(),
            io_kind: self.io_kind.duplicate(),
        }
    }
}

/// A run-scoped diagnostic.
pub open spec fn note(severity: Severity, stage: Seq<char>, message: Seq<char>) -> DiagnosticView {
    DiagnosticView { severity, item: None, stage, message, io_kind: None }
}

impl Diagnostic {
    /// A run-scoped note.
    pub fn info(stage: &str, message: String) -> (r: Self)
        ensures
            r.deep_view() == note(Severity::Info, stage@, message@),
    {
        Diagnostic {
            severity: Severity::Info,
            item: None,
            stage: stage.to_string(),
            message,
            io_kind: None,
        }
    }

    /// A run-scoped warning.
    pub fn warning(stage: &str, message: String) -> (r: Self)
        ensures
            r.deep_view() == note(Severity::Warning, stage@, message@),
    {
        Diagnostic {
            severity: Severity::Warning,
            item: None,
            stage: stage.to_string(),
            message,
            io_kind: None,
        }
    }

    /// A run-scoped failure.
    pub fn failure(stage: &str, message: String) -> (r: Self)
        ensures
            r.deep_view() == note(Severity::Failure, stage@, message@),
    {
        Diagnostic {
            severity: Severity::Failure,
            item: None,
            stage: stage.to_string(),
            message,
            io_kind: None,
        }
    }
}

/// How often each outcome came about.
#[derive(Debug, Clone, Copy, PartialEq, Eq, Structural)]
pub struct Tally {
    pub noop: u64,
    pub moved: u64,
    pub skipped: u64,
    pub unclassified: u64,
    pub needs_review: u64,
    pub ambiguous: u64,
    pub conflicted: u64,
    pub duplicated: u64,
    pub failed: u64,
}

/// One more, up to the greatest number.
pub open spec fn bumped(n: u64) -> u64 {
    if n < u64::MAX {
        (n + 1) as u64
    } else {
        n
    }
}

/// Adds one, up to the greatest number.
pub fn bump(n: u64) -> (r: u64)
    ensures
        r == bumped(n),
{
    if n < u64::MAX {
        n + 1
    } else {
        n
    }
}

impl Tally {
    /// Nothing counted.
    pub open spec fn zero() -> Self {
        Tally {
            noop: 0,
            moved: 0,
            skipped: 0,
            unclassified: 0,
            needs_review: 0,
            ambiguous: 0,
            conflicted: 0,
            duplicated: 0,
            failed: 0,
        }
    }

    /// How often an outcome came about.
    pub open spec fn of(self, o: Outcome) -> u64 {
        match o {
            Outcome::NoOp => self.noop,
            Outcome::Moved => self.moved,
            Outcome::Skipped => self.skipped,
            Outcome::Unclassified => self.unclassified,
            Outcome::NeedsReview => self.needs_review,
            Outcome::Ambiguous => self.ambiguous,
            Outcome::Conflicted => self.conflicted,
            Outcome::Duplicated => self.duplicated,
            Outcome::Failed => self.failed,
        }
    }

    /// The counts with one more of an outcome.
    pub open spec fn plus(self, o: Outcome) -> Self {
        match o {
            Outcome::NoOp => Tally { noop: bumped(self.noop), ..self },
            Outcome::Moved => Tally { moved: bumped(self.moved), ..self },
            Outcome::Skipped => Tally { skipped: bumped(self.skipped), ..self },
            Outcome::Unclassified => Tally { unclassified: bumped(self.unclassified), ..self },
            Outcome::NeedsReview => Tally { needs_review: bumped(self.needs_review), ..self },
            Outcome::Ambiguous => Tally { ambiguous: bumped(self.ambiguous), ..self },
            Outcome::Conflicted => Tally { conflicted: bumped(self.conflicted), ..self },
            Outcome::Duplicated => Tally { duplicated: bumped(self.duplicated), ..self },
            Outcome::Failed => Tally { failed: bumped(self.failed), ..self },
        }
    }

    /// Nothing counted.
    pub fn new() -> (r: Self)
        ensures
            r == Tally::zero(),
    {
        Tally {
            noop: 0,
            moved: 0,
            skipped: 0,
            unclassified: 0,
            needs_review: 0,
            ambiguous: 0,
            conflicted: 0,
            duplicated: 0,
            failed: 0,
        }
    }

    /// How often an outcome came about.
    pub fn get(&self, o: Outcome) -> (r: u64)
        ensures
            r == self.of(o),
    {
        match o {
            Outcome::NoOp => self.noop,
            Outcome::Moved => self.moved,
            Outcome::Skipped => self.skipped,
            Outcome::Unclassified => self.unclassified,
            Outcome::NeedsReview => self.needs_review,
            Outcome::Ambiguous => self.ambiguous,
            Outcome::Conflicted => self.conflicted,
            Outcome::Duplicated => self.duplicated,
            Outcome::Failed => self.failed,
        }
    }

    /// Counts one more of an outcome.
    pub fn add_one(&mut self, o: Outcome)
        ensures
            *final(self) == old(self).plus(o),
    {
        match o {
            Outcome::NoOp => self.noop = bump(self.noop),
            Outcome::Moved => self.moved = bump(self.moved),
            Outcome::Skipped => self.skipped = bump(self.skipped),
            Outcome::Unclassified => self.unclassified = bump(self.unclassified),
            Outcome::NeedsReview => self.needs_review = bump(self.needs_review),
            Outcome::Ambiguous => self.ambiguous = bump(self.ambiguous),
            Outcome::Conflicted => self.conflicted = bump(self.conflicted),
            Outcome::Duplicated => self.duplicated = bump(self.duplicated),
            Outcome::Failed => self.failed = bump(self.failed),
        }
    }
}

/// The single value feeding exit codes and every front end, so they cannot
/// disagree about what happened.
#[derive(Debug, Clone, PartialEq)]
pub struct RunReport {
    pub run_id: RunId,
    pub mode: RunMode,
    pub kind: MediaKind,
    pub root: FilePath,
    pub counts: Tally,
    /// Planned-but-not-applied work.
    pub pending: Tally,
    pub diagnostics: Vec<Diagnostic>,
    pub dirs_removed: u64,
    pub dirs_not_removable: Vec<(FilePath, String)>,
    pub reservations_reclaimed: u64,
    pub fatal: Option<FatalReason>,
    pub cancelled: bool,
    /// How long the run took, in milliseconds; filled in by the front end.
    pub duration_ms: u64,
}

/// The exit code: the highest applicable wins.
pub open spec fn exit_code_of(
    cancelled: bool,
    fatal: bool,
    counts: Tally,
    pending: Tally,
    strict: bool,
) -> u8 {
    if cancelled {
        130
    } else if fatal {
        50
    } else if counts.failed > 0 {
        40
    } else if counts.conflicted > 0 {
        30
    } else if counts.duplicated > 0 {
        25
    } else if counts.needs_review > 0 || counts.ambiguous > 0 || (strict && counts.skipped > 0) {
        20
    } else if pending != Tally::zero() {
        10
    } else {
        0
    }
}

impl RunReport {
    /// A report of a run that has not done anything yet.
    pub fn new(run_id: RunId, mode: RunMode, kind: MediaKind, root: FilePath) -> (r: Self)
        ensures
            r.run_id == run_id,
            r.mode == mode,
            r.kind == kind,
            r.root == root,
            r.counts == Tally::zero(),
            r.pending == Tally::zero(),
            r.diagnostics@ == Seq::<Diagnostic>::empty(),
            r.dirs_removed == 0,
            r.dirs_not_removable@ == Seq::<(FilePath, String)>::empty(),
            r.reservations_reclaimed == 0,
            r.fatal is None,
            !r.cancelled,
            r.duration_ms == 0,
    {
        RunReport {
            run_id,
            mode,
            kind,
            root,
            counts: Tally::new(),
            pending: Tally::new(),
            diagnostics: Vec::new(),
            dirs_removed: 0,
            dirs_not_removable: Vec::new(),
            reservations_reclaimed: 0,
            fatal: None,
            cancelled: false,
            duration_ms: 0,
        }
    }

    /// Counts one more of an outcome.
    pub fn count(&mut self, outcome: Outcome)
        ensures
            *final(self) == (RunReport { counts: old(self).counts.plus(outcome), ..*old(self) }),
    {
        self.counts.add_one(outcome);
    }

    /// Counts one more pending outcome.
    pub fn pending_count(&mut self, outcome: Outcome)
        ensures
            *final(self) == (RunReport { pending: old(self).pending.plus(outcome), ..*old(self) }),
    {
        self.pending.add_one(outcome);
    }

    /// How often an outcome came about.
    pub fn total(&self, outcome: Outcome) -> (r: u64)
        ensures
            r == self.counts.of(outcome),
    {
        self.counts.get(outcome)
    }

    /// Compute the exit code (highest applicable wins).
    pub fn exit_code(&self, strict: bool) -> (r: u8)
        ensures
            r == exit_code_of(
                self.cancelled,
                self.fatal is Some,
                self.counts,
                self.pending,
                strict,
            ),
    {
        if self.cancelled {
            return 130;
        }
        if self.fatal.is_some() {
            return 50;
        }
        if self.total(Outcome::Failed) > 0 {
            return 40;
        }
        if self.total(Outcome::Conflicted) > 0 {
            return 30;
        }
        if self.total(Outcome::Duplicated) > 0 {
            return 25;
        }
        if self.total(Outcome::NeedsReview) > 0 || self.total(Outcome::Ambiguous) > 0 {
            return 20;
        }
        if strict && self.total(Outcome::Skipped) > 0 {
            return 20;
        }
        let p = self.pending;
        if p.noop > 0 || p.moved > 0 || p.skipped > 0 || p.unclassified > 0 || p.needs_review > 0
            || p.ambiguous > 0 || p.conflicted > 0 || p.duplicated > 0 || p.failed > 0 {
            return 10;
        }
        0
    }
}

/// A run that was not cancelled, hit nothing fatal and left nothing undone
/// exits with zero, and no other run does.
pub proof fn law_exit_zero_means_clean(
    cancelled: bool,
    fatal: bool,
    counts: Tally,
    pending: Tally,
    strict: bool,
)
    ensures
        exit_code_of(cancelled, fatal, counts, pending, strict) == 0 <==> !cancelled && !fatal
            && counts.failed == 0 && counts.conflicted == 0 && counts.duplicated == 0
            && counts.needs_review == 0 && counts.ambiguous == 0 && (strict ==> counts.skipped == 0)
            && pending == Tally::zero(),
{
}

/// A strict run never exits with less than one that is not.
pub proof fn law_strict_never_lowers_exit_code(
    cancelled: bool,
    fatal: bool,
    counts: Tally,
    pending: Tally,
)
    ensures
        exit_code_of(cancelled, fatal, counts, pending, true) >= exit_code_of(
            cancelled,
            fatal,
            counts,
            pending,
            false,
        ),
{
}

/// Errors internal to the core domain model.
#[derive(Debug, Clone, PartialEq, Eq)]
pub enum CoreError {
    InvalidConfig(String),
    InvalidTemplate(String),
    EmptyName(String),
    DestinationOccupied(FilePath),
    SourceMissing(FilePath),
    Io(IoError),
    Serde(String),
    Toml(String),
}

/// The contents of a [`CoreError`].
#[verifier::ext_equal]
pub enum CoreErrorView {
    InvalidConfig(Seq<char>),
    InvalidTemplate(Seq<char>),
    EmptyName(Seq<char>),
    DestinationOccupied(PathView),
    SourceMissing(PathView),
    Io(IoErrorView),
    Serde(Seq<char>),
    Toml(Seq<char>),
}

impl DeepView for CoreError {
    type V = CoreErrorView;

    open spec fn deep_view(&self) -> CoreErrorView {
        match *self {
            CoreError::InvalidConfig(s) => CoreErrorView::InvalidConfig(s@),
            CoreError::InvalidTemplate(s) => CoreErrorView::InvalidTemplate(s@),
            CoreError::EmptyName(s) => CoreErrorView::EmptyName(s@),
            CoreError::DestinationOccupied(p) => CoreErrorView::DestinationOccupied(p.deep_view()),
            CoreError::SourceMissing(p) => CoreErrorView::SourceMissing(p.deep_view()),
            CoreError::Io(e) => CoreErrorView::Io(e.deep_view()),
            CoreError::Serde(s) => CoreErrorView::Serde(s@),
            CoreError::Toml(s) => CoreErrorView::Toml(s@),
        }
    }
}

impl CoreErrorView {
    /// The error in words.
    pub open spec fn message(self) -> Seq<char> {
        match self {
            CoreErrorView::InvalidConfig(s) => "invalid configuration: "@ + s,
            CoreErrorView::InvalidTemplate(s) => "invalid template: "@ + s,
            CoreErrorView::EmptyName(s) => "path sanitises to empty: "@ + s,
            CoreErrorView::DestinationOccupied(p) => "destination occupied: "@ + p.text(),
            CoreErrorView::SourceMissing(p) => "source missing: "@ + p.text(),
            CoreErrorView::Io(e) => "io error: "@ + e.message,
            CoreErrorView::Serde(s) => "serde error: "@ + s,
            CoreErrorView::Toml(s) => "toml error: "@ + s,
        }
    }
}

impl CoreError {
    /// The error in words.
    pub fn message(&self) -> (r: String)
        ensures
            r@ == self.deep_view().message(),
    {
        match self {
            CoreError::InvalidConfig(s) => String::from_str("invalid configuration: ").concat(s),
            CoreError::InvalidTemplate(s) => String::from_str("invalid template: ").concat(s),
            CoreError::EmptyName(s) => String::from_str("path sanitises to empty: ").concat(s),
            CoreError::DestinationOccupied(p) => String::from_str("destination occupied: ").concat(
                &p.to_text(),
            ),
            CoreError::SourceMissing(p) => String::from_str("source missing: ").concat(
                &p.to_text(),
            ),
            CoreError::Io(e) => String::from_str("io error: ").concat(&e.message),
            CoreError::Serde(s) => String::from_str("serde error: ").concat(s),
            CoreError::Toml(s) => String::from_str("toml error: ").concat(s),
        }
    }
}

} // verus!
