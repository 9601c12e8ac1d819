//! Execution: phased apply of a plan.

pub mod cleanup;
pub mod dirs;
pub mod moves;
pub mod reclaim;
pub mod run;
pub mod totals;
pub mod trace;
pub mod verdicts;

pub use reclaim::gc;
pub use run::{execute, report_from_plan, report_unopened};

use crate::domain::error::RunReport;
use crate::domain::fs::CancelToken;
use crate::domain::path::FilePath;
use vstd::prelude::*;

verus! {

/// Options for applying a plan.
#[derive(Debug, Clone)]
pub struct ExecOptions {
    pub fail_fast: bool,
    /// Directory for the journal and the plans.
    pub journal_dir: FilePath,
    pub cancel: CancelToken,
    /// Whether a destination may be replaced where the policy says so.
    pub allow_replace: bool,
}

/// Whether a report differs from an earlier one in nothing but that it was
/// cancelled where there was something left to do.
pub open spec fn broken_off(a: RunReport, b: RunReport, busy: bool) -> bool {
    b == RunReport { cancelled: a.cancelled || busy, ..a }
}

/// Heeds what a token has said: where cancellation was asked for, the report
/// says so and the run stops.
pub fn heed(report: &mut RunReport, asked: bool) -> (stop: bool)
    ensures
        stop == asked,
        broken_off(*old(report), *final(report), asked),
        !asked ==> *final(report) == *old(report),
{
    if asked {
        report.cancelled = true;
    }
    asked
}

/// Options for [`gc`].
#[derive(Debug, Clone)]
pub struct GcOptions {
    pub journal_dir: FilePath,
    pub yes: bool,
}

} // verus!
