//! The clock.

use crate::domain::fs::Stamp;
use std::time::{SystemTime, UNIX_EPOCH};
use vstd::prelude::*;

verus! {

/// A reading of the clock, `std::time::SystemTime`.
#[verifier::external_type_specification]
#[verifier::external_body]
pub struct ExSystemTime(SystemTime);

/// `SystemTime::now` reads the clock. Nothing is claimed of the time.
pub assume_specification[ SystemTime::now ]() -> SystemTime;

/// Measures a reading from the Unix epoch with `SystemTime::duration_since`,
/// which fails for a clock that is set before the epoch. Nothing is claimed of
/// the time but that the nanoseconds beyond the whole seconds are fewer than a
/// second has.
#[verifier::external_body]
fn since_epoch(t: SystemTime) -> (r: Option<Stamp>)
    ensures
        r matches Some(s) ==> s.nanos < 1_000_000_000,
{
    match t.duration_since(UNIX_EPOCH) {
        Ok(d) => Some(Stamp { secs: d.as_secs() as i64, nanos: d.subsec_nanos() }),
        Err(_) => None,
    }
}

/// The time now. A clock that is set before the Unix epoch reads as the epoch.
pub(crate) fn now() -> (r: Stamp)
    ensures
        r.nanos < 1_000_000_000,
{
    match since_epoch(SystemTime::now()) {
        Some(s) => s,
        None => Stamp { secs: 0, nanos: 0 },
    }
}

} // verus!
