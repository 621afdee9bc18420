//! The wall clock that bounds a solver run.

use vstd::prelude::*;
use std::time::{Duration, Instant};

verus! {

/// A point in time of the monotonic clock, `std::time::Instant`.
#[verifier::external_type_specification]
#[verifier::external_body]
pub struct ExInstant(Instant);

/// `std::time::Instant::now` reads the clock; no two readings are related here.
pub assume_specification[ Instant::now ]() -> (now: Instant);

/// `std::time::Instant::elapsed` measures the time since `start`; nothing is
/// claimed of the amount.
pub assume_specification[ Instant::elapsed ](start: &Instant) -> (passed: Duration);

/// `std::time::Duration::as_millis` converts to whole milliseconds; nothing is
/// claimed of the number.
pub assume_specification[ Duration::as_millis ](span: &Duration) -> (millis: u128);

/// Tells whether a run that has taken `millis` milliseconds has used up the
/// budget of one solver run.
pub fn budget_spent(millis: u128) -> (spent: bool)
    ensures
        spent == (crate::MAX_OPT_MILLIS <= millis),
{
    crate::MAX_OPT_MILLIS <= millis
}

/// Tells whether the budget of one solver run is used up since `start`:
/// whether [`budget_spent`] holds of the milliseconds that the clock counts
/// since then. What the clock counts is not known beforehand, so nothing is
/// promised of the answer.
pub fn out_of_time(start: &Instant) -> (expired: bool) {
    budget_spent(start.elapsed().as_millis())
}

} // verus!
