//! The wall clock that bounds a run: readings of the monotonic clock of the
//! `time` crate, and the budget that a run may spend.

use time::{Duration, SteadyTime};
use vstd::prelude::*;

verus! {

/// `time::SteadyTime`, a reading of the monotonic clock. Nothing inside it is
/// visible here.
#[verifier::external_type_specification]
#[verifier::external_body]
pub struct ExSteadyTime(SteadyTime);

/// `time::Duration`, the time between two readings. Nothing inside it is
/// visible here.
#[verifier::external_type_specification]
#[verifier::external_body]
pub struct ExDuration(Duration);

/// The nanoseconds that a run may take while its time limit is on.
pub const TIME_BUDGET_NANOS: i64 = 2_000_000;

/// Calls `time::SteadyTime::now`. The reading depends on when the call is
/// made, so nothing is claimed of it.
#[verifier::external_body]
pub(crate) fn clock_now() -> (now: SteadyTime) {
    SteadyTime::now()
}

/// Calls the subtraction of two `time::SteadyTime`, the time from `earlier`
/// to `later`. Nothing is claimed of the result. Both arguments are readings
/// that [`clock_now`] returned, the only source of such values in this
/// library; the crate's subtraction is defined on any two readings of the
/// clock.
#[verifier::external_body]
pub(crate) fn clock_span(later: &SteadyTime, earlier: &SteadyTime) -> (span: Duration) {
    *later - *earlier
}

/// Calls `time::Duration::num_nanoseconds`, which the crate documents as the
/// whole nanoseconds of the duration, or `None` where they do not fit.
/// Nothing is claimed of the number.
#[verifier::external_body]
pub(crate) fn span_nanos(span: &Duration) -> (nanos: Option<i64>) {
    span.num_nanoseconds()
}

/// Whether an elapsed time is over the budget. A time too long to count in
/// nanoseconds is over it.
pub open spec fn over_budget(elapsed: Option<i64>) -> bool {
    match elapsed {
        Some(nanos) => nanos > TIME_BUDGET_NANOS,
        None => true,
    }
}

/// Whether an elapsed time in nanoseconds is over the budget.
pub fn out_of_time(elapsed: Option<i64>) -> (late: bool)
    ensures
        late == over_budget(elapsed),
{
    match elapsed {
        Some(nanos) => nanos > TIME_BUDGET_NANOS,
        None => true,
    }
}

} // verus!
