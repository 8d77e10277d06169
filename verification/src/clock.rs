//! The monotonic clock (`std::time::Instant`) as seen from verified code.
//! Nothing is promised about readings: they depend on when the calls run.
use std::time::{Duration, Instant};
use vstd::prelude::*;

verus! {

/// `std::time::Instant`, carried through verified code unopened.
#[verifier::external_type_specification]
#[verifier::external_body]
pub struct ExInstant(Instant);

/// Calls `Instant::now`. Nothing is stated of the reading.
#[verifier::external_body]
pub(crate) fn instant_now() -> Instant {
    Instant::now()
}

/// Calls `Instant::elapsed`: the time since `since`. Nothing is stated of
/// the result, which depends on when the call runs.
#[verifier::external_body]
pub(crate) fn elapsed_since(since: &Instant) -> Duration {
    since.elapsed()
}

/// Calls `Instant::duration_since`: the time from `earlier` to `later`
/// (zero when `earlier` is the later one). Nothing is stated of the result.
#[verifier::external_body]
pub(crate) fn duration_between(later: &Instant, earlier: &Instant) -> Duration {
    later.duration_since(*earlier)
}

/// Calls `Duration::as_nanos`. No model of `Duration` is kept, so the
/// whole number of nanoseconds it returns is not stated.
#[verifier::external_body]
pub(crate) fn duration_nanos(d: &Duration) -> u128 {
    d.as_nanos()
}

} // verus!
