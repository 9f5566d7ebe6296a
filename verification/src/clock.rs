//! The two clocks of the server: the time of day, which stamps a snapshot,
//! and the time since the server started, by which alerts are spaced.
//! Nothing is known of what a clock shows; whatever is done with a reading
//! is right for every reading.

use vstd::prelude::*;

verus! {

/// A reading of the monotonic clock, `std::time::Instant`. Nothing of it
/// is visible.
#[verifier::external_type_specification]
#[verifier::external_body]
pub struct ExInstant(std::time::Instant);

/// Calls `time::get_time` and hands back the field `sec` of the result:
/// the seconds since 1970-01-01T00:00:00Z, as the system clock has them.
/// Nothing is claimed of the number.
#[verifier::external_body]
fn epoch_seconds() -> (secs: i64) {
    time::get_time().sec
}

/// Calls `Instant::now`: a reading of the monotonic clock. Nothing is
/// claimed of it.
#[verifier::external_body]
pub(crate) fn monotonic_now() -> (now: std::time::Instant) {
    std::time::Instant::now()
}

/// Calls `Instant::elapsed`: the time that has passed since the reading
/// `start`. Nothing is claimed of it.
#[verifier::external_body]
fn elapsed_since(start: &std::time::Instant) -> (passed: std::time::Duration) {
    start.elapsed()
}

/// Calls `Duration::as_nanos`: a span of time in nanoseconds. Nothing is
/// claimed of the number.
#[verifier::external_body]
fn nanoseconds(span: &std::time::Duration) -> (nanos: u128) {
    span.as_nanos()
}

/// The seconds since the Unix epoch, as the system clock has them now.
/// The number is a reading of a clock: nothing is known of it, and what
/// callers do with it holds for every number.
pub(crate) fn wall_clock_seconds() -> i64 {
    epoch_seconds()
}

/// The nanoseconds that have passed since `start`. The number is a
/// reading of a clock: nothing is known of it, and what callers do with it
/// holds for every number.
pub(crate) fn nanoseconds_since(start: &std::time::Instant) -> u128 {
    let passed = elapsed_since(start);
    nanoseconds(&passed)
}

} // verus!
