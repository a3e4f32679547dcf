//! The monotonic clock that dates cached results.

use vstd::prelude::*;

verus! {

/// A point of the monotonic clock of the standard library. Nothing is known
/// of its value.
#[verifier::external_type_specification]
#[verifier::external_body]
pub struct ExInstant(std::time::Instant);

/// `Instant::now` of the standard library reads the monotonic clock;
/// nothing is claimed of what it returns.
pub assume_specification[ std::time::Instant::now ]() -> (now: std::time::Instant)
;

/// `Instant::elapsed` of the standard library measures the time since the
/// instant; nothing is claimed of what it returns.
pub assume_specification[ std::time::Instant::elapsed ](start: &std::time::Instant) -> (passed:
    std::time::Duration)
;

/// `Duration::as_nanos` of the standard library gives the length of a
/// duration in nanoseconds; nothing is claimed of what it returns.
pub assume_specification[ std::time::Duration::as_nanos ](span: &std::time::Duration) -> (nanos:
    u128)
;

/// Returns the nanoseconds that have passed since `start`.
pub fn nanoseconds_since(start: &std::time::Instant) -> (nanos: u128) {
    let passed = start.elapsed();
    passed.as_nanos()
}

} // verus!
