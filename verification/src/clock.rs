//! The wall clock.

use vstd::prelude::*;
use core::time::Duration;
use std::time::Instant;

verus! {

/// A point in time of the monotonic clock (`std::time::Instant`). Nothing is
/// known of what it holds.
#[verifier::external_type_specification]
#[verifier::external_body]
pub struct ExInstant(Instant);

/// Reads the clock (`Instant::now`). Nothing is claimed of the result.
#[verifier::external_body]
pub(crate) fn now() -> Instant {
    Instant::now()
}

/// The time that has passed since `start` (`Instant::elapsed`). Nothing is
/// claimed of the result.
#[verifier::external_body]
pub(crate) fn elapsed(start: &Instant) -> Duration {
    start.elapsed()
}

/// Whether span `a` is shorter than span `b` (`<` on `Duration`). Nothing is
/// claimed of the result.
#[verifier::external_body]
pub(crate) fn shorter(a: &Duration, b: &Duration) -> bool {
    a < b
}

} // verus!
