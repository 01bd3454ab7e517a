//! The source of randomness.

use vstd::prelude::*;
use rand::Rng;

verus! {

/// Draws an index below `n` from the thread's random number generator
/// (`rand::thread_rng().gen_range(0..n)`).
///
/// Not proved: that the call returns a value of the half-open range that
/// it is given, and that of its arguments only an empty range makes it
/// panic. The generator itself panics where the system cannot seed it.
#[verifier::external_body]
pub(crate) fn random_below(n: usize) -> (r: usize)
    requires
        n > 0,
    ensures
        r < n,
{
    rand::thread_rng().gen_range(0..n)
}

/// Decides yes with probability `numerator / denominator`
/// (`rand::thread_rng().gen_ratio(numerator, denominator)`).
///
/// Not proved: that of its arguments only a denominator of zero or a
/// numerator above the denominator make the call panic, that a ratio of one
/// always gives yes and a ratio of zero always gives no.
#[verifier::external_body]
pub(crate) fn random_ratio(numerator: u32, denominator: u32) -> (r: bool)
    requires
        denominator > 0,
        numerator <= denominator,
    ensures
        numerator == denominator ==> r,
        numerator == 0 ==> !r,
{
    rand::thread_rng().gen_ratio(numerator, denominator)
}

} // verus!
