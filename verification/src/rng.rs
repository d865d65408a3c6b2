//! Trusted wrappers around the `rand` crate: the only randomness the library
//! uses. Each wrapper makes one call against the process-wide generator.

use vstd::prelude::*;
use rand::RngExt;

verus! {

/// Relies on rand's `RngExt::random::<u8>` over the thread-local generator:
/// a uniformly distributed byte. Nothing can be promised of the value.
#[verifier::external_body]
pub(crate) fn random_u8() -> u8 {
    let mut rng = rand::rng();
    rng.random::<u8>()
}

/// Relies on rand's `RngExt::random_range` over `0..max`: it panics only on
/// an empty range (excluded by `requires`) and otherwise returns a uniformly
/// distributed value of the range.
#[verifier::external_body]
pub(crate) fn random_below(max: i32) -> (r: i32)
    requires
        max > 0,
    ensures
        0 <= r < max,
{
    let mut rng = rand::rng();
    rng.random_range(0..max)
}

} // verus!
