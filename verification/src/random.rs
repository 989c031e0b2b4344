//! Random numbers from the `rand` crate's thread-local generator.

use vstd::prelude::*;

verus! {

/// A uniformly random 64-bit value, from `rand::random::<u64>()` (the
/// thread-local generator's `gen()`). Nothing is stated of the value: any
/// `u64` may come back, and two calls may differ. The thread-local generator
/// panics when the operating system gives it no seed.
#[verifier::external_body]
pub(crate) fn random_u64() -> (r: u64)
{
    rand::random::<u64>()
}

} // verus!
