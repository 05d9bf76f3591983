//! The seeded random number generator behind delivery delay and
//! packet loss.
//!
//! Randomness comes from `rand`'s standard generator, seeded once per
//! simulation so that a fixed seed reproduces a run.  The wrappers
//! below are the only places the crate touches it; nothing is assumed
//! of a draw beyond its range.

use vstd::prelude::*;

verus! {

/// The standard generator of the `rand` crate, as an opaque type.
#[verifier::external_type_specification]
#[verifier::external_body]
pub struct ExStdRng(rand::rngs::StdRng);

/// Relies on rand::SeedableRng::seed_from_u64: builds the generator
/// deterministically from a 64-bit seed.
#[verifier::external_body]
pub(crate) fn rng_from_seed(seed: u64) -> rand::rngs::StdRng {
    <rand::rngs::StdRng as rand::SeedableRng>::seed_from_u64(seed)
}

/// Relies on rand::Rng::gen_range: a draw from `low..high` lies in
/// that half-open range (the range must not be empty).
#[verifier::external_body]
pub(crate) fn rng_range(rng: &mut rand::rngs::StdRng, low: u64, high: u64) -> (r: u64)
    requires
        low < high,
    ensures
        low <= r < high,
{
    rand::Rng::gen_range(rng, low..high)
}

} // verus!
