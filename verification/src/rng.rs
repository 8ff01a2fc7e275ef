//! Seeded randomness for the election-timer jitter and the simulator's
//! message-drop sampling, built on the `rand` crate.
//!
//! Every run is reproducible from its seed; the contracts claim nothing
//! about the drawn values beyond their range.

use vstd::prelude::*;

verus! {

#[verifier::external_type_specification]
#[verifier::external_body]
pub struct ExStdRng(rand::rngs::StdRng);

/// Relies on rand's `StdRng::seed_from_u64`: builds a generator whose
/// output is a function of the seed alone.
#[verifier::external_body]
pub fn new_seeded_rng(seed: u64) -> rand::rngs::StdRng {
    <rand::rngs::StdRng as rand::SeedableRng>::seed_from_u64(seed)
}

/// Relies on rand's `RngExt::random_range`: draws a value uniformly from
/// `[0, bound)`; panics only on an empty range, which the precondition
/// rules out.
#[verifier::external_body]
pub fn rng_below(rng: &mut rand::rngs::StdRng, bound: u64) -> (r: u64)
    requires
        bound >= 1,
    ensures
        r < bound,
{
    rand::RngExt::random_range(rng, 0..bound)
}

} // verus!
