//! The pseudo-random source of a rain field.

use rand::rngs::StdRng;
use rand::{Rng, SeedableRng};
use vstd::prelude::*;

verus! {

#[verifier::external_type_specification]
#[verifier::external_body]
pub struct ExStdRng(StdRng);

/// Relies on rand's `SeedableRng::from_entropy`: a generator seeded from the
/// operating system.
#[verifier::external_body]
pub(crate) fn fresh_rng() -> (r: StdRng) {
    StdRng::from_entropy()
}

/// Relies on rand's `SeedableRng::seed_from_u64`: a generator whose stream is
/// fixed by the seed.
#[verifier::external_body]
pub(crate) fn seeded_rng(seed: u64) -> (r: StdRng) {
    StdRng::seed_from_u64(seed)
}

/// Relies on rand's `Rng::gen_range` over `0..n`: a value of the half-open
/// range, which must not be empty.
#[verifier::external_body]
pub(crate) fn below(rng: &mut StdRng, n: usize) -> (r: usize)
    requires
        n > 0,
    ensures
        r < n,
{
    rng.gen_range(0..n)
}

} // verus!
