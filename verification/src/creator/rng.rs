//! The random number generator that picks the first center of each k-means
//! clustering: `rand`'s `StdRng`, seeded with zeros
use vstd::prelude::*;
use rand::rngs::StdRng;
use rand::{Rng, SeedableRng};

verus! {

/// `rand::rngs::StdRng`, a seeded pseudo-random generator
#[verifier::external_type_specification]
#[verifier::external_body]
pub struct ExStdRng(StdRng);

/// `StdRng::from_seed`: a generator seeded with `seed`. Nothing is stated of
/// the numbers it will give.
#[verifier::external_body]
pub(crate) fn rng_from_seed(seed: [u8; 32]) -> (rng: StdRng) {
    StdRng::from_seed(seed)
}

/// `Rng::random_range` over `0..n`: a number below `n`, which depends on the
/// generator's state. The range must not be empty (an empty one panics).
#[verifier::external_body]
pub(crate) fn random_below(rng: &mut StdRng, n: usize) -> (r: usize)
    requires
        n > 0,
    ensures
        r < n,
{
    rng.random_range(0..n)
}

} // verus!
