//! Randomness for the sampled sketches: a geometric-skip sampler built from
//! an outside geometric distribution and a seedable generator, and a bounded
//! uniform draw for the cuckoo filter's displacement choices.
use vstd::prelude::*;

use rand::Rng;
use rand::SeedableRng;
use rand_distr::Distribution;

verus! {

#[verifier::external_type_specification]
#[verifier::external_body]
pub struct ExGeometric(rand_distr::Geometric);

#[verifier::external_type_specification]
#[verifier::external_body]
pub struct ExStdRng(rand::rngs::StdRng);

/// A geometric-skip generator: each draw is an independent sample of a
/// geometric distribution, telling a sketch how many updates to skip before
/// the next one it applies.  A sketch carries its own generator so that a
/// seeded run is reproducible.
pub struct GeoSampler {
    geo: rand_distr::Geometric,
    rng: rand::rngs::StdRng,
}

impl GeoSampler {
    /// Pair a geometric distribution with the generator that feeds it.
    pub fn new(geo: rand_distr::Geometric, rng: rand::rngs::StdRng) -> Self {
        GeoSampler { geo, rng }
    }

    /// Relies on rand_distr::Geometric::sample: an independent draw from the
    /// distribution.  The draw is random, so nothing is promised of it.
    #[verifier::external_body]
    pub(crate) fn draw(&mut self) -> u64 {
        self.geo.sample(&mut self.rng)
    }
}

/// Relies on rand::Rng::gen_range over `0..n`: the draw is uniform in that
/// range, so all that holds of every outcome is that it is below `n`.
#[verifier::external_body]
pub(crate) fn gen_below(rng: &mut rand::rngs::StdRng, n: u64) -> (r: u64)
    requires
        n > 0,
    ensures
        r < n,
{
    rng.gen_range(0..n)
}

/// Relies on rand::SeedableRng::from_entropy: a generator seeded from the
/// operating system.  The seed is random, so nothing is promised.
#[verifier::external_body]
pub(crate) fn rng_from_entropy() -> rand::rngs::StdRng {
    rand::rngs::StdRng::from_entropy()
}

} // verus!
