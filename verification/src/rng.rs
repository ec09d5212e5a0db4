//! Pseudorandom number generation, through the `rand_pcg` / `rand` crates.
//!
//! The generator is deterministic in its seed, but nothing is assumed about
//! the values it produces beyond their range: every verified caller must be
//! correct for every outcome.

use vstd::prelude::*;

use rand::Rng;

verus! {

#[verifier::external_type_specification]
#[verifier::external_body]
pub struct ExLcg64Xsh32(rand_pcg::Lcg64Xsh32);

/// Relies on `rand_pcg::Lcg64Xsh32::new`: constructs a PCG-32 generator
/// from a seed `state` and a `stream` selector.
#[verifier::external_body]
pub fn rng_new(state: u64, stream: u64) -> rand_pcg::Lcg64Xsh32 {
    rand_pcg::Lcg64Xsh32::new(state, stream)
}

/// Relies on `rand::Rng::gen_range` over `0..n`: the result is uniform in
/// the range, so in particular below `n`; the call panics on an empty
/// range, which the precondition rules out.
#[verifier::external_body]
pub fn rand_below(rng: &mut rand_pcg::Lcg64Xsh32, n: usize) -> (r: usize)
    requires
        n > 0,
    ensures
        r < n,
{
    rng.gen_range(0..n)
}

} // verus!
