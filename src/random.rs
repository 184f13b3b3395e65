//! The seeded pseudorandom generator that drives random walks.
use rand_core::RngCore;
use rand_pcg::Lcg64Xsh32;
use vstd::prelude::*;

verus! {

/// rand_pcg's PCG-XSH-RR generator (`Pcg32`), carried through opaquely.
#[verifier::external_type_specification]
#[verifier::external_body]
pub struct ExLcg64Xsh32(Lcg64Xsh32);

/// Relies on rand_pcg's `Lcg64Xsh32::new`: it builds a generator from a state
/// and a stream selector and never fails.
pub assume_specification[ Lcg64Xsh32::new ](state: u64, stream: u64) -> Lcg64Xsh32;

/// Relies on `RngCore::next_u32` of rand_pcg's generator: it advances the
/// generator and returns a 32-bit value; nothing is promised of the value.
#[verifier::external_body]
pub(crate) fn next_draw(rng: &mut Lcg64Xsh32) -> u32 {
    rng.next_u32()
}

} // verus!
