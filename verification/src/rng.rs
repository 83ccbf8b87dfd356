//! The verifier's source of random challenges.
//!
//! Challenges are drawn from `rand`'s standard RNG, re-exported by
//! `ark_std`.  Nothing is assumed about the drawn values: every proof in
//! this crate holds for every possible challenge.
use vstd::prelude::*;

use ark_std::rand::rngs::StdRng;
use ark_std::rand::RngCore;
use ark_std::rand::SeedableRng;

use crate::field::Fq;

verus! {

#[verifier::external_type_specification]
#[verifier::external_body]
pub struct ExStdRng(StdRng);

/// Relies on rand's `SeedableRng::seed_from_u64` for `StdRng`: builds a
/// challenge source from a seed.  Nothing is assumed about what it yields.
#[verifier::external_body]
pub fn seed_rng(seed: u64) -> StdRng {
    StdRng::seed_from_u64(seed)
}

/// Relies on rand's `RngCore::next_u64` for `StdRng`: an arbitrary machine
/// word.  Nothing is assumed about the drawn value.
#[verifier::external_body]
fn next_u64(rng: &mut StdRng) -> u64 {
    rng.next_u64()
}

/// Draws one random field element: a fresh verifier challenge.
pub fn sample_fq(rng: &mut StdRng) -> (r: Fq)
    ensures
        r.wf(),
{
    let x = next_u64(rng);
    Fq::from_u64(x)
}

} // verus!
