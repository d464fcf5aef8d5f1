//! Trusted interface to the `rand` crate.
//!
//! Generation is stochastic by design; verified code asks for raw
//! randomness here and makes every decision about it itself.

use vstd::prelude::*;

verus! {

/// Relies on rand's `thread_rng` and `Rng::gen_range`: a value drawn
/// from `0..n`.  That call panics on an empty range, so `n` must be
/// positive; nothing is promised about which value comes back.
#[verifier::external_body]
pub fn random_below(n: usize) -> (r: usize)
    requires
        n >= 1,
    ensures
        r < n,
{
    rand::Rng::gen_range(&mut rand::thread_rng(), 0..n)
}

/// Relies on rand's `thread_rng` and `Rng::gen`: an arbitrary machine
/// word; nothing is promised about it.
#[verifier::external_body]
pub fn random_usize() -> usize {
    rand::Rng::gen(&mut rand::thread_rng())
}

} // verus!
