//! Random draws for honest sample splitting, feature subsampling and
//! threshold sampling.
//!
//! Every parallel task gets its own generator, derived from a seed, so tree
//! builds never share mutable generator state.  The contracts state only what
//! holds of every outcome: nothing about a random draw is pinned beyond its
//! range, and a shuffle is some rearrangement of the same elements.

use vstd::prelude::*;
use rand::Rng;
use rand::SeedableRng;
use rand::seq::SliceRandom;

verus! {

#[verifier::external_type_specification]
#[verifier::external_body]
pub struct ExStdRng(rand::rngs::StdRng);

/// Relies on rand's `SeedableRng::seed_from_u64`: builds a generator whose
/// stream is determined by the seed.
#[verifier::external_body]
pub fn rng_from_seed(seed: u64) -> rand::rngs::StdRng {
    rand::rngs::StdRng::seed_from_u64(seed)
}

/// Relies on rand's `Rng::gen`: draws a word used only to seed a task-local
/// generator; nothing can be promised of its value.
#[verifier::external_body]
pub fn rng_next_seed(rng: &mut rand::rngs::StdRng) -> u64 {
    rng.gen()
}

/// Relies on rand's `SliceRandom::shuffle` (a Fisher-Yates shuffle): the
/// vector is rearranged in place, so it holds exactly the same elements
/// afterwards.
#[verifier::external_body]
pub fn rng_shuffle<T>(rng: &mut rand::rngs::StdRng, v: &mut Vec<T>)
    ensures
        final(v)@.to_multiset() == old(v)@.to_multiset(),
        final(v)@.len() == old(v)@.len(),
{
    v.shuffle(rng)
}

/// Relies on rand's `Rng::gen_range` over `0..n`: returns a draw below `n`,
/// and panics only on an empty range, which the precondition rules out.
#[verifier::external_body]
pub fn rng_below(rng: &mut rand::rngs::StdRng, n: usize) -> (r: usize)
    requires
        n > 0,
    ensures
        r < n,
{
    rng.gen_range(0..n)
}

} // verus!
