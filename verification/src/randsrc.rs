//! The random source of the generator.
//!
//! Generation needs two operations from a random source: a uniform integer
//! below a bound, and an in-place shuffle of the four carving directions.
//! Both come from the `rand` crate through the trusted wrappers below; the
//! maze logic is verified for every value they may return.

use vstd::prelude::*;

use rand::Rng;
use rand::seq::SliceRandom;

use crate::maze::Direction;

verus! {

#[verifier::external_type_specification]
#[verifier::external_body]
/// The standard random number generator of the `rand` crate; callers seed it
/// themselves, deterministically if they need reproducible mazes.
pub struct ExStdRng(rand::rngs::StdRng);

/// Relies on rand's `Rng::gen_range`: a value sampled uniformly from
/// `[0, n)`; the range is non-empty, so the call does not panic. Nothing
/// more can be promised of a random value.
#[verifier::external_body]
pub(crate) fn rand_below(rng: &mut rand::rngs::StdRng, n: usize) -> (r: usize)
    requires
        n >= 1,
    ensures
        r < n,
{
    rng.gen_range(0..n)
}

/// Relies on rand's `SliceRandom::shuffle`: a Fisher-Yates shuffle, so the
/// result is a permutation of the input, in an order nothing can be
/// promised about.
#[verifier::external_body]
pub(crate) fn shuffle_directions(rng: &mut rand::rngs::StdRng, dirs: &mut Vec<Direction>)
    ensures
        final(dirs)@.len() == old(dirs)@.len(),
        final(dirs)@.to_multiset() == old(dirs)@.to_multiset(),
        forall|d: Direction| final(dirs)@.contains(d) <==> old(dirs)@.contains(d),
{
    dirs.shuffle(rng)
}

} // verus!
