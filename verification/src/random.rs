//! Chance: the random numbers with which cards are drawn.
use rand::Rng;
use vstd::prelude::*;

verus! {

/// A random number from `0` to `max`, both included, from the thread's generator
/// (`rand::Rng::gen_range` on `rand::thread_rng()` with the inclusive range `0..=max`).
/// The range is never empty, so the call does not panic; nothing is promised of which number
/// comes back beyond the range.
#[verifier::external_body]
pub(crate) fn random_up_to(max: usize) -> (r: usize)
    ensures
        r <= max,
{
    rand::thread_rng().gen_range(0..=max)
}

} // verus!
