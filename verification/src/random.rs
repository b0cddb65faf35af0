//! Random choices, made by `rand`.

use rand::Rng;
use vstd::prelude::*;

verus! {

/// `rand::Rng::gen_range` of the thread's generator, over the numbers below `bound`: it returns one
/// of them. Which one is left to chance.
#[verifier::external_body]
pub(crate) fn random_below(bound: usize) -> (number: usize)
    requires
        bound > 0,
    ensures
        number < bound,
{
    rand::thread_rng().gen_range(0..bound)
}

} // verus!
