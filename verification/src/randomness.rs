//! Trusted boundary to the random source. Randomized ordering is a deliberate
//! anti-bias device of the scheduler; nothing in the library's contracts
//! depends on which permutation or draw comes back.

use vstd::prelude::*;
use rand::seq::SliceRandom;
use crate::pair::occ;

verus! {

/// Relies on rand::seq::SliceRandom::shuffle (rand 0.8): a Fisher-Yates pass
/// that rearranges the slice in place, so the result holds exactly the same
/// values with the same occurrence counts, in some order.
#[verifier::external_body]
pub(crate) fn shuffle<T>(v: &mut Vec<T>)
    ensures
        final(v)@.len() == old(v)@.len(),
        forall|x: T| occ(final(v)@, x) == occ(old(v)@, x),
{
    v.shuffle(&mut rand::thread_rng());
}

/// Relies on rand::random (rand 0.8): an arbitrary value of the requested
/// type. Nothing can be promised of a random draw.
pub assume_specification<T>[ rand::random::<T> ]() -> (r: T)
    where
        rand::distributions::Standard: rand::distributions::Distribution<T>,
;

} // verus!
