//! The one source of chance in the server: shuffling.
use vstd::prelude::*;
use rand::rngs::ThreadRng;
use rand::seq::SliceRandom;

verus! {

#[verifier::external_type_specification]
#[verifier::external_body]
pub struct ExThreadRng(ThreadRng);

/// The thread's random number generator (`rand::thread_rng`). Nothing is
/// claimed of it.
#[verifier::external_body]
pub(crate) fn thread_rng() -> (rng: ThreadRng) {
    rand::thread_rng()
}

/// Shuffles `items` in place (`rand::seq::SliceRandom::shuffle` on the
/// slice). Claimed: the items are the same, each as often as before; which
/// arrangement comes out is left open.
#[verifier::external_body]
pub(crate) fn shuffle<T>(items: &mut Vec<T>, rng: &mut ThreadRng)
    ensures
        final(items)@.len() == old(items)@.len(),
        final(items)@.to_multiset() == old(items)@.to_multiset(),
{
    items.as_mut_slice().shuffle(rng);
}

} // verus!
