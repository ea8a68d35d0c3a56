//! The random numbers the simulation draws, from `rand`'s thread-local
//! generator.
use vstd::prelude::*;
use rand::rngs::ThreadRng;
use rand::Rng;
use rand::seq::SliceRandom;

verus! {

#[verifier::external_type_specification]
#[verifier::external_body]
pub struct ExThreadRng(ThreadRng);

/// Calls `rand::thread_rng`: a handle to the thread-local generator. Nothing is
/// claimed of its state.
#[verifier::external_body]
pub(crate) fn new_thread_rng() -> ThreadRng {
    rand::thread_rng()
}

/// Calls `Rng::gen::<bool>` on the generator: a fair coin. No clause is
/// stated, since the result rests on chance.
#[verifier::external_body]
pub(crate) fn random_bool(rng: &mut ThreadRng) -> bool {
    rng.gen::<bool>()
}

/// Calls `Rng::gen_range(low..high)` on the generator: an integer drawn
/// uniformly from `low..high`. The call panics on an empty range, which the
/// precondition rules out; the result lies in the range.
#[verifier::external_body]
pub(crate) fn random_range(rng: &mut ThreadRng, low: i64, high: i64) -> (r: i64)
    requires
        low < high,
    ensures
        low <= r < high,
{
    rng.gen_range(low..high)
}

/// Calls `SliceRandom::shuffle` on the vector's elements: they end in a random
/// order, and the vector holds the same elements as before, each as often.
#[verifier::external_body]
pub(crate) fn shuffle_indices(rng: &mut ThreadRng, v: &mut Vec<usize>)
    ensures
        final(v)@.len() == old(v)@.len(),
        final(v)@.to_multiset() == old(v)@.to_multiset(),
{
    v.as_mut_slice().shuffle(rng)
}

} // verus!
