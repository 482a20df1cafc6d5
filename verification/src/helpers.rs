//! Input helpers: a sorted run of integers and an in-place random shuffle.

use rand::seq::SliceRandom;
use vstd::prelude::*;

verus! {

/// Returns the integers `1 ..= count`, in order.
pub fn generate_sorted_integers(count: usize) -> (r: Vec<i32>)
    requires
        count <= i32::MAX as usize,
    ensures
        r@.len() == count,
        forall|i: int| 0 <= i < count ==> r@[i] == i + 1,
{
    let mut r: Vec<i32> = Vec::with_capacity(count);
    let mut i: usize = 0;
    while i < count
        invariant
            i <= count,
            count <= i32::MAX as usize,
            r@.len() == i,
            forall|k: int| 0 <= k < i ==> r@[k] == k + 1,
        decreases count - i,
    {
        r.push((i + 1) as i32);
        i = i + 1;
    }
    r
}

/// Handle to the thread-local random generator of rand.
#[verifier::external_type_specification]
#[verifier::external_body]
pub struct ExThreadRng(rand::rngs::ThreadRng);

/// Relies on rand::thread_rng: hands out the thread-local generator;
/// nothing is assumed of its state.
#[verifier::external_body]
fn fresh_rng() -> rand::rngs::ThreadRng {
    rand::thread_rng()
}

/// Relies on SliceRandom::shuffle of rand: it reorders the slice in place
/// by swapping elements, so the length and the multiset of elements are
/// unchanged; which order comes out depends on the generator.
#[verifier::external_body]
fn shuffle_with(integers: &mut [i32], rng: &mut rand::rngs::ThreadRng)
    ensures
        final(integers)@.len() == old(integers)@.len(),
        final(integers)@.to_multiset() == old(integers)@.to_multiset(),
{
    integers.shuffle(rng)
}

/// Shuffles the integers in place: some order of the same elements.
pub fn shuffle_integers(integers: &mut [i32])
    ensures
        final(integers)@.len() == old(integers)@.len(),
        final(integers)@.to_multiset() == old(integers)@.to_multiset(),
{
    let mut rng = fresh_rng();
    shuffle_with(integers, &mut rng);
}

} // verus!
