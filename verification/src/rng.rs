//! The library's only window onto the `rand` crate: a thread-local
//! generator and an in-place shuffle.

use vstd::prelude::*;

use rand::seq::SliceRandom;

verus! {

/// The thread-local generator of the `rand` crate, opaque to the library.
#[verifier::external_type_specification]
#[verifier::external_body]
pub struct ExThreadRng(rand::rngs::ThreadRng);

/// Relies on rand::thread_rng: a handle to the thread-local generator.
/// Nothing is promised of the values it will produce.
#[verifier::external_body]
pub fn fresh_rng() -> rand::rngs::ThreadRng {
    rand::thread_rng()
}

/// Relies on rand::seq::SliceRandom::shuffle: it reorders the slice by
/// in-place swaps, so the elements afterwards are a permutation of the
/// elements before, whatever the generator produced.
#[verifier::external_body]
pub fn shuffle_values<T>(v: &mut Vec<T>, rng: &mut rand::rngs::ThreadRng)
    ensures
        final(v)@.to_multiset() == old(v)@.to_multiset(),
{
    v.shuffle(rng)
}

} // verus!
