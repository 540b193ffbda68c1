use vstd::prelude::*;

use rand::seq::SliceRandom;

verus! {

/// Relies on rand's `SliceRandom::shuffle` with `thread_rng`: it reorders
/// the slice in place into a random permutation of its old content, so
/// the multiset of elements is kept and nothing holds of the order.
#[verifier::external_body]
pub(crate) fn shuffle_digits(v: &mut Vec<u8>)
    ensures
        final(v)@.len() == old(v)@.len(),
        final(v)@.to_multiset() == old(v)@.to_multiset(),
{
    v.shuffle(&mut rand::thread_rng());
}

/// Relies on rand's `SliceRandom::shuffle` with `thread_rng`, as above,
/// for the vector of candidate positions.
#[verifier::external_body]
pub(crate) fn shuffle_positions(v: &mut Vec<usize>)
    ensures
        final(v)@.len() == old(v)@.len(),
        final(v)@.to_multiset() == old(v)@.to_multiset(),
{
    v.shuffle(&mut rand::thread_rng());
}

} // verus!
