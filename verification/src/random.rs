//! Random choices, drawn by the `rand` crate.

use rand::rngs::StdRng;
use rand::seq::SliceRandom;
use rand::{Rng, SeedableRng};
use vstd::prelude::*;

verus! {

/// A random index below `len`, drawn by `gen_range` on `rand`'s thread-local
/// generator.
///
/// It is below `len`. Which index it is depends on chance.
#[verifier::external_body]
pub(crate) fn random_index(len: usize) -> (i: usize)
    requires
        len > 0,
    ensures
        i < len,
{
    rand::thread_rng().gen_range(0..len)
}

/// What shuffling a list with a seeded generator makes of it.
pub uninterp spec fn shuffled(list: Seq<usize>, seed: u64) -> Seq<usize>;

/// `shuffle` of `rand`, with its standard generator seeded by `seed_from_u64`.
///
/// The list keeps its elements, each as often as before. The new order depends
/// on the list and the seed alone.
#[verifier::external_body]
pub(crate) fn shuffle_with_seed(list: &mut Vec<usize>, seed: u64)
    ensures
        final(list)@ == shuffled(old(list)@, seed),
        final(list)@.to_multiset() == old(list)@.to_multiset(),
{
    list.shuffle(&mut StdRng::seed_from_u64(seed));
}

/// `shuffle` of `rand`, with its standard generator seeded by `from_entropy`.
///
/// The list keeps its elements, each as often as before. The new order depends
/// on chance.
#[verifier::external_body]
pub(crate) fn shuffle_with_entropy(list: &mut Vec<usize>)
    ensures
        final(list)@.to_multiset() == old(list)@.to_multiset(),
{
    list.shuffle(&mut StdRng::from_entropy());
}

/// `shuffle` of `rand`, with its thread-local generator.
///
/// The list keeps its elements, each as often as before. The new order depends
/// on chance.
#[verifier::external_body]
pub(crate) fn shuffle_with_thread_rng(list: &mut Vec<usize>)
    ensures
        final(list)@.to_multiset() == old(list)@.to_multiset(),
{
    list.shuffle(&mut rand::thread_rng());
}

} // verus!
