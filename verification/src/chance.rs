//! Randomness. Whatever a random source hands out, the library is proved
//! for every value that may come back.
use rand::rngs::ThreadRng;
use rand::seq::IndexedRandom;
use rand::seq::SliceRandom;
use rand::RngCore;
use vstd::prelude::*;

verus! {

/// The thread-local random source of the `rand` crate.
#[verifier::external_type_specification]
#[verifier::external_body]
pub struct ExThreadRng(ThreadRng);

/// Calls `RngCore::next_u32` of `rand`. Nothing is claimed of the number
/// that comes back.
#[verifier::external_body]
pub(crate) fn draw(rng: &mut ThreadRng) -> (r: u32) {
    rng.next_u32()
}

/// Calls `IndexedRandom::choose` of `rand` on a list of pairs: nothing for
/// the empty list, else one of its entries.
#[verifier::external_body]
pub(crate) fn choose_pair(rng: &mut ThreadRng, list: &Vec<(usize, usize)>) -> (r: Option<
    (usize, usize),
>)
    ensures
        list@.len() == 0 ==> r.is_none(),
        list@.len() > 0 ==> r.is_some() && list@.contains(r.unwrap()),
{
    list.choose(rng).copied()
}

/// Calls `SliceRandom::shuffle` of `rand` on a list of indices: the list
/// holds afterwards what it held before, in some order.
#[verifier::external_body]
pub(crate) fn shuffle(rng: &mut ThreadRng, list: &mut Vec<usize>)
    ensures
        final(list)@.to_multiset() == old(list)@.to_multiset(),
{
    list.shuffle(rng)
}

} // verus!
