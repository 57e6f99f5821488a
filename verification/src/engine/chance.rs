//! The random choices of the world generator, drawn from the thread's
//! generator of the `rand` crate.

use crate::engine::carving::Carver;
use rand::rngs::ThreadRng;
use rand::seq::{IndexedRandom, SliceRandom};
use rand::Rng;
use vstd::prelude::*;

verus! {

/// `rand::rngs::ThreadRng`: a handle to the thread's generator. It is
/// opaque here, and only handed on.
#[verifier::external_type_specification]
#[verifier::external_body]
pub struct ExThreadRng(ThreadRng);

/// `rand::rng`: a handle to the thread's generator. Nothing is claimed of
/// it.
#[verifier::external_body]
pub(crate) fn thread_generator() -> (r: ThreadRng) {
    rand::rng()
}

/// `IndexedRandom::choose` on a slice: one of the candidates, or nothing
/// when there is none. Which one is left open.
#[verifier::external_body]
pub(crate) fn pick_one(candidates: &Vec<Carver>, rng: &mut ThreadRng) -> (r: Option<Carver>)
    ensures
        candidates@.len() == 0 ==> r is None,
        candidates@.len() > 0 ==> r is Some && candidates@.contains(r->0),
{
    candidates.choose(rng).copied()
}

/// `SliceRandom::shuffle` on a slice: the same items in some order. It only
/// swaps items of the slice.
#[verifier::external_body]
pub(crate) fn shuffle(items: &mut Vec<Carver>, rng: &mut ThreadRng)
    ensures
        final(items)@.to_multiset() == old(items)@.to_multiset(),
{
    items.shuffle(rng);
}

/// `Rng::random` for `bool`: a coin toss. Nothing is claimed of it.
#[verifier::external_body]
pub(crate) fn toss(rng: &mut ThreadRng) -> (r: bool) {
    rng.random()
}

} // verus!
