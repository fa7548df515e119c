//! Random choices, made with the thread-local generator of `rand`.
use vstd::prelude::*;

use crate::card::Card;
use rand::seq::SliceRandom;

verus! {

/// Relies on rand's `SliceRandom::shuffle`, which swaps elements in place and
/// so returns a permutation of its input.
#[verifier::external_body]
pub(crate) fn randomly_shuffle_cards(cards: Vec<Card>) -> (r: Vec<Card>)
    ensures
        r@.len() == cards@.len(),
        r@.to_multiset() == cards@.to_multiset(),
{
    let mut cards = cards;
    cards.shuffle(&mut rand::thread_rng());
    cards
}

/// Relies on rand's `SliceRandom::choose`: `None` exactly for an empty slice,
/// else one of its elements.
#[verifier::external_body]
pub(crate) fn choose_one<T: Copy>(items: &Vec<T>) -> (r: Option<T>)
    ensures
        r is None <==> items@.len() == 0,
        r matches Some(x) ==> items@.contains(x),
{
    items.choose(&mut rand::thread_rng()).copied()
}

} // verus!
