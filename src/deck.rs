//! The deck: its composition and shuffling.
use rand::seq::SliceRandom;
use vstd::multiset::Multiset;
use vstd::prelude::*;

use crate::types::Card;

verus! {

broadcast use vstd::seq_lib::group_to_multiset_ensures;

/// Number of cards of each kind in a game.
pub const COPIES_PER_KIND: usize = 3;

/// Number of cards in a full deck.
pub const DECK_SIZE: usize = 15;

/// A multiset of cards that holds exactly three of every kind.
pub open spec fn is_full_set(m: Multiset<Card>) -> bool {
    forall|c: Card| #[trigger] m.count(c) == COPIES_PER_KIND
}

/// Relies on rand's `SliceRandom::shuffle` driven by `thread_rng`: it only
/// swaps elements in place, so the result is a permutation of the input.
#[verifier::external_body]
pub(crate) fn shuffle<T>(v: &mut Vec<T>)
    ensures
        final(v)@.len() == old(v)@.len(),
        final(v)@.to_multiset() == old(v)@.to_multiset(),
{
    v.shuffle(&mut rand::thread_rng());
}

pub(crate) fn push_three(v: &mut Vec<Card>, c: Card)
    ensures
        final(v)@.len() == old(v)@.len() + 3,
        final(v)@.to_multiset() == old(v)@.to_multiset().insert(c).insert(c).insert(c),
{
    v.push(c);
    v.push(c);
    v.push(c);
}

} // verus!
