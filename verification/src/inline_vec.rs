//! What the library takes on trust about `arrayvec::ArrayVec`, the vector
//! that keeps a hand on the stack.

use vstd::prelude::*;
use arrayvec::ArrayVec;
use crate::card::{Card, MAX_CARDS};

verus! {

/// `arrayvec::ArrayVec`, a vector of at most `CAP` items that is stored
/// inline.
#[verifier::external_type_specification]
#[verifier::external_body]
#[verifier::reject_recursive_types(T)]
pub struct ExArrayVec<T, const CAP: usize>(ArrayVec<T, CAP>);

/// The cards that a vector of cards holds, first pushed first.
pub uninterp spec fn held(cards: ArrayVec<Card, MAX_CARDS>) -> Seq<Card>;

/// `ArrayVec::new`: the new vector holds no card.
#[verifier::external_body]
pub(crate) fn cards_new() -> (cards: ArrayVec<Card, MAX_CARDS>)
    ensures
        held(cards) == Seq::<Card>::empty(),
{
    ArrayVec::new()
}

/// `ArrayVec::push`: the card goes behind the cards already held. The call
/// panics on a full vector, which `requires` rules out.
#[verifier::external_body]
pub(crate) fn cards_push(cards: &mut ArrayVec<Card, MAX_CARDS>, c: Card)
    requires
        held(*old(cards)).len() < MAX_CARDS,
    ensures
        held(*final(cards)) == held(*old(cards)).push(c),
{
    cards.push(c)
}

/// `ArrayVec::as_slice`: the slice shows the cards held, in their order.
#[verifier::external_body]
pub(crate) fn cards_as_slice(cards: &ArrayVec<Card, MAX_CARDS>) -> (slice: &[Card])
    ensures
        slice@ == held(*cards),
{
    cards.as_slice()
}

} // verus!
