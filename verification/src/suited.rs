//! Categories that one suit has to meet on its own: the hand is split by
//! suit, and each suit's cards are tried with all the jokers.

use vstd::prelude::*;
use arrayvec::ArrayVec;
use crate::card::{card_in_range, valid_hand, Card, MAX_CARDS, NUM_SUITS};
use crate::inline_vec::{cards_as_slice, cards_new, cards_push, held};
use crate::kinds::{full_house, is_full_house, is_n_of_a_kind, n_of_a_kind};
use crate::straight::{is_straight, straight};

verus! {

/// The cards of one suit, in the order in which the hand holds them.
pub open spec fn suited(cards: Seq<Card>, suit: int) -> Seq<Card> {
    cards.filter(|c: Card| c.suit == suit)
}

/// The cards of one suit of a valid hand form a valid hand.
pub proof fn lemma_suited_valid(cards: Seq<Card>, suit: int)
    requires
        valid_hand(cards),
    ensures
        valid_hand(suited(cards, suit)),
{
    let p = |c: Card| c.suit == suit;
    cards.lemma_filter_len(p);
    assert forall|i: int| 0 <= i < suited(cards, suit).len() implies card_in_range(
        #[trigger] suited(cards, suit)[i],
    ) by {
        let c = cards.filter(p)[i];
        assert(cards.filter(p).contains(c));
        cards.lemma_filter_contains_rev(p, c);
    }
}

/// Splits a hand by suit: entry `s` of the result holds the cards of suit
/// `s`.
fn split_by_suit(cards: &[Card]) -> (hands: [ArrayVec<Card, MAX_CARDS>; 4])
    requires
        valid_hand(cards@),
    ensures
        forall|s: int| 0 <= s < NUM_SUITS ==> held(#[trigger] hands[s]) == suited(cards@, s),
{
    let mut hands = [cards_new(), cards_new(), cards_new(), cards_new()];
    let mut i: usize = 0;
    proof {
        assert(cards@.take(0) =~= Seq::<Card>::empty());
        reveal(Seq::filter);
    }
    while i < cards.len()
        invariant
            i <= cards.len(),
            valid_hand(cards@),
            forall|s: int|
                0 <= s < NUM_SUITS ==> held(#[trigger] hands[s]) == suited(
                    cards@.take(i as int),
                    s,
                ),
        decreases cards.len() - i,
    {
        let c = cards[i];
        proof {
            let before = cards@.take(i as int);
            assert(cards@.take(i + 1) =~= before.push(c));
            assert forall|s: int| 0 <= s < NUM_SUITS implies suited(before, s).len() <= i
                && suited(before.push(c), s) == if c.suit == s {
                suited(before, s).push(c)
            } else {
                suited(before, s)
            } by {
                before.lemma_filter_push(c, |c: Card| c.suit == s);
                before.lemma_filter_len(|c: Card| c.suit == s);
            }
        }
        cards_push(&mut hands[c.suit as usize], c);
        i = i + 1;
    }
    proof {
        assert(cards@.take(cards.len() as int) =~= cards@);
    }
    hands
}

/// Some suit's cards, with all the jokers, form a straight.
pub open spec fn straight_flush(cards: Seq<Card>, jokers: nat, size: nat) -> bool {
    exists|s: int| 0 <= s < NUM_SUITS && straight(#[trigger] suited(cards, s), jokers, size)
}

/// Decides `straight_flush`.
pub fn is_straight_flush(cards: &[Card], num_jokers: u8, size: usize) -> (res: bool)
    requires
        valid_hand(cards@),
    ensures
        res == straight_flush(cards@, num_jokers as nat, size as nat),
{
    let hands = split_by_suit(cards);
    let mut s: usize = 0;
    while s < 4
        invariant
            s <= 4,
            valid_hand(cards@),
            forall|k: int| 0 <= k < NUM_SUITS ==> held(#[trigger] hands[k]) == suited(cards@, k),
            forall|k: int|
                0 <= k < s ==> !straight(
                    #[trigger] suited(cards@, k),
                    num_jokers as nat,
                    size as nat,
                ),
        decreases 4 - s,
    {
        proof {
            lemma_suited_valid(cards@, s as int);
        }
        if is_straight(cards_as_slice(&hands[s]), num_jokers, size) {
            return true;
        }
        s = s + 1;
    }
    false
}

/// Some suit's cards, with all the jokers, form a full house.
pub open spec fn flush_house(cards: Seq<Card>, jokers: nat) -> bool {
    exists|s: int| 0 <= s < NUM_SUITS && full_house(#[trigger] suited(cards, s), jokers)
}

/// Decides `flush_house`.
pub fn is_flush_house(cards: &[Card], num_jokers: u8) -> (res: bool)
    requires
        valid_hand(cards@),
    ensures
        res == flush_house(cards@, num_jokers as nat),
{
    let hands = split_by_suit(cards);
    let mut s: usize = 0;
    while s < 4
        invariant
            s <= 4,
            valid_hand(cards@),
            forall|k: int| 0 <= k < NUM_SUITS ==> held(#[trigger] hands[k]) == suited(cards@, k),
            forall|k: int|
                0 <= k < s ==> !full_house(#[trigger] suited(cards@, k), num_jokers as nat),
        decreases 4 - s,
    {
        proof {
            lemma_suited_valid(cards@, s as int);
        }
        if is_full_house(cards_as_slice(&hands[s]), num_jokers) {
            return true;
        }
        s = s + 1;
    }
    false
}

/// Some suit's cards, with all the jokers, hold `n` of a kind.
pub open spec fn flush_n(cards: Seq<Card>, n: nat, jokers: nat) -> bool {
    exists|s: int| 0 <= s < NUM_SUITS && n_of_a_kind(#[trigger] suited(cards, s), n, jokers)
}

/// Decides `flush_n`.
pub fn is_flush_n(cards: &[Card], n: u8, num_jokers: u8) -> (res: bool)
    requires
        valid_hand(cards@),
    ensures
        res == flush_n(cards@, n as nat, num_jokers as nat),
{
    let hands = split_by_suit(cards);
    let mut s: usize = 0;
    while s < 4
        invariant
            s <= 4,
            valid_hand(cards@),
            forall|k: int| 0 <= k < NUM_SUITS ==> held(#[trigger] hands[k]) == suited(cards@, k),
            forall|k: int|
                0 <= k < s ==> !n_of_a_kind(
                    #[trigger] suited(cards@, k),
                    n as nat,
                    num_jokers as nat,
                ),
        decreases 4 - s,
    {
        proof {
            lemma_suited_valid(cards@, s as int);
        }
        if is_n_of_a_kind(cards_as_slice(&hands[s]), n, num_jokers) {
            return true;
        }
        s = s + 1;
    }
    false
}

} // verus!
