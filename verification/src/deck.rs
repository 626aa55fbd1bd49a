//! The deck, and the hands drawn from it.

use vstd::prelude::*;
use arrayvec::ArrayVec;
use crate::card::{card_in_range, Card, MAX_CARDS, NUM_RANKS, NUM_SUITS};
use crate::inline_vec::{cards_new, cards_push, held};

verus! {

/// What a deck holds and a hand is drawn as: a real card or a joker.
#[derive(Clone, Copy, PartialEq, Eq, Debug, Structural)]
pub enum CardOrJoker {
    Card(Card),
    Joker,
}

/// The card at a position among the real cards of a deck: sub-deck after
/// sub-deck, 52 cards each; within each suit after suit, 13 cards each;
/// within each suit rank after rank.
pub open spec fn deck_card(i: int) -> Card {
    Card { suit: ((i % 52) / 13) as u8, rank: ((i % 52) % 13) as u8 }
}

/// The deck of `decks` sub-decks and `jokers` jokers: the real cards first,
/// then the jokers.
pub open spec fn full_deck(decks: nat, jokers: nat) -> Seq<CardOrJoker> {
    Seq::new(
        52 * decks + jokers,
        |i: int|
            if i < 52 * decks {
                CardOrJoker::Card(deck_card(i))
            } else {
                CardOrJoker::Joker
            },
    )
}

/// Every real card of the deck is in range.
pub open spec fn valid_deck(deck: Seq<CardOrJoker>) -> bool {
    forall|i: int|
        0 <= i < deck.len() ==> (#[trigger] deck[i] matches CardOrJoker::Card(c)
            ==> card_in_range(c))
}

/// Builds `full_deck`.
pub fn build_deck(decks: usize, jokers: u8) -> (deck: Vec<CardOrJoker>)
    requires
        52 * decks + jokers <= usize::MAX,
    ensures
        deck@ == full_deck(decks as nat, jokers as nat),
        valid_deck(deck@),
{
    let mut deck: Vec<CardOrJoker> = Vec::new();
    let mut d: usize = 0;
    while d < decks
        invariant
            d <= decks,
            deck@.len() == 52 * d,
            forall|i: int| 0 <= i < deck@.len() ==> deck@[i] == CardOrJoker::Card(deck_card(i)),
        decreases decks - d,
    {
        let mut suit: u8 = 0;
        while suit < NUM_SUITS
            invariant
                suit <= NUM_SUITS,
                d < decks,
                deck@.len() == 52 * d + 13 * suit,
                forall|i: int|
                    0 <= i < deck@.len() ==> deck@[i] == CardOrJoker::Card(deck_card(i)),
            decreases NUM_SUITS - suit,
        {
            let mut rank: u8 = 0;
            while rank < NUM_RANKS
                invariant
                    rank <= NUM_RANKS,
                    suit < NUM_SUITS,
                    d < decks,
                    deck@.len() == 52 * d + 13 * suit + rank,
                    forall|i: int|
                        0 <= i < deck@.len() ==> deck@[i] == CardOrJoker::Card(deck_card(i)),
                decreases NUM_RANKS - rank,
            {
                deck.push(CardOrJoker::Card(Card { suit, rank }));
                rank = rank + 1;
            }
            suit = suit + 1;
        }
        d = d + 1;
    }
    let mut j: u8 = 0;
    while j < jokers
        invariant
            j <= jokers,
            deck@.len() == 52 * decks + j,
            forall|i: int|
                0 <= i < 52 * decks ==> deck@[i] == CardOrJoker::Card(deck_card(i)),
            forall|i: int| 52 * decks <= i < deck@.len() ==> deck@[i] == CardOrJoker::Joker,
        decreases jokers - j,
    {
        deck.push(CardOrJoker::Joker);
        j = j + 1;
    }
    assert(deck@ =~= full_deck(decks as nat, jokers as nat));
    deck
}

/// The real cards among the items of a hand, in their order.
pub open spec fn real_cards(items: Seq<CardOrJoker>) -> Seq<Card>
    decreases items.len(),
{
    if items.len() == 0 {
        Seq::empty()
    } else {
        match items.last() {
            CardOrJoker::Card(c) => real_cards(items.drop_last()).push(c),
            CardOrJoker::Joker => real_cards(items.drop_last()),
        }
    }
}

/// The number of jokers among the items of a hand.
pub open spec fn joker_count(items: Seq<CardOrJoker>) -> nat
    decreases items.len(),
{
    if items.len() == 0 {
        0
    } else {
        joker_count(items.drop_last()) + if items.last() is Joker {
            1nat
        } else {
            0nat
        }
    }
}

/// Every item of a hand is a real card or a joker, and the real cards of a
/// valid deck are valid.
pub proof fn lemma_split_total(items: Seq<CardOrJoker>)
    ensures
        real_cards(items).len() + joker_count(items) == items.len(),
        valid_deck(items) ==> forall|i: int|
            0 <= i < real_cards(items).len() ==> card_in_range(#[trigger] real_cards(items)[i]),
    decreases items.len(),
{
    if items.len() > 0 {
        lemma_split_total(items.drop_last());
        if valid_deck(items) {
            assert forall|i: int| 0 <= i < items.drop_last().len() implies (
            #[trigger] items.drop_last()[i] matches CardOrJoker::Card(c) ==> card_in_range(c)) by {
                assert(items.drop_last()[i] == items[i]);
            }
            assert(items.last() == items[items.len() - 1]);
        }
    }
}

/// Parts a hand into its real cards and the number of its jokers.
pub fn split_hand(items: &[CardOrJoker]) -> (res: (ArrayVec<Card, MAX_CARDS>, u8))
    requires
        items@.len() <= MAX_CARDS,
    ensures
        held(res.0) == real_cards(items@),
        res.1 == joker_count(items@),
{
    let mut cards = cards_new();
    let mut num_jokers: u8 = 0;
    let mut i: usize = 0;
    proof {
        assert(items@.take(0) =~= Seq::<CardOrJoker>::empty());
    }
    while i < items.len()
        invariant
            i <= items@.len() <= MAX_CARDS,
            held(cards) == real_cards(items@.take(i as int)),
            num_jokers == joker_count(items@.take(i as int)),
        decreases items@.len() - i,
    {
        proof {
            lemma_split_total(items@.take(i as int));
            assert(items@.take(i + 1).drop_last() =~= items@.take(i as int));
        }
        match items[i] {
            CardOrJoker::Card(c) => {
                cards_push(&mut cards, c);
            },
            CardOrJoker::Joker => {
                num_jokers = num_jokers + 1;
            },
        }
        i = i + 1;
    }
    proof {
        assert(items@.take(items@.len() as int) =~= items@);
    }
    (cards, num_jokers)
}

/// A hand holds as many jokers as its multiset of items counts.
pub proof fn lemma_joker_count(items: Seq<CardOrJoker>)
    ensures
        joker_count(items) == items.to_multiset().count(CardOrJoker::Joker),
    decreases items.len(),
{
    broadcast use vstd::multiset::group_multiset_axioms;

    if items.len() == 0 {
        vstd::seq_lib::to_multiset_len(items);
    } else {
        lemma_joker_count(items.drop_last());
        assert(items =~= items.drop_last().push(items.last()));
        vstd::seq_lib::to_multiset_build(items.drop_last(), items.last());
    }
}

/// The jokers among the first `k` items of a full deck.
proof fn lemma_full_deck_prefix(decks: nat, jokers: nat, k: int)
    requires
        0 <= k <= 52 * decks + jokers,
    ensures
        joker_count(full_deck(decks, jokers).take(k)) == if k <= 52 * decks {
            0
        } else {
            k - 52 * decks
        },
    decreases k,
{
    if k > 0 {
        lemma_full_deck_prefix(decks, jokers, k - 1);
        assert(full_deck(decks, jokers).take(k).drop_last() =~= full_deck(decks, jokers).take(
            k - 1,
        ));
    }
}

/// The full deck holds `52 * decks` real cards, all of them in range, and
/// `jokers` jokers.
pub proof fn lemma_full_deck(decks: nat, jokers: nat)
    ensures
        full_deck(decks, jokers).len() == 52 * decks + jokers,
        valid_deck(full_deck(decks, jokers)),
        joker_count(full_deck(decks, jokers)) == jokers,
{
    let deck = full_deck(decks, jokers);
    lemma_full_deck_prefix(decks, jokers, deck.len() as int);
    assert(deck.take(deck.len() as int) =~= deck);
}

} // verus!
