//! Drawing hands at random and tallying them.

use vstd::prelude::*;
use vstd::seq_lib::to_multiset_contains;
use arrayvec::ArrayVec;
use rand::rngs::ThreadRng;
use rand::seq::SliceRandom;
use crate::card::{card_in_range, MAX_CARDS};
use crate::deck::{
    joker_count, lemma_joker_count, lemma_split_total, real_cards, split_hand, valid_deck,
    CardOrJoker,
};
use crate::inline_vec::cards_as_slice;
use crate::tally::{any_overlap, some_overlap, tally, tally_hand, HandCount};

verus! {

/// `rand::rngs::ThreadRng`, the handle of the thread's random number
/// generator.
#[verifier::external_type_specification]
#[verifier::external_body]
pub struct ExThreadRng(ThreadRng);

/// The items that a drawn hand holds, in the order in which they were drawn.
pub uninterp spec fn drawn(hand: ArrayVec<CardOrJoker, MAX_CARDS>) -> Seq<CardOrJoker>;

/// Whether `hand` may be drawn from `deck` where `amount` items are asked
/// for: it holds that many items, or the whole deck where the deck is
/// smaller, and no item more often than the deck does.
pub open spec fn is_draw(hand: Seq<CardOrJoker>, deck: Seq<CardOrJoker>, amount: nat) -> bool {
    &&& hand.len() == if amount <= deck.len() {
        amount
    } else {
        deck.len()
    }
    &&& hand.to_multiset().subset_of(deck.to_multiset())
}

/// `SliceRandom::choose_multiple` on the deck, collected into an `ArrayVec`:
/// the items stand at `amount` different places of the deck, or at all its
/// places where it has fewer. Which places, and in which order, is left to
/// the generator. Collecting panics on more items than the vector can
/// hold, which `requires` rules out.
#[verifier::external_body]
fn choose_hand(deck: &[CardOrJoker], rng: &mut ThreadRng, amount: usize) -> (hand: ArrayVec<
    CardOrJoker,
    MAX_CARDS,
>)
    requires
        amount <= MAX_CARDS,
    ensures
        is_draw(drawn(hand), deck@, amount as nat),
{
    deck.choose_multiple(rng, amount).copied().collect()
}

/// `ArrayVec::as_slice`: the slice shows the items of the hand, in their
/// order.
#[verifier::external_body]
fn drawn_as_slice(hand: &ArrayVec<CardOrJoker, MAX_CARDS>) -> (items: &[CardOrJoker])
    ensures
        items@ == drawn(*hand),
{
    hand.as_slice()
}

/// A hand drawn from a valid deck holds valid cards only.
pub proof fn lemma_draw_valid(hand: Seq<CardOrJoker>, deck: Seq<CardOrJoker>, amount: nat)
    requires
        is_draw(hand, deck, amount),
        valid_deck(deck),
    ensures
        valid_deck(hand),
{
    assert forall|i: int| 0 <= i < hand.len() implies (#[trigger] hand[i] matches CardOrJoker::Card(
        c,
    ) ==> card_in_range(c)) by {
        let x = hand[i];
        assert(hand.contains(x));
        to_multiset_contains(hand, x);
        to_multiset_contains(deck, x);
        assert(hand.to_multiset().count(x) <= deck.to_multiset().count(x));
        let j = choose|j: int| 0 <= j < deck.len() && deck[j] == x;
        assert(deck[j] == x);
    }
}

/// A drawn hand holds no more jokers than the deck, and exactly as many
/// items as were asked for where the deck has that many.
pub proof fn lemma_draw_size(hand: Seq<CardOrJoker>, deck: Seq<CardOrJoker>, amount: nat)
    requires
        is_draw(hand, deck, amount),
    ensures
        amount <= deck.len() ==> hand.len() == amount,
        joker_count(hand) <= joker_count(deck),
        joker_count(hand) + real_cards(hand).len() == hand.len(),
{
    lemma_joker_count(hand);
    lemma_joker_count(deck);
    lemma_split_total(hand);
}

/// The counts after the given hands, tallied one after the other.
pub open spec fn tally_hands(counts: Seq<HandCount>, hands: Seq<Seq<CardOrJoker>>) -> Seq<
    HandCount,
>
    decreases hands.len(),
{
    if hands.len() == 0 {
        counts
    } else {
        tally(
            tally_hands(counts, hands.drop_last()),
            real_cards(hands.last()),
            joker_count(hands.last()),
        )
    }
}

/// Whether each of the hands may be drawn from the deck.
pub open spec fn are_draws(
    hands: Seq<Seq<CardOrJoker>>,
    deck: Seq<CardOrJoker>,
    amount: nat,
) -> bool {
    forall|k: int| 0 <= k < hands.len() ==> is_draw(#[trigger] hands[k], deck, amount)
}

/// Tallying hands keeps the entries, their names and their categories, and
/// raises each count by at most one per hand.
pub proof fn lemma_tally_hands(counts: Seq<HandCount>, hands: Seq<Seq<CardOrJoker>>)
    ensures
        tally_hands(counts, hands).len() == counts.len(),
        forall|i: int|
            0 <= i < counts.len() ==> {
                &&& (#[trigger] tally_hands(counts, hands)[i]).name == counts[i].name
                &&& tally_hands(counts, hands)[i].category == counts[i].category
                &&& counts[i].count <= tally_hands(counts, hands)[i].count <= counts[i].count
                    + hands.len()
            },
    decreases hands.len(),
{
    if hands.len() > 0 {
        lemma_tally_hands(counts, hands.drop_last());
    }
}

/// Draws one hand of `hand_cards` items from the deck and tallies it.
/// Whatever the generator picks, the counts end up as they were with some
/// hand of the deck tallied.
pub fn sample_hand(
    deck: &[CardOrJoker],
    rng: &mut ThreadRng,
    hand_cards: usize,
    counts: &mut Vec<HandCount>,
)
    requires
        valid_deck(deck@),
        hand_cards <= MAX_CARDS,
    ensures
        exists|hand: Seq<CardOrJoker>| #[trigger]
            is_draw(hand, deck@, hand_cards as nat) && final(counts)@ == tally(
                old(counts)@,
                real_cards(hand),
                joker_count(hand),
            ),
{
    let hand = choose_hand(deck, rng, hand_cards);
    let items = drawn_as_slice(&hand);
    let (cards, num_jokers) = split_hand(items);
    proof {
        lemma_draw_valid(items@, deck@, hand_cards as nat);
        lemma_split_total(items@);
    }
    tally_hand(counts, cards_as_slice(&cards), num_jokers);
    assert(is_draw(items@, deck@, hand_cards as nat));
}

/// Number of hands between two looks at the confidence intervals.
pub const BATCH: u64 = 1_000_000;

/// Draws and tallies `hands` hands, one after the other. Whatever the
/// generator picks, the counts end up as they were with that many hands of
/// the deck tallied.
pub fn sample_hands(
    deck: &[CardOrJoker],
    rng: &mut ThreadRng,
    hand_cards: usize,
    counts: &mut Vec<HandCount>,
    hands: u64,
)
    requires
        valid_deck(deck@),
        hand_cards <= MAX_CARDS,
    ensures
        exists|drawn: Seq<Seq<CardOrJoker>>|
            drawn.len() == hands && are_draws(drawn, deck@, hand_cards as nat)
                && final(counts)@ == #[trigger] tally_hands(old(counts)@, drawn),
{
    let mut done: u64 = 0;
    let ghost mut drawn: Seq<Seq<CardOrJoker>> = Seq::empty();
    while done < hands
        invariant
            done <= hands,
            valid_deck(deck@),
            hand_cards <= MAX_CARDS,
            drawn.len() == done,
            are_draws(drawn, deck@, hand_cards as nat),
            counts@ == tally_hands(old(counts)@, drawn),
        decreases hands - done,
    {
        let ghost before = counts@;
        sample_hand(deck, rng, hand_cards, counts);
        proof {
            let hand = choose|hand: Seq<CardOrJoker>| #[trigger]
                is_draw(hand, deck@, hand_cards as nat) && counts@ == tally(
                    before,
                    real_cards(hand),
                    joker_count(hand),
                );
            assert(drawn.push(hand).drop_last() =~= drawn);
            drawn = drawn.push(hand);
        }
        done = done + 1;
    }
}

/// The number of hands after one more batch; it stops at `u64::MAX`.
pub open spec fn after_batch(num_iters: u64) -> u64 {
    if num_iters + BATCH <= u64::MAX {
        (num_iters + BATCH) as u64
    } else {
        u64::MAX
    }
}

/// Runs one batch: draws and tallies `BATCH` hands, adds them to the number
/// of hands so far, and says whether some confidence intervals still meet,
/// so that another batch is due.
pub fn run_batch(
    deck: &[CardOrJoker],
    rng: &mut ThreadRng,
    hand_cards: usize,
    counts: &mut Vec<HandCount>,
    num_iters: &mut u64,
) -> (go_on: bool)
    requires
        valid_deck(deck@),
        hand_cards <= MAX_CARDS,
    ensures
        *final(num_iters) == after_batch(*old(num_iters)),
        go_on == some_overlap(final(counts)@, *final(num_iters)),
        exists|drawn: Seq<Seq<CardOrJoker>>|
            drawn.len() == BATCH && are_draws(drawn, deck@, hand_cards as nat)
                && final(counts)@ == #[trigger] tally_hands(old(counts)@, drawn),
{
    sample_hands(deck, rng, hand_cards, counts, BATCH);
    *num_iters = num_iters.saturating_add(BATCH);
    any_overlap(counts.as_slice(), *num_iters)
}

} // verus!
