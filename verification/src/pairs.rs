//! Categories that ask for a number of pairs.

use vstd::prelude::*;
use crate::card::{lemma_rank_count_bound, rank_count, rank_counts, valid_hand, Card, NUM_RANKS};

verus! {

/// Pairs that the real cards of the ranks below `k` form on their own.
pub open spec fn pairs_below(cards: Seq<Card>, k: int) -> nat
    decreases k,
{
    if k <= 0 {
        0
    } else {
        pairs_below(cards, k - 1) + rank_count(cards, k - 1) / 2
    }
}

/// Number of ranks below `k` that hold an odd number of cards, and so one
/// card that no other card of its rank pairs up with.
pub open spec fn odd_ranks_below(cards: Seq<Card>, k: int) -> nat
    decreases k,
{
    if k <= 0 {
        0
    } else {
        odd_ranks_below(cards, k - 1) + if rank_count(cards, k - 1) % 2 == 1 {
            1nat
        } else {
            0nat
        }
    }
}

/// The most pairs the hand can show: each joker first pairs up with a lone
/// card, and the jokers left over pair up with each other.
pub open spec fn max_pairs(cards: Seq<Card>, jokers: nat) -> nat {
    let whole = pairs_below(cards, NUM_RANKS as int);
    let lone = odd_ranks_below(cards, NUM_RANKS as int);
    if jokers <= lone {
        whole + jokers
    } else {
        whole + lone + (jokers - lone) as nat / 2
    }
}

/// The hand can show `n` pairs.
pub open spec fn n_pairs(cards: Seq<Card>, n: nat, jokers: nat) -> bool {
    max_pairs(cards, jokers) >= n
}

/// Two pairs.
pub open spec fn two_pair(cards: Seq<Card>, jokers: nat) -> bool {
    n_pairs(cards, 2, jokers)
}

/// Three pairs.
pub open spec fn three_pair(cards: Seq<Card>, jokers: nat) -> bool {
    n_pairs(cards, 3, jokers)
}

/// Decides `n_pairs` in one walk over the rank histogram.
pub fn is_n_pairs(cards: &[Card], n: u8, num_jokers: u8) -> (res: bool)
    requires
        valid_hand(cards@),
    ensures
        res == n_pairs(cards@, n as nat, num_jokers as nat),
{
    let counts = rank_counts(cards);
    let mut jokers: u8 = num_jokers;
    let mut num_pairs: u16 = 0;
    let mut r: usize = 0;
    while r < 13
        invariant
            r <= 13,
            cards@.len() <= 12,
            forall|k: int| 0 <= k < NUM_RANKS ==> counts[k] == rank_count(cards@, k),
            jokers <= num_jokers,
            num_jokers - jokers <= odd_ranks_below(cards@, r as int) <= r,
            jokers > 0 ==> num_jokers - jokers == odd_ranks_below(cards@, r as int),
            num_pairs == pairs_below(cards@, r as int) + (num_jokers - jokers),
            num_pairs <= 7 * r,
        decreases 13 - r,
    {
        let count = counts[r];
        proof {
            lemma_rank_count_bound(cards@, r as int);
        }
        if count % 2 == 1 && jokers > 0 {
            jokers = jokers - 1;
            num_pairs = num_pairs + 1;
        }
        num_pairs = num_pairs + (count / 2) as u16;
        r = r + 1;
    }
    num_pairs + (jokers / 2) as u16 >= n as u16
}

/// Decides `two_pair`.
pub fn is_two_pair(cards: &[Card], num_jokers: u8) -> (res: bool)
    requires
        valid_hand(cards@),
    ensures
        res == two_pair(cards@, num_jokers as nat),
{
    is_n_pairs(cards, 2, num_jokers)
}

/// Decides `three_pair`.
pub fn is_three_pair(cards: &[Card], num_jokers: u8) -> (res: bool)
    requires
        valid_hand(cards@),
    ensures
        res == three_pair(cards@, num_jokers as nat),
{
    is_n_pairs(cards, 3, num_jokers)
}

} // verus!
