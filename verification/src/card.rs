//! Cards, hands and their rank and suit histograms.

use vstd::prelude::*;

verus! {

/// Largest number of real cards in a hand.
pub const MAX_CARDS: usize = 12;

/// Number of ranks; rank `NUM_RANKS - 1` is the ace.
pub const NUM_RANKS: u8 = 13;

/// Number of suits.
pub const NUM_SUITS: u8 = 4;

/// Rank index of the ace, the highest rank.
pub const ACE: u8 = 12;

/// Number of real cards of each rank, indexed by rank.
pub type RankCounts = [u8; 13];

/// Number of real cards of each suit, indexed by suit.
pub type SuitCounts = [u8; 4];

/// One cell per rank position: cell `r + 1` stands for rank `r`, and cell 0
/// stands for the ace played low.
pub type Ranks = [u8; 14];

/// A real card: a suit below `NUM_SUITS` and a rank below `NUM_RANKS`.
#[derive(Clone, Copy, Hash, PartialEq, Eq, Debug, Structural)]
pub struct Card {
    pub suit: u8,
    pub rank: u8,
}

/// The card's suit and rank are both in range.
pub open spec fn card_in_range(c: Card) -> bool {
    c.suit < NUM_SUITS && c.rank < NUM_RANKS
}

/// The real cards of a hand: at most `MAX_CARDS` of them, each in range.
pub open spec fn valid_hand(cards: Seq<Card>) -> bool {
    &&& cards.len() <= MAX_CARDS
    &&& forall|i: int| 0 <= i < cards.len() ==> card_in_range(#[trigger] cards[i])
}

/// Number of cards of the given rank.
pub open spec fn rank_count(cards: Seq<Card>, rank: int) -> nat {
    cards.filter(|c: Card| c.rank == rank).len()
}

/// Number of cards of the given suit.
pub open spec fn suit_count(cards: Seq<Card>, suit: int) -> nat {
    cards.filter(|c: Card| c.suit == suit).len()
}

/// Whether a cell of the straight bitmap is set: cell `r + 1` where the hand
/// holds rank `r`, and cell 0 where it holds an ace.
pub open spec fn cell_set(cards: Seq<Card>, cell: int) -> bool {
    if cell == 0 {
        rank_count(cards, ACE as int) > 0
    } else {
        rank_count(cards, cell - 1) > 0
    }
}

/// No rank holds more cards than the hand does.
pub proof fn lemma_rank_count_bound(cards: Seq<Card>, rank: int)
    ensures
        rank_count(cards, rank) <= cards.len(),
{
    cards.lemma_filter_len(|c: Card| c.rank == rank);
}

/// No suit holds more cards than the hand does.
pub proof fn lemma_suit_count_bound(cards: Seq<Card>, suit: int)
    ensures
        suit_count(cards, suit) <= cards.len(),
{
    cards.lemma_filter_len(|c: Card| c.suit == suit);
}

/// Counting one more card: its own rank gains one, every other rank stays.
pub proof fn lemma_rank_count_push(cards: Seq<Card>, c: Card, rank: int)
    ensures
        rank_count(cards.push(c), rank) == rank_count(cards, rank) + if c.rank == rank {
            1nat
        } else {
            0nat
        },
{
    cards.lemma_filter_push(c, |c: Card| c.rank == rank);
}

/// Counting one more card: its own suit gains one, every other suit stays.
pub proof fn lemma_suit_count_push(cards: Seq<Card>, c: Card, suit: int)
    ensures
        suit_count(cards.push(c), suit) == suit_count(cards, suit) + if c.suit == suit {
            1nat
        } else {
            0nat
        },
{
    cards.lemma_filter_push(c, |c: Card| c.suit == suit);
}

/// A rank's count in a prefix of the hand is at most its count in the hand.
pub proof fn lemma_rank_count_grows(cards: Seq<Card>, k: int, rank: int)
    requires
        0 <= k <= cards.len(),
    ensures
        rank_count(cards.take(k), rank) <= rank_count(cards, rank),
    decreases cards.len() - k,
{
    if k < cards.len() {
        lemma_rank_count_push(cards.take(k), cards[k], rank);
        assert(cards.take(k + 1) =~= cards.take(k).push(cards[k]));
        lemma_rank_count_grows(cards, k + 1, rank);
    } else {
        assert(cards.take(k) =~= cards);
    }
}

/// The histogram of ranks of a hand.
pub fn rank_counts(cards: &[Card]) -> (counts: RankCounts)
    requires
        valid_hand(cards@),
    ensures
        forall|r: int| 0 <= r < NUM_RANKS ==> counts[r] == rank_count(cards@, r),
{
    let mut counts: RankCounts = [0u8; 13];
    let mut i: usize = 0;
    proof {
        assert(cards@.take(0) =~= Seq::<Card>::empty());
        reveal(Seq::filter);
    }
    while i < cards.len()
        invariant
            i <= cards.len(),
            valid_hand(cards@),
            forall|r: int| 0 <= r < NUM_RANKS ==> counts[r] == rank_count(cards@.take(i as int), r),
        decreases cards.len() - i,
    {
        let c = cards[i];
        proof {
            assert(cards@.take(i + 1) =~= cards@.take(i as int).push(c));
            assert forall|r: int| 0 <= r < NUM_RANKS implies rank_count(cards@.take(i + 1), r)
                == rank_count(cards@.take(i as int), r) + if c.rank == r { 1nat } else { 0nat }
                && rank_count(cards@.take(i as int), r) <= i by {
                lemma_rank_count_push(cards@.take(i as int), c, r);
                lemma_rank_count_bound(cards@.take(i as int), r);
            }
        }
        counts[c.rank as usize] = counts[c.rank as usize] + 1;
        i = i + 1;
    }
    proof {
        assert(cards@.take(cards.len() as int) =~= cards@);
    }
    counts
}

/// The histogram of suits of a hand.
pub fn suit_counts(cards: &[Card]) -> (counts: SuitCounts)
    requires
        valid_hand(cards@),
    ensures
        forall|s: int| 0 <= s < NUM_SUITS ==> counts[s] == suit_count(cards@, s),
{
    let mut counts: SuitCounts = [0u8; 4];
    let mut i: usize = 0;
    proof {
        assert(cards@.take(0) =~= Seq::<Card>::empty());
        reveal(Seq::filter);
    }
    while i < cards.len()
        invariant
            i <= cards.len(),
            valid_hand(cards@),
            forall|s: int| 0 <= s < NUM_SUITS ==> counts[s] == suit_count(cards@.take(i as int), s),
        decreases cards.len() - i,
    {
        let c = cards[i];
        proof {
            assert(cards@.take(i + 1) =~= cards@.take(i as int).push(c));
            assert forall|s: int| 0 <= s < NUM_SUITS implies suit_count(cards@.take(i + 1), s)
                == suit_count(cards@.take(i as int), s) + if c.suit == s { 1nat } else { 0nat }
                && suit_count(cards@.take(i as int), s) <= i by {
                lemma_suit_count_push(cards@.take(i as int), c, s);
                lemma_suit_count_bound(cards@.take(i as int), s);
            }
        }
        counts[c.suit as usize] = counts[c.suit as usize] + 1;
        i = i + 1;
    }
    proof {
        assert(cards@.take(cards.len() as int) =~= cards@);
    }
    counts
}

/// The straight bitmap of a hand: a 1 in each set cell, a 0 elsewhere. Cell 0
/// mirrors the ace's cell, so that an ace can open a straight as well as
/// close one.
pub fn ranks_for_straight(cards: &[Card]) -> (cells: Ranks)
    requires
        valid_hand(cards@),
    ensures
        forall|p: int|
            0 <= p <= NUM_RANKS ==> cells[p] == if cell_set(cards@, p) {
                1u8
            } else {
                0u8
            },
{
    let mut cells: Ranks = [0u8; 14];
    let mut i: usize = 0;
    proof {
        assert(cards@.take(0) =~= Seq::<Card>::empty());
        reveal(Seq::filter);
    }
    while i < cards.len()
        invariant
            i <= cards.len(),
            valid_hand(cards@),
            cells[0] == 0,
            forall|p: int|
                1 <= p <= NUM_RANKS ==> cells[p] == if cell_set(cards@.take(i as int), p) {
                    1u8
                } else {
                    0u8
                },
        decreases cards.len() - i,
    {
        let c = cards[i];
        proof {
            assert(cards@.take(i + 1) =~= cards@.take(i as int).push(c));
            assert forall|r: int| 0 <= r < NUM_RANKS implies rank_count(cards@.take(i + 1), r)
                == rank_count(cards@.take(i as int), r) + if c.rank == r { 1nat } else { 0nat } by {
                lemma_rank_count_push(cards@.take(i as int), c, r);
            }
        }
        cells[c.rank as usize + 1] = 1;
        i = i + 1;
    }
    proof {
        assert(cards@.take(cards.len() as int) =~= cards@);
    }
    cells[0] = cells[13];
    cells
}

} // verus!
