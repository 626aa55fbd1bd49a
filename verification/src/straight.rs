//! Straights: runs of consecutive ranks, with the ace high or low.

use vstd::prelude::*;
use crate::card::{
    card_in_range, cell_set, lemma_rank_count_push, rank_count, ranks_for_straight, valid_hand,
    Card, ACE, NUM_RANKS,
};

verus! {

/// Number of cells of the straight bitmap, one more than there are ranks.
pub const NUM_CELLS: usize = 14;

/// Number of set cells among the cells `lo`, `lo + 1`, ..., `hi - 1`.
pub open spec fn cells_set(cards: Seq<Card>, lo: int, hi: int) -> nat
    decreases hi - lo,
{
    if hi <= lo {
        0
    } else {
        cells_set(cards, lo, hi - 1) + if cell_set(cards, hi - 1) {
            1nat
        } else {
            0nat
        }
    }
}

/// Whether a window of `size` cells may start at cell `start`: it has to end
/// within the bitmap, except that a window wider than the bitmap starts at
/// cell 0 and covers all of it.
pub open spec fn window_start(start: int, size: nat) -> bool {
    0 <= start && (start == 0 || start + size <= NUM_CELLS)
}

/// Number of set cells in the window of `size` cells that starts at `start`.
pub open spec fn window_cells(cards: Seq<Card>, start: int, size: nat) -> nat {
    cells_set(cards, start, start + size)
}

/// Some window of `size` consecutive cells lacks no more cells than there are
/// jokers. Cell 0 lets the ace stand below the two; no window runs past the
/// ace's own cell, so a run cannot wrap from king over ace to two.
pub open spec fn straight(cards: Seq<Card>, jokers: nat, size: nat) -> bool {
    exists|start: int|
        window_start(start, size) && #[trigger] window_cells(cards, start, size) + jokers >= size
}

/// A window of cells holds at most as many set cells as it is wide.
pub proof fn lemma_cells_set_bound(cards: Seq<Card>, lo: int, hi: int)
    requires
        lo <= hi,
    ensures
        cells_set(cards, lo, hi) <= hi - lo,
    decreases hi - lo,
{
    if lo < hi {
        lemma_cells_set_bound(cards, lo, hi - 1);
    }
}

/// The set cells of a window are its first cell, if set, and those of the rest.
pub proof fn lemma_cells_set_front(cards: Seq<Card>, lo: int, hi: int)
    requires
        lo < hi,
    ensures
        cells_set(cards, lo, hi) == cells_set(cards, lo + 1, hi) + if cell_set(cards, lo) {
            1nat
        } else {
            0nat
        },
    decreases hi - lo,
{
    if lo + 1 < hi {
        lemma_cells_set_front(cards, lo, hi - 1);
    } else {
        assert(cells_set(cards, lo, hi - 1) == 0);
        assert(cells_set(cards, lo + 1, hi) == 0);
    }
}

/// No cell past the ace's is set, so a window that reaches past the bitmap
/// holds what its part within the bitmap holds.
pub proof fn lemma_cells_set_past_end(cards: Seq<Card>, lo: int, hi: int)
    requires
        valid_hand(cards),
        0 <= lo <= NUM_CELLS <= hi,
    ensures
        cells_set(cards, lo, hi) == cells_set(cards, lo, NUM_CELLS as int),
    decreases hi - lo,
{
    if hi > NUM_CELLS {
        lemma_cells_set_past_end(cards, lo, hi - 1);
        lemma_rank_count_out_of_range(cards, hi - 2);
    }
}

/// A valid hand holds no card of a rank outside the ranks.
pub proof fn lemma_rank_count_out_of_range(cards: Seq<Card>, rank: int)
    requires
        valid_hand(cards),
        rank < 0 || rank >= NUM_RANKS,
    ensures
        rank_count(cards, rank) == 0,
    decreases cards.len(),
{
    reveal(Seq::filter);
    if cards.len() > 0 {
        assert(valid_hand(cards.drop_last())) by {
            assert forall|i: int|
                0 <= i < cards.drop_last().len() implies card_in_range(
                #[trigger] cards.drop_last()[i],
            ) by {
                assert(cards.drop_last()[i] == cards[i]);
            }
        }
        lemma_rank_count_out_of_range(cards.drop_last(), rank);
    }
}

/// The cell that a card sets in a window: its rank's cell, or cell 0 for an
/// ace where the window starts there.
spec fn cell_of(c: Card, lo: int) -> int {
    if lo <= 0 && c.rank == ACE {
        0
    } else {
        c.rank + 1
    }
}

/// In a window that does not hold both cells of the ace, one more card sets
/// no cell but its own.
proof fn lemma_cells_push_at(cards: Seq<Card>, c: Card, lo: int, hi: int)
    requires
        1 <= lo || hi <= NUM_RANKS,
    ensures
        cells_set(cards.push(c), lo, hi) <= cells_set(cards, lo, hi) + if lo <= cell_of(c, lo)
            < hi {
            1nat
        } else {
            0nat
        },
    decreases hi - lo,
{
    if lo < hi {
        lemma_cells_push_at(cards, c, lo, hi - 1);
        lemma_rank_count_push(cards, c, ACE as int);
        lemma_rank_count_push(cards, c, hi - 2);
    }
}

/// One more card sets at most one more cell of a window that does not hold
/// both cells of the ace.
pub proof fn lemma_cells_push(cards: Seq<Card>, c: Card, lo: int, hi: int)
    requires
        1 <= lo || hi <= NUM_RANKS,
    ensures
        cells_set(cards.push(c), lo, hi) <= cells_set(cards, lo, hi) + 1,
{
    lemma_cells_push_at(cards, c, lo, hi);
}

/// Decides `straight` by sliding a window of `straight_size` cells over the
/// bitmap.
pub fn is_straight(cards: &[Card], num_jokers: u8, straight_size: usize) -> (res: bool)
    requires
        valid_hand(cards@),
    ensures
        res == straight(cards@, num_jokers as nat, straight_size as nat),
{
    let ranks = ranks_for_straight(cards);
    let width: usize = if straight_size < NUM_CELLS {
        straight_size
    } else {
        NUM_CELLS
    };
    let mut window_sum: u8 = 0;
    let mut k: usize = 0;
    while k < width
        invariant
            k <= width <= NUM_CELLS,
            window_sum == cells_set(cards@, 0, k as int),
            window_sum <= k,
            forall|p: int|
                0 <= p <= NUM_RANKS ==> ranks[p] == if cell_set(cards@, p) {
                    1u8
                } else {
                    0u8
                },
        decreases width - k,
    {
        window_sum = window_sum + ranks[k];
        k = k + 1;
    }
    proof {
        if straight_size > NUM_CELLS {
            lemma_cells_set_past_end(cards@, 0, straight_size as int);
        }
    }
    if window_sum as usize + num_jokers as usize >= straight_size {
        proof {
            assert(window_start(0, straight_size as nat));
            assert(window_cells(cards@, 0, straight_size as nat) + num_jokers >= straight_size);
        }
        return true;
    }
    let mut i: usize = straight_size;
    while i < NUM_CELLS
        invariant
            0 < straight_size <= i,
            i <= NUM_CELLS || i == straight_size,
            valid_hand(cards@),
            window_sum == cells_set(cards@, i - straight_size, i as int),
            forall|start: int|
                0 <= start <= i - straight_size ==> #[trigger] window_cells(
                    cards@,
                    start,
                    straight_size as nat,
                ) + num_jokers < straight_size,
            forall|p: int|
                0 <= p <= NUM_RANKS ==> ranks[p] == if cell_set(cards@, p) {
                    1u8
                } else {
                    0u8
                },
        decreases NUM_CELLS - i,
    {
        proof {
            lemma_cells_set_front(cards@, i - straight_size, i as int);
            lemma_cells_set_bound(cards@, i - straight_size + 1, i as int);
        }
        window_sum = window_sum - ranks[i - straight_size];
        window_sum = window_sum + ranks[i];
        if window_sum as usize + num_jokers as usize >= straight_size {
            proof {
                let start = i + 1 - straight_size;
                assert(window_start(start, straight_size as nat));
                assert(window_cells(cards@, start, straight_size as nat) + num_jokers
                    >= straight_size);
            }
            return true;
        }
        i = i + 1;
    }
    proof {
        assert forall|start: int| window_start(start, straight_size as nat) implies window_cells(
            cards@,
            start,
            straight_size as nat,
        ) + num_jokers < straight_size by {
            if start != 0 {
                assert(start <= i - straight_size);
            }
        }
    }
    false
}

} // verus!
