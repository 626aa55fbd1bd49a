//! Flushes: many cards of one suit.

use vstd::prelude::*;
use crate::card::{suit_count, suit_counts, valid_hand, Card, NUM_SUITS};

verus! {

/// Some suit reaches `size` cards once the jokers join it.
pub open spec fn flush(cards: Seq<Card>, jokers: nat, size: nat) -> bool {
    exists|s: int| 0 <= s < NUM_SUITS && #[trigger] suit_count(cards, s) + jokers >= size
}

/// Decides `flush`.
pub fn is_flush(cards: &[Card], num_jokers: u8, flush_size: u8) -> (res: bool)
    requires
        valid_hand(cards@),
    ensures
        res == flush(cards@, num_jokers as nat, flush_size as nat),
{
    let counts = suit_counts(cards);
    let mut s: usize = 0;
    while s < 4
        invariant
            s <= 4,
            forall|k: int| 0 <= k < NUM_SUITS ==> counts[k] == suit_count(cards@, k),
            forall|k: int|
                0 <= k < s ==> #[trigger] suit_count(cards@, k) + num_jokers < flush_size,
        decreases 4 - s,
    {
        if counts[s] as u16 + num_jokers as u16 >= flush_size as u16 {
            assert(suit_count(cards@, s as int) + num_jokers >= flush_size);
            return true;
        }
        s = s + 1;
    }
    false
}

} // verus!
