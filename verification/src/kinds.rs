//! Categories that ask for many cards of one rank: n of a kind, and the
//! full-house family that asks for two such groups at once.

use vstd::prelude::*;
use crate::card::{
    lemma_rank_count_bound, lemma_rank_count_grows, lemma_rank_count_push, rank_count,
    rank_counts, valid_hand, Card, RankCounts, NUM_RANKS,
};

verus! {

/// Jokers needed to bring a group of `count` cards up to `target` cards.
pub open spec fn missing(count: nat, target: nat) -> nat {
    if count >= target {
        0
    } else {
        (target - count) as nat
    }
}

/// Some rank reaches `n` copies once the jokers join it.
pub open spec fn n_of_a_kind(cards: Seq<Card>, n: nat, jokers: nat) -> bool {
    exists|r: int| 0 <= r < NUM_RANKS && #[trigger] rank_count(cards, r) + jokers >= n
}

/// The jokers can be shared out so that one rank reaches `n` copies and a
/// second group reaches `m` copies. The second group is either another rank,
/// or what the first rank holds beyond its `n` copies.
pub open spec fn n_and_m_of_a_kind(cards: Seq<Card>, n: nat, m: nat, jokers: nat) -> bool {
    ||| exists|r: int| 0 <= r < NUM_RANKS && #[trigger] rank_count(cards, r) + jokers >= n + m
    ||| exists|r1: int, r2: int|
        0 <= r1 < NUM_RANKS && 0 <= r2 < NUM_RANKS && r1 != r2 && missing(
            #[trigger] rank_count(cards, r1),
            n,
        ) + missing(#[trigger] rank_count(cards, r2), m) <= jokers
}

/// Three of one rank and two of another.
pub open spec fn full_house(cards: Seq<Card>, jokers: nat) -> bool {
    n_and_m_of_a_kind(cards, 3, 2, jokers)
}

/// Two groups of three.
pub open spec fn two_triplet(cards: Seq<Card>, jokers: nat) -> bool {
    n_and_m_of_a_kind(cards, 3, 3, jokers)
}

/// Four of one rank and two of another.
pub open spec fn full_mansion(cards: Seq<Card>, jokers: nat) -> bool {
    n_and_m_of_a_kind(cards, 4, 2, jokers)
}

/// Decides `n_of_a_kind`, stopping at the first card that completes a group.
pub fn is_n_of_a_kind(cards: &[Card], n: u8, num_jokers: u8) -> (res: bool)
    requires
        valid_hand(cards@),
    ensures
        res == n_of_a_kind(cards@, n as nat, num_jokers as nat),
{
    let mut counts: RankCounts = [0u8; 13];
    let mut i: usize = 0;
    proof {
        assert(cards@.take(0) =~= Seq::<Card>::empty());
        reveal(Seq::filter);
    }
    while i < cards.len()
        invariant
            i <= cards.len(),
            valid_hand(cards@),
            forall|r: int| 0 <= r < NUM_RANKS ==> counts[r] == rank_count(cards@.take(i as int), r),
            forall|r: int| 0 <= r < NUM_RANKS && counts[r] > 0 ==> counts[r] + num_jokers < n,
        decreases cards.len() - i,
    {
        let c = cards[i];
        proof {
            assert(cards@.take(i + 1) =~= cards@.take(i as int).push(c));
            assert forall|r: int| 0 <= r < NUM_RANKS implies rank_count(cards@.take(i + 1), r)
                == rank_count(cards@.take(i as int), r) + if c.rank == r { 1nat } else { 0nat }
                && rank_count(cards@.take(i as int), r) <= i by {
                lemma_rank_count_push(cards@.take(i as int), c, r);
                lemma_rank_count_bound(cards@.take(i as int), r);
            }
        }
        let count: u8 = counts[c.rank as usize] + 1;
        counts[c.rank as usize] = count;
        if count as u16 + num_jokers as u16 >= n as u16 {
            proof {
                lemma_rank_count_grows(cards@, i + 1, c.rank as int);
            }
            return true;
        }
        i = i + 1;
    }
    proof {
        assert(cards@.take(cards.len() as int) =~= cards@);
        if num_jokers >= n {
            assert(rank_count(cards@, 0) + num_jokers >= n);
        } else {
            assert forall|r: int| 0 <= r < NUM_RANKS implies rank_count(cards@, r) + num_jokers
                < n by {
                assert(counts[r] == rank_count(cards@, r));
            }
        }
    }
    num_jokers >= n
}

/// Raises `*val` to `fill_to` with jokers taken from `*jokers`, where there
/// are enough of them; otherwise changes nothing.
fn fill_with_jokers(val: &mut u8, fill_to: u8, jokers: &mut u8) -> (filled: bool)
    ensures
        filled == (*old(val) + *old(jokers) >= fill_to),
        filled ==> *final(val) == if *old(val) >= fill_to {
            *old(val)
        } else {
            fill_to
        },
        filled ==> *final(jokers) == *old(jokers) - missing(*old(val) as nat, fill_to as nat),
        !filled ==> *final(val) == *old(val) && *final(jokers) == *old(jokers),
{
    if *val >= fill_to {
        return true;
    }
    if *jokers < fill_to - *val {
        return false;
    }
    *jokers = *jokers - (fill_to - *val);
    *val = fill_to;
    true
}

/// The two largest entries of a rank histogram, largest first. They stand at
/// two different ranks.
fn two_largest(counts: &RankCounts) -> (top: (u8, u8))
    ensures
        exists|r1: int, r2: int|
            0 <= r1 < NUM_RANKS && 0 <= r2 < NUM_RANKS && r1 != r2 && #[trigger] counts[r1]
                == top.0 && #[trigger] counts[r2] == top.1 && forall|r: int|
                0 <= r < NUM_RANKS ==> counts[r] <= top.0 && (r != r1 ==> counts[r] <= top.1),
{
    let mut first: u8 = counts[0];
    let mut second: u8 = counts[1];
    let ghost mut r1: int = 0;
    let ghost mut r2: int = 1;
    if second > first {
        first = counts[1];
        second = counts[0];
        proof {
            r1 = 1;
            r2 = 0;
        }
    }
    let mut k: usize = 2;
    while k < 13
        invariant
            2 <= k <= 13,
            0 <= r1 < k,
            0 <= r2 < k,
            r1 != r2,
            counts[r1] == first,
            counts[r2] == second,
            forall|r: int| 0 <= r < k ==> counts[r] <= first && (r != r1 ==> counts[r] <= second),
        decreases 13 - k,
    {
        let c = counts[k];
        if c > first {
            second = first;
            first = c;
            proof {
                r2 = r1;
                r1 = k as int;
            }
        } else if c > second {
            second = c;
            proof {
                r2 = k as int;
            }
        }
        k = k + 1;
    }
    (first, second)
}

/// Filling the tallest rank first, and then either what it holds beyond `n`
/// or the second tallest rank, succeeds exactly when some way of sharing out
/// the jokers does.
proof fn lemma_tallest_first(
    cards: Seq<Card>,
    n: nat,
    m: nat,
    jokers: nat,
    r1: int,
    r2: int,
)
    requires
        n >= m,
        0 <= r1 < NUM_RANKS,
        0 <= r2 < NUM_RANKS,
        r1 != r2,
        forall|r: int|
            0 <= r < NUM_RANKS ==> rank_count(cards, r) <= rank_count(cards, r1) && (r != r1
                ==> rank_count(cards, r) <= rank_count(cards, r2)),
    ensures
        n_and_m_of_a_kind(cards, n, m, jokers) <==> (rank_count(cards, r1) + jokers >= n + m
            || missing(rank_count(cards, r1), n) + missing(rank_count(cards, r2), m) <= jokers),
{
    let first = rank_count(cards, r1);
    let second = rank_count(cards, r2);
    if n_and_m_of_a_kind(cards, n, m, jokers) {
        if exists|r: int| 0 <= r < NUM_RANKS && #[trigger] rank_count(cards, r) + jokers >= n + m {
            let r = choose|r: int|
                0 <= r < NUM_RANKS && #[trigger] rank_count(cards, r) + jokers >= n + m;
            assert(rank_count(cards, r) <= first);
        } else {
            let (a, b) = choose|a: int, b: int|
                0 <= a < NUM_RANKS && 0 <= b < NUM_RANKS && a != b && missing(
                    #[trigger] rank_count(cards, a),
                    n,
                ) + missing(#[trigger] rank_count(cards, b), m) <= jokers;
            let ca = rank_count(cards, a);
            let cb = rank_count(cards, b);
            assert(ca <= first && cb <= first);
            if b != r1 {
                assert(cb <= second);
            } else {
                assert(ca <= second);
            }
        }
    }
}

/// Decides `n_and_m_of_a_kind` by filling the tallest rank to `n` first.
pub fn is_n_and_m_of_a_kind(cards: &[Card], n: u8, m: u8, num_jokers: u8) -> (res: bool)
    requires
        valid_hand(cards@),
        n >= m,
    ensures
        res == n_and_m_of_a_kind(cards@, n as nat, m as nat, num_jokers as nat),
{
    let counts = rank_counts(cards);
    let (mut first, mut second) = two_largest(&counts);
    let mut jokers = num_jokers;
    proof {
        let (r1, r2) = choose|r1: int, r2: int|
            0 <= r1 < NUM_RANKS && 0 <= r2 < NUM_RANKS && r1 != r2 && #[trigger] counts[r1]
                == first && #[trigger] counts[r2] == second && forall|r: int|
                0 <= r < NUM_RANKS ==> counts[r] <= first && (r != r1 ==> counts[r] <= second);
        lemma_tallest_first(cards@, n as nat, m as nat, num_jokers as nat, r1, r2);
    }
    if !fill_with_jokers(&mut first, n, &mut jokers) {
        return false;
    }
    first = first - n;
    if fill_with_jokers(&mut first, m, &mut jokers) {
        return true;
    }
    fill_with_jokers(&mut second, m, &mut jokers)
}

/// Decides `full_house`.
pub fn is_full_house(cards: &[Card], num_jokers: u8) -> (res: bool)
    requires
        valid_hand(cards@),
    ensures
        res == full_house(cards@, num_jokers as nat),
{
    is_n_and_m_of_a_kind(cards, 3, 2, num_jokers)
}

/// Decides `two_triplet`.
pub fn is_two_triplet(cards: &[Card], num_jokers: u8) -> (res: bool)
    requires
        valid_hand(cards@),
    ensures
        res == two_triplet(cards@, num_jokers as nat),
{
    is_n_and_m_of_a_kind(cards, 3, 3, num_jokers)
}

/// Decides `full_mansion`.
pub fn is_full_mansion(cards: &[Card], num_jokers: u8) -> (res: bool)
    requires
        valid_hand(cards@),
    ensures
        res == full_mansion(cards@, num_jokers as nat),
{
    is_n_and_m_of_a_kind(cards, 4, 2, num_jokers)
}

} // verus!
