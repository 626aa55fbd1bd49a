//! The tally of a run: how often each category held, and whether the counts
//! already tell the categories apart.

use vstd::prelude::*;
use crate::card::{valid_hand, Card, MAX_CARDS};
use crate::flush::{flush, is_flush};
use crate::kinds::{
    full_house, full_mansion, is_full_house, is_full_mansion, is_n_of_a_kind, is_two_triplet,
    n_of_a_kind, two_triplet,
};
use crate::pairs::{is_three_pair, is_two_pair, three_pair, two_pair};
use crate::straight::{is_straight, straight};
use crate::suited::{
    flush_house, flush_n, is_flush_house, is_flush_n, is_straight_flush, straight_flush,
};
use crate::wide::{base, div_rem_18, mul_wide};

verus! {

/// A hand category with its sizes bound: what a tally counts.
#[derive(Clone, Copy, PartialEq, Eq, Debug, Structural)]
pub enum Category {
    NOfAKind(u8),
    TwoPair,
    ThreePair,
    FullHouse,
    TwoTriplet,
    FullMansion,
    Straight(usize),
    Flush(u8),
    StraightFlush(usize),
    FlushHouse,
    FlushN(u8),
}

impl Category {
    /// Whether the category holds of the hand.
    pub open spec fn holds(self, cards: Seq<Card>, jokers: nat) -> bool {
        match self {
            Category::NOfAKind(n) => n_of_a_kind(cards, n as nat, jokers),
            Category::TwoPair => two_pair(cards, jokers),
            Category::ThreePair => three_pair(cards, jokers),
            Category::FullHouse => full_house(cards, jokers),
            Category::TwoTriplet => two_triplet(cards, jokers),
            Category::FullMansion => full_mansion(cards, jokers),
            Category::Straight(size) => straight(cards, jokers, size as nat),
            Category::Flush(size) => flush(cards, jokers, size as nat),
            Category::StraightFlush(size) => straight_flush(cards, jokers, size as nat),
            Category::FlushHouse => flush_house(cards, jokers),
            Category::FlushN(n) => flush_n(cards, n as nat, jokers),
        }
    }

    /// Decides `holds`.
    pub fn evaluate(&self, cards: &[Card], num_jokers: u8) -> (res: bool)
        requires
            valid_hand(cards@),
        ensures
            res == self.holds(cards@, num_jokers as nat),
    {
        match *self {
            Category::NOfAKind(n) => is_n_of_a_kind(cards, n, num_jokers),
            Category::TwoPair => is_two_pair(cards, num_jokers),
            Category::ThreePair => is_three_pair(cards, num_jokers),
            Category::FullHouse => is_full_house(cards, num_jokers),
            Category::TwoTriplet => is_two_triplet(cards, num_jokers),
            Category::FullMansion => is_full_mansion(cards, num_jokers),
            Category::Straight(size) => is_straight(cards, num_jokers, size),
            Category::Flush(size) => is_flush(cards, num_jokers, size),
            Category::StraightFlush(size) => is_straight_flush(cards, num_jokers, size),
            Category::FlushHouse => is_flush_house(cards, num_jokers),
            Category::FlushN(n) => is_flush_n(cards, n, num_jokers),
        }
    }
}

/// `count * (total - count)`: the variance `p * (1 - p)` of a share
/// `p = count / total`, scaled by `total * total`.
pub open spec fn spread(total: int, count: int) -> int {
    count * (total - count)
}

/// Whether the confidence intervals of two counts out of `total` meet.
///
/// A count `c` stands for the share `p = c / total`, and its interval reaches
/// `3 * sqrt(p * (1 - p) / total)` to either side of `p`. The intervals of
/// `c1` and `c2` meet where the shares are no further apart than the two
/// reaches together. With `a = spread(total, c1)` and `b = spread(total, c2)`,
/// and both sides scaled by `total * sqrt(total)`, that is
/// `|c1 - c2| * sqrt(total) <= 3 * (sqrt(a) + sqrt(b))`. Squared, it reads
/// `excess <= 18 * sqrt(a * b)` for the `excess` below, which holds where the
/// excess is not positive or its square is at most `324 * a * b`.
pub open spec fn intervals_meet(total: int, c1: int, c2: int) -> bool {
    let a = spread(total, c1);
    let b = spread(total, c2);
    let excess = (c1 - c2) * (c1 - c2) * total - 9 * (a + b);
    excess <= 0 || excess * excess <= 324 * (a * b)
}

/// A category under its display name, with the number of hands of which it
/// held so far.
#[derive(Clone, Copy, Debug)]
pub struct HandCount {
    pub name: &'static str,
    pub count: u64,
    pub category: Category,
}

/// A share's spread is at most a quarter of the total's square.
proof fn lemma_spread_bound(total: int, count: int)
    requires
        0 <= count <= total,
    ensures
        0 <= 4 * spread(total, count) <= total * total,
{
    assert(0 <= count * (total - count)) by (nonlinear_arith)
        requires
            0 <= count <= total,
    ;
    assert(total * total - 4 * (count * (total - count)) == (total - 2 * count) * (total - 2
        * count)) by (nonlinear_arith);
    assert((total - 2 * count) * (total - 2 * count) >= 0) by (nonlinear_arith);
}

/// A square does not depend on the sign of what is squared.
proof fn lemma_square_symmetric(x: int, y: int)
    ensures
        (x - y) * (x - y) == (y - x) * (y - x),
{
    assert((x - y) * (x - y) == (y - x) * (y - x)) by (nonlinear_arith);
}

/// The square of `18 * q + r`, sorted by powers of 18.
proof fn lemma_square_in_eighteens(e: int, q: int, r: int)
    requires
        e == 18 * q + r,
    ensures
        e * e == 324 * (q * q) + 36 * (q * r) + r * r,
{
    assert(e * e == 324 * (q * q) + 36 * (q * r) + r * r) by (nonlinear_arith)
        requires
            e == 18 * q + r,
    ;
}

/// An excess of 9 * 2^128 or more is beyond any two spreads below 2^126.
proof fn lemma_excess_too_large(e: int, a: int, b: int)
    requires
        e >= 9 * base(),
        0 <= a < 0x4000_0000_0000_0000_0000_0000_0000_0000,
        0 <= b < 0x4000_0000_0000_0000_0000_0000_0000_0000,
    ensures
        e * e > 324 * (a * b),
{
    let s: int = 0x4000_0000_0000_0000_0000_0000_0000_0000;
    assert(a * b <= s * s) by (nonlinear_arith)
        requires
            0 <= a < s,
            0 <= b < s,
    ;
    assert(e * e >= (36 * s) * (36 * s)) by (nonlinear_arith)
        requires
            e >= 36 * s,
            s > 0,
    ;
    assert((36 * s) * (36 * s) == 1296 * (s * s)) by (nonlinear_arith);
    assert(s * s > 0) by (nonlinear_arith)
        requires
            s > 0,
    ;
}

/// Two counts meet in either order, and a count meets itself.
pub proof fn lemma_intervals_meet(total: int, c1: int, c2: int)
    requires
        0 <= c1 <= total,
    ensures
        intervals_meet(total, c1, c2) == intervals_meet(total, c2, c1),
        intervals_meet(total, c1, c1),
{
    lemma_square_symmetric(c1, c2);
    lemma_spread_bound(total, c1);
    let a = spread(total, c1);
    let b = spread(total, c2);
    assert(a * b == b * a) by (nonlinear_arith);
    assert((c1 - c1) * (c1 - c1) * total == 0) by (nonlinear_arith);
}

impl HandCount {
    /// A fresh count for a category.
    pub fn new(name: &'static str, category: Category) -> (res: Self)
        ensures
            res.name == name,
            res.count == 0,
            res.category == category,
    {
        Self { name, count: 0, category }
    }

    /// Whether the confidence intervals of the two counts meet, after
    /// `total` hands. A count of zero meets no interval, and neither does a
    /// count that is larger than the number of hands.
    pub open spec fn overlaps(self, total: u64, other: HandCount) -> bool {
        &&& 0 < self.count <= total
        &&& 0 < other.count <= total
        &&& intervals_meet(total as int, self.count as int, other.count as int)
    }

    /// Decides `overlaps` in exact integer arithmetic.
    pub fn overlap(&self, total_iters: u64, other: &HandCount) -> (res: bool)
        ensures
            res == self.overlaps(total_iters, *other),
    {
        if self.count == 0 || other.count == 0 {
            return false;
        }
        if self.count > total_iters || other.count > total_iters {
            return false;
        }
        let c1 = self.count;
        let c2 = other.count;
        let d: u128 = if c1 >= c2 {
            (c1 - c2) as u128
        } else {
            (c2 - c1) as u128
        };
        proof {
            lemma_spread_bound(total_iters as int, c1 as int);
            lemma_spread_bound(total_iters as int, c2 as int);
            lemma_square_symmetric(c1 as int, c2 as int);
            assert(d * d <= 0xffff_ffff_ffff_ffff * 0xffff_ffff_ffff_ffff) by (nonlinear_arith)
                requires
                    0 <= d <= 0xffff_ffff_ffff_ffff,
            ;
            assert(total_iters * total_iters <= 0xffff_ffff_ffff_ffff * 0xffff_ffff_ffff_ffff)
                by (nonlinear_arith)
                requires
                    0 <= total_iters <= 0xffff_ffff_ffff_ffff,
            ;
        }
        let a: u128 = c1 as u128 * (total_iters - c1) as u128;
        let b: u128 = c2 as u128 * (total_iters - c2) as u128;
        // The excess is `lhs - rhs`; the intervals meet where it is not positive.
        let lhs = mul_wide(d * d, total_iters as u128);
        let rhs = mul_wide(a + b, 9);
        let ghost excess = lhs.value() - rhs.value();
        assert(excess == (c1 - c2) * (c1 - c2) * total_iters - 9 * (spread(
            total_iters as int,
            c1 as int,
        ) + spread(total_iters as int, c2 as int)));
        if lhs.le(&rhs) {
            return true;
        }
        let e = lhs.sub(&rhs);
        // No `18 * sqrt(a * b)` reaches 9 * 2^128, as `a` and `b` are below 2^126.
        if e.hi >= 9 {
            proof {
                lemma_excess_too_large(excess, a as int, b as int);
            }
            return false;
        }
        // With the excess written as `18 * q + r`, its square is at most
        // `324 * a * b` where `36 * q * r + r * r <= 324 * (a * b - q * q)`.
        let (q, r) = div_rem_18(&e);
        let qq = mul_wide(q, q);
        let ab = mul_wide(a, b);
        let need = mul_wide(q, r);
        proof {
            lemma_square_in_eighteens(excess, q as int, r as int);
            assert(r * r <= 289) by (nonlinear_arith)
                requires
                    0 <= r <= 17,
            ;
            assert(q * r <= q * 17) by (nonlinear_arith)
                requires
                    0 <= r <= 17,
                    0 <= q,
            ;
        }
        if !qq.le(&ab) {
            return false;
        }
        let diff = ab.sub(&qq);
        // The left side is below 324 * 2^128, as `q` is below 2^127 and `r` below 18.
        if diff.hi > 0 {
            return true;
        }
        // Divided by 36 and rounded to whole numbers, what is left to test is
        // `q * r + ceil(r * r / 36) <= 9 * diff`.
        let have = mul_wide(diff.lo, 9);
        if !need.le(&have) {
            return false;
        }
        let rest = have.sub(&need);
        rest.hi > 0 || rest.lo >= (r * r + 35) / 36
    }
}

/// Why a configuration is refused.
#[derive(Clone, Copy, PartialEq, Eq, Debug, Structural)]
pub enum ConfigError {
    /// More cards per hand than a hand can hold.
    TooManyCards,
    /// A hand size for which there is no set of categories.
    UnsupportedHandSize,
}

/// What `check_config` answers: too many cards are refused first, then a
/// hand size other than 5 or 6.
pub open spec fn config_answer(cards: usize, hand_size: usize) -> Result<(), ConfigError> {
    if cards > MAX_CARDS {
        Err(ConfigError::TooManyCards)
    } else if hand_size != 5 && hand_size != 6 {
        Err(ConfigError::UnsupportedHandSize)
    } else {
        Ok(())
    }
}

/// Checks the number of cards drawn per hand and the hand size that selects
/// the categories.
pub fn check_config(cards: usize, hand_size: usize) -> (res: Result<(), ConfigError>)
    ensures
        res == config_answer(cards, hand_size),
{
    if cards > MAX_CARDS {
        Err(ConfigError::TooManyCards)
    } else if hand_size != 5 && hand_size != 6 {
        Err(ConfigError::UnsupportedHandSize)
    } else {
        Ok(())
    }
}

/// A fresh count, as `HandCount::new` makes it.
pub open spec fn fresh(name: &'static str, category: Category) -> HandCount {
    HandCount { name, count: 0, category }
}

/// The categories that every run counts.
pub open spec fn base_catalog() -> Seq<HandCount> {
    seq![
        fresh("Pair", Category::NOfAKind(2)),
        fresh("3oak", Category::NOfAKind(3)),
        fresh("4oak", Category::NOfAKind(4)),
        fresh("5oak", Category::NOfAKind(5)),
        fresh("2 pair", Category::TwoPair),
    ]
}

/// The categories that a hand size adds: those of five cards, those of six
/// cards, and none for any other size.
pub open spec fn extra_catalog(hand_size: usize) -> Seq<HandCount> {
    if hand_size == 5 {
        seq![
            fresh("Full House", Category::FullHouse),
            fresh("Flush House", Category::FlushHouse),
            fresh("Strt Flush", Category::StraightFlush(5)),
            fresh("Flush 5", Category::FlushN(5)),
        ]
    } else if hand_size == 6 {
        seq![
            fresh("3 pair", Category::ThreePair),
            fresh("6oak", Category::NOfAKind(6)),
            fresh("2 triplet", Category::TwoTriplet),
            fresh("Straight", Category::Straight(6)),
            fresh("Flush", Category::Flush(6)),
            fresh("Full Mansion", Category::FullMansion),
            fresh("Strt Flush", Category::StraightFlush(6)),
            fresh("Flush 6", Category::FlushN(6)),
        ]
    } else {
        Seq::empty()
    }
}

/// The categories of a run, all at count zero.
pub open spec fn catalog(hand_size: usize) -> Seq<HandCount> {
    base_catalog() + extra_catalog(hand_size)
}

/// Sets up the counts of a run for the given hand size.
pub fn hand_counts(hand_size: usize) -> (counts: Vec<HandCount>)
    ensures
        counts@ == catalog(hand_size),
{
    let mut counts: Vec<HandCount> = Vec::new();
    counts.push(HandCount::new("Pair", Category::NOfAKind(2)));
    counts.push(HandCount::new("3oak", Category::NOfAKind(3)));
    counts.push(HandCount::new("4oak", Category::NOfAKind(4)));
    counts.push(HandCount::new("5oak", Category::NOfAKind(5)));
    counts.push(HandCount::new("2 pair", Category::TwoPair));
    assert(counts@ =~= base_catalog());
    if hand_size == 5 {
        counts.push(HandCount::new("Full House", Category::FullHouse));
        counts.push(HandCount::new("Flush House", Category::FlushHouse));
        counts.push(HandCount::new("Strt Flush", Category::StraightFlush(5)));
        counts.push(HandCount::new("Flush 5", Category::FlushN(5)));
    } else if hand_size == 6 {
        counts.push(HandCount::new("3 pair", Category::ThreePair));
        counts.push(HandCount::new("6oak", Category::NOfAKind(6)));
        counts.push(HandCount::new("2 triplet", Category::TwoTriplet));
        counts.push(HandCount::new("Straight", Category::Straight(6)));
        counts.push(HandCount::new("Flush", Category::Flush(6)));
        counts.push(HandCount::new("Full Mansion", Category::FullMansion));
        counts.push(HandCount::new("Strt Flush", Category::StraightFlush(6)));
        counts.push(HandCount::new("Flush 6", Category::FlushN(6)));
    }
    assert(counts@ =~= catalog(hand_size));
    counts
}

/// A count after one more hand: one higher where the category held of the
/// hand, and never past `u64::MAX`.
pub open spec fn tallied(before: HandCount, cards: Seq<Card>, jokers: nat) -> HandCount {
    HandCount {
        name: before.name,
        count: if before.category.holds(cards, jokers) && before.count < u64::MAX {
            (before.count + 1) as u64
        } else {
            before.count
        },
        category: before.category,
    }
}

/// The counts after one more hand: each entry tallied by itself.
pub open spec fn tally(counts: Seq<HandCount>, cards: Seq<Card>, jokers: nat) -> Seq<HandCount> {
    Seq::new(counts.len(), |i: int| tallied(counts[i], cards, jokers))
}

/// Counts one hand: each category that holds of it gains one.
pub fn tally_hand(counts: &mut Vec<HandCount>, cards: &[Card], num_jokers: u8)
    requires
        valid_hand(cards@),
    ensures
        final(counts)@ == tally(old(counts)@, cards@, num_jokers as nat),
{
    let mut i: usize = 0;
    while i < counts.len()
        invariant
            i <= counts@.len(),
            counts@.len() == old(counts)@.len(),
            valid_hand(cards@),
            forall|k: int|
                0 <= k < i ==> #[trigger] counts@[k] == tallied(
                    old(counts)@[k],
                    cards@,
                    num_jokers as nat,
                ),
            forall|k: int| i <= k < counts@.len() ==> #[trigger] counts@[k] == old(counts)@[k],
        decreases counts@.len() - i,
    {
        if counts[i].category.evaluate(cards, num_jokers) && counts[i].count < u64::MAX {
            counts[i].count = counts[i].count + 1;
        }
        i = i + 1;
    }
    assert(counts@ =~= tally(old(counts)@, cards@, num_jokers as nat));
}

/// Some two counts have confidence intervals that meet.
pub open spec fn some_overlap(counts: Seq<HandCount>, total: u64) -> bool {
    exists|i: int, j: int|
        0 <= i < j < counts.len() && #[trigger] counts[i].overlaps(total, #[trigger] counts[j])
}

/// Decides `some_overlap`: whether the run has to go on.
pub fn any_overlap(counts: &[HandCount], num_iters: u64) -> (res: bool)
    ensures
        res == some_overlap(counts@, num_iters),
{
    let mut i: usize = 0;
    while i < counts.len()
        invariant
            i <= counts@.len(),
            forall|a: int, b: int|
                0 <= a < i && a < b < counts@.len() ==> !(#[trigger] counts@[a]).overlaps(
                    num_iters,
                    #[trigger] counts@[b],
                ),
        decreases counts@.len() - i,
    {
        let mut j: usize = i + 1;
        while j < counts.len()
            invariant
                i < j <= counts@.len(),
                forall|a: int, b: int|
                    0 <= a < i && a < b < counts@.len() ==> !(#[trigger] counts@[a]).overlaps(
                        num_iters,
                        #[trigger] counts@[b],
                    ),
                forall|b: int|
                    i < b < j ==> !counts@[i as int].overlaps(num_iters, #[trigger] counts@[b]),
            decreases counts@.len() - j,
        {
            if counts[i].overlap(num_iters, &counts[j]) {
                return true;
            }
            j = j + 1;
        }
        i = i + 1;
    }
    false
}

} // verus!
