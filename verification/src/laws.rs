//! Laws that hold of the hand categories whatever the hand.

use vstd::prelude::*;
use vstd::seq_lib::{to_multiset_build, to_multiset_len};
use crate::card::{
    card_in_range, lemma_rank_count_push, rank_count, suit_count, valid_hand, Card, ACE,
    NUM_RANKS, NUM_SUITS,
};
use crate::flush::flush;
use crate::kinds::{full_house, missing, n_and_m_of_a_kind, n_of_a_kind};
use crate::pairs::{n_pairs, odd_ranks_below, pairs_below};
use crate::straight::{
    cells_set, lemma_cells_push, lemma_cells_set_front, straight, window_cells, window_start,
};
use crate::suited::{flush_house, flush_n, straight_flush, suited};
use crate::tally::{catalog, Category};

verus! {

/// A value occurs among the cards that pass a filter as often as it occurs
/// among all the cards, where it passes the filter itself, and not at all
/// where it does not.
proof fn lemma_filter_count(cards: Seq<Card>, pred: spec_fn(Card) -> bool, v: Card)
    ensures
        cards.filter(pred).to_multiset().count(v) == if pred(v) {
            cards.to_multiset().count(v)
        } else {
            0
        },
    decreases cards.len(),
{
    broadcast use vstd::multiset::group_multiset_axioms;

    if cards.len() == 0 {
        reveal(Seq::filter);
        to_multiset_len(cards);
        to_multiset_len(cards.filter(pred));
    } else {
        let rest = cards.drop_last();
        let x = cards.last();
        assert(cards =~= rest.push(x));
        lemma_filter_count(rest, pred, v);
        rest.lemma_filter_push(x, pred);
        to_multiset_build(rest, x);
        to_multiset_build(rest.filter(pred), x);
    }
}

/// Filtering two orderings of the same cards gives two orderings of the same
/// cards.
pub proof fn lemma_filter_reordered(a: Seq<Card>, b: Seq<Card>, pred: spec_fn(Card) -> bool)
    requires
        a.to_multiset() == b.to_multiset(),
    ensures
        a.filter(pred).to_multiset() == b.filter(pred).to_multiset(),
        a.filter(pred).len() == b.filter(pred).len(),
{
    assert forall|v: Card|
        a.filter(pred).to_multiset().count(v) == b.filter(pred).to_multiset().count(v) by {
        lemma_filter_count(a, pred, v);
        lemma_filter_count(b, pred, v);
    }
    assert(a.filter(pred).to_multiset() =~= b.filter(pred).to_multiset());
    to_multiset_len(a.filter(pred));
    to_multiset_len(b.filter(pred));
}

/// Two orderings of the same cards have the same rank and suit histograms.
pub proof fn lemma_counts_reordered(a: Seq<Card>, b: Seq<Card>)
    requires
        a.to_multiset() == b.to_multiset(),
    ensures
        forall|r: int|
            #![trigger rank_count(a, r)]
            #![trigger rank_count(b, r)]
            rank_count(a, r) == rank_count(b, r),
        forall|s: int|
            #![trigger suit_count(a, s)]
            #![trigger suit_count(b, s)]
            suit_count(a, s) == suit_count(b, s),
        forall|s: int|
            #![trigger suited(a, s)]
            #![trigger suited(b, s)]
            suited(a, s).to_multiset() == suited(b, s).to_multiset(),
{
    assert forall|r: int| rank_count(a, r) == rank_count(b, r) by {
        lemma_filter_reordered(a, b, |c: Card| c.rank == r);
    }
    assert forall|s: int| suit_count(a, s) == suit_count(b, s) by {
        lemma_filter_reordered(a, b, |c: Card| c.suit == s);
    }
    assert forall|s: int|
        #![trigger suited(a, s)]
        #![trigger suited(b, s)]
        suited(a, s).to_multiset() == suited(b, s).to_multiset() by {
        lemma_filter_reordered(a, b, |c: Card| c.suit == s);
    }
}

/// Hands with the same rank histogram form the same pairs.
proof fn lemma_pairs_by_counts(a: Seq<Card>, b: Seq<Card>, k: int)
    requires
        forall|r: int| rank_count(a, r) == rank_count(b, r),
    ensures
        pairs_below(a, k) == pairs_below(b, k),
        odd_ranks_below(a, k) == odd_ranks_below(b, k),
    decreases k,
{
    if k > 0 {
        lemma_pairs_by_counts(a, b, k - 1);
    }
}

/// Hands with the same rank histogram set the same cells.
proof fn lemma_cells_by_counts(a: Seq<Card>, b: Seq<Card>, lo: int, hi: int)
    requires
        forall|r: int| rank_count(a, r) == rank_count(b, r),
    ensures
        cells_set(a, lo, hi) == cells_set(b, lo, hi),
    decreases hi - lo,
{
    if lo < hi {
        lemma_cells_by_counts(a, b, lo, hi - 1);
    }
}

/// What the categories that look at ranks alone say of a hand depends on its
/// rank histogram only.
proof fn lemma_rank_categories_by_counts(a: Seq<Card>, b: Seq<Card>)
    requires
        forall|r: int| rank_count(a, r) == rank_count(b, r),
    ensures
        forall|n: nat, j: nat| #[trigger] n_of_a_kind(a, n, j) == n_of_a_kind(b, n, j),
        forall|n: nat, j: nat| #[trigger] n_pairs(a, n, j) == n_pairs(b, n, j),
        forall|n: nat, m: nat, j: nat| #[trigger]
            n_and_m_of_a_kind(a, n, m, j) == n_and_m_of_a_kind(b, n, m, j),
        forall|j: nat, size: nat| #[trigger] straight(a, j, size) == straight(b, j, size),
{
    assert forall|n: nat, j: nat| #[trigger] n_of_a_kind(a, n, j) == n_of_a_kind(b, n, j) by {
        if n_of_a_kind(a, n, j) {
            lemma_n_of_a_kind_by_counts(a, b, n, j);
        }
        if n_of_a_kind(b, n, j) {
            lemma_n_of_a_kind_by_counts(b, a, n, j);
        }
    }
    assert forall|n: nat, j: nat| #[trigger] n_pairs(a, n, j) == n_pairs(b, n, j) by {
        lemma_pairs_by_counts(a, b, NUM_RANKS as int);
    }
    assert forall|n: nat, m: nat, j: nat| #[trigger]
        n_and_m_of_a_kind(a, n, m, j) == n_and_m_of_a_kind(b, n, m, j) by {
        if n_and_m_of_a_kind(a, n, m, j) {
            lemma_n_and_m_by_counts(a, b, n, m, j);
        }
        if n_and_m_of_a_kind(b, n, m, j) {
            lemma_n_and_m_by_counts(b, a, n, m, j);
        }
    }
    assert forall|j: nat, size: nat| #[trigger] straight(a, j, size) == straight(b, j, size) by {
        if straight(a, j, size) {
            lemma_straight_by_counts(a, b, j, size);
        }
        if straight(b, j, size) {
            lemma_straight_by_counts(b, a, j, size);
        }
    }
}

proof fn lemma_n_of_a_kind_by_counts(a: Seq<Card>, b: Seq<Card>, n: nat, j: nat)
    requires
        forall|r: int| rank_count(a, r) == rank_count(b, r),
        n_of_a_kind(a, n, j),
    ensures
        n_of_a_kind(b, n, j),
{
    let r = choose|r: int| 0 <= r < NUM_RANKS && #[trigger] rank_count(a, r) + j >= n;
    assert(rank_count(b, r) + j >= n);
}

proof fn lemma_n_and_m_by_counts(a: Seq<Card>, b: Seq<Card>, n: nat, m: nat, j: nat)
    requires
        forall|r: int| rank_count(a, r) == rank_count(b, r),
        n_and_m_of_a_kind(a, n, m, j),
    ensures
        n_and_m_of_a_kind(b, n, m, j),
{
    if exists|r: int| 0 <= r < NUM_RANKS && #[trigger] rank_count(a, r) + j >= n + m {
        let r = choose|r: int| 0 <= r < NUM_RANKS && #[trigger] rank_count(a, r) + j >= n + m;
        assert(rank_count(b, r) + j >= n + m);
    } else {
        let (r1, r2) = choose|r1: int, r2: int|
            0 <= r1 < NUM_RANKS && 0 <= r2 < NUM_RANKS && r1 != r2 && missing(
                #[trigger] rank_count(a, r1),
                n,
            ) + missing(#[trigger] rank_count(a, r2), m) <= j;
        assert(missing(rank_count(b, r1), n) + missing(
            rank_count(b, r2),
            m,
        ) <= j);
    }
}

proof fn lemma_straight_by_counts(a: Seq<Card>, b: Seq<Card>, j: nat, size: nat)
    requires
        forall|r: int| rank_count(a, r) == rank_count(b, r),
        straight(a, j, size),
    ensures
        straight(b, j, size),
{
    let start = choose|start: int|
        window_start(start, size) && #[trigger] window_cells(a, start, size) + j >= size;
    lemma_cells_by_counts(a, b, start, start + size);
    assert(window_cells(b, start, size) + j >= size);
}

/// The cards of one suit fall under the same rank categories in either of
/// two orderings of a hand.
proof fn lemma_suit_reordered(a: Seq<Card>, b: Seq<Card>, s: int)
    requires
        a.to_multiset() == b.to_multiset(),
    ensures
        forall|n: nat, j: nat| #[trigger]
            n_of_a_kind(suited(a, s), n, j) == n_of_a_kind(suited(b, s), n, j),
        forall|n: nat, m: nat, j: nat| #[trigger]
            n_and_m_of_a_kind(suited(a, s), n, m, j) == n_and_m_of_a_kind(suited(b, s), n, m, j),
        forall|j: nat, size: nat| #[trigger]
            straight(suited(a, s), j, size) == straight(suited(b, s), j, size),
{
    lemma_counts_reordered(a, b);
    lemma_counts_reordered(suited(a, s), suited(b, s));
    lemma_rank_categories_by_counts(suited(a, s), suited(b, s));
}

/// Symmetry: no category depends on the order of the cards. Two sequences
/// that hold the same cards equally often fall under the same categories,
/// for every choice of sizes and every number of jokers.
pub proof fn lemma_symmetry(a: Seq<Card>, b: Seq<Card>)
    requires
        a.to_multiset() == b.to_multiset(),
    ensures
        forall|n: nat, j: nat| #[trigger] n_of_a_kind(a, n, j) == n_of_a_kind(b, n, j),
        forall|n: nat, j: nat| #[trigger] n_pairs(a, n, j) == n_pairs(b, n, j),
        forall|n: nat, m: nat, j: nat| #[trigger]
            n_and_m_of_a_kind(a, n, m, j) == n_and_m_of_a_kind(b, n, m, j),
        forall|j: nat, size: nat| #[trigger] flush(a, j, size) == flush(b, j, size),
        forall|j: nat, size: nat| #[trigger] straight(a, j, size) == straight(b, j, size),
        forall|j: nat, size: nat| #[trigger]
            straight_flush(a, j, size) == straight_flush(b, j, size),
        forall|j: nat| #[trigger] flush_house(a, j) == flush_house(b, j),
        forall|n: nat, j: nat| #[trigger] flush_n(a, n, j) == flush_n(b, n, j),
{
    lemma_counts_reordered(a, b);
    lemma_rank_categories_by_counts(a, b);
    assert forall|j: nat, size: nat| #[trigger] flush(a, j, size) == flush(b, j, size) by {
        if flush(a, j, size) {
            let s = choose|s: int| 0 <= s < NUM_SUITS && #[trigger] suit_count(a, s) + j >= size;
            assert(suit_count(b, s) + j >= size);
        }
        if flush(b, j, size) {
            let s = choose|s: int| 0 <= s < NUM_SUITS && #[trigger] suit_count(b, s) + j >= size;
            assert(suit_count(a, s) + j >= size);
        }
    }
    assert forall|j: nat, size: nat| #[trigger]
        straight_flush(a, j, size) == straight_flush(b, j, size) by {
        if straight_flush(a, j, size) {
            let s = choose|s: int|
                0 <= s < NUM_SUITS && straight(#[trigger] suited(a, s), j, size);
            lemma_suit_reordered(a, b, s);
            assert(straight(suited(b, s), j, size));
        }
        if straight_flush(b, j, size) {
            let s = choose|s: int|
                0 <= s < NUM_SUITS && straight(#[trigger] suited(b, s), j, size);
            lemma_suit_reordered(a, b, s);
            assert(straight(suited(a, s), j, size));
        }
    }
    assert forall|j: nat| #[trigger] flush_house(a, j) == flush_house(b, j) by {
        if flush_house(a, j) {
            let s = choose|s: int| 0 <= s < NUM_SUITS && full_house(#[trigger] suited(a, s), j);
            lemma_suit_reordered(a, b, s);
            assert(n_and_m_of_a_kind(suited(a, s), 3, 2, j));
            assert(full_house(suited(b, s), j));
        }
        if flush_house(b, j) {
            let s = choose|s: int| 0 <= s < NUM_SUITS && full_house(#[trigger] suited(b, s), j);
            lemma_suit_reordered(a, b, s);
            assert(n_and_m_of_a_kind(suited(b, s), 3, 2, j));
            assert(full_house(suited(a, s), j));
        }
    }
    assert forall|n: nat, j: nat| #[trigger] flush_n(a, n, j) == flush_n(b, n, j) by {
        if flush_n(a, n, j) {
            let s = choose|s: int|
                0 <= s < NUM_SUITS && n_of_a_kind(#[trigger] suited(a, s), n, j);
            lemma_suit_reordered(a, b, s);
            assert(n_of_a_kind(suited(b, s), n, j));
        }
        if flush_n(b, n, j) {
            let s = choose|s: int|
                0 <= s < NUM_SUITS && n_of_a_kind(#[trigger] suited(b, s), n, j);
            lemma_suit_reordered(a, b, s);
            assert(n_of_a_kind(suited(a, s), n, j));
        }
    }
}

/// Symmetry of the categories that a tally counts.
pub proof fn lemma_category_symmetry(a: Seq<Card>, b: Seq<Card>, category: Category, jokers: nat)
    requires
        a.to_multiset() == b.to_multiset(),
    ensures
        category.holds(a, jokers) == category.holds(b, jokers),
{
    lemma_symmetry(a, b);
}

/// Monotonicity in jokers of the categories that a tally counts.
pub proof fn lemma_category_more_jokers(cards: Seq<Card>, category: Category, jokers: nat)
    requires
        category.holds(cards, jokers),
    ensures
        category.holds(cards, jokers + 1),
{
    lemma_more_jokers(cards, jokers);
}

/// Monotonicity in jokers: a category that holds of a hand still holds
/// with one more joker.
pub proof fn lemma_more_jokers(cards: Seq<Card>, jokers: nat)
    ensures
        forall|n: nat|
            #[trigger] n_of_a_kind(cards, n, jokers) ==> n_of_a_kind(cards, n, jokers + 1),
        forall|n: nat| #[trigger] n_pairs(cards, n, jokers) ==> n_pairs(cards, n, jokers + 1),
        forall|n: nat, m: nat| #[trigger]
            n_and_m_of_a_kind(cards, n, m, jokers) ==> n_and_m_of_a_kind(cards, n, m, jokers + 1),
        forall|size: nat| #[trigger] flush(cards, jokers, size) ==> flush(cards, jokers + 1, size),
        forall|size: nat| #[trigger]
            straight(cards, jokers, size) ==> straight(cards, jokers + 1, size),
        forall|size: nat| #[trigger]
            straight_flush(cards, jokers, size) ==> straight_flush(cards, jokers + 1, size),
        flush_house(cards, jokers) ==> flush_house(cards, jokers + 1),
        forall|n: nat| #[trigger] flush_n(cards, n, jokers) ==> flush_n(cards, n, jokers + 1),
{
    assert forall|n: nat| #[trigger] n_of_a_kind(cards, n, jokers) implies n_of_a_kind(
        cards,
        n,
        jokers + 1,
    ) by {
        lemma_jokers_to_spare(cards, jokers, jokers + 1);
    }
    assert forall|n: nat, m: nat| #[trigger]
        n_and_m_of_a_kind(cards, n, m, jokers) implies n_and_m_of_a_kind(
        cards,
        n,
        m,
        jokers + 1,
    ) by {
        lemma_jokers_to_spare(cards, jokers, jokers + 1);
    }
    assert forall|size: nat| #[trigger] flush(cards, jokers, size) implies flush(
        cards,
        jokers + 1,
        size,
    ) by {
        let s = choose|s: int|
            0 <= s < NUM_SUITS && #[trigger] suit_count(cards, s) + jokers >= size;
        assert(suit_count(cards, s) + (jokers + 1) >= size);
    }
    assert forall|size: nat| #[trigger] straight(cards, jokers, size) implies straight(
        cards,
        jokers + 1,
        size,
    ) by {
        lemma_jokers_to_spare(cards, jokers, jokers + 1);
    }
    assert forall|size: nat| #[trigger] straight_flush(cards, jokers, size) implies straight_flush(
        cards,
        jokers + 1,
        size,
    ) by {
        let s = choose|s: int|
            0 <= s < NUM_SUITS && straight(#[trigger] suited(cards, s), jokers, size);
        lemma_jokers_to_spare(suited(cards, s), jokers, jokers + 1);
    }
    if flush_house(cards, jokers) {
        let s = choose|s: int|
            0 <= s < NUM_SUITS && full_house(#[trigger] suited(cards, s), jokers);
        lemma_jokers_to_spare(suited(cards, s), jokers, jokers + 1);
        assert(full_house(suited(cards, s), jokers + 1));
    }
    assert forall|n: nat| #[trigger] flush_n(cards, n, jokers) implies flush_n(
        cards,
        n,
        jokers + 1,
    ) by {
        let s = choose|s: int|
            0 <= s < NUM_SUITS && n_of_a_kind(#[trigger] suited(cards, s), n, jokers);
        lemma_jokers_to_spare(suited(cards, s), jokers, jokers + 1);
    }
}

/// Jokers to spare keep what the rank categories say of a hand.
pub proof fn lemma_jokers_to_spare(cards: Seq<Card>, fewer: nat, more: nat)
    requires
        fewer <= more,
    ensures
        forall|n: nat| #[trigger] n_of_a_kind(cards, n, fewer) ==> n_of_a_kind(cards, n, more),
        forall|n: nat, m: nat| #[trigger]
            n_and_m_of_a_kind(cards, n, m, fewer) ==> n_and_m_of_a_kind(cards, n, m, more),
        forall|size: nat| #[trigger] straight(cards, fewer, size) ==> straight(cards, more, size),
{
    assert forall|n: nat| #[trigger] n_of_a_kind(cards, n, fewer) implies n_of_a_kind(
        cards,
        n,
        more,
    ) by {
        let r = choose|r: int| 0 <= r < NUM_RANKS && #[trigger] rank_count(cards, r) + fewer >= n;
        assert(rank_count(cards, r) + more >= n);
    }
    assert forall|n: nat, m: nat| #[trigger]
        n_and_m_of_a_kind(cards, n, m, fewer) implies n_and_m_of_a_kind(cards, n, m, more) by {
        if exists|r: int| 0 <= r < NUM_RANKS && #[trigger] rank_count(cards, r) + fewer >= n + m {
            let r = choose|r: int|
                0 <= r < NUM_RANKS && #[trigger] rank_count(cards, r) + fewer >= n + m;
            assert(rank_count(cards, r) + more >= n + m);
        } else {
            let (r1, r2) = choose|r1: int, r2: int|
                0 <= r1 < NUM_RANKS && 0 <= r2 < NUM_RANKS && r1 != r2 && missing(
                    #[trigger] rank_count(cards, r1),
                    n,
                ) + missing(#[trigger] rank_count(cards, r2), m) <= fewer;
            assert(missing(rank_count(cards, r1), n) + missing(rank_count(cards, r2), m) <= more);
        }
    }
    assert forall|size: nat| #[trigger] straight(cards, fewer, size) implies straight(
        cards,
        more,
        size,
    ) by {
        let start = choose|start: int|
            window_start(start, size) && #[trigger] window_cells(cards, start, size) + fewer
                >= size;
        assert(window_cells(cards, start, size) + more >= size);
    }
}

/// Monotonicity in cards: a hand that holds `n` of a kind still does after
/// one more card has joined it, wherever the card is put.
pub proof fn lemma_more_cards(cards: Seq<Card>, i: int, c: Card, n: nat, jokers: nat)
    requires
        0 <= i <= cards.len(),
        n_of_a_kind(cards, n, jokers),
    ensures
        n_of_a_kind(cards.insert(i, c), n, jokers),
{
    let r = choose|r: int| 0 <= r < NUM_RANKS && #[trigger] rank_count(cards, r) + jokers >= n;
    vstd::seq_lib::to_multiset_insert(cards, i, c);
    to_multiset_build(cards, c);
    lemma_counts_reordered(cards.insert(i, c), cards.push(c));
    lemma_rank_count_push(cards, c, r);
    assert(rank_count(cards.insert(i, c), r) + jokers >= n);
}

/// The empty hand holds no card of any rank or suit.
proof fn lemma_empty_hand()
    ensures
        forall|r: int| #[trigger] rank_count(Seq::empty(), r) == 0,
        forall|s: int| #[trigger] suit_count(Seq::empty(), s) == 0,
        forall|s: int| #[trigger] suited(Seq::empty(), s) == Seq::<Card>::empty(),
{
    reveal(Seq::filter);
}

/// The empty hand forms no pair and has no lone card.
proof fn lemma_empty_pairs(k: int)
    ensures
        pairs_below(Seq::empty(), k) == 0,
        odd_ranks_below(Seq::empty(), k) == 0,
    decreases k,
{
    lemma_empty_hand();
    if k > 0 {
        lemma_empty_pairs(k - 1);
    }
}

/// The empty hand sets no cell.
proof fn lemma_empty_cells(lo: int, hi: int)
    ensures
        cells_set(Seq::empty(), lo, hi) == 0,
    decreases hi - lo,
{
    lemma_empty_hand();
    if lo < hi {
        lemma_empty_cells(lo, hi - 1);
    }
}

/// Joker saturation: of the empty hand a category holds exactly where the
/// jokers alone are as many cards as the category asks for.
pub proof fn lemma_jokers_alone(jokers: nat)
    ensures
        forall|n: nat| #[trigger] n_of_a_kind(Seq::empty(), n, jokers) == (jokers >= n),
        forall|n: nat| #[trigger] n_pairs(Seq::empty(), n, jokers) == (jokers >= 2 * n),
        forall|n: nat, m: nat| #[trigger]
            n_and_m_of_a_kind(Seq::empty(), n, m, jokers) == (jokers >= n + m),
        forall|size: nat| #[trigger] flush(Seq::empty(), jokers, size) == (jokers >= size),
        forall|size: nat| #[trigger] straight(Seq::empty(), jokers, size) == (jokers >= size),
        forall|size: nat| #[trigger]
            straight_flush(Seq::empty(), jokers, size) == (jokers >= size),
        flush_house(Seq::empty(), jokers) == (jokers >= 5),
        forall|n: nat| #[trigger] flush_n(Seq::empty(), n, jokers) == (jokers >= n),
{
    let e = Seq::<Card>::empty();
    lemma_empty_hand();
    lemma_empty_pairs(NUM_RANKS as int);
    assert forall|n: nat| #[trigger] n_of_a_kind(e, n, jokers) == (jokers >= n) by {
        if jokers >= n {
            assert(rank_count(e, 0) + jokers >= n);
        }
    }
    assert forall|n: nat, m: nat| #[trigger]
        n_and_m_of_a_kind(e, n, m, jokers) == (jokers >= n + m) by {
        if jokers >= n + m {
            assert(rank_count(e, 0) + jokers >= n + m);
        }
    }
    assert forall|size: nat| #[trigger] flush(e, jokers, size) == (jokers >= size) by {
        if jokers >= size {
            assert(suit_count(e, 0) + jokers >= size);
        }
    }
    assert forall|size: nat| #[trigger] straight(e, jokers, size) == (jokers >= size) by {
        if jokers >= size {
            lemma_empty_cells(0, size as int);
            assert(window_start(0, size));
            assert(window_cells(e, 0, size) + jokers >= size);
        }
        if straight(e, jokers, size) {
            let start = choose|start: int|
                window_start(start, size) && #[trigger] window_cells(e, start, size) + jokers
                    >= size;
            lemma_empty_cells(start, start + size);
        }
    }
    assert forall|size: nat| #[trigger] straight_flush(e, jokers, size) == (jokers >= size) by {
        assert(suited(e, 0) == e);
        if straight_flush(e, jokers, size) {
            let s = choose|s: int|
                0 <= s < NUM_SUITS && straight(#[trigger] suited(e, s), jokers, size);
            assert(suited(e, s) == e);
        }
    }
    assert(flush_house(e, jokers) == (jokers >= 5)) by {
        assert(suited(e, 0) == e);
        assert(full_house(e, jokers) == n_and_m_of_a_kind(e, 3, 2, jokers));
        if flush_house(e, jokers) {
            let s = choose|s: int|
                0 <= s < NUM_SUITS && full_house(#[trigger] suited(e, s), jokers);
            assert(suited(e, s) == e);
        }
    }
    assert forall|n: nat| #[trigger] flush_n(e, n, jokers) == (jokers >= n) by {
        assert(suited(e, 0) == e);
        if flush_n(e, n, jokers) {
            let s = choose|s: int|
                0 <= s < NUM_SUITS && n_of_a_kind(#[trigger] suited(e, s), n, jokers);
            assert(suited(e, s) == e);
        }
    }
}

/// Empty hand and zero: without cards and without jokers, zero of a kind
/// holds, and no category of any catalog does.
pub proof fn lemma_nothing_in_hand(hand_size: usize, i: int)
    requires
        0 <= i < catalog(hand_size).len(),
    ensures
        n_of_a_kind(Seq::empty(), 0, 0),
        !catalog(hand_size)[i].category.holds(Seq::empty(), 0),
{
    lemma_jokers_alone(0);
    let e = Seq::<Card>::empty();
    assert(n_of_a_kind(e, 0, 0) == (0 >= 0nat));
    let c = catalog(hand_size)[i].category;
    assert(n_of_a_kind(e, 2, 0) == (0 >= 2nat));
    assert(n_of_a_kind(e, 3, 0) == (0 >= 3nat));
    assert(n_of_a_kind(e, 4, 0) == (0 >= 4nat));
    assert(n_of_a_kind(e, 5, 0) == (0 >= 5nat));
    assert(n_of_a_kind(e, 6, 0) == (0 >= 6nat));
    assert(n_pairs(e, 2, 0) == (0 >= 2 * 2nat));
    assert(n_pairs(e, 3, 0) == (0 >= 2 * 3nat));
    assert(n_and_m_of_a_kind(e, 3, 2, 0) == (0 >= 3 + 2nat));
    assert(n_and_m_of_a_kind(e, 3, 3, 0) == (0 >= 3 + 3nat));
    assert(n_and_m_of_a_kind(e, 4, 2, 0) == (0 >= 4 + 2nat));
    assert(straight(e, 0, 6) == (0 >= 6nat));
    assert(flush(e, 0, 6) == (0 >= 6nat));
    assert(straight_flush(e, 0, 5) == (0 >= 5nat));
    assert(straight_flush(e, 0, 6) == (0 >= 6nat));
    assert(flush_n(e, 5, 0) == (0 >= 5nat));
    assert(flush_n(e, 6, 0) == (0 >= 6nat));
}

/// Ace-low straight: a hand that holds an ace, a two, a three, a four and a
/// five is a straight of five, whatever else it holds.
pub proof fn lemma_ace_low_straight(cards: Seq<Card>, jokers: nat)
    requires
        rank_count(cards, ACE as int) > 0,
        forall|r: int| 0 <= r < 4 ==> #[trigger] rank_count(cards, r) > 0,
    ensures
        straight(cards, jokers, 5),
{
    assert(rank_count(cards, 0) > 0 && rank_count(cards, 1) > 0 && rank_count(cards, 2) > 0
        && rank_count(cards, 3) > 0);
    reveal_with_fuel(cells_set, 6);
    assert(window_start(0, 5));
    assert(window_cells(cards, 0, 5) == 5);
}

/// No wraparound beyond ace-low: a hand of kings, aces, twos, threes and
/// fours only is no straight of five without jokers, as the king does not
/// stand next to the low ace.
pub proof fn lemma_no_wraparound(cards: Seq<Card>)
    requires
        forall|r: int| 3 <= r <= 10 ==> #[trigger] rank_count(cards, r) == 0,
    ensures
        !straight(cards, 0, 5),
{
    assert forall|start: int| window_start(start, 5) implies #[trigger] window_cells(
        cards,
        start,
        5,
    ) < 5 by {
        reveal_with_fuel(cells_set, 6);
        assert(rank_count(cards, 3) == 0);
        assert(rank_count(cards, 4) == 0);
        assert(rank_count(cards, 5) == 0);
        assert(rank_count(cards, 6) == 0);
        assert(rank_count(cards, 7) == 0);
        assert(rank_count(cards, 8) == 0);
        assert(rank_count(cards, 9) == 0);
        assert(rank_count(cards, 10) == 0);
    }
}

/// A hand holds a rank exactly where one of its cards has that rank.
pub proof fn lemma_rank_present(cards: Seq<Card>, rank: int)
    ensures
        rank_count(cards, rank) > 0 <==> exists|i: int|
            0 <= i < cards.len() && (#[trigger] cards[i]).rank == rank,
{
    let pred = |c: Card| c.rank == rank;
    if rank_count(cards, rank) > 0 {
        let c = cards.filter(pred)[0];
        cards.lemma_filter_pred(pred, 0);
        assert(cards.filter(pred).contains(c));
        cards.lemma_filter_contains_rev(pred, c);
        let i = choose|i: int| 0 <= i < cards.len() && cards[i] == c;
        assert(cards[i].rank == rank);
    }
    if exists|i: int| 0 <= i < cards.len() && (#[trigger] cards[i]).rank == rank {
        let i = choose|i: int| 0 <= i < cards.len() && (#[trigger] cards[i]).rank == rank;
        cards.lemma_filter_contains(pred, i);
    }
}

/// A suit's cards set no cell that the whole hand does not set.
proof fn lemma_suited_cells(cards: Seq<Card>, suit: int, lo: int, hi: int)
    ensures
        cells_set(suited(cards, suit), lo, hi) <= cells_set(cards, lo, hi),
    decreases hi - lo,
{
    if lo < hi {
        lemma_suited_cells(cards, suit, lo, hi - 1);
        let rank = if hi - 1 == 0 {
            ACE as int
        } else {
            hi - 2
        };
        let sub = suited(cards, suit);
        lemma_rank_present(sub, rank);
        lemma_rank_present(cards, rank);
        if rank_count(sub, rank) > 0 {
            let i = choose|i: int| 0 <= i < sub.len() && (#[trigger] sub[i]).rank == rank;
            let c = sub[i];
            assert(sub.contains(c));
            cards.lemma_filter_contains_rev(|c: Card| c.suit == suit, c);
            let k = choose|k: int| 0 <= k < cards.len() && cards[k] == c;
            assert(cards[k].rank == rank);
        }
    }
}

/// A window that does not hold both cells of the ace holds at most as many
/// set cells as the hand has cards.
proof fn lemma_cells_at_most_cards(cards: Seq<Card>, lo: int, hi: int)
    requires
        1 <= lo || hi <= NUM_RANKS,
    ensures
        cells_set(cards, lo, hi) <= cards.len(),
    decreases cards.len(),
{
    if cards.len() == 0 {
        lemma_empty_cells(lo, hi);
        assert(cards =~= Seq::<Card>::empty());
    } else {
        assert(cards =~= cards.drop_last().push(cards.last()));
        lemma_cells_at_most_cards(cards.drop_last(), lo, hi);
        lemma_cells_push(cards.drop_last(), cards.last(), lo, hi);
    }
}

/// Straight flush implies straight and flush: a hand with a straight flush
/// of some size has a straight of that size, and a flush of that size where
/// the size is at most the number of ranks. A wider window holds the ace at
/// both its ends, so that a suit may fill one cell more than it has cards;
/// the hand is then a flush with one more joker.
pub proof fn lemma_straight_flush(cards: Seq<Card>, jokers: nat, size: nat)
    requires
        straight_flush(cards, jokers, size),
    ensures
        straight(cards, jokers, size),
        size <= NUM_RANKS ==> flush(cards, jokers, size),
        flush(cards, jokers + 1, size),
{
    let s = choose|s: int|
        0 <= s < NUM_SUITS && straight(#[trigger] suited(cards, s), jokers, size);
    let sub = suited(cards, s);
    let start = choose|start: int|
        window_start(start, size) && #[trigger] window_cells(sub, start, size) + jokers >= size;
    lemma_suited_cells(cards, s, start, start + size);
    assert(window_cells(cards, start, size) + jokers >= size);
    assert(sub.len() == suit_count(cards, s));
    if size <= NUM_RANKS {
        lemma_cells_at_most_cards(sub, start, start + size);
        assert(suit_count(cards, s) + jokers >= size);
    }
    if start >= 1 {
        lemma_cells_at_most_cards(sub, start, start + size);
    } else if size > 0 {
        lemma_cells_set_front(sub, 0, size as int);
        lemma_cells_at_most_cards(sub, 1, size as int);
    }
    assert(suit_count(cards, s) + (jokers + 1) >= size);
}

/// Number of cards whose rank is below `k`: the sum of the rank histogram
/// up to rank `k`.
pub open spec fn cards_below(cards: Seq<Card>, k: int) -> nat
    decreases k,
{
    if k <= 0 {
        0
    } else {
        cards_below(cards, k - 1) + rank_count(cards, k - 1)
    }
}

/// One more card adds one to the sum of the histogram from its rank on.
proof fn lemma_cards_below_push(cards: Seq<Card>, c: Card, k: int)
    ensures
        cards_below(cards.push(c), k) == cards_below(cards, k) + if c.rank < k {
            1nat
        } else {
            0nat
        },
    decreases k,
{
    if k > 0 {
        lemma_cards_below_push(cards, c, k - 1);
        lemma_rank_count_push(cards, c, k - 1);
    }
}

/// The rank histogram of a valid hand sums up to the number of its cards.
pub proof fn lemma_rank_counts_add_up(cards: Seq<Card>)
    requires
        valid_hand(cards),
    ensures
        cards_below(cards, NUM_RANKS as int) == cards.len(),
    decreases cards.len(),
{
    if cards.len() == 0 {
        assert(cards =~= Seq::<Card>::empty());
        lemma_no_cards_below(NUM_RANKS as int);
    } else {
        let rest = cards.drop_last();
        assert(cards =~= rest.push(cards.last()));
        assert(valid_hand(rest)) by {
            assert forall|i: int| 0 <= i < rest.len() implies card_in_range(#[trigger] rest[i]) by {
                assert(rest[i] == cards[i]);
            }
        }
        assert(card_in_range(cards[cards.len() - 1]));
        lemma_rank_counts_add_up(rest);
        lemma_cards_below_push(rest, cards.last(), NUM_RANKS as int);
    }
}

/// The empty hand has no card below any rank.
proof fn lemma_no_cards_below(k: int)
    ensures
        cards_below(Seq::empty(), k) == 0,
    decreases k,
{
    if k > 0 {
        lemma_no_cards_below(k - 1);
        lemma_empty_hand();
    }
}

} // verus!
