//! What a joker is: a card that may stand for any card. For each category,
//! the closed form that the library decides says the same as trying every
//! way of turning the jokers into cards.

use vstd::prelude::*;
use crate::card::{
    card_in_range, cell_set, lemma_rank_count_bound, lemma_rank_count_push, lemma_suit_count_bound,
    lemma_suit_count_push, rank_count, suit_count, Card, ACE, NUM_RANKS, NUM_SUITS,
};
use crate::flush::flush;
use crate::kinds::{full_house, missing, n_and_m_of_a_kind, n_of_a_kind};
use crate::laws::lemma_jokers_to_spare;
use crate::pairs::{max_pairs, n_pairs, odd_ranks_below, pairs_below};
use crate::straight::{
    cells_set, lemma_cells_push, lemma_cells_set_bound, straight, window_cells, window_start,
    NUM_CELLS,
};
use crate::suited::{flush_house, flush_n, straight_flush, suited};
use crate::tally::Category;

verus! {

/// One way of turning `jokers` jokers into cards: a card in range for each
/// joker.
pub open spec fn assignment(wild: Seq<Card>, jokers: nat) -> bool {
    &&& wild.len() == jokers
    &&& forall|i: int| 0 <= i < wild.len() ==> card_in_range(#[trigger] wild[i])
}

/// `k` copies of one card.
pub open spec fn copies(c: Card, k: nat) -> Seq<Card> {
    Seq::new(k, |i: int| c)
}

/// The histograms of two hands put together are the sums of their
/// histograms, and each suit of the whole is that suit of the parts.
pub proof fn lemma_joined(a: Seq<Card>, b: Seq<Card>)
    ensures
        forall|r: int| #[trigger] rank_count(a + b, r) == rank_count(a, r) + rank_count(b, r),
        forall|s: int| #[trigger] suit_count(a + b, s) == suit_count(a, s) + suit_count(b, s),
        forall|s: int| #[trigger] suited(a + b, s) == suited(a, s) + suited(b, s),
{
    assert forall|r: int| #[trigger]
        rank_count(a + b, r) == rank_count(a, r) + rank_count(b, r) by {
        Seq::filter_distributes_over_add(a, b, |c: Card| c.rank == r);
    }
    assert forall|s: int| #[trigger] suit_count(a + b, s) == suit_count(a, s) + suit_count(b, s)
        && #[trigger] suited(a + b, s) == suited(a, s) + suited(b, s) by {
        Seq::filter_distributes_over_add(a, b, |c: Card| c.suit == s);
    }
}

/// Copies of a card count for its own rank and suit only.
pub proof fn lemma_copies(c: Card, k: nat)
    ensures
        forall|r: int| #[trigger]
            rank_count(copies(c, k), r) == if c.rank == r {
                k
            } else {
                0
            },
        forall|s: int| #[trigger]
            suit_count(copies(c, k), s) == if c.suit == s {
                k
            } else {
                0
            },
        suited(copies(c, k), c.suit as int) == copies(c, k),
        card_in_range(c) ==> assignment(copies(c, k), k),
    decreases k,
{
    reveal(Seq::filter);
    if k > 0 {
        let less = copies(c, (k - 1) as nat);
        lemma_copies(c, (k - 1) as nat);
        assert(copies(c, k) =~= less.push(c));
        assert forall|r: int| #[trigger]
            rank_count(copies(c, k), r) == if c.rank == r {
                k
            } else {
                0
            } by {
            lemma_rank_count_push(less, c, r);
            assert(rank_count(less, r) == if c.rank == r {
                (k - 1) as nat
            } else {
                0
            });
        }
        assert forall|s: int| #[trigger]
            suit_count(copies(c, k), s) == if c.suit == s {
                k
            } else {
                0
            } by {
            lemma_suit_count_push(less, c, s);
            assert(suit_count(less, s) == if c.suit == s {
                (k - 1) as nat
            } else {
                0
            });
        }
        less.lemma_filter_push(c, |x: Card| x.suit == c.suit as int);
    } else {
        assert(copies(c, k) =~= Seq::<Card>::empty());
    }
}

/// Two different ranks of a hand hold no more cards together than the hand
/// does.
pub proof fn lemma_two_ranks(cards: Seq<Card>, r1: int, r2: int)
    requires
        r1 != r2,
    ensures
        rank_count(cards, r1) + rank_count(cards, r2) <= cards.len(),
    decreases cards.len(),
{
    reveal(Seq::filter);
    if cards.len() > 0 {
        lemma_two_ranks(cards.drop_last(), r1, r2);
        assert(cards =~= cards.drop_last().push(cards.last()));
        lemma_rank_count_push(cards.drop_last(), cards.last(), r1);
        lemma_rank_count_push(cards.drop_last(), cards.last(), r2);
    }
}

/// Jokers make `n` of a kind exactly where some way of turning them into
/// cards does.
pub proof fn lemma_wild_n_of_a_kind(cards: Seq<Card>, n: nat, jokers: nat)
    ensures
        n_of_a_kind(cards, n, jokers) <==> exists|wild: Seq<Card>| #[trigger]
            assignment(wild, jokers) && n_of_a_kind(cards + wild, n, 0),
{
    if n_of_a_kind(cards, n, jokers) {
        let wild = assign_for_n_of_a_kind(cards, n, jokers, 0);
    }
    if exists|wild: Seq<Card>| #[trigger]
        assignment(wild, jokers) && n_of_a_kind(cards + wild, n, 0) {
        let wild = choose|wild: Seq<Card>| #[trigger]
            assignment(wild, jokers) && n_of_a_kind(cards + wild, n, 0);
        lemma_cards_as_jokers_n_of_a_kind(cards, wild, n);
    }
}

/// Cards of one suit that complete `n` of a kind in place of the jokers.
pub proof fn assign_for_n_of_a_kind(cards: Seq<Card>, n: nat, jokers: nat, suit: u8) -> (wild: Seq<
    Card,
>)
    requires
        n_of_a_kind(cards, n, jokers),
        suit < NUM_SUITS,
    ensures
        assignment(wild, jokers),
        suited(wild, suit as int) == wild,
        n_of_a_kind(cards + wild, n, 0),
{
    let r = choose|r: int| 0 <= r < NUM_RANKS && #[trigger] rank_count(cards, r) + jokers >= n;
    let c = Card { suit, rank: r as u8 };
    let wild = copies(c, jokers);
    lemma_copies(c, jokers);
    lemma_joined(cards, wild);
    assert(rank_count(cards + wild, r) + 0 >= n);
    wild
}

/// Cards that complete `n` of a kind can be given back for as many jokers.
pub proof fn lemma_cards_as_jokers_n_of_a_kind(cards: Seq<Card>, wild: Seq<Card>, n: nat)
    requires
        n_of_a_kind(cards + wild, n, 0),
    ensures
        n_of_a_kind(cards, n, wild.len()),
{
    let r = choose|r: int| 0 <= r < NUM_RANKS && #[trigger] rank_count(cards + wild, r) + 0 >= n;
    lemma_joined(cards, wild);
    lemma_rank_count_bound(wild, r);
    assert(rank_count(cards, r) + wild.len() >= n);
}

/// Jokers make a flush exactly where some way of turning them into cards
/// does.
pub proof fn lemma_wild_flush(cards: Seq<Card>, jokers: nat, size: nat)
    ensures
        flush(cards, jokers, size) <==> exists|wild: Seq<Card>| #[trigger]
            assignment(wild, jokers) && flush(cards + wild, 0, size),
{
    if flush(cards, jokers, size) {
        let s = choose|s: int|
            0 <= s < NUM_SUITS && #[trigger] suit_count(cards, s) + jokers >= size;
        let c = Card { suit: s as u8, rank: 0 };
        let wild = copies(c, jokers);
        lemma_copies(c, jokers);
        lemma_joined(cards, wild);
        assert(suit_count(cards + wild, s) + 0 >= size);
        assert(assignment(wild, jokers) && flush(cards + wild, 0, size));
    }
    if exists|wild: Seq<Card>| #[trigger] assignment(wild, jokers) && flush(cards + wild, 0, size) {
        let wild = choose|wild: Seq<Card>| #[trigger]
            assignment(wild, jokers) && flush(cards + wild, 0, size);
        let s = choose|s: int|
            0 <= s < NUM_SUITS && #[trigger] suit_count(cards + wild, s) + 0 >= size;
        lemma_joined(cards, wild);
        lemma_suit_count_bound(wild, s);
        assert(suit_count(cards, s) + jokers >= size);
    }
}

/// Jokers make `n` and `m` of a kind exactly where some way of turning them
/// into cards does.
pub proof fn lemma_wild_n_and_m_of_a_kind(cards: Seq<Card>, n: nat, m: nat, jokers: nat)
    ensures
        n_and_m_of_a_kind(cards, n, m, jokers) <==> exists|wild: Seq<Card>| #[trigger]
            assignment(wild, jokers) && n_and_m_of_a_kind(cards + wild, n, m, 0),
{
    if n_and_m_of_a_kind(cards, n, m, jokers) {
        let wild = assign_for_n_and_m_of_a_kind(cards, n, m, jokers, 0);
    }
    if exists|wild: Seq<Card>| #[trigger]
        assignment(wild, jokers) && n_and_m_of_a_kind(cards + wild, n, m, 0) {
        let wild = choose|wild: Seq<Card>| #[trigger]
            assignment(wild, jokers) && n_and_m_of_a_kind(cards + wild, n, m, 0);
        lemma_cards_as_jokers_n_and_m_of_a_kind(cards, wild, n, m);
    }
}

/// Cards of one suit that complete `n` and `m` of a kind in place of the
/// jokers.
pub proof fn assign_for_n_and_m_of_a_kind(
    cards: Seq<Card>,
    n: nat,
    m: nat,
    jokers: nat,
    suit: u8,
) -> (wild: Seq<Card>)
    requires
        n_and_m_of_a_kind(cards, n, m, jokers),
        suit < NUM_SUITS,
    ensures
        assignment(wild, jokers),
        suited(wild, suit as int) == wild,
        n_and_m_of_a_kind(cards + wild, n, m, 0),
{
    if exists|r: int| 0 <= r < NUM_RANKS && #[trigger] rank_count(cards, r) + jokers >= n + m {
        let r = choose|r: int|
            0 <= r < NUM_RANKS && #[trigger] rank_count(cards, r) + jokers >= n + m;
        let c = Card { suit, rank: r as u8 };
        let wild = copies(c, jokers);
        lemma_copies(c, jokers);
        lemma_joined(cards, wild);
        assert(rank_count(cards + wild, r) + 0 >= n + m);
        wild
    } else {
        let (r1, r2) = choose|r1: int, r2: int|
            0 <= r1 < NUM_RANKS && 0 <= r2 < NUM_RANKS && r1 != r2 && missing(
                #[trigger] rank_count(cards, r1),
                n,
            ) + missing(#[trigger] rank_count(cards, r2), m) <= jokers;
        let c1 = Card { suit, rank: r1 as u8 };
        let c2 = Card { suit, rank: r2 as u8 };
        let k1 = missing(rank_count(cards, r1), n);
        let k2 = (jokers - k1) as nat;
        let first = copies(c1, k1);
        let second = copies(c2, k2);
        let wild = first + second;
        lemma_copies(c1, k1);
        lemma_copies(c2, k2);
        lemma_joined(first, second);
        lemma_joined(cards, wild);
        assert(missing(rank_count(cards + wild, r1), n) + missing(rank_count(cards + wild, r2), m)
            <= 0);
        wild
    }
}

/// Cards that complete `n` and `m` of a kind can be given back for as many
/// jokers.
pub proof fn lemma_cards_as_jokers_n_and_m_of_a_kind(
    cards: Seq<Card>,
    wild: Seq<Card>,
    n: nat,
    m: nat,
)
    requires
        n_and_m_of_a_kind(cards + wild, n, m, 0),
    ensures
        n_and_m_of_a_kind(cards, n, m, wild.len()),
{
    let all = cards + wild;
    lemma_joined(cards, wild);
    if exists|r: int| 0 <= r < NUM_RANKS && #[trigger] rank_count(all, r) + 0 >= n + m {
        let r = choose|r: int| 0 <= r < NUM_RANKS && #[trigger] rank_count(all, r) + 0 >= n + m;
        lemma_rank_count_bound(wild, r);
        assert(rank_count(cards, r) + wild.len() >= n + m);
    } else {
        let (r1, r2) = choose|r1: int, r2: int|
            0 <= r1 < NUM_RANKS && 0 <= r2 < NUM_RANKS && r1 != r2 && missing(
                #[trigger] rank_count(all, r1),
                n,
            ) + missing(#[trigger] rank_count(all, r2), m) <= 0;
        lemma_two_ranks(wild, r1, r2);
        assert(missing(rank_count(cards, r1), n) + missing(rank_count(cards, r2), m)
            <= wild.len());
    }
}

/// The card of a suit that sets a cell: the ace for cell 0, and the rank
/// below the cell for any other.
pub open spec fn cell_card(suit: u8, cell: int) -> Card {
    Card {
        suit,
        rank: if cell == 0 {
            ACE
        } else {
            (cell - 1) as u8
        },
    }
}

/// One card of a suit for each cell among `lo`, ..., `hi - 1` that the hand
/// leaves unset.
pub open spec fn fillers(cards: Seq<Card>, suit: u8, lo: int, hi: int) -> Seq<Card>
    decreases hi - lo,
{
    if hi <= lo {
        Seq::empty()
    } else if cell_set(cards, hi - 1) {
        fillers(cards, suit, lo, hi - 1)
    } else {
        fillers(cards, suit, lo, hi - 1).push(cell_card(suit, hi - 1))
    }
}

/// More cards set no fewer cells.
pub proof fn lemma_cells_grow(a: Seq<Card>, b: Seq<Card>, lo: int, hi: int)
    ensures
        cells_set(a, lo, hi) <= cells_set(a + b, lo, hi),
    decreases hi - lo,
{
    if lo < hi {
        lemma_cells_grow(a, b, lo, hi - 1);
        lemma_joined(a, b);
    }
}

/// The fillers of a window within the bitmap are as many as the window has
/// unset cells, and together with the hand they set every cell of it.
proof fn lemma_fillers(cards: Seq<Card>, suit: u8, lo: int, hi: int)
    requires
        0 <= lo <= hi <= NUM_CELLS,
        suit < NUM_SUITS,
    ensures
        fillers(cards, suit, lo, hi).len() + cells_set(cards, lo, hi) == hi - lo,
        assignment(fillers(cards, suit, lo, hi), fillers(cards, suit, lo, hi).len()),
        suited(fillers(cards, suit, lo, hi), suit as int) == fillers(cards, suit, lo, hi),
        cells_set(cards + fillers(cards, suit, lo, hi), lo, hi) == hi - lo,
    decreases hi - lo,
{
    reveal(Seq::filter);
    if lo < hi {
        let less = fillers(cards, suit, lo, hi - 1);
        let all = fillers(cards, suit, lo, hi);
        lemma_fillers(cards, suit, lo, hi - 1);
        lemma_cells_set_bound(cards + all, lo, hi - 1);
        lemma_joined(cards, all);
        if cell_set(cards, hi - 1) {
        } else {
            let c = cell_card(suit, hi - 1);
            less.lemma_filter_push(c, |x: Card| x.suit == suit as int);
            assert(cards + all =~= (cards + less) + seq![c]);
            lemma_cells_grow(cards + less, seq![c], lo, hi - 1);
            assert(all[all.len() - 1] == c);
            lemma_rank_count_push(less, c, c.rank as int);
            lemma_rank_count_bound(less, c.rank as int);
        }
    }
}

/// Cards of one suit that complete a straight in place of the jokers.
pub proof fn assign_for_straight(cards: Seq<Card>, jokers: nat, size: nat, suit: u8) -> (wild: Seq<
    Card,
>)
    requires
        straight(cards, jokers, size),
        size <= NUM_CELLS,
        suit < NUM_SUITS,
    ensures
        assignment(wild, jokers),
        suited(wild, suit as int) == wild,
        straight(cards + wild, 0, size),
{
    let start = choose|start: int|
        window_start(start, size) && #[trigger] window_cells(cards, start, size) + jokers >= size;
    let first = fillers(cards, suit, start, start + size);
    let c = Card { suit, rank: 0 };
    let second = copies(c, (jokers - first.len()) as nat);
    let wild = first + second;
    lemma_fillers(cards, suit, start, start + size);
    lemma_copies(c, (jokers - first.len()) as nat);
    lemma_joined(first, second);
    lemma_cells_grow(cards + first, second, start, start + size);
    lemma_cells_set_bound(cards + wild, start, start + size);
    assert(cards + wild =~= (cards + first) + second);
    assert(window_cells(cards + wild, start, size) + 0 >= size);
    wild
}

/// Cards that complete a straight of at most as many cards as there are
/// ranks can be given back for as many jokers.
pub proof fn lemma_cards_as_jokers_straight(cards: Seq<Card>, wild: Seq<Card>, size: nat)
    requires
        straight(cards + wild, 0, size),
        size <= NUM_RANKS,
    ensures
        straight(cards, wild.len(), size),
{
    let start = choose|start: int|
        window_start(start, size) && #[trigger] window_cells(cards + wild, start, size) + 0
            >= size;
    lemma_cells_wild(cards, wild, start, start + size);
    assert(window_cells(cards, start, size) + wild.len() >= size);
}

/// More cards set at most one more cell each in a window that does not hold
/// both cells of the ace.
proof fn lemma_cells_wild(cards: Seq<Card>, wild: Seq<Card>, lo: int, hi: int)
    requires
        1 <= lo || hi <= NUM_RANKS,
    ensures
        cells_set(cards + wild, lo, hi) <= cells_set(cards, lo, hi) + wild.len(),
    decreases wild.len(),
{
    if wild.len() == 0 {
        assert(cards + wild =~= cards);
    } else {
        lemma_cells_wild(cards, wild.drop_last(), lo, hi);
        lemma_cells_push(cards + wild.drop_last(), wild.last(), lo, hi);
        assert(cards + wild =~= (cards + wild.drop_last()).push(wild.last()));
    }
}

/// Jokers make a straight of at most as many cards as there are ranks
/// exactly where some way of turning them into cards does. In a wider
/// window the ace has two cells, and one card fills both: this is as far as
/// a joker is more than a card that fills one cell.
pub proof fn lemma_wild_straight(cards: Seq<Card>, jokers: nat, size: nat)
    requires
        size <= NUM_RANKS,
    ensures
        straight(cards, jokers, size) <==> exists|wild: Seq<Card>| #[trigger]
            assignment(wild, jokers) && straight(cards + wild, 0, size),
{
    if straight(cards, jokers, size) {
        let wild = assign_for_straight(cards, jokers, size, 0);
    }
    if exists|wild: Seq<Card>|
        #[trigger] assignment(wild, jokers) && straight(cards + wild, 0, size) {
        let wild = choose|wild: Seq<Card>| #[trigger]
            assignment(wild, jokers) && straight(cards + wild, 0, size);
        lemma_cards_as_jokers_straight(cards, wild, size);
    }
}

/// One more card either completes a pair with a lone card of its rank, or
/// is a lone card itself.
proof fn lemma_pairs_push(cards: Seq<Card>, c: Card, k: int)
    ensures
        pairs_below(cards.push(c), k) == pairs_below(cards, k) + if c.rank < k && rank_count(
            cards,
            c.rank as int,
        ) % 2 == 1 {
            1nat
        } else {
            0nat
        },
        odd_ranks_below(cards.push(c), k) == odd_ranks_below(cards, k) + if c.rank < k {
            if rank_count(cards, c.rank as int) % 2 == 1 {
                -1
            } else {
                1int
            }
        } else {
            0
        },
    decreases k,
{
    if k > 0 {
        lemma_pairs_push(cards, c, k - 1);
        lemma_rank_count_push(cards, c, k - 1);
    }
}

/// Where some rank below `k` is counted as odd, there is such a rank.
proof fn lemma_odd_rank(cards: Seq<Card>, k: int) -> (r: int)
    requires
        odd_ranks_below(cards, k) > 0,
    ensures
        0 <= r < k,
        rank_count(cards, r) % 2 == 1,
    decreases k,
{
    if rank_count(cards, k - 1) % 2 == 1 {
        k - 1
    } else {
        lemma_odd_rank(cards, k - 1)
    }
}

/// Cards in place of jokers form no more pairs than the jokers do.
pub proof fn lemma_cards_as_jokers_pairs(cards: Seq<Card>, wild: Seq<Card>, jokers: nat)
    ensures
        max_pairs(cards + wild, jokers) <= max_pairs(cards, wild.len() + jokers),
    decreases wild.len(),
{
    if wild.len() == 0 {
        assert(cards + wild =~= cards);
    } else {
        let rest = wild.drop_last();
        lemma_cards_as_jokers_pairs(cards, rest, jokers + 1);
        lemma_pairs_push(cards + rest, wild.last(), NUM_RANKS as int);
        assert(cards + wild =~= (cards + rest).push(wild.last()));
    }
}

/// Cards that form as many pairs in place of the jokers as the jokers can.
pub proof fn assign_for_pairs(cards: Seq<Card>, jokers: nat) -> (wild: Seq<Card>)
    ensures
        assignment(wild, jokers),
        max_pairs(cards + wild, 0) == max_pairs(cards, jokers),
    decreases jokers,
{
    if jokers == 0 {
        let wild = Seq::<Card>::empty();
        assert(cards + wild =~= cards);
        wild
    } else {
        let rank = if odd_ranks_below(cards, NUM_RANKS as int) > 0 {
            lemma_odd_rank(cards, NUM_RANKS as int)
        } else {
            0
        };
        let c = Card { suit: 0, rank: rank as u8 };
        lemma_pairs_push(cards, c, NUM_RANKS as int);
        if odd_ranks_below(cards, NUM_RANKS as int) == 0 {
            lemma_no_odd_rank(cards, NUM_RANKS as int, 0);
        }
        let rest = assign_for_pairs(cards.push(c), (jokers - 1) as nat);
        let wild = seq![c] + rest;
        assert(cards + wild =~= cards.push(c) + rest);
        wild
    }
}

/// Where no rank below `k` is counted as odd, every such rank holds an even
/// number of cards.
proof fn lemma_no_odd_rank(cards: Seq<Card>, k: int, r: int)
    requires
        odd_ranks_below(cards, k) == 0,
        0 <= r < k,
    ensures
        rank_count(cards, r) % 2 == 0,
    decreases k,
{
    if r < k - 1 {
        lemma_no_odd_rank(cards, k - 1, r);
    }
}

/// Jokers make `n` pairs exactly where some way of turning them into cards
/// does.
pub proof fn lemma_wild_n_pairs(cards: Seq<Card>, n: nat, jokers: nat)
    ensures
        n_pairs(cards, n, jokers) <==> exists|wild: Seq<Card>| #[trigger]
            assignment(wild, jokers) && n_pairs(cards + wild, n, 0),
{
    if n_pairs(cards, n, jokers) {
        let wild = assign_for_pairs(cards, jokers);
        assert(assignment(wild, jokers) && n_pairs(cards + wild, n, 0));
    }
    if exists|wild: Seq<Card>| #[trigger] assignment(wild, jokers) && n_pairs(cards + wild, n, 0) {
        let wild = choose|wild: Seq<Card>| #[trigger]
            assignment(wild, jokers) && n_pairs(cards + wild, n, 0);
        lemma_cards_as_jokers_pairs(cards, wild, 0);
    }
}

/// Jokers make a straight flush of at most as many cards as there are ranks
/// exactly where some way of turning them into cards does.
pub proof fn lemma_wild_straight_flush(cards: Seq<Card>, jokers: nat, size: nat)
    requires
        size <= NUM_RANKS,
    ensures
        straight_flush(cards, jokers, size) <==> exists|wild: Seq<Card>| #[trigger]
            assignment(wild, jokers) && straight_flush(cards + wild, 0, size),
{
    if straight_flush(cards, jokers, size) {
        let s = choose|s: int|
            0 <= s < NUM_SUITS && straight(#[trigger] suited(cards, s), jokers, size);
        let wild = assign_for_straight(suited(cards, s), jokers, size, s as u8);
        lemma_joined(cards, wild);
        assert(straight(suited(cards + wild, s), 0, size));
        assert(assignment(wild, jokers) && straight_flush(cards + wild, 0, size));
    }
    if exists|wild: Seq<Card>| #[trigger]
        assignment(wild, jokers) && straight_flush(cards + wild, 0, size) {
        let wild = choose|wild: Seq<Card>| #[trigger]
            assignment(wild, jokers) && straight_flush(cards + wild, 0, size);
        let s = choose|s: int|
            0 <= s < NUM_SUITS && straight(#[trigger] suited(cards + wild, s), 0, size);
        lemma_joined(cards, wild);
        lemma_cards_as_jokers_straight(suited(cards, s), suited(wild, s), size);
        lemma_suit_count_bound(wild, s);
        lemma_jokers_to_spare(suited(cards, s), suited(wild, s).len(), jokers);
        assert(straight(suited(cards, s), jokers, size));
    }
}

/// Jokers make a flush house exactly where some way of turning them into
/// cards does.
pub proof fn lemma_wild_flush_house(cards: Seq<Card>, jokers: nat)
    ensures
        flush_house(cards, jokers) <==> exists|wild: Seq<Card>| #[trigger]
            assignment(wild, jokers) && flush_house(cards + wild, 0),
{
    if flush_house(cards, jokers) {
        let s = choose|s: int|
            0 <= s < NUM_SUITS && full_house(#[trigger] suited(cards, s), jokers);
        let wild = assign_for_n_and_m_of_a_kind(suited(cards, s), 3, 2, jokers, s as u8);
        lemma_joined(cards, wild);
        assert(full_house(suited(cards + wild, s), 0));
        assert(assignment(wild, jokers) && flush_house(cards + wild, 0));
    }
    if exists|wild: Seq<Card>| #[trigger] assignment(wild, jokers) && flush_house(cards + wild, 0) {
        let wild = choose|wild: Seq<Card>| #[trigger]
            assignment(wild, jokers) && flush_house(cards + wild, 0);
        let s = choose|s: int|
            0 <= s < NUM_SUITS && full_house(#[trigger] suited(cards + wild, s), 0);
        lemma_joined(cards, wild);
        lemma_cards_as_jokers_n_and_m_of_a_kind(suited(cards, s), suited(wild, s), 3, 2);
        lemma_suit_count_bound(wild, s);
        lemma_jokers_to_spare(suited(cards, s), suited(wild, s).len(), jokers);
        assert(full_house(suited(cards, s), jokers));
    }
}

/// Jokers make `n` of a kind within a suit exactly where some way of turning
/// them into cards does.
pub proof fn lemma_wild_flush_n(cards: Seq<Card>, n: nat, jokers: nat)
    ensures
        flush_n(cards, n, jokers) <==> exists|wild: Seq<Card>| #[trigger]
            assignment(wild, jokers) && flush_n(cards + wild, n, 0),
{
    if flush_n(cards, n, jokers) {
        let s = choose|s: int|
            0 <= s < NUM_SUITS && n_of_a_kind(#[trigger] suited(cards, s), n, jokers);
        let wild = assign_for_n_of_a_kind(suited(cards, s), n, jokers, s as u8);
        lemma_joined(cards, wild);
        assert(n_of_a_kind(suited(cards + wild, s), n, 0));
        assert(assignment(wild, jokers) && flush_n(cards + wild, n, 0));
    }
    if exists|wild: Seq<Card>| #[trigger] assignment(wild, jokers) && flush_n(cards + wild, n, 0) {
        let wild = choose|wild: Seq<Card>| #[trigger]
            assignment(wild, jokers) && flush_n(cards + wild, n, 0);
        let s = choose|s: int|
            0 <= s < NUM_SUITS && n_of_a_kind(#[trigger] suited(cards + wild, s), n, 0);
        lemma_joined(cards, wild);
        lemma_cards_as_jokers_n_of_a_kind(suited(cards, s), suited(wild, s), n);
        lemma_suit_count_bound(wild, s);
        lemma_jokers_to_spare(suited(cards, s), suited(wild, s).len(), jokers);
        assert(n_of_a_kind(suited(cards, s), n, jokers));
    }
}

/// A category that a tally counts holds of a hand with jokers exactly where
/// it holds, without jokers, of the hand with some cards in their place.
/// Straights and straight flushes of more cards than there are ranks are
/// left out: their window holds the ace twice.
pub proof fn lemma_wild_category(cards: Seq<Card>, category: Category, jokers: nat)
    requires
        category matches Category::Straight(size) ==> size <= NUM_RANKS,
        category matches Category::StraightFlush(size) ==> size <= NUM_RANKS,
    ensures
        category.holds(cards, jokers) <==> exists|wild: Seq<Card>| #[trigger]
            assignment(wild, jokers) && category.holds(cards + wild, 0),
{
    match category {
        Category::NOfAKind(n) => lemma_wild_n_of_a_kind(cards, n as nat, jokers),
        Category::TwoPair => lemma_wild_n_pairs(cards, 2, jokers),
        Category::ThreePair => lemma_wild_n_pairs(cards, 3, jokers),
        Category::FullHouse => lemma_wild_n_and_m_of_a_kind(cards, 3, 2, jokers),
        Category::TwoTriplet => lemma_wild_n_and_m_of_a_kind(cards, 3, 3, jokers),
        Category::FullMansion => lemma_wild_n_and_m_of_a_kind(cards, 4, 2, jokers),
        Category::Straight(size) => lemma_wild_straight(cards, jokers, size as nat),
        Category::Flush(size) => lemma_wild_flush(cards, jokers, size as nat),
        Category::StraightFlush(size) => lemma_wild_straight_flush(cards, jokers, size as nat),
        Category::FlushHouse => lemma_wild_flush_house(cards, jokers),
        Category::FlushN(n) => lemma_wild_flush_n(cards, n as nat, jokers),
    }
}

} // verus!
