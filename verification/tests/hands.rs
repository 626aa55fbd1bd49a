use poker_odds::card::{
    rank_counts, ranks_for_straight, suit_counts, Card, RankCounts, Ranks, SuitCounts,
};
use poker_odds::flush::is_flush;
use poker_odds::kinds::{is_full_house, is_full_mansion, is_n_of_a_kind, is_two_triplet};
use poker_odds::pairs::{is_three_pair, is_two_pair};
use poker_odds::straight::is_straight;
use poker_odds::suited::{is_flush_house, is_flush_n, is_straight_flush};

const R2: u8 = 0;
const R3: u8 = 1;
const R4: u8 = 2;
const R5: u8 = 3;
const R6: u8 = 4;
const R7: u8 = 5;
const R8: u8 = 6;
const R9: u8 = 7;
const R10: u8 = 8;
const RJ: u8 = 9;
const RQ: u8 = 10;
const RK: u8 = 11;
const RA: u8 = 12;

#[test]
fn test_rank_counts() {
    assert_eq!(RankCounts::default(), rank_counts(&[]));

    {
        let mut expected = RankCounts::default();
        expected[1] = 2;
        expected[3] = 1;
        assert_eq!(
            expected,
            rank_counts(&[
                Card { suit: 0, rank: 1 },
                Card { suit: 0, rank: 1 },
                Card { suit: 2, rank: 3 }
            ])
        )
    }
}

#[test]
fn test_ranks_for_straight() {
    assert_eq!(Ranks::default(), ranks_for_straight(&[]));

    {
        let mut expected = Ranks::default();
        expected[2] = 1;
        expected[4] = 1;
        assert_eq!(
            expected,
            ranks_for_straight(&[
                Card { suit: 0, rank: 1 },
                Card { suit: 0, rank: 1 },
                Card { suit: 2, rank: 3 }
            ])
        )
    }

    {
        let mut expected = Ranks::default();
        expected[0] = 1;
        expected[1] = 1;
        expected[3] = 1;
        expected[13] = 1;
        assert_eq!(
            expected,
            ranks_for_straight(&[
                Card { suit: 0, rank: R2 },
                Card { suit: 0, rank: RA },
                Card { suit: 2, rank: R4 }
            ])
        )
    }
}

#[test]
fn test_suit_counts() {
    assert_eq!(SuitCounts::default(), suit_counts(&[]));

    {
        let mut expected = SuitCounts::default();
        expected[1] = 2;
        expected[3] = 1;
        assert_eq!(
            expected,
            suit_counts(&[
                Card { suit: 1, rank: 0 },
                Card { suit: 1, rank: 0 },
                Card { suit: 3, rank: 2 }
            ])
        )
    }
}

#[test]
fn test_is_n_of_a_kind() {
    assert!(is_n_of_a_kind(&[], 0, 0));
    assert!(!is_n_of_a_kind(&[], 1, 0));
    assert!(is_n_of_a_kind(&[Card { suit: 0, rank: 1 }], 1, 0));

    assert!(!is_n_of_a_kind(
        &[Card { suit: 1, rank: 0 }, Card { suit: 0, rank: 1 }],
        2,
        0
    ));
    assert!(is_n_of_a_kind(
        &[Card { suit: 1, rank: 1 }, Card { suit: 1, rank: 1 }],
        2,
        0
    ));
    assert!(is_n_of_a_kind(
        &[Card { suit: 0, rank: 1 }, Card { suit: 1, rank: 1 }],
        2,
        0
    ));

    assert!(!is_n_of_a_kind(
        &[Card { suit: 0, rank: 1 }, Card { suit: 1, rank: 1 }],
        3,
        0
    ));
    assert!(is_n_of_a_kind(
        &[
            Card { suit: 0, rank: 1 },
            Card { suit: 0, rank: 1 },
            Card { suit: 1, rank: 1 },
        ],
        3,
        0
    ));
    assert!(is_n_of_a_kind(
        &[
            Card { suit: 0, rank: 1 },
            Card { suit: 0, rank: 1 },
            Card { suit: 1, rank: 1 },
            Card { suit: 1, rank: 2 },
        ],
        3,
        0
    ));

    assert!(!is_n_of_a_kind(&[], 2, 1));
    assert!(is_n_of_a_kind(&[], 2, 2));
    assert!(is_n_of_a_kind(&[Card { suit: 1, rank: 2 },], 2, 1));
    assert!(!is_n_of_a_kind(
        &[Card { suit: 1, rank: 2 }, Card { suit: 2, rank: 3 },],
        3,
        1
    ));
    assert!(is_n_of_a_kind(
        &[Card { suit: 1, rank: 3 }, Card { suit: 2, rank: 3 },],
        3,
        1
    ));
}

#[test]
fn test_is_two_pair() {
    assert!(!is_two_pair(&[], 0));
    assert!(!is_two_pair(&[Card { suit: 0, rank: 0 }], 0));
    assert!(!is_two_pair(
        &[Card { suit: 0, rank: 0 }, Card { suit: 0, rank: 0 },],
        0
    ));
    assert!(!is_two_pair(
        &[
            Card { suit: 0, rank: 0 },
            Card { suit: 0, rank: 0 },
            Card { suit: 0, rank: 0 },
        ],
        0
    ));
    assert!(is_two_pair(
        &[
            Card { suit: 0, rank: 1 },
            Card { suit: 1, rank: 1 },
            Card { suit: 2, rank: 0 },
            Card { suit: 3, rank: 0 },
        ],
        0
    ));
    assert!(is_two_pair(
        &[
            Card { suit: 0, rank: 0 },
            Card { suit: 2, rank: 0 },
            Card { suit: 0, rank: 0 },
            Card { suit: 2, rank: 0 },
        ],
        0
    ));
    assert!(is_two_pair(
        &[
            Card { suit: 0, rank: 0 },
            Card { suit: 0, rank: 0 },
            Card { suit: 0, rank: 0 },
            Card { suit: 0, rank: 0 },
        ],
        0
    ));

    assert!(!is_two_pair(&[], 3));
    assert!(is_two_pair(&[], 4));
    assert!(is_two_pair(&[Card { suit: 0, rank: 0 },], 3));
    assert!(is_two_pair(
        &[Card { suit: 1, rank: 1 }, Card { suit: 0, rank: 0 },],
        2
    ));
    assert!(is_two_pair(
        &[Card { suit: 0, rank: 0 }, Card { suit: 0, rank: 0 },],
        2
    ));
    assert!(is_two_pair(
        &[
            Card { suit: 0, rank: 0 },
            Card { suit: 0, rank: 0 },
            Card { suit: 1, rank: 1 },
        ],
        1
    ));
    assert!(!is_two_pair(
        &[Card { suit: 0, rank: 0 }, Card { suit: 0, rank: 0 },],
        1
    ));
}

#[test]
fn test_is_full_house() {
    assert!(!is_full_house(&[], 0));
    assert!(!is_full_house(
        &[
            Card { suit: 0, rank: 1 },
            Card { suit: 1, rank: 1 },
            Card { suit: 2, rank: 0 },
            Card { suit: 3, rank: 0 },
        ],
        0
    ));
    assert!(!is_full_house(
        &[
            Card { suit: 0, rank: 1 },
            Card { suit: 1, rank: 1 },
            Card { suit: 2, rank: 0 },
            Card { suit: 3, rank: 0 },
            Card { suit: 3, rank: 2 },
        ],
        0
    ));
    assert!(is_full_house(
        &[
            Card { suit: 0, rank: 1 },
            Card { suit: 1, rank: 1 },
            Card { suit: 2, rank: 0 },
            Card { suit: 3, rank: 0 },
            Card { suit: 3, rank: 0 },
        ],
        0
    ));
    assert!(is_full_house(
        &[
            Card { suit: 0, rank: 0 },
            Card { suit: 1, rank: 0 },
            Card { suit: 2, rank: 0 },
            Card { suit: 3, rank: 0 },
            Card { suit: 3, rank: 0 },
        ],
        0
    ));
    assert!(is_full_house(&[], 5));
    assert!(!is_full_house(&[], 4));
    assert!(is_full_house(&[Card { suit: 0, rank: 0 },], 4));
    assert!(is_full_house(
        &[
            Card { suit: 0, rank: 0 },
            Card { suit: 1, rank: 1 },
            Card { suit: 1, rank: 1 },
        ],
        2
    ));
    assert!(is_full_house(
        &[Card { suit: 0, rank: 0 }, Card { suit: 1, rank: 1 },],
        3
    ));
    assert!(is_full_house(
        &[
            Card { suit: 0, rank: 0 },
            Card { suit: 0, rank: 0 },
            Card { suit: 1, rank: 1 },
            Card { suit: 1, rank: 1 },
        ],
        1
    ));
    assert!(is_full_house(
        &[
            Card { suit: 0, rank: 0 },
            Card { suit: 1, rank: 1 },
            Card { suit: 1, rank: 1 },
            Card { suit: 1, rank: 1 },
        ],
        1
    ));
    assert!(is_full_house(
        &[
            Card { suit: 1, rank: 1 },
            Card { suit: 1, rank: 1 },
            Card { suit: 1, rank: 1 },
            Card { suit: 1, rank: 1 },
        ],
        1
    ));
}

#[test]
fn test_is_full_mansion() {
    assert!(!is_full_mansion(&[], 0));
    assert!(!is_full_mansion(
        &[
            Card { suit: 0, rank: 1 },
            Card { suit: 1, rank: 1 },
            Card { suit: 1, rank: 1 },
            Card { suit: 2, rank: 0 },
            Card { suit: 3, rank: 0 },
        ],
        0
    ));
    assert!(!is_full_mansion(
        &[
            Card { suit: 0, rank: 1 },
            Card { suit: 1, rank: 1 },
            Card { suit: 1, rank: 2 },
            Card { suit: 1, rank: 2 },
            Card { suit: 2, rank: 0 },
            Card { suit: 3, rank: 0 },
        ],
        0
    ));
    assert!(!is_full_mansion(
        &[
            Card { suit: 0, rank: 1 },
            Card { suit: 0, rank: 1 },
            Card { suit: 1, rank: 1 },
            Card { suit: 2, rank: 0 },
            Card { suit: 3, rank: 0 },
            Card { suit: 3, rank: 2 },
        ],
        0
    ));
    assert!(is_full_mansion(
        &[
            Card { suit: 0, rank: 1 },
            Card { suit: 1, rank: 1 },
            Card { suit: 2, rank: 0 },
            Card { suit: 3, rank: 0 },
            Card { suit: 3, rank: 0 },
            Card { suit: 3, rank: 0 },
        ],
        0
    ));
    assert!(is_full_mansion(
        &[
            Card { suit: 0, rank: 0 },
            Card { suit: 1, rank: 0 },
            Card { suit: 2, rank: 0 },
            Card { suit: 3, rank: 0 },
            Card { suit: 3, rank: 0 },
            Card { suit: 3, rank: 0 },
        ],
        0
    ));
    assert!(is_full_mansion(&[], 6));
    assert!(!is_full_mansion(&[], 5));
    assert!(is_full_mansion(&[Card { suit: 0, rank: 0 },], 5));
    assert!(is_full_mansion(
        &[
            Card { suit: 0, rank: 0 },
            Card { suit: 0, rank: 0 },
            Card { suit: 1, rank: 1 },
            Card { suit: 1, rank: 1 },
        ],
        2
    ));
    assert!(is_full_mansion(
        &[
            Card { suit: 0, rank: 0 },
            Card { suit: 0, rank: 1 },
            Card { suit: 1, rank: 1 },
            Card { suit: 1, rank: 1 },
        ],
        2
    ));
    assert!(!is_full_mansion(
        &[
            Card { suit: 0, rank: 0 },
            Card { suit: 1, rank: 1 },
            Card { suit: 1, rank: 2 },
        ],
        3
    ));
    assert!(is_full_mansion(
        &[
            Card { suit: 0, rank: 0 },
            Card { suit: 1, rank: 1 },
            Card { suit: 1, rank: 1 },
        ],
        3
    ));
    assert!(!is_three_pair(&[], 5));
    assert!(is_three_pair(&[], 6));
}

#[test]
fn test_is_two_triplet() {
    assert!(!is_two_triplet(&[], 0));
    assert!(!is_two_triplet(
        &[
            Card { suit: 0, rank: 1 },
            Card { suit: 1, rank: 1 },
            Card { suit: 2, rank: 0 },
            Card { suit: 3, rank: 0 },
        ],
        0
    ));
    assert!(!is_two_triplet(
        &[
            Card { suit: 0, rank: 1 },
            Card { suit: 1, rank: 1 },
            Card { suit: 1, rank: 1 },
            Card { suit: 2, rank: 0 },
            Card { suit: 3, rank: 0 },
        ],
        0
    ));
    assert!(!is_two_triplet(
        &[
            Card { suit: 0, rank: 1 },
            Card { suit: 1, rank: 1 },
            Card { suit: 1, rank: 1 },
            Card { suit: 2, rank: 0 },
            Card { suit: 3, rank: 0 },
        ],
        0
    ));
    assert!(!is_two_triplet(
        &[
            Card { suit: 0, rank: 1 },
            Card { suit: 1, rank: 1 },
            Card { suit: 1, rank: 2 },
            Card { suit: 2, rank: 0 },
            Card { suit: 3, rank: 0 },
        ],
        0
    ));
    assert!(is_two_triplet(
        &[
            Card { suit: 0, rank: 1 },
            Card { suit: 1, rank: 1 },
            Card { suit: 1, rank: 1 },
            Card { suit: 1, rank: 0 },
            Card { suit: 2, rank: 0 },
            Card { suit: 3, rank: 0 },
        ],
        0
    ));
    assert!(is_two_triplet(
        &[
            Card { suit: 0, rank: 1 },
            Card { suit: 1, rank: 1 },
            Card { suit: 1, rank: 1 },
            Card { suit: 1, rank: 1 },
            Card { suit: 2, rank: 1 },
            Card { suit: 3, rank: 1 },
        ],
        0
    ));
    assert!(is_two_triplet(
        &[
            Card { suit: 0, rank: 1 },
            Card { suit: 1, rank: 1 },
            Card { suit: 1, rank: 1 },
            Card { suit: 2, rank: 0 },
            Card { suit: 3, rank: 0 },
        ],
        1
    ));
    assert!(!is_two_triplet(
        &[
            Card { suit: 0, rank: 1 },
            Card { suit: 1, rank: 1 },
            Card { suit: 1, rank: 2 },
            Card { suit: 2, rank: 0 },
            Card { suit: 3, rank: 0 },
        ],
        1
    ));
    assert!(!is_two_triplet(
        &[
            Card { suit: 1, rank: 1 },
            Card { suit: 2, rank: 0 },
            Card { suit: 3, rank: 0 },
        ],
        2
    ));
    assert!(is_two_triplet(
        &[
            Card { suit: 0, rank: 1 },
            Card { suit: 1, rank: 1 },
            Card { suit: 2, rank: 0 },
            Card { suit: 3, rank: 0 },
        ],
        2
    ));
    assert!(!is_two_triplet(
        &[
            Card { suit: 0, rank: 1 },
            Card { suit: 1, rank: 2 },
            Card { suit: 2, rank: 0 },
            Card { suit: 3, rank: 0 },
        ],
        2
    ));
    assert!(!is_two_triplet(&[], 5));
    assert!(is_two_triplet(&[], 6));
}

#[test]
fn test_is_three_pair() {
    assert!(!is_three_pair(&[], 0));
    assert!(!is_three_pair(
        &[
            Card { suit: 0, rank: 1 },
            Card { suit: 1, rank: 1 },
            Card { suit: 2, rank: 0 },
            Card { suit: 3, rank: 0 },
        ],
        0
    ));
    assert!(!is_three_pair(
        &[
            Card { suit: 0, rank: 1 },
            Card { suit: 1, rank: 1 },
            Card { suit: 1, rank: 1 },
            Card { suit: 2, rank: 0 },
            Card { suit: 3, rank: 0 },
        ],
        0
    ));
    assert!(!is_three_pair(
        &[
            Card { suit: 0, rank: 1 },
            Card { suit: 1, rank: 1 },
            Card { suit: 1, rank: 1 },
            Card { suit: 2, rank: 0 },
            Card { suit: 3, rank: 0 },
        ],
        0
    ));
    assert!(!is_three_pair(
        &[
            Card { suit: 0, rank: 1 },
            Card { suit: 1, rank: 1 },
            Card { suit: 1, rank: 2 },
            Card { suit: 2, rank: 0 },
            Card { suit: 3, rank: 0 },
        ],
        0
    ));
    assert!(is_three_pair(
        &[
            Card { suit: 0, rank: 1 },
            Card { suit: 1, rank: 1 },
            Card { suit: 1, rank: 2 },
            Card { suit: 1, rank: 2 },
            Card { suit: 2, rank: 0 },
            Card { suit: 3, rank: 0 },
        ],
        0
    ));
    assert!(is_three_pair(
        &[
            Card { suit: 0, rank: 1 },
            Card { suit: 1, rank: 1 },
            Card { suit: 1, rank: 1 },
            Card { suit: 1, rank: 1 },
            Card { suit: 2, rank: 0 },
            Card { suit: 3, rank: 0 },
        ],
        0
    ));
    assert!(is_three_pair(
        &[
            Card { suit: 0, rank: 1 },
            Card { suit: 1, rank: 1 },
            Card { suit: 1, rank: 1 },
            Card { suit: 2, rank: 0 },
            Card { suit: 3, rank: 0 },
        ],
        1
    ));
    assert!(is_three_pair(
        &[
            Card { suit: 0, rank: 1 },
            Card { suit: 1, rank: 1 },
            Card { suit: 1, rank: 2 },
            Card { suit: 2, rank: 0 },
            Card { suit: 3, rank: 0 },
        ],
        1
    ));
    assert!(!is_three_pair(
        &[
            Card { suit: 1, rank: 1 },
            Card { suit: 2, rank: 0 },
            Card { suit: 3, rank: 0 },
        ],
        2
    ));
    assert!(is_three_pair(
        &[
            Card { suit: 0, rank: 1 },
            Card { suit: 1, rank: 1 },
            Card { suit: 2, rank: 0 },
            Card { suit: 3, rank: 0 },
        ],
        2
    ));
    assert!(is_three_pair(
        &[
            Card { suit: 0, rank: 1 },
            Card { suit: 1, rank: 2 },
            Card { suit: 2, rank: 0 },
            Card { suit: 3, rank: 0 },
        ],
        2
    ));
    assert!(!is_three_pair(&[], 5));
    assert!(is_three_pair(&[], 6));
}

#[test]
fn test_is_flush() {
    assert!(!is_flush(&[], 0, 5));
    assert!(!is_flush(&[Card { suit: 0, rank: 0 },], 0, 5));
    assert!(!is_flush(
        &[
            Card { suit: 0, rank: 0 },
            Card { suit: 0, rank: 0 },
            Card { suit: 0, rank: 0 },
            Card { suit: 0, rank: 0 },
        ],
        0,
        5
    ));
    assert!(is_flush(
        &[
            Card { suit: 0, rank: 0 },
            Card { suit: 0, rank: 0 },
            Card { suit: 0, rank: 1 },
            Card { suit: 0, rank: 0 },
            Card { suit: 0, rank: 0 },
        ],
        0,
        5
    ));
    assert!(!is_flush(
        &[
            Card { suit: 0, rank: 0 },
            Card { suit: 0, rank: 0 },
            Card { suit: 0, rank: 0 },
            Card { suit: 0, rank: 0 },
            Card { suit: 1, rank: 0 },
        ],
        0,
        5
    ));
    assert!(!is_flush(&[], 4, 5));
    assert!(is_flush(&[], 5, 5));
    assert!(is_flush(
        &[
            Card { suit: 0, rank: 0 },
            Card { suit: 0, rank: 0 },
            Card { suit: 0, rank: 0 },
            Card { suit: 0, rank: 0 },
            Card { suit: 1, rank: 0 },
        ],
        1,
        5
    ));
    assert!(is_flush(
        &[
            Card { suit: 0, rank: 0 },
            Card { suit: 0, rank: 0 },
            Card { suit: 0, rank: 0 },
            Card { suit: 1, rank: 0 },
        ],
        2,
        5
    ));
    assert!(!is_flush(
        &[
            Card { suit: 0, rank: 0 },
            Card { suit: 0, rank: 0 },
            Card { suit: 1, rank: 0 },
        ],
        2,
        5
    ));
    assert!(!is_flush(
        &[
            Card { suit: 0, rank: 0 },
            Card { suit: 0, rank: 0 },
            Card { suit: 0, rank: 0 },
            Card { suit: 0, rank: 1 },
            Card { suit: 0, rank: 2 },
        ],
        0,
        6
    ));
    assert!(is_flush(
        &[
            Card { suit: 0, rank: 0 },
            Card { suit: 0, rank: 0 },
            Card { suit: 0, rank: 0 },
            Card { suit: 0, rank: 1 },
            Card { suit: 0, rank: 2 },
            Card { suit: 0, rank: 3 },
        ],
        0,
        6
    ));
}

#[test]
fn test_is_straight() {
    assert!(!is_straight(&[], 0, 5));
    assert!(!is_straight(&[Card { suit: 0, rank: 0 },], 0, 5));

    assert!(!is_straight(
        &[
            Card { suit: 0, rank: 2 },
            Card { suit: 0, rank: 3 },
            Card { suit: 0, rank: 4 },
            Card { suit: 0, rank: 5 },
        ],
        0,
        5
    ));
    assert!(is_straight(
        &[
            Card { suit: 1, rank: R2 },
            Card { suit: 1, rank: R3 },
            Card { suit: 1, rank: R4 },
            Card { suit: 1, rank: R5 },
            Card { suit: 1, rank: R6 },
        ],
        0,
        5
    ));
    assert!(is_straight(
        &[
            Card { suit: 2, rank: R2 },
            Card { suit: 3, rank: R3 },
            Card { suit: 0, rank: R4 },
            Card { suit: 0, rank: R5 },
            Card { suit: 1, rank: R6 },
        ],
        0,
        5
    ));
    assert!(is_straight(
        &[
            Card { suit: 0, rank: R10 },
            Card { suit: 0, rank: RJ },
            Card { suit: 0, rank: RQ },
            Card { suit: 0, rank: RK },
            Card { suit: 0, rank: RA },
        ],
        0,
        5
    ));
    assert!(is_straight(
        &[
            Card { suit: 0, rank: RA },
            Card { suit: 0, rank: R2 },
            Card { suit: 0, rank: R3 },
            Card { suit: 0, rank: R4 },
            Card { suit: 0, rank: R5 },
        ],
        0,
        5
    ));
    assert!(!is_straight(
        &[
            Card { suit: 0, rank: RK },
            Card { suit: 0, rank: RA },
            Card { suit: 0, rank: R2 },
            Card { suit: 0, rank: R3 },
            Card { suit: 0, rank: R4 },
        ],
        0,
        5
    ));
    assert!(!is_straight(&[], 4, 5));
    assert!(is_straight(&[], 5, 5));
    assert!(is_straight(
        &[
            Card { suit: 0, rank: RA },
            Card { suit: 0, rank: R2 },
            Card { suit: 0, rank: R3 },
            Card { suit: 0, rank: R4 },
        ],
        1,
        5
    ));
    assert!(is_straight(
        &[
            Card { suit: 0, rank: R2 },
            Card { suit: 0, rank: R3 },
            Card { suit: 0, rank: R4 },
            Card { suit: 0, rank: R5 },
        ],
        1,
        5
    ));
    assert!(is_straight(
        &[
            Card { suit: 0, rank: R2 },
            Card { suit: 0, rank: R3 },
            Card { suit: 0, rank: R4 },
        ],
        2,
        5
    ));
    assert!(is_straight(
        &[
            Card { suit: 0, rank: R2 },
            Card { suit: 0, rank: R4 },
            Card { suit: 0, rank: R5 },
        ],
        2,
        5
    ));
    assert!(is_straight(
        &[
            Card { suit: 0, rank: R2 },
            Card { suit: 0, rank: R4 },
            Card { suit: 0, rank: R6 },
        ],
        2,
        5
    ));
    assert!(is_straight(
        &[Card { suit: 0, rank: R2 }, Card { suit: 0, rank: R6 },],
        3,
        5
    ));
    assert!(is_straight(
        &[Card { suit: 0, rank: R3 }, Card { suit: 0, rank: R6 },],
        3,
        5
    ));
    assert!(!is_straight(
        &[Card { suit: 0, rank: R3 }, Card { suit: 0, rank: R4 },],
        2,
        5
    ));
    assert!(is_straight(
        &[
            Card { suit: 0, rank: R10 },
            Card { suit: 0, rank: RJ },
            Card { suit: 0, rank: RK },
            Card { suit: 0, rank: RA },
        ],
        1,
        5
    ));
    assert!(is_straight(
        &[
            Card { suit: 0, rank: R10 },
            Card { suit: 0, rank: RJ },
            Card { suit: 0, rank: RQ },
            Card { suit: 0, rank: RK },
        ],
        1,
        5
    ));
    assert!(!is_straight(
        &[
            Card { suit: 0, rank: R9 },
            Card { suit: 0, rank: R10 },
            Card { suit: 0, rank: RJ },
            Card { suit: 0, rank: RQ },
            Card { suit: 0, rank: RK },
        ],
        0,
        6
    ));
    assert!(is_straight(
        &[
            Card { suit: 0, rank: R8 },
            Card { suit: 0, rank: R9 },
            Card { suit: 0, rank: R10 },
            Card { suit: 0, rank: RJ },
            Card { suit: 0, rank: RQ },
            Card { suit: 0, rank: RK },
        ],
        0,
        6
    ));
}

#[test]
fn test_is_straight_flush() {
    assert!(!is_straight_flush(&[], 0, 5));
    assert!(!is_straight_flush(&[Card { suit: 0, rank: 0 },], 0, 5));

    assert!(!is_straight_flush(
        &[
            Card { suit: 0, rank: 2 },
            Card { suit: 0, rank: 3 },
            Card { suit: 0, rank: 4 },
            Card { suit: 0, rank: 5 },
        ],
        0,
        5
    ));
    assert!(is_straight_flush(
        &[
            Card { suit: 1, rank: R2 },
            Card { suit: 1, rank: R3 },
            Card { suit: 1, rank: R4 },
            Card { suit: 1, rank: R5 },
            Card { suit: 1, rank: R6 },
        ],
        0,
        5
    ));
    assert!(!is_straight_flush(
        &[
            Card { suit: 2, rank: R2 },
            Card { suit: 3, rank: R3 },
            Card { suit: 0, rank: R4 },
            Card { suit: 0, rank: R5 },
            Card { suit: 1, rank: R6 },
        ],
        0,
        5
    ));
    assert!(is_straight_flush(
        &[
            Card { suit: 0, rank: R10 },
            Card { suit: 0, rank: RJ },
            Card { suit: 0, rank: RQ },
            Card { suit: 0, rank: RK },
            Card { suit: 0, rank: RA },
        ],
        0,
        5
    ));
    assert!(is_straight_flush(
        &[
            Card { suit: 0, rank: RA },
            Card { suit: 0, rank: R2 },
            Card { suit: 0, rank: R3 },
            Card { suit: 0, rank: R4 },
            Card { suit: 0, rank: R5 },
        ],
        0,
        5
    ));
    assert!(!is_straight_flush(
        &[
            Card { suit: 0, rank: RK },
            Card { suit: 0, rank: RA },
            Card { suit: 0, rank: R2 },
            Card { suit: 0, rank: R3 },
            Card { suit: 0, rank: R4 },
        ],
        0,
        5
    ));
    assert!(is_straight_flush(
        &[
            Card { suit: 1, rank: R4 },
            Card { suit: 0, rank: R5 },
            Card { suit: 0, rank: R6 },
            Card { suit: 0, rank: R7 },
            Card { suit: 0, rank: R8 },
            Card { suit: 0, rank: R9 },
        ],
        0,
        5
    ));
    assert!(!is_straight_flush(&[], 4, 5));
    assert!(is_straight_flush(&[], 5, 5));
    assert!(is_straight_flush(
        &[
            Card { suit: 0, rank: R5 },
            Card { suit: 0, rank: R6 },
            Card { suit: 1, rank: R7 },
            Card { suit: 0, rank: R8 },
            Card { suit: 0, rank: R9 },
        ],
        1,
        5
    ));
    assert!(!is_straight_flush(
        &[
            Card { suit: 0, rank: R5 },
            Card { suit: 0, rank: R6 },
            Card { suit: 1, rank: R7 },
            Card { suit: 1, rank: R8 },
            Card { suit: 0, rank: R9 },
        ],
        1,
        5
    ));
    assert!(!is_straight_flush(
        &[
            Card { suit: 0, rank: R5 },
            Card { suit: 0, rank: R6 },
            Card { suit: 1, rank: R9 },
        ],
        2,
        5
    ));
    assert!(is_straight_flush(
        &[
            Card { suit: 0, rank: R5 },
            Card { suit: 0, rank: R6 },
            Card { suit: 0, rank: R9 },
        ],
        2,
        5
    ));
    assert!(!is_straight_flush(
        &[
            Card { suit: 1, rank: R2 },
            Card { suit: 1, rank: R3 },
            Card { suit: 1, rank: R4 },
            Card { suit: 1, rank: R5 },
            Card { suit: 1, rank: R6 },
        ],
        0,
        6
    ));
    assert!(is_straight_flush(
        &[
            Card { suit: 1, rank: R2 },
            Card { suit: 1, rank: R3 },
            Card { suit: 1, rank: R4 },
            Card { suit: 1, rank: R5 },
            Card { suit: 1, rank: R6 },
            Card { suit: 1, rank: R7 },
        ],
        0,
        6
    ));
}

#[test]
fn test_is_flush_house() {
    assert!(!is_flush_house(&[], 0));
    assert!(is_flush_house(
        &[
            Card { suit: 0, rank: 1 },
            Card { suit: 0, rank: 1 },
            Card { suit: 0, rank: 1 },
            Card { suit: 0, rank: 1 },
            Card { suit: 0, rank: 1 },
        ],
        0
    ));
    assert!(is_flush_house(
        &[
            Card { suit: 0, rank: 1 },
            Card { suit: 0, rank: 1 },
            Card { suit: 0, rank: 2 },
            Card { suit: 0, rank: 2 },
            Card { suit: 0, rank: 2 },
        ],
        0
    ));
    assert!(!is_flush_house(
        &[
            Card { suit: 0, rank: 1 },
            Card { suit: 0, rank: 1 },
            Card { suit: 0, rank: 2 },
            Card { suit: 1, rank: 2 },
            Card { suit: 0, rank: 2 },
        ],
        0
    ));

    assert!(!is_flush_house(&[], 4));
    assert!(is_flush_house(&[], 5));
    assert!(is_flush_house(
        &[
            Card { suit: 0, rank: 1 },
            Card { suit: 0, rank: 1 },
            Card { suit: 0, rank: 2 },
            Card { suit: 0, rank: 2 },
        ],
        1
    ));
    assert!(!is_flush_house(
        &[
            Card { suit: 1, rank: 1 },
            Card { suit: 0, rank: 1 },
            Card { suit: 0, rank: 2 },
            Card { suit: 0, rank: 2 },
        ],
        1
    ));
    assert!(is_flush_house(
        &[
            Card { suit: 0, rank: 2 },
            Card { suit: 0, rank: 2 },
            Card { suit: 0, rank: 2 },
        ],
        2
    ));
    assert!(is_flush_house(
        &[
            Card { suit: 0, rank: 1 },
            Card { suit: 0, rank: 2 },
            Card { suit: 0, rank: 2 },
        ],
        2
    ));
}

#[test]
fn test_is_flush_n() {
    assert!(!is_flush_n(&[], 1, 0));
    assert!(is_flush_n(&[Card { suit: 0, rank: 1 },], 1, 0));
    assert!(is_flush_n(
        &[
            Card { suit: 0, rank: 1 },
            Card { suit: 0, rank: 1 },
            Card { suit: 0, rank: 1 },
            Card { suit: 0, rank: 1 },
        ],
        4,
        0
    ));
    assert!(!is_flush_n(
        &[
            Card { suit: 0, rank: 2 },
            Card { suit: 0, rank: 1 },
            Card { suit: 0, rank: 1 },
            Card { suit: 0, rank: 1 },
        ],
        4,
        0
    ));
    assert!(!is_flush_n(
        &[
            Card { suit: 2, rank: 1 },
            Card { suit: 0, rank: 1 },
            Card { suit: 0, rank: 1 },
            Card { suit: 0, rank: 1 },
        ],
        4,
        0
    ));
    assert!(is_flush_n(
        &[
            Card { suit: 0, rank: 1 },
            Card { suit: 0, rank: 1 },
            Card { suit: 0, rank: 1 },
        ],
        4,
        1
    ));
    assert!(!is_flush_n(
        &[
            Card { suit: 0, rank: 2 },
            Card { suit: 0, rank: 1 },
            Card { suit: 0, rank: 1 },
        ],
        4,
        1
    ));
}
