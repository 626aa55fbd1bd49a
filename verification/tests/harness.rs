use poker_odds::card::Card;
use poker_odds::deck::{build_deck, split_hand, CardOrJoker};
use poker_odds::kinds::{is_full_house, is_n_of_a_kind};
use poker_odds::report::{name_width, report_order};
use poker_odds::sample::{run_batch, sample_hand, sample_hands, BATCH};
use poker_odds::straight::is_straight;
use poker_odds::suited::is_straight_flush;
use poker_odds::tally::{
    any_overlap, check_config, hand_counts, tally_hand, Category, ConfigError, HandCount,
};

fn card(suit: u8, rank: u8) -> Card {
    Card { suit, rank }
}

fn entry(name: &'static str, count: u64) -> HandCount {
    HandCount { name, count, category: Category::TwoPair }
}

/// Whether the intervals of the two shares meet, computed in floating point;
/// `None` where the two are too close to call.
fn float_overlap(total: u64, c1: u64, c2: u64) -> Option<bool> {
    if c1 == 0 || c2 == 0 {
        return Some(false);
    }
    let n = total as f64;
    let share1 = c1 as f64 / n;
    let share2 = c2 as f64 / n;
    let reach1 = 3.0 * (share1 * (1.0 - share1) / n).sqrt();
    let reach2 = 3.0 * (share2 * (1.0 - share2) / n).sqrt();
    let margin = (reach1 + reach2) - (share1 - share2).abs();
    if margin.abs() < 1e-9 * (reach1 + reach2 + (share1 - share2).abs()) {
        return None;
    }
    Some(share1 - reach1 <= share2 + reach2 && share2 - reach2 <= share1 + reach1)
}

#[test]
fn deck_holds_every_card_once_per_sub_deck() {
    let deck = build_deck(2, 3);
    assert_eq!(107, deck.len());
    assert!(deck[0] == CardOrJoker::Card(card(0, 0)));
    assert!(deck[1] == CardOrJoker::Card(card(0, 1)));
    assert!(deck[12] == CardOrJoker::Card(card(0, 12)));
    assert!(deck[13] == CardOrJoker::Card(card(1, 0)));
    assert!(deck[51] == CardOrJoker::Card(card(3, 12)));
    assert!(deck[52] == CardOrJoker::Card(card(0, 0)));
    assert!(deck[103] == CardOrJoker::Card(card(3, 12)));
    assert!(deck[104] == CardOrJoker::Joker);
    assert!(deck[106] == CardOrJoker::Joker);
    for suit in 0..4u8 {
        for rank in 0..13u8 {
            let wanted = CardOrJoker::Card(card(suit, rank));
            assert_eq!(2, deck.iter().filter(|item| **item == wanted).count());
        }
    }
    assert_eq!(3, deck.iter().filter(|item| **item == CardOrJoker::Joker).count());
}

#[test]
fn deck_without_cards_or_jokers() {
    assert!(build_deck(0, 0).is_empty());
    assert_eq!(52, build_deck(1, 0).len());
    let jokers = build_deck(0, 255);
    assert_eq!(255, jokers.len());
    assert!(jokers.iter().all(|item| *item == CardOrJoker::Joker));
}

#[test]
fn split_hand_parts_cards_and_jokers() {
    let hand = [
        CardOrJoker::Joker,
        CardOrJoker::Card(card(1, 4)),
        CardOrJoker::Card(card(0, 12)),
        CardOrJoker::Joker,
        CardOrJoker::Card(card(3, 4)),
    ];
    let (cards, jokers) = split_hand(&hand);
    assert_eq!(2, jokers);
    assert!(cards.as_slice() == [card(1, 4), card(0, 12), card(3, 4)]);
    let (none, zero) = split_hand(&[]);
    assert!(none.is_empty());
    assert_eq!(0, zero);
    let (none, twelve) = split_hand(&[CardOrJoker::Joker; 12]);
    assert!(none.is_empty());
    assert_eq!(12, twelve);
    let full = [CardOrJoker::Card(card(2, 7)); 12];
    let (all, zero) = split_hand(&full);
    assert_eq!(12, all.len());
    assert_eq!(0, zero);
}

#[test]
fn config_refuses_too_many_cards_first() {
    assert!(check_config(7, 5) == Ok(()));
    assert!(check_config(12, 6) == Ok(()));
    assert!(check_config(0, 5) == Ok(()));
    assert!(check_config(13, 5) == Err(ConfigError::TooManyCards));
    assert!(check_config(13, 7) == Err(ConfigError::TooManyCards));
    assert!(check_config(7, 7) == Err(ConfigError::UnsupportedHandSize));
    assert!(check_config(12, 4) == Err(ConfigError::UnsupportedHandSize));
    assert!(check_config(5, 0) == Err(ConfigError::UnsupportedHandSize));
}

#[test]
fn catalog_follows_the_hand_size() {
    let names = |hand_size: usize| -> Vec<&'static str> {
        hand_counts(hand_size).iter().map(|entry| entry.name).collect()
    };
    let base = vec!["Pair", "3oak", "4oak", "5oak", "2 pair"];
    assert_eq!(base, names(7));
    assert_eq!(base, names(0));
    let mut five = base.clone();
    five.extend(["Full House", "Flush House", "Strt Flush", "Flush 5"]);
    assert_eq!(five, names(5));
    let mut six = base.clone();
    six.extend([
        "3 pair",
        "6oak",
        "2 triplet",
        "Straight",
        "Flush",
        "Full Mansion",
        "Strt Flush",
        "Flush 6",
    ]);
    assert_eq!(six, names(6));
    for hand_size in [5usize, 6, 7] {
        assert!(hand_counts(hand_size).iter().all(|entry| entry.count == 0));
    }
    let five = hand_counts(5);
    assert!(five[0].category == Category::NOfAKind(2));
    assert!(five[4].category == Category::TwoPair);
    assert!(five[7].category == Category::StraightFlush(5));
    assert!(five[8].category == Category::FlushN(5));
    let six = hand_counts(6);
    assert!(six[3].category == Category::NOfAKind(5));
    assert!(six[5].category == Category::ThreePair);
    assert!(six[6].category == Category::NOfAKind(6));
    assert!(six[7].category == Category::TwoTriplet);
    assert!(six[8].category == Category::Straight(6));
    assert!(six[9].category == Category::Flush(6));
    assert!(six[10].category == Category::FullMansion);
    assert!(six[11].category == Category::StraightFlush(6));
    assert!(six[12].category == Category::FlushN(6));
}

#[test]
fn categories_evaluate_their_predicates() {
    let hand = [card(1, 0), card(1, 1), card(1, 2), card(1, 3), card(1, 4), card(0, 4)];
    assert!(Category::Straight(5).evaluate(&hand, 0));
    assert_eq!(is_straight(&hand, 0, 6), Category::Straight(6).evaluate(&hand, 0));
    assert!(Category::StraightFlush(5).evaluate(&hand, 0));
    assert_eq!(is_straight_flush(&hand, 1, 6), Category::StraightFlush(6).evaluate(&hand, 1));
    assert!(Category::NOfAKind(2).evaluate(&hand, 0));
    assert_eq!(is_n_of_a_kind(&hand, 3, 0), Category::NOfAKind(3).evaluate(&hand, 0));
    assert!(Category::Flush(5).evaluate(&hand, 0));
    assert!(!Category::Flush(6).evaluate(&hand, 0));
    assert!(Category::FlushN(2).evaluate(&hand, 1));
    assert!(!Category::FlushN(2).evaluate(&hand, 0));
    assert!(!Category::TwoPair.evaluate(&hand, 0));
    assert!(Category::TwoPair.evaluate(&hand, 1));
    assert!(Category::ThreePair.evaluate(&hand, 2));
    assert_eq!(is_full_house(&hand, 2), Category::FullHouse.evaluate(&hand, 2));
    assert!(Category::TwoTriplet.evaluate(&hand, 3));
    assert!(!Category::TwoTriplet.evaluate(&hand, 2));
    assert!(Category::FullMansion.evaluate(&hand, 3));
    assert!(!Category::FullMansion.evaluate(&hand, 2));
    assert!(Category::FlushHouse.evaluate(&hand, 3));
    assert!(!Category::FlushHouse.evaluate(&hand, 2));
}

#[test]
fn tally_counts_the_categories_that_hold() {
    let mut counts = hand_counts(5);
    let full_house = [card(0, 1), card(1, 1), card(2, 0), card(3, 0), card(3, 0)];
    tally_hand(&mut counts, &full_house, 0);
    let got: Vec<u64> = counts.iter().map(|entry| entry.count).collect();
    assert_eq!(vec![1, 1, 0, 0, 1, 1, 0, 0, 0], got);
    tally_hand(&mut counts, &[card(2, 5)], 4);
    let got: Vec<u64> = counts.iter().map(|entry| entry.count).collect();
    assert_eq!(vec![2, 2, 1, 1, 2, 2, 1, 1, 1], got);
    tally_hand(&mut counts, &[], 0);
    let got: Vec<u64> = counts.iter().map(|entry| entry.count).collect();
    assert_eq!(vec![2, 2, 1, 1, 2, 2, 1, 1, 1], got);
    assert_eq!("Flush House", counts[6].name);
    assert!(counts[6].category == Category::FlushHouse);
}

#[test]
fn tally_stops_at_the_largest_count() {
    let mut counts = vec![
        HandCount { name: "Pair", count: u64::MAX, category: Category::NOfAKind(2) },
        HandCount { name: "3oak", count: u64::MAX - 1, category: Category::NOfAKind(3) },
    ];
    tally_hand(&mut counts, &[card(0, 0), card(1, 0), card(2, 0)], 0);
    assert_eq!(u64::MAX, counts[0].count);
    assert_eq!(u64::MAX, counts[1].count);
}

#[test]
fn new_count_starts_at_zero() {
    let fresh = HandCount::new("Straight", Category::Straight(6));
    assert_eq!("Straight", fresh.name);
    assert_eq!(0, fresh.count);
    assert!(fresh.category == Category::Straight(6));
}

#[test]
fn overlap_of_intervals_on_exact_values() {
    let total = 1_000_000;
    assert!(entry("a", 500_000).overlap(total, &entry("b", 500_000)));
    assert!(entry("a", 500_000).overlap(total, &entry("b", 497_100)));
    assert!(entry("a", 500_000).overlap(total, &entry("b", 497_001)));
    assert!(!entry("a", 500_000).overlap(total, &entry("b", 497_000)));
    assert!(!entry("a", 497_000).overlap(total, &entry("b", 500_000)));
    assert!(entry("a", 1_000).overlap(total, &entry("b", 820)));
    assert!(!entry("a", 1_000).overlap(total, &entry("b", 819)));
    assert!(entry("a", 1).overlap(total, &entry("b", 15)));
    assert!(!entry("a", 1).overlap(total, &entry("b", 16)));
    assert!(entry("a", 15).overlap(total, &entry("b", 1)));
}

#[test]
fn overlap_where_the_intervals_just_touch() {
    assert!(entry("a", 12).overlap(18, &entry("b", 2)));
    assert!(entry("a", 2).overlap(18, &entry("b", 12)));
    assert!(!entry("a", 12).overlap(18, &entry("b", 1)));
    assert!(!entry("a", 13).overlap(18, &entry("b", 2)));
    assert!(entry("a", 12).overlap(18, &entry("b", 3)));
    assert!(entry("a", 48).overlap(72, &entry("b", 24)));
    assert!(!entry("a", 49).overlap(72, &entry("b", 24)));
    assert!(!entry("a", 48).overlap(72, &entry("b", 23)));
}

#[test]
fn overlap_needs_counts_between_one_and_the_total() {
    assert!(!entry("a", 0).overlap(100, &entry("b", 0)));
    assert!(!entry("a", 0).overlap(100, &entry("b", 50)));
    assert!(!entry("a", 50).overlap(100, &entry("b", 0)));
    assert!(!entry("a", 101).overlap(100, &entry("b", 100)));
    assert!(!entry("a", 100).overlap(100, &entry("b", 101)));
    assert!(!entry("a", 1).overlap(0, &entry("b", 1)));
    assert!(entry("a", 100).overlap(100, &entry("b", 100)));
    assert!(entry("a", 1).overlap(1, &entry("b", 1)));
    assert!(entry("a", 100).overlap(100, &entry("b", 92)));
    assert!(!entry("a", 100).overlap(100, &entry("b", 91)));
}

#[test]
fn overlap_on_the_largest_totals() {
    let total = u64::MAX;
    let half = 9_223_372_036_854_775_807;
    assert!(entry("a", half).overlap(total, &entry("b", half)));
    assert!(entry("a", half).overlap(total, &entry("b", 9_223_372_023_969_873_920)));
    assert!(!entry("a", half).overlap(total, &entry("b", 9_223_372_023_969_873_919)));
    assert!(!entry("a", 9_223_372_023_969_873_919).overlap(total, &entry("b", half)));
    assert!(entry("a", total).overlap(total, &entry("b", total)));
    assert!(entry("a", total).overlap(total, &entry("b", total - 8)));
    assert!(!entry("a", total).overlap(total, &entry("b", total - 9)));
    assert!(entry("a", 1).overlap(total, &entry("b", 15)));
    assert!(!entry("a", 1).overlap(total, &entry("b", 16)));
    assert!(!entry("a", 1).overlap(total, &entry("b", total)));
    assert!(!entry("a", total).overlap(total, &entry("b", 1)));
}

#[test]
fn overlap_agrees_with_floating_point_intervals() {
    let mut state: u64 = 0x2545_f491_4f6c_dd1d;
    let mut next = move || {
        state ^= state << 13;
        state ^= state >> 7;
        state ^= state << 17;
        state
    };
    let mut compared = 0;
    for round in 0..20_000u64 {
        let total = 1 + next() % 10u64.pow(1 + (round % 12) as u32);
        let c1 = next() % (total + 1);
        let spread = 4 * (total as f64).sqrt() as u64 + 2;
        let c2 = (c1 + next() % spread).min(total).saturating_sub(next() % spread);
        if let Some(expected) = float_overlap(total, c1, c2) {
            assert_eq!(expected, entry("a", c1).overlap(total, &entry("b", c2)));
            assert_eq!(expected, entry("b", c2).overlap(total, &entry("a", c1)));
            compared += 1;
        }
    }
    assert!(compared > 19_000);
}

#[test]
fn any_overlap_looks_at_every_pair() {
    let total = 1_000_000;
    let apart = [entry("a", 500_000), entry("b", 400_000), entry("c", 300_000)];
    assert!(!any_overlap(&apart, total));
    let last_two = [entry("a", 500_000), entry("b", 400_000), entry("c", 399_000)];
    assert!(any_overlap(&last_two, total));
    let first_and_last = [entry("a", 500_000), entry("b", 400_000), entry("c", 499_000)];
    assert!(any_overlap(&first_and_last, total));
    let with_zero = [entry("a", 0), entry("b", 400_000), entry("c", 0)];
    assert!(!any_overlap(&with_zero, total));
    assert!(!any_overlap(&[], total));
    assert!(!any_overlap(&[entry("a", 5)], total));
    assert!(any_overlap(&[entry("a", 5), entry("b", 5)], total));
    assert!(!any_overlap(&hand_counts(6), total));
}

#[test]
fn hands_of_jokers_are_tallied_alike() {
    let deck = build_deck(0, 12);
    let mut rng = rand::thread_rng();
    let mut counts = hand_counts(5);
    sample_hands(&deck, &mut rng, 5, &mut counts, 10);
    for entry in &counts {
        assert_eq!(10, entry.count);
    }
    let mut counts = hand_counts(6);
    sample_hands(&deck, &mut rng, 5, &mut counts, 7);
    let got: Vec<u64> = counts.iter().map(|entry| entry.count).collect();
    assert_eq!(vec![7, 7, 7, 7, 7, 0, 0, 0, 0, 0, 0, 0, 0], got);
    sample_hand(&deck, &mut rng, 6, &mut counts);
    let got: Vec<u64> = counts.iter().map(|entry| entry.count).collect();
    assert_eq!(vec![8, 8, 8, 8, 8, 1, 1, 1, 1, 1, 1, 1, 1], got);
}

#[test]
fn hands_of_one_suit_are_flushes() {
    let deck: Vec<CardOrJoker> = (0..13u8).map(|rank| CardOrJoker::Card(card(2, rank))).collect();
    let mut rng = rand::thread_rng();
    let mut counts = vec![
        HandCount::new("Flush", Category::Flush(5)),
        HandCount::new("Pair", Category::NOfAKind(2)),
        HandCount::new("One", Category::NOfAKind(1)),
        HandCount::new("Straight", Category::Straight(5)),
    ];
    sample_hands(&deck, &mut rng, 5, &mut counts, 200);
    assert_eq!(200, counts[0].count);
    assert_eq!(0, counts[1].count);
    assert_eq!(200, counts[2].count);
    assert!(counts[3].count <= 200);
    let whole_deck = [
        HandCount::new("Straight", Category::Straight(12)),
        HandCount::new("Thirteen", Category::Straight(13)),
    ];
    let mut counts = whole_deck.to_vec();
    sample_hands(&deck[1..], &mut rng, 12, &mut counts, 3);
    assert_eq!(3, counts[0].count);
    assert_eq!(0, counts[1].count);
}

#[test]
fn sampling_keeps_names_and_bounds() {
    let deck = build_deck(1, 2);
    let mut rng = rand::thread_rng();
    let mut counts = hand_counts(6);
    sample_hands(&deck, &mut rng, 7, &mut counts, 500);
    let fresh = hand_counts(6);
    assert_eq!(fresh.len(), counts.len());
    for (before, after) in fresh.iter().zip(counts.iter()) {
        assert_eq!(before.name, after.name);
        assert!(before.category == after.category);
        assert!(after.count <= 500);
    }
    assert!(counts[0].count > 0);
    assert!(counts[0].count >= counts[1].count);
    assert!(counts[1].count >= counts[2].count);
    sample_hands(&deck, &mut rng, 7, &mut counts, 0);
    sample_hands(&[], &mut rng, 7, &mut counts, 5);
    assert!(counts[0].count <= 500);
    assert_eq!(1_000_000, BATCH);
}

#[test]
fn report_lists_high_counts_first() {
    let counts = [
        entry("Pair", 70),
        entry("3oak", 20),
        entry("4oak", 5),
        entry("5oak", 5),
        entry("2 pair", 20),
        entry("Flush", 0),
    ];
    assert_eq!(vec![0, 1, 4, 3, 2, 5], report_order(&counts));
    assert_eq!(6, name_width(&counts));
}

#[test]
fn report_breaks_ties_by_name_then_by_place() {
    let counts = [
        entry("Strt Flush", 3),
        entry("Straight", 3),
        entry("Str", 3),
        entry("Strt Flush", 3),
        entry("", 3),
        entry("strt", 3),
        entry("Z", 4),
    ];
    assert_eq!(vec![6, 5, 3, 0, 1, 2, 4], report_order(&counts));
    assert_eq!(10, name_width(&counts));
    assert!(report_order(&[]).is_empty());
    assert_eq!(0, name_width(&[]));
    assert_eq!(vec![0], report_order(&[entry("Pair", 1)]));
}

#[test]
fn report_order_matches_a_sort_by_count_and_name() {
    let mut counts = hand_counts(6);
    let values = [5u64, 9, 5, 0, 9, 1, 1, 7, 5, 0, 9, 3, 1];
    for (entry, value) in counts.iter_mut().zip(values) {
        entry.count = value;
    }
    let mut expected: Vec<usize> = (0..counts.len()).collect();
    expected.sort_by_key(|&i| (counts[i].count, counts[i].name));
    expected.reverse();
    assert_eq!(expected, report_order(&counts));
    assert_eq!(12, name_width(&counts));
}

#[test]
fn a_batch_counts_a_million_hands() {
    let deck = build_deck(0, 3);
    let mut rng = rand::thread_rng();
    let mut counts = vec![
        HandCount::new("Pair", Category::NOfAKind(2)),
        HandCount::new("3oak", Category::NOfAKind(3)),
        HandCount::new("4oak", Category::NOfAKind(4)),
    ];
    let mut num_iters = 0;
    assert!(run_batch(&deck, &mut rng, 3, &mut counts, &mut num_iters));
    assert_eq!(BATCH, num_iters);
    assert_eq!(BATCH, counts[0].count);
    assert_eq!(BATCH, counts[1].count);
    assert_eq!(0, counts[2].count);
    let mut counts = vec![HandCount::new("Pair", Category::NOfAKind(2))];
    let mut num_iters = u64::MAX - 5;
    assert!(!run_batch(&[], &mut rng, 3, &mut counts, &mut num_iters));
    assert_eq!(u64::MAX, num_iters);
    assert_eq!(0, counts[0].count);
}
