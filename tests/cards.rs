use aoc2023::camel::{Card, Hand, HandType, IdentifiedHand, Puzzle, RankedHand};
use std::cmp::Ordering;

fn hand_type(s: &str) -> HandType {
    Hand::from_string(s.to_string()).identify().hand_type
}

#[test]
fn test_ranking() {}

#[test]
fn day7_test_common() {
    assert_eq!(hand_type("KKKKK 123"), HandType::FiveOfAKind);
    assert_eq!(hand_type("KKKKA 123"), HandType::FourOfAKind);
    assert_eq!(hand_type("KKKAA 123"), HandType::FullHouse);
    assert_eq!(hand_type("KKKAQ 123"), HandType::ThreeOfAKind);
    assert_eq!(hand_type("KTJJT 123"), HandType::TwoPair);
    assert_eq!(hand_type("KKAJQ 123"), HandType::OnePair);
    assert_eq!(hand_type("KTAJQ 123"), HandType::HighCard);

    let h1 = Hand::from_string("22222 123".to_string());
    let h2 = Hand::from_string("11111 123".to_string());
    let h3 = Hand::from_string("33333 123".to_string());
    let hand_1 = IdentifiedHand { hand: &h1, hand_type: HandType::HighCard };
    let hand_2 = IdentifiedHand { hand: &h2, hand_type: HandType::HighCard };
    let hand_3 = IdentifiedHand { hand: &h3, hand_type: HandType::HighCard };
    assert_eq!(hand_1.compare(&hand_1), Ordering::Equal);
    assert_eq!(hand_1.compare(&hand_2), Ordering::Greater);
    assert_eq!(hand_1.compare(&hand_3), Ordering::Less);

    let a = Hand::from_string("KK677 28".to_string());
    let b = Hand::from_string("KTJJT 220".to_string());
    assert_eq!(
        IdentifiedHand { hand: &a, hand_type: HandType::HighCard }
            .compare(&IdentifiedHand { hand: &b, hand_type: HandType::HighCard }),
        Ordering::Greater
    );

    let a = Hand::from_string("JJJJJ 666".to_string());
    let b = Hand::from_string("99979 459".to_string());
    assert_eq!(
        IdentifiedHand { hand: &a, hand_type: HandType::FiveOfAKind }
            .compare(&IdentifiedHand { hand: &b, hand_type: HandType::FourOfAKind }),
        Ordering::Greater
    );

    let a = Hand::from_string("99959 922".to_string());
    let b = Hand::from_string("99899 277".to_string());
    assert_eq!(
        IdentifiedHand { hand: &a, hand_type: HandType::FourOfAKind }
            .compare(&IdentifiedHand { hand: &b, hand_type: HandType::FourOfAKind }),
        Ordering::Greater
    );

    let a = Hand::from_string("99J99 377".to_string());
    let b = Hand::from_string("99899 288".to_string());
    assert_eq!(
        IdentifiedHand { hand: &a, hand_type: HandType::FourOfAKind }
            .compare(&IdentifiedHand { hand: &b, hand_type: HandType::FourOfAKind }),
        Ordering::Greater
    );
}

#[test]
fn test_joker() {
    assert_eq!(hand_type("*KKKK 123"), HandType::FiveOfAKind);
    assert_eq!(hand_type("1*KKK 123"), HandType::FourOfAKind);
    assert_eq!(hand_type("11*KK 123"), HandType::FullHouse);
    assert_eq!(hand_type("12*KK 123"), HandType::ThreeOfAKind);
    assert_eq!(hand_type("12**K 123"), HandType::ThreeOfAKind);
    assert_eq!(hand_type("12*** 123"), HandType::FourOfAKind);
    assert_eq!(hand_type("1**** 123"), HandType::FiveOfAKind);
    assert_eq!(hand_type("***** 123"), HandType::FiveOfAKind);
}

#[test]
fn cards_and_bids_are_read() {
    let h = Hand::from_string("T9*AQ 4077".to_string());
    assert_eq!(h.bid, 4077);
    let strengths: Vec<u32> = h.cards.iter().map(|c| c.strength).collect();
    assert_eq!(strengths, vec![10, 9, 1, 14, 12]);
    assert_eq!(Card::new('K').strength, 13);
    assert_eq!(Card::new('7').strength, 7);
}

#[test]
fn winnings_are_bid_times_rank() {
    let h = Hand::from_string("32T3K 765".to_string());
    let id = h.identify();
    assert_eq!(id.hand_type, HandType::OnePair);
    assert_eq!(RankedHand { identified_hand: &id, rank: 3 }.winnings(), 2295);
}

#[test]
fn jokers_replace_j_when_loading() {
    let text = "32T3K 765\nT55J5 684\nKK677 28\nKTJJT 220\nQQQJA 483\n";
    let plain = Puzzle::load(text.to_string());
    assert_eq!(plain.hands.len(), 5);
    assert_eq!(plain.hands[1].identify().hand_type, HandType::ThreeOfAKind);
    let jokers = Puzzle::load_pt2(text.to_string());
    assert_eq!(jokers.hands[1].identify().hand_type, HandType::FourOfAKind);
    assert_eq!(jokers.hands[3].identify().hand_type, HandType::FourOfAKind);
    assert_eq!(jokers.hands[3].cards[2].label, '*');
    assert_eq!(jokers.hands[4].bid, 483);
}

const CAMEL: &str = "32T3K 765\nT55J5 684\nKK677 28\nKTJJT 220\nQQQJA 483\n";

#[test]
fn day7_test_part1() {
    assert_eq!(Puzzle::load(CAMEL.to_string()).total_winnings(), 6440);
}

#[test]
fn day7_test_part2() {
    assert_eq!(Puzzle::load_pt2(CAMEL.to_string()).total_winnings(), 5905);
}
