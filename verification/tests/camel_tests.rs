use advent2023::camel_cards::{card_side, total_winnings, Card, Hand, HandType, Side};
use std::cmp::Ordering;

fn hand(cards: &str, bid: u16) -> Hand {
    Hand { cards: cards.chars().map(|c| Card::parse(c).unwrap()).collect(), bid }
}

fn hands() -> Vec<Hand> {
    vec![
        hand("32T3K", 765),
        hand("T55J5", 684),
        hand("KK677", 28),
        hand("KTJJT", 220),
        hand("QQQJA", 483),
    ]
}

#[test]
fn winnings_are_6440() {
    assert_eq!(total_winnings(&hands(), false), Some(6440));
}

#[test]
fn winnings_with_jokers_are_5905() {
    assert_eq!(total_winnings(&hands(), true), Some(5905));
}

#[test]
fn winnings_match_a_sort() {
    let hs = hands();
    let mut sorted: Vec<&Hand> = hs.iter().collect();
    sorted.sort_by(|a, b| match b.get_type().cmp(&a.get_type()) {
        Ordering::Equal => b.partial_cmp(a).unwrap(),
        other => other,
    });
    let want: u64 = sorted.iter().enumerate().map(|(i, h)| (i as u64 + 1) * h.bid as u64).sum();
    assert_eq!(total_winnings(&hs, false), Some(want));
}

#[test]
fn hand_types() {
    assert_eq!(hand("AAAAA", 0).get_type(), HandType::FiveOfAKind);
    assert_eq!(hand("AA8AA", 0).get_type(), HandType::FourOfAKind);
    assert_eq!(hand("23332", 0).get_type(), HandType::FullHouse);
    assert_eq!(hand("TTT98", 0).get_type(), HandType::ThreeOfAKind);
    assert_eq!(hand("23432", 0).get_type(), HandType::TwoPair);
    assert_eq!(hand("A23A4", 0).get_type(), HandType::OnePair);
    assert_eq!(hand("23456", 0).get_type(), HandType::HighCard);
}

#[test]
fn hand_types_with_jokers() {
    assert_eq!(hand("32T3K", 0).get_part2_type(), HandType::OnePair);
    assert_eq!(hand("KK677", 0).get_part2_type(), HandType::TwoPair);
    assert_eq!(hand("T55J5", 0).get_part2_type(), HandType::FourOfAKind);
    assert_eq!(hand("KTJJT", 0).get_part2_type(), HandType::FourOfAKind);
    assert_eq!(hand("QQQJA", 0).get_part2_type(), HandType::FourOfAKind);
    assert_eq!(hand("JJJJJ", 0).get_part2_type(), HandType::FiveOfAKind);
    assert_eq!(hand("JJJJ2", 0).get_part2_type(), HandType::FiveOfAKind);
    assert_eq!(hand("2233J", 0).get_part2_type(), HandType::FullHouse);
    assert_eq!(hand("2345J", 0).get_part2_type(), HandType::OnePair);
    assert_eq!(hand("234JJ", 0).get_part2_type(), HandType::ThreeOfAKind);
    assert_eq!(hand("2344J", 0).get_part2_type(), HandType::ThreeOfAKind);
    assert_eq!(hand("23456", 0).get_part2_type(), HandType::HighCard);
}

#[test]
fn card_orders() {
    assert_eq!(Card::A.part2_cmp(&Card::K), Ordering::Less);
    assert_eq!(Card::J.part2_cmp(&Card::N2), Ordering::Greater);
    assert_eq!(Card::N2.part2_cmp(&Card::J), Ordering::Less);
    assert_eq!(Card::J.part2_cmp(&Card::J), Ordering::Equal);
    assert_eq!(Card::T.part2_cmp(&Card::N9), Ordering::Less);
    assert_eq!(card_side(&Card::J, &Card::N2, false), Side::Less);
    assert_eq!(card_side(&Card::J, &Card::N2, true), Side::Greater);
    assert_eq!(Card::parse('X'), None);
    assert_eq!(Card::parse('T'), Some(Card::T));
}

#[test]
fn hand_orders() {
    let a = hand("33332", 1);
    let b = hand("2AAAA", 2);
    assert_eq!(a.partial_cmp(&b), Some(Ordering::Less));
    assert_eq!(b.partial_cmp(&a), Some(Ordering::Greater));
    assert_eq!(a.partial_cmp(&a), Some(Ordering::Equal));
    assert!(a < b);
    let j = hand("JKKK2", 1);
    let q = hand("QQQQ2", 1);
    assert_eq!(j.partial_cmp(&q), Some(Ordering::Greater));
    assert_eq!(j.part2_cmp(&q), Some(Ordering::Greater));
    let k = hand("KJJJ2", 1);
    let t = hand("KTTT2", 1);
    assert_eq!(k.partial_cmp(&t), Some(Ordering::Less));
    assert_eq!(k.part2_cmp(&t), Some(Ordering::Greater));
    assert_eq!(j.side(&q, true), Side::Greater);
    assert_eq!(hand("2222J", 0).side(&hand("AAAKK", 0), true), Side::Less);
    assert_eq!(hand("2222J", 0).side(&hand("AAAKK", 0), false), Side::Less);
}

#[test]
fn equal_hands_rank_in_the_order_given() {
    let hs = vec![hand("23456", 10), hand("23456", 1)];
    assert_eq!(total_winnings(&hs, false), Some(10 * 1 + 1 * 2));
    assert_eq!(total_winnings(&Vec::new(), false), Some(0));
}
