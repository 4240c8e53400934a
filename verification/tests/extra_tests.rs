use advent2023::almanac::{comes_first, find_block, has_title, parse_range_map, parse_titled_map, Range};
use advent2023::calibration::{parse_document, NumberType};
use advent2023::camel_cards::{Card, Hand, HandType, Side};
use advent2023::camel_order::to_ordering;
use advent2023::counting::filled;
use advent2023::glyphs::FromLine;
use advent2023::crucible::{perpendicular, APos, Data, Policy};
use advent2023::grid::Direction;
use advent2023::lagoon::{direction_of_digit, direction_of_letter};
use advent2023::mirrors::parse_pattern;
use advent2023::springs::Record;
use advent2023::text::{numbers_up_to, split_blocks};
use std::cmp::Ordering;
use std::collections::HashMap;

#[test]
fn documents_are_read_line_by_line() {
    let lines = parse_document(b"1abc2\n\nfour");
    assert_eq!(
        lines,
        vec![
            vec![NumberType::Digit(1), NumberType::Digit(2)],
            vec![],
            vec![NumberType::Spelled(4)]
        ]
    );
    assert_eq!(parse_document(b""), Vec::<Vec<NumberType>>::new());
}

#[test]
fn ranks_follow_the_order_of_strength() {
    let cards = [
        Card::A,
        Card::K,
        Card::Q,
        Card::J,
        Card::T,
        Card::N9,
        Card::N8,
        Card::N7,
        Card::N6,
        Card::N5,
        Card::N4,
        Card::N3,
        Card::N2,
    ];
    for (i, c) in cards.iter().enumerate() {
        assert_eq!(c.rank(), i);
    }
    let types = [
        HandType::FiveOfAKind,
        HandType::FourOfAKind,
        HandType::FullHouse,
        HandType::ThreeOfAKind,
        HandType::TwoPair,
        HandType::OnePair,
        HandType::HighCard,
    ];
    for (i, t) in types.iter().enumerate() {
        assert_eq!(t.rank() as usize, i);
    }
    assert_eq!(to_ordering(Side::Less), Ordering::Less);
    assert_eq!(to_ordering(Side::Equal), Ordering::Equal);
    assert_eq!(to_ordering(Side::Greater), Ordering::Greater);
}

#[test]
fn tallies_count_every_rank() {
    let hand = Hand { cards: vec![Card::K, Card::T, Card::J, Card::J, Card::T], bid: 0 };
    let tally = hand.tally();
    assert_eq!(tally.len(), 13);
    assert_eq!(tally[1], 1);
    assert_eq!(tally[3], 2);
    assert_eq!(tally[4], 2);
    assert_eq!(tally.iter().sum::<usize>(), 5);
    let other = Hand { cards: vec![Card::K, Card::T, Card::J, Card::Q, Card::T], bid: 9 };
    assert_eq!(hand.cards_side(&other, false), Side::Greater);
    assert_eq!(hand.cards_side(&other, true), Side::Greater);
    assert_eq!(other.cards_side(&hand, false), Side::Less);
    assert_eq!(hand.cards_side(&hand, true), Side::Equal);
    let short = Hand { cards: vec![Card::K, Card::T], bid: 0 };
    assert_eq!(hand.cards_side(&short, false), Side::Equal);
}

#[test]
fn quarter_turns_and_steps() {
    assert_eq!(perpendicular(Direction::East), (Direction::North, Direction::South));
    assert_eq!(perpendicular(Direction::West), (Direction::North, Direction::South));
    assert_eq!(perpendicular(Direction::North), (Direction::West, Direction::East));
    assert_eq!(perpendicular(Direction::South), (Direction::West, Direction::East));
    let grid = Data::parse("123\n456").unwrap();
    let a = Policy::policy_a();
    let s = APos(1, 0, Direction::East, 3, 2);
    assert_eq!(grid.step(&a, &s, Direction::East), None);
    assert_eq!(grid.step(&a, &s, Direction::West), None);
    assert_eq!(grid.step(&a, &s, Direction::North), None);
    assert_eq!(grid.step(&a, &s, Direction::South), Some(APos(1, 1, Direction::South, 1, 5)));
    let t = APos(1, 0, Direction::East, 2, 2);
    assert_eq!(grid.step(&a, &t, Direction::East), Some(APos(2, 0, Direction::East, 3, 3)));
    assert_eq!(grid.neighbours(&a, &t), grid.get_neighbours_a(&t));
    let b = Policy::policy_b();
    assert_eq!(grid.neighbours(&b, &t), grid.get_neighbours_b(&t));
    let none = Policy { min_run: 0, max_run: 0 };
    assert_eq!(grid.neighbours(&none, &APos(0, 0, Direction::East, 0, 0)), vec![]);
    let off = APos(7, 7, Direction::East, 0, 0);
    assert_eq!(grid.neighbours(&a, &off), vec![]);
}

#[test]
fn dig_plan_letters_and_digits() {
    assert_eq!(direction_of_letter(b'U'), Some(Direction::North));
    assert_eq!(direction_of_letter(b'R'), Some(Direction::East));
    assert_eq!(direction_of_letter(b'D'), Some(Direction::South));
    assert_eq!(direction_of_letter(b'L'), Some(Direction::West));
    assert_eq!(direction_of_letter(b'x'), None);
    assert_eq!(direction_of_digit(b'0'), Some(Direction::East));
    assert_eq!(direction_of_digit(b'1'), Some(Direction::South));
    assert_eq!(direction_of_digit(b'2'), Some(Direction::West));
    assert_eq!(direction_of_digit(b'3'), Some(Direction::North));
    assert_eq!(direction_of_digit(b'4'), None);
}

#[test]
fn maps_are_found_by_their_titles() {
    let text = b"seeds: 1\n\nwater-to-light map:\n3 2 1\n9 0 1\n\nsoil-to-fertilizer map:\n\nwater-to-light map:\n7 8 9\n";
    let blocks = split_blocks(text);
    assert_eq!(blocks.len(), 4);
    assert_eq!(find_block(&blocks, 3), Some(3));
    assert_eq!(find_block(&blocks, 1), Some(2));
    assert_eq!(find_block(&blocks, 0), None);
    assert!(has_title(b"seed-to-soil map:", 0));
    assert!(has_title(b"soil-to-fertilizer map:", 1));
    assert!(has_title(b"fertilizer-to-water map:", 2));
    assert!(has_title(b"water-to-light map:", 3));
    assert!(has_title(b"light-to-temperature map:", 4));
    assert!(has_title(b"temperature-to-humidity map:", 5));
    assert!(has_title(b"humidity-to-location map:", 6));
    assert!(!has_title(b"humidity-to-location map", 6));
    assert!(!has_title(b"seed-to-soil map:", 1));
    let map = parse_titled_map(&blocks, 3).unwrap();
    assert_eq!(map.0, vec![Range { source_start: 8, destination_start: 7, length: 9 }]);
    let first = parse_range_map(&blocks[1]).unwrap();
    assert_eq!(
        first.0,
        vec![
            Range { source_start: 0, destination_start: 9, length: 1 },
            Range { source_start: 2, destination_start: 3, length: 1 }
        ]
    );
    assert_eq!(parse_titled_map(&blocks, 1).unwrap().0, vec![]);
    assert!(parse_titled_map(&blocks, 0).is_none());
    assert!(parse_range_map(&Vec::new()).is_none());
    assert!(parse_range_map(&vec![b"title".to_vec(), b"1 2".to_vec()]).is_none());
    let a = Range { source_start: 1, destination_start: 5, length: 2 };
    let b = Range { source_start: 1, destination_start: 5, length: 3 };
    assert!(comes_first(&a, &b));
    assert!(!comes_first(&b, &a));
    assert!(comes_first(&a, &a));
}

#[test]
fn patterns_are_read_from_lines() {
    let p = parse_pattern(&vec![b"#.".to_vec(), b".#".to_vec()]).unwrap();
    assert_eq!((p.width, p.height), (2, 2));
    assert!(parse_pattern(&Vec::new()).is_none());
    assert!(parse_pattern(&vec![b"#.".to_vec(), b"#".to_vec()]).is_none());
    assert!(parse_pattern(&vec![b"#?".to_vec()]).is_none());
}

#[test]
fn counts_with_and_without_the_cache_agree_on_failure() {
    let r = Record::from_line(b"??.?? 1,1").unwrap();
    assert_eq!(r.try_find_possible_solutions(0, 0, 0, &mut None), Some(4));
    let mut cache = Some(HashMap::new());
    assert_eq!(r.try_find_possible_solutions(0, 0, 0, &mut cache), Some(4));
    assert_eq!(r.try_find_possible_solutions(3, 1, 0, &mut cache), Some(2));
    assert_eq!(r.try_find_possible_solutions(5, 2, 0, &mut None), Some(1));
    assert_eq!(r.try_find_possible_solutions(5, 1, 1, &mut None), Some(1));
    assert_eq!(r.try_find_possible_solutions(5, 1, 0, &mut None), Some(0));
}

#[test]
fn tables_and_bounded_numbers() {
    assert_eq!(filled(7u8, 3), vec![7, 7, 7]);
    assert_eq!(filled(true, 0), Vec::<bool>::new());
    let texts = vec![b"10".to_vec(), b"20".to_vec()];
    assert_eq!(numbers_up_to(&texts, 20), Some(vec![10, 20]));
    assert_eq!(numbers_up_to(&texts, 19), None);
    assert_eq!(numbers_up_to(&Vec::new(), 0), Some(vec![]));
}
