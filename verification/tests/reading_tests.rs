use advent2023::camel_cards::{Card, Hand};
use advent2023::cubes::{parse_handful, sum_of_possible_games, sum_of_powers, Handful};
use advent2023::glyphs::{parse_grid, parse_lines, parse_tiles, FromLine};
use advent2023::mirrors::{parse_patterns, summarize};
use advent2023::network::{parse_network, Direction, Node};
use advent2023::oasis::{parse_histories, parse_history, sum_of_predictions, DifferencesTable};
use advent2023::races::{numbers_after_title, win_product, Race};
use advent2023::scratchcards::{total_cards, total_score, Card as Scratchcard};
use advent2023::springs::{Record, SpringState};
use advent2023::text::{
    find, matches_at, medium_numbers, parse_numbers, parse_signed, same_text, small_numbers,
    split_blocks,
};

#[test]
fn hands_are_read_from_lines() {
    let hands: Vec<Hand> =
        parse_lines(b"32T3K 765\nT55J5 684\nKK677 28\nKTJJT 220\nQQQJA 483\n").unwrap();
    assert_eq!(hands.len(), 5);
    assert_eq!(hands[0].cards, vec![Card::N3, Card::N2, Card::T, Card::N3, Card::K]);
    assert_eq!(hands[4].bid, 483);
    assert_eq!(advent2023::camel_cards::total_winnings(&hands, false), Some(6440));
    assert!(Hand::from_line(b"32T3K").is_none());
    assert!(Hand::from_line(b"32X3K 5").is_none());
    assert!(Hand::from_line(b"32T3K 65536").is_none());
    assert_eq!(Hand::from_line(b"32T3K 65535").unwrap().bid, 65535);
    assert!(parse_lines::<Hand>(b"32T3K 765\n\nKK677 28").is_none());
}

#[test]
fn games_are_read_from_lines() {
    let text = "Game 1: 3 blue, 4 red; 1 red, 2 green, 6 blue; 2 green\nGame 2: 1 blue, 2 green; 3 green, 4 blue, 1 red; 1 green, 1 blue\nGame 3: 8 green, 6 blue, 20 red; 5 blue, 4 red, 13 green; 5 green, 1 red\nGame 4: 1 green, 3 red, 6 blue; 3 green, 6 red; 3 green, 15 blue, 14 red\nGame 5: 6 red, 1 blue, 3 green; 2 blue, 1 red, 2 green";
    let games: Vec<Vec<Handful>> = parse_lines(text.as_bytes()).unwrap();
    assert_eq!(games.len(), 5);
    assert_eq!(games[0][0], Handful { red: 4, green: 0, blue: 3 });
    assert_eq!(sum_of_possible_games(&games), 8);
    assert_eq!(sum_of_powers(&games), 2286);
    assert_eq!(parse_handful(b" 3 blue, 4 red"), Some(Handful { red: 4, green: 0, blue: 3 }));
    assert_eq!(parse_handful(b"3 blue, 4 blue"), Some(Handful { red: 0, green: 0, blue: 4 }));
    assert_eq!(parse_handful(b"3 pink"), None);
    assert_eq!(parse_handful(b"256 red"), None);
    assert_eq!(parse_handful(b"red"), None);
    assert_eq!(parse_handful(b""), None);
    assert!(Vec::<Handful>::from_line(b"Game 1 3 blue").is_none());
    assert!(same_text(b"red", b"red"));
    assert!(!same_text(b"red", b"rad"));
}

#[test]
fn scratchcards_are_read_from_lines() {
    let text = "Card 1: 41 48 83 86 17 | 83 86  6 31 17  9 48 53\nCard 2: 13 32 20 16 61 | 61 30 68 82 17 32 24 19\nCard 3:  1 21 53 59 44 | 69 82 63 72 16 21 14  1\nCard 4: 41 92 73 84 69 | 59 84 76 51 58  5 54 83\nCard 5: 87 83 26 28 32 | 88 30 70 12 93 22 82 36\nCard 6: 31 18 13 56 72 | 74 77 10 23 35 67 36 11";
    let cards: Vec<Scratchcard> = parse_lines(text.as_bytes()).unwrap();
    assert_eq!(cards[2].card_id, 3);
    assert_eq!(cards[2].winning_numbers, vec![1, 21, 53, 59, 44]);
    assert_eq!(cards[2].numbers, vec![69, 82, 63, 72, 16, 21, 14, 1]);
    assert_eq!(total_score(&cards), Some(13));
    assert_eq!(total_cards(&cards), Some(30));
    assert!(Scratchcard::from_line(b"Card 1 41 | 83").is_none());
    assert!(Scratchcard::from_line(b"Card 1: 41 83").is_none());
    assert!(Scratchcard::from_line(b"Card: 41 | 83").is_none());
    assert!(Scratchcard::from_line(b"Card 1: 41 | 830").is_none());
    assert!(Scratchcard::from_line(b"Card 300: 41 | 83").is_none());
    assert!(Scratchcard::from_line(b"Card 1: |").is_some());
}

#[test]
fn spring_records_are_read_from_lines() {
    let r = Record::from_line(b"???.### 1,1,3").unwrap();
    assert_eq!(r.springs.len(), 7);
    assert_eq!(r.springs[3], SpringState::Operational);
    assert_eq!(r.groups, vec![1, 1, 3]);
    assert_eq!(r.count_arrangements(), Some(1));
    assert!(Record::from_line(b"???.###").is_none());
    assert!(Record::from_line(b"??x.### 1").is_none());
    assert!(Record::from_line(b"???.### 1,,3").is_none());
    assert!(Record::from_line(b"???.### 1,256").is_none());
    let mut big = Record::from_line(b"?###???????? 3,2,1").unwrap();
    big.unfold();
    assert_eq!(big.count_arrangements(), Some(506250));
}

#[test]
fn networks_are_read_from_text() {
    let text = "LR\n\n11A = (11B, XXX)\n11B = (XXX, 11Z)\n11Z = (11B, XXX)\n22A = (22B, XXX)\n22B = (22C, 22C)\n22C = (22Z, 22Z)\n22Z = (22B, 22B)\nXXX = (XXX, XXX)";
    let net = parse_network(text.as_bytes()).unwrap();
    assert_eq!(net.directions, vec![Direction::Left, Direction::Right]);
    assert_eq!(net.nodes.len(), 8);
    assert_eq!(net.nodes[1].name, ['1', '1', 'B']);
    assert_eq!(net.nodes[1].left, ['X', 'X', 'X']);
    assert_eq!(net.nodes[1].right, ['1', '1', 'Z']);
    assert_eq!(net.ghost_steps(1000), Some(6));
    assert_eq!(net.ghost_steps(2), None);
    assert!(parse_network(b"").is_none());
    assert!(parse_network(b"LRX\n\nAAA = (BBB, CCC)").is_none());
    assert!(parse_network(b"LR\n\nAAA = BBB, CCC").is_none());
    assert!(Node::from_line(b"AAA = (BBB, CCC) ").is_none());
    assert_eq!(parse_network(b"LR").unwrap().nodes.len(), 0);
}

#[test]
fn histories_are_read_and_summed() {
    let text = "0 3 6 9 12 15\n1 3 6 10 15 21\n10 13 16 21 30 45";
    let histories = parse_histories(text.as_bytes()).unwrap();
    assert_eq!(histories[2], vec![10, 13, 16, 21, 30, 45]);
    assert_eq!(sum_of_predictions(&histories, false), Some(114));
    assert_eq!(sum_of_predictions(&histories, true), Some(2));
    assert_eq!(parse_history(b"-3 4 -5"), Some(vec![-3, 4, -5]));
    assert_eq!(parse_history(b"3 x"), None);
    assert_eq!(parse_history(b""), Some(vec![]));
    assert!(parse_histories(b"1 2\n3 y").is_none());
    assert_eq!(sum_of_predictions(&vec![vec![]], false), None);
    assert_eq!(sum_of_predictions(&vec![vec![i64::MAX, i64::MIN]], false), None);
    assert_eq!(sum_of_predictions(&vec![vec![i64::MAX - 1, i64::MAX]], false), None);
    assert!(DifferencesTable::try_create(&[i64::MIN, i64::MAX]).is_none());
    assert_eq!(DifferencesTable::try_next_layer(&[1, 4, 9]), Some(vec![3, 5]));
    let t = DifferencesTable::try_create(&[1, 4, 9, 16]).unwrap();
    assert_eq!(t.try_predict_next_number(), Some(25));
    assert_eq!(t.try_predict_previous_number(), Some(0));
}

#[test]
fn races_are_read_from_two_lines() {
    let races = Race::parse_race_list(b"Time:      7  15   30\nDistance:  9  40  200").unwrap();
    assert_eq!(
        races,
        vec![
            Race { time: 7, record: 9 },
            Race { time: 15, record: 40 },
            Race { time: 30, record: 200 }
        ]
    );
    assert_eq!(win_product(&races), Some(288));
    assert!(Race::parse_race_list(b"Time: 7").is_none());
    assert!(Race::parse_race_list(b"Time: 7 x\nDistance: 9").is_none());
    assert_eq!(
        Race::parse_race_list(b"Time: 7 8\nDistance: 9").unwrap(),
        vec![Race { time: 7, record: 9 }]
    );
    assert_eq!(numbers_after_title(b"Time: 1 2 3"), Some(vec![1, 2, 3]));
    assert_eq!(numbers_after_title(b""), Some(vec![]));
    assert_eq!(numbers_after_title(b"Time:"), Some(vec![]));
}

#[test]
fn patterns_are_read_and_summarized() {
    let text = "#.##..##.\n..#.##.#.\n##......#\n##......#\n..#.##.#.\n..##..##.\n#.#.##.#.\n\n#...##..#\n#....#..#\n..##..###\n#####.##.\n#####.##.\n..##..###\n#....#..#\n";
    let patterns = parse_patterns(text.as_bytes()).unwrap();
    assert_eq!(patterns.len(), 2);
    assert_eq!((patterns[0].width, patterns[0].height), (9, 7));
    assert_eq!(summarize(&patterns, false), Some(405));
    assert_eq!(summarize(&patterns, true), Some(400));
    assert!(parse_patterns(b"#.\n\n\n.#").is_none());
    assert!(parse_patterns(b"#.\n#").is_none());
    assert!(parse_patterns(b"#x").is_none());
    let none = parse_patterns(b"#.\n.#").unwrap();
    assert_eq!(summarize(&none, false), None);
}

#[test]
fn text_helpers() {
    assert_eq!(find(b"abc: def", b": "), Some(3));
    assert_eq!(find(b"abc", b""), Some(0));
    assert_eq!(find(b"abc", b"cd"), None);
    assert_eq!(find(b"aab", b"ab"), Some(1));
    assert_eq!(find(b"", b""), Some(0));
    assert!(matches_at(b"abc", b"bc", 1));
    assert!(!matches_at(b"abc", b"bc", 2));
    assert!(matches_at(b"abc", b"", 3));
    assert!(!matches_at(b"abc", b"", 4));
    assert_eq!(parse_signed(b"-12"), Some(-12));
    assert_eq!(parse_signed(b"12"), Some(12));
    assert_eq!(parse_signed(b"-"), None);
    assert_eq!(parse_signed(b"--1"), None);
    assert_eq!(parse_signed(b"-9223372036854775808"), Some(i64::MIN));
    assert_eq!(parse_signed(b"-9223372036854775809"), None);
    assert_eq!(parse_signed(b"9223372036854775807"), Some(i64::MAX));
    assert_eq!(parse_signed(b"9223372036854775808"), None);
    assert_eq!(parse_numbers(b" 1 22  333 "), Some(vec![1, 22, 333]));
    assert_eq!(parse_numbers(b"1 x"), None);
    assert_eq!(small_numbers(&vec![b"255".to_vec(), b"0".to_vec()]), Some(vec![255, 0]));
    assert_eq!(small_numbers(&vec![b"256".to_vec()]), None);
    assert_eq!(medium_numbers(&vec![b"4294967295".to_vec()]), Some(vec![u32::MAX]));
    assert_eq!(medium_numbers(&vec![b"4294967296".to_vec()]), None);
    assert_eq!(
        split_blocks(b"a\nb\n\nc\n"),
        vec![vec![b"a".to_vec(), b"b".to_vec()], vec![b"c".to_vec()]]
    );
    assert_eq!(split_blocks(b""), vec![Vec::<Vec<u8>>::new()]);
    assert_eq!(split_blocks(b"\n"), vec![Vec::<Vec<u8>>::new(), Vec::new()]);
}

#[test]
fn grids_are_read_tile_by_tile() {
    let g = parse_grid::<SpringState>(b".#?\n?#.").unwrap();
    assert_eq!(g.dimensions(), (3, 2));
    assert_eq!(g.get(2, 0), Some(&SpringState::Unknown));
    assert!(parse_grid::<SpringState>(b".#x").is_none());
    assert_eq!(parse_tiles::<Card>(b"AKQ"), Some(vec![Card::A, Card::K, Card::Q]));
    assert_eq!(parse_tiles::<Card>(b"AK1"), None);
}
