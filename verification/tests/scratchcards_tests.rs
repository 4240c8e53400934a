use advent2023::scratchcards::{
    contains, match_counts, total_cards, total_score, traverse_card_tree, Card,
};

fn cards() -> Vec<Card> {
    let rows: [(&[u8], &[u8]); 6] = [
        (&[41, 48, 83, 86, 17], &[83, 86, 6, 31, 17, 9, 48, 53]),
        (&[13, 32, 20, 16, 61], &[61, 30, 68, 82, 17, 32, 24, 19]),
        (&[1, 21, 53, 59, 44], &[69, 82, 63, 72, 16, 21, 14, 1]),
        (&[41, 92, 73, 84, 69], &[59, 84, 76, 51, 58, 5, 54, 83]),
        (&[87, 83, 26, 28, 32], &[88, 30, 70, 12, 93, 22, 82, 36]),
        (&[31, 18, 13, 56, 72], &[74, 77, 10, 23, 35, 67, 36, 11]),
    ];
    rows.iter()
        .enumerate()
        .map(|(i, (w, n))| Card {
            card_id: (i + 1) as u8,
            winning_numbers: w.to_vec(),
            numbers: n.to_vec(),
        })
        .collect()
}

#[test]
fn scores_add_up_to_13() {
    assert_eq!(total_score(&cards()), Some(13));
}

#[test]
fn cards_add_up_to_30() {
    assert_eq!(total_cards(&cards()), Some(30));
}

#[test]
fn matches_and_scores_of_single_cards() {
    let c = cards();
    assert_eq!(match_counts(&c), vec![4, 2, 2, 1, 0, 0]);
    assert_eq!(c[0].matches(), 4);
    assert_eq!(c[0].score(), Some(8));
    assert_eq!(c[3].score(), Some(1));
    assert_eq!(c[4].score(), Some(0));
}

#[test]
fn a_score_that_does_not_fit_is_refused() {
    let many = Card { card_id: 1, winning_numbers: vec![7], numbers: vec![7; 64] };
    assert_eq!(many.score(), Some(1u64 << 63));
    let too_many = Card { card_id: 1, winning_numbers: vec![7], numbers: vec![7; 65] };
    assert_eq!(too_many.score(), None);
}

#[test]
fn won_cards_are_counted_with_what_they_win() {
    let wins = vec![4, 2, 2, 1, 0, 0];
    let mut memo = vec![None; 6];
    assert_eq!(traverse_card_tree(&wins, &mut memo, 5), Some(0));
    assert_eq!(traverse_card_tree(&wins, &mut memo, 3), Some(1));
    assert_eq!(traverse_card_tree(&wins, &mut memo, 2), Some(3));
    assert_eq!(traverse_card_tree(&wins, &mut memo, 1), Some(6));
    assert_eq!(traverse_card_tree(&wins, &mut memo, 0), Some(14));
    assert_eq!(memo[0], Some(14));
}

#[test]
fn a_card_that_wins_beyond_the_table_is_refused() {
    let c = vec![Card { card_id: 1, winning_numbers: vec![1], numbers: vec![1] }];
    assert_eq!(total_cards(&c), None);
    assert_eq!(total_cards(&Vec::new()), Some(0));
    assert!(contains(&vec![1, 2, 3], 2));
    assert!(!contains(&vec![1, 2, 3], 4));
}
