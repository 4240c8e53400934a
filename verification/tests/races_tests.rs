use advent2023::races::{win_product, Race};

#[test]
fn ways_to_win_multiply_to_288() {
    let races = vec![
        Race { time: 7, record: 9 },
        Race { time: 15, record: 40 },
        Race { time: 30, record: 200 },
    ];
    assert_eq!(win_product(&races), Some(288));
}

#[test]
fn the_long_race_has_71503_ways() {
    let race = Race { time: 71530, record: 940200 };
    assert_eq!(race.count_wins(0, 71530), 71503);
}

#[test]
fn single_races() {
    let race = Race { time: 7, record: 9 };
    assert!(!race.check_race(0));
    assert!(!race.check_race(1));
    assert!(race.check_race(2));
    assert!(race.check_race(5));
    assert!(!race.check_race(6));
    assert!(!race.check_race(7));
    assert_eq!(race.count_wins(0, 7), 4);
    assert_eq!(race.count_wins(3, 5), 2);
    assert_eq!(race.count_wins(5, 3), 0);
    assert_eq!(race.count_wins(0, 8), 4);
}

#[test]
fn products_that_do_not_fit_are_refused() {
    let big = Race { time: u64::MAX, record: 0 };
    assert!(big.check_race(u64::MAX / 2));
    assert_eq!(win_product(&Vec::new()), Some(1));
    let wide = Race { time: 100_000, record: 0 };
    assert_eq!(win_product(&vec![wide; 4]), None);
}
