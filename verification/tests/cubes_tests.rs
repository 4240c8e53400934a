use advent2023::cubes::{
    fewest_cubes, is_game_possible, sum_of_possible_games, sum_of_powers, Handful,
};

fn h(red: u8, green: u8, blue: u8) -> Handful {
    Handful { red, green, blue }
}

fn games() -> Vec<Vec<Handful>> {
    vec![
        vec![h(4, 0, 3), h(1, 2, 6), h(0, 2, 0)],
        vec![h(0, 2, 1), h(1, 3, 4), h(0, 1, 1)],
        vec![h(20, 8, 6), h(4, 13, 5), h(1, 5, 0)],
        vec![h(3, 1, 6), h(6, 3, 0), h(14, 3, 15)],
        vec![h(6, 3, 1), h(1, 2, 2)],
    ]
}

#[test]
fn possible_games_add_up_to_8() {
    assert_eq!(sum_of_possible_games(&games()), 8);
}

#[test]
fn powers_add_up_to_2286() {
    assert_eq!(sum_of_powers(&games()), 2286);
}

#[test]
fn limits_are_twelve_thirteen_fourteen() {
    assert!(h(12, 13, 14).is_possible());
    assert!(!h(13, 0, 0).is_possible());
    assert!(!h(0, 14, 0).is_possible());
    assert!(!h(0, 0, 15).is_possible());
    assert!(is_game_possible(&vec![]));
    assert!(!is_game_possible(&vec![h(1, 1, 1), h(0, 0, 15)]));
}

#[test]
fn fewest_cubes_is_the_maximum_per_colour() {
    assert_eq!(fewest_cubes(&games()[0]), h(4, 2, 6));
    assert_eq!(fewest_cubes(&games()[2]), h(20, 13, 6));
    assert_eq!(fewest_cubes(&vec![]), h(0, 0, 0));
    assert_eq!(sum_of_powers(&vec![vec![h(255, 255, 255)]]), 16581375);
}
