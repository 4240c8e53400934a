use advent2023::galaxies::{entries_below, Sky};

const IMAGE: &str = "...#......\n.......#..\n#.........\n..........\n......#...\n.#........\n.........#\n..........\n.......#..\n#...#.....";

fn sky() -> Sky {
    let mut stars = Vec::new();
    for (y, line) in IMAGE.lines().enumerate() {
        for (x, c) in line.chars().enumerate() {
            if c == '#' {
                stars.push((x as u64, y as u64));
            }
        }
    }
    Sky { stars, width: 10, height: 10 }
}

#[test]
fn distances_add_up_to_374() {
    let mut s = sky();
    assert!(s.expand(1));
    assert_eq!(s.sum_of_distances(), Some(374));
}

#[test]
fn larger_factors() {
    let mut s = sky();
    assert!(s.expand(9));
    assert_eq!(s.sum_of_distances(), Some(1030));
    let mut s = sky();
    assert!(s.expand(99));
    assert_eq!(s.sum_of_distances(), Some(8410));
    let mut s = sky();
    assert!(s.expand(999_999));
    assert_eq!(s.sum_of_distances(), Some(82000210));
}

#[test]
fn empty_rows_and_columns() {
    let s = sky();
    assert_eq!(s.get_empty_rows_and_cols(), (vec![3, 7], vec![2, 5, 8]));
    assert!(s.is_row_empty(3));
    assert!(!s.is_row_empty(0));
    assert!(s.is_column_empty(2));
    assert!(!s.is_column_empty(0));
    assert_eq!(entries_below(&vec![2, 5, 8], 6), 2);
    assert_eq!(entries_below(&vec![2, 5, 8], 2), 0);
}

#[test]
fn expansion_moves_stars_and_edges() {
    let mut s = sky();
    assert!(s.expand(1));
    assert_eq!(s.width, 13);
    assert_eq!(s.height, 12);
    assert_eq!(s.stars[0], (4, 0));
    assert_eq!(s.stars[8], (5, 11));
    assert_eq!(s.star_distance(4, 8), Some(9));
    assert_eq!(s.star_distance(0, 6), Some(15));
    assert_eq!(s.star_distance(2, 5), Some(17));
    assert_eq!(s.star_distance(7, 8), Some(5));
}

#[test]
fn expansion_that_does_not_fit_changes_nothing() {
    let mut s = Sky { stars: vec![(0, 0), (5, 0)], width: 6, height: 1 };
    assert!(!s.expand(u64::MAX));
    assert_eq!(s.stars, vec![(0, 0), (5, 0)]);
    assert_eq!((s.width, s.height), (6, 1));
    let far = Sky { stars: vec![(0, 0), (u64::MAX, u64::MAX)], width: 1, height: 1 };
    assert_eq!(far.star_distance(0, 1), None);
    assert_eq!(far.sum_of_distances(), None);
}
