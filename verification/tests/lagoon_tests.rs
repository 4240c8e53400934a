use advent2023::glyphs::{parse_lines, FromLine};
use advent2023::grid::Direction;
use advent2023::lagoon::{decode, key_of, parse_hex5, Instruction, Lagoon};

const PLAN: &str = "R 6 (#70c710)\nD 5 (#0dc571)\nL 2 (#5713f0)\nD 2 (#d2c081)\nR 2 (#59c680)\nD 2 (#411b91)\nL 5 (#8ceee2)\nU 2 (#caa173)\nL 1 (#1b58a2)\nU 2 (#caa171)\nR 2 (#7807d2)\nU 3 (#a77fa3)\nL 2 (#015232)\nU 2 (#7a21e3)";

#[test]
fn the_lagoon_holds_62_cells() {
    let plan: Vec<Instruction> = parse_lines(PLAN.as_bytes()).unwrap();
    let mut lagoon = Lagoon::new();
    assert_eq!(lagoon.execute_instructions(&plan, (0, 0)), Some((0, 0)));
    assert_eq!(lagoon.count_points(), 38);
    assert_eq!(lagoon.min_pos, (0, 0));
    assert_eq!(lagoon.max_pos, (6, 9));
    assert_eq!(lagoon.find_start(), (1, 1));
    assert!(lagoon.fill_surrounded());
    assert_eq!(lagoon.count_points(), 62);
}

#[test]
fn instructions_are_read_with_their_colours() {
    let i = Instruction::from_line(b"R 6 (#70c710)").unwrap();
    assert_eq!(
        i,
        Instruction {
            direction: Direction::East,
            count: 6,
            colour_encoded: Some((461937, Direction::East))
        }
    );
    let hidden = decode(&i).unwrap();
    assert_eq!(
        hidden,
        Instruction { direction: Direction::East, count: 461937, colour_encoded: None }
    );
    assert_eq!(decode(&hidden), None);
    let u = Instruction::from_line(b"U 2 (#caa173)").unwrap();
    assert_eq!(u.direction, Direction::North);
    assert_eq!(u.colour_encoded, Some((829975, Direction::North)));
    let d = Instruction::from_line(b"D 5 (#0dc571)").unwrap();
    assert_eq!(d.colour_encoded, Some((56407, Direction::South)));
    let l = Instruction::from_line(b"L 2 (#5713F2)").unwrap();
    assert_eq!(l.colour_encoded, Some((356671, Direction::West)));
}

#[test]
fn malformed_instructions_are_refused() {
    assert_eq!(Instruction::from_line(b"X 6 (#70c710)"), None);
    assert_eq!(Instruction::from_line(b"R x (#70c710)"), None);
    assert_eq!(Instruction::from_line(b"R 6 (#70c714)"), None);
    assert_eq!(Instruction::from_line(b"R 6 (#70g710)"), None);
    assert_eq!(Instruction::from_line(b"R 6 #70c710"), None);
    assert_eq!(Instruction::from_line(b"R 6"), None);
    assert_eq!(Instruction::from_line(b""), None);
    assert_eq!(parse_hex5(b"(#fffff0)"), Some(0xfffff));
}

#[test]
fn digging_counts_visits() {
    let back_and_forth = vec![
        Instruction { direction: Direction::East, count: 2, colour_encoded: None },
        Instruction { direction: Direction::West, count: 2, colour_encoded: None },
    ];
    let mut lagoon = Lagoon::new();
    assert_eq!(lagoon.execute_instructions(&back_and_forth, (0, 0)), Some((0, 0)));
    assert_eq!(lagoon.count_points(), 3);
    assert_eq!(lagoon.points.get(&key_of((1, 0))), Some(&2));
    assert_eq!(lagoon.points.get(&key_of((2, 0))), Some(&1));
    assert_eq!(lagoon.points.get(&key_of((0, 0))), Some(&1));
    assert!(lagoon.is_dug((2, 0)));
    assert!(!lagoon.is_dug((3, 0)));
    assert_eq!(lagoon.max_pos, (2, 0));
}

#[test]
fn digging_stops_at_the_end_of_the_plain() {
    let step = vec![Instruction { direction: Direction::East, count: 1, colour_encoded: None }];
    let mut lagoon = Lagoon::new();
    assert_eq!(lagoon.execute_instructions(&step, (isize::MAX, 0)), None);
    let mut lagoon = Lagoon::new();
    assert_eq!(lagoon.execute_instructions(&step, (isize::MAX - 1, 0)), Some((isize::MAX, 0)));
    let up = vec![Instruction { direction: Direction::North, count: 1, colour_encoded: None }];
    let mut lagoon = Lagoon::new();
    assert_eq!(lagoon.execute_instructions(&up, (0, isize::MIN)), None);
}

#[test]
fn a_cell_is_dug_255_deep_at_most() {
    let mut plan = Vec::new();
    for _ in 0..256 {
        plan.push(Instruction { direction: Direction::East, count: 1, colour_encoded: None });
        plan.push(Instruction { direction: Direction::West, count: 1, colour_encoded: None });
    }
    let mut lagoon = Lagoon::new();
    assert_eq!(lagoon.execute_instructions(&plan[..510], (0, 0)), Some((0, 0)));
    assert_eq!(lagoon.points.get(&key_of((1, 0))), Some(&255));
    let mut lagoon = Lagoon::new();
    assert_eq!(lagoon.execute_instructions(&plan, (0, 0)), None);
}

#[test]
fn keys_tell_cells_apart() {
    let cells = [
        (0, 0),
        (1, 0),
        (0, 1),
        (-1, 0),
        (0, -1),
        (isize::MAX, isize::MAX),
        (isize::MIN, isize::MIN),
        (isize::MIN, isize::MAX),
        (isize::MAX, isize::MIN),
    ];
    for (i, a) in cells.iter().enumerate() {
        for (j, b) in cells.iter().enumerate() {
            assert_eq!(key_of(*a) == key_of(*b), i == j);
        }
    }
    assert_eq!(key_of((isize::MIN, isize::MIN)), i128::MIN);
    assert_eq!(key_of((isize::MAX, isize::MAX)), i128::MAX);
}

#[test]
fn filling_an_open_plain_fills_the_box() {
    let mut lagoon = Lagoon::new();
    let plan = vec![
        Instruction { direction: Direction::East, count: 2, colour_encoded: None },
        Instruction { direction: Direction::South, count: 2, colour_encoded: None },
    ];
    assert_eq!(lagoon.execute_instructions(&plan, (0, 0)), Some((2, 2)));
    assert_eq!(lagoon.find_start(), (0, 0));
    assert!(lagoon.fill_surrounded());
    assert_eq!(lagoon.count_points(), 9);
    assert_eq!(lagoon.points.get(&key_of((0, 2))), Some(&0));
    assert_eq!(lagoon.points.get(&key_of((2, 2))), Some(&1));
}
