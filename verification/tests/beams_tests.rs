use advent2023::beams::{Contraption, Mirror};
use advent2023::glyphs::{parse_grid, FromByte};
use advent2023::grid::Direction;

const LAYOUT: &str = ".|...\\....\n|.-.\\.....\n.....|-...\n........|.\n..........\n.........\\\n..../.\\\\..\n.-.-/..|..\n.|....-|.\\\n..//.|....";

fn contraption(text: &str) -> Contraption {
    parse_grid::<Mirror>(text.as_bytes()).unwrap()
}

#[test]
fn beam_from_the_top_left_lights_46_tiles() {
    let c = contraption(LAYOUT);
    let lit = c.start_energize(0, 0, Direction::East).unwrap();
    assert_eq!(lit.len(), 46);
}

#[test]
fn best_entry_lights_51_tiles() {
    let c = contraption(LAYOUT);
    let (w, h) = c.dimensions();
    let mut best = 0;
    for x in 0..w {
        best = best.max(c.start_energize(x, 0, Direction::South).unwrap().len());
        best = best.max(c.start_energize(x, h - 1, Direction::North).unwrap().len());
    }
    for y in 0..h {
        best = best.max(c.start_energize(0, y, Direction::East).unwrap().len());
        best = best.max(c.start_energize(w - 1, y, Direction::West).unwrap().len());
    }
    assert_eq!(best, 51);
    assert_eq!(c.start_energize(3, 0, Direction::South).unwrap().len(), 51);
}

#[test]
fn lit_tiles_come_in_reading_order() {
    let c = contraption("..\\\n...\n\\./");
    let lit = c.start_energize(0, 0, Direction::East).unwrap();
    assert_eq!(lit, vec![(0, 0), (1, 0), (2, 0), (0, 1), (2, 1), (0, 2), (1, 2), (2, 2)]);
}

#[test]
fn a_beam_in_a_loop_ends() {
    let c = contraption("/-\\\n|.|\n\\-/");
    let lit = c.start_energize(1, 0, Direction::East).unwrap();
    assert_eq!(lit.len(), 8);
    assert!(!lit.contains(&(1, 1)));
}

#[test]
fn a_splitter_sends_light_both_ways() {
    let c = contraption("...\n.-.\n...");
    let lit = c.start_energize(1, 0, Direction::South).unwrap();
    assert_eq!(lit, vec![(1, 0), (0, 1), (1, 1), (2, 1)]);
    let through = c.start_energize(0, 1, Direction::East).unwrap();
    assert_eq!(through, vec![(0, 1), (1, 1), (2, 1)]);
}

#[test]
fn entries_off_the_grid_are_refused() {
    let c = contraption("..\n..");
    assert_eq!(c.start_energize(2, 0, Direction::East), None);
    assert_eq!(c.start_energize(0, 2, Direction::East), None);
    assert_eq!(c.start_energize(1, 1, Direction::East), Some(vec![(1, 1)]));
}

#[test]
fn moving_stops_at_the_edges() {
    let c = contraption("...\n...");
    assert_eq!(c.move_in_direction(0, 0, Direction::North), None);
    assert_eq!(c.move_in_direction(0, 0, Direction::West), None);
    assert_eq!(c.move_in_direction(2, 1, Direction::East), None);
    assert_eq!(c.move_in_direction(2, 1, Direction::South), None);
    assert_eq!(c.move_in_direction(1, 1, Direction::North), Some((1, 0)));
    assert_eq!(c.move_in_direction(1, 0, Direction::East), Some((2, 0)));
    assert_eq!(c.move_in_direction(1, 0, Direction::South), Some((1, 1)));
    assert_eq!(c.move_in_direction(1, 0, Direction::West), Some((0, 0)));
    assert_eq!(c.move_in_direction(usize::MAX, 0, Direction::East), None);
}

#[test]
fn mirrors_turn_light() {
    let (east, north, south, west) = (Direction::East, Direction::North, Direction::South, Direction::West);
    assert_eq!(Mirror::DiagonalTopRight.turn(east), vec![north]);
    assert_eq!(Mirror::DiagonalTopRight.turn(north), vec![east]);
    assert_eq!(Mirror::DiagonalTopRight.turn(west), vec![south]);
    assert_eq!(Mirror::DiagonalTopRight.turn(south), vec![west]);
    assert_eq!(Mirror::DiagonalTopLeft.turn(east), vec![south]);
    assert_eq!(Mirror::DiagonalTopLeft.turn(north), vec![west]);
    assert_eq!(Mirror::DiagonalTopLeft.turn(west), vec![north]);
    assert_eq!(Mirror::DiagonalTopLeft.turn(south), vec![east]);
    assert_eq!(Mirror::Vertical.turn(east), vec![north, south]);
    assert_eq!(Mirror::Vertical.turn(north), vec![north]);
    assert_eq!(Mirror::Horizontal.turn(south), vec![east, west]);
    assert_eq!(Mirror::Horizontal.turn(west), vec![west]);
    assert_eq!(Mirror::Empty.turn(west), vec![west]);
}

#[test]
fn mirrors_are_read_and_shown() {
    for c in ['|', '-', '/', '\\', '.'] {
        assert_eq!(Mirror::parse(c).unwrap().to_char(), c);
        assert_eq!(Mirror::from_byte(c as u8), Mirror::parse(c));
    }
    assert_eq!(Mirror::parse('x'), None);
}
