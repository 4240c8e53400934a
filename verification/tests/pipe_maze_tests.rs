use advent2023::pipes::{farthest, PipeMaze, Tile};

const SQUARE: &str = "-L|F7\n7S-7|\nL|7||\n-L-J|\nL|-JF";
const COMPLEX: &str = "7-F7-\n.FJ|7\nSJLL7\n|F--J\nLJ.LJ";

fn count(steps: &[Option<usize>]) -> usize {
    steps.iter().filter(|s| s.is_some()).count()
}

#[test]
fn the_square_loop_has_eight_tiles() {
    let maze = PipeMaze::parse(SQUARE.as_bytes()).unwrap();
    assert_eq!((maze.start_x, maze.start_y), (1, 1));
    let steps = maze.get_loop((1, 1)).unwrap();
    assert_eq!(steps.len(), 25);
    assert_eq!(count(&steps), 8);
    assert_eq!(steps[1 * 5 + 1], Some(0));
    assert_eq!(steps[1 * 5 + 2], Some(1));
    assert_eq!(steps[2 * 5 + 1], Some(1));
    assert_eq!(steps[3 * 5 + 3], Some(4));
    assert_eq!(steps[2 * 5 + 2], None);
    assert_eq!(steps[0], None);
    assert_eq!(farthest(&steps), 4);
}

#[test]
fn the_complex_loop_has_sixteen_tiles() {
    let maze = PipeMaze::parse(COMPLEX.as_bytes()).unwrap();
    assert_eq!((maze.start_x, maze.start_y), (0, 2));
    let steps = maze.get_loop((0, 2)).unwrap();
    assert_eq!(count(&steps), 16);
    assert_eq!(farthest(&steps), 8);
    assert_eq!(farthest(&Vec::new()), 0);
    assert_eq!(farthest(&vec![None, None]), 0);
}

#[test]
fn neighbours_must_open_towards_each_other() {
    let maze = PipeMaze::parse(SQUARE.as_bytes()).unwrap();
    assert_eq!(maze.get_connected_neighbours((1, 1)), vec![(2, 1), (1, 2)]);
    assert_eq!(maze.get_connected_neighbours((3, 1)), vec![(3, 2), (2, 1)]);
    assert_eq!(maze.get_connected_neighbours((0, 0)), vec![]);
    assert_eq!(maze.get_connected_neighbours((9, 9)), vec![]);
    assert_eq!(maze.get_connected_neighbours((4, 0)), vec![(4, 1), (3, 0)]);
}

#[test]
fn loops_off_the_field_are_refused() {
    let maze = PipeMaze::parse(SQUARE.as_bytes()).unwrap();
    assert_eq!(maze.get_loop((5, 0)), None);
    assert_eq!(maze.get_loop((0, 5)), None);
    let alone = maze.get_loop((2, 2)).unwrap();
    assert_eq!(count(&alone), 1);
}

#[test]
fn fields_are_read_with_their_start() {
    assert!(PipeMaze::parse(b"").is_none());
    assert!(PipeMaze::parse(b"-x-").is_none());
    assert!(PipeMaze::parse(b"--\n-").is_none());
    let none = PipeMaze::parse(b"--\n--").unwrap();
    assert_eq!((none.start_x, none.start_y), (0, 0));
    let two = PipeMaze::parse(b"S-\n-S").unwrap();
    assert_eq!((two.start_x, two.start_y), (1, 1));
    assert_eq!(two.tiles.get(0, 0), Some(&Tile::Start));
}

#[test]
fn four_tiles_lie_inside_the_ring() {
    let text = "...........\n.S-------7.\n.|F-----7|.\n.||.....||.\n.||.....||.\n.|L-7.F-J|.\n.|..|.|..|.\n.L--J.L--J.\n...........";
    let maze = PipeMaze::parse(text.as_bytes()).unwrap();
    let steps = maze.get_loop((maze.start_x, maze.start_y)).unwrap();
    assert_eq!(farthest(&steps), 23);
    assert_eq!(maze.enclosed_area(&steps), 4);
    assert!(maze.is_inside(&steps, 2, 6));
    assert!(maze.is_inside(&steps, 8, 6));
    assert!(!maze.is_inside(&steps, 5, 6));
    assert!(!maze.is_inside(&steps, 3, 3));
    assert!(!maze.is_inside(&steps, 0, 0));
    assert!(!maze.is_inside(&steps, 1, 1));
}

#[test]
fn one_tile_lies_inside_the_smallest_ring() {
    let maze = PipeMaze::parse(b"S-7\n|.|\nL-J").unwrap();
    let steps = maze.get_loop((0, 0)).unwrap();
    assert_eq!(farthest(&steps), 4);
    assert_eq!(maze.enclosed_area(&steps), 1);
    assert!(maze.is_inside(&steps, 1, 1));
    let open = PipeMaze::parse(b"S-7\n|..\nL-J").unwrap();
    let steps = open.get_loop((0, 0)).unwrap();
    assert_eq!(farthest(&steps), 4);
    // The count goes by crossings alone, so a gap in the ring does not
    // change it for a tile that the gap is not on the way to.
    assert_eq!(open.enclosed_area(&steps), 1);
    assert!(!open.is_inside(&steps, 2, 1));
}
