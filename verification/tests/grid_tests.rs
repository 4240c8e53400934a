use advent2023::grid::{Direction, Grid};

#[test]
fn opposite_directions_pair_up() {
    assert_eq!(Direction::North.opposite(), Direction::South);
    assert_eq!(Direction::South.opposite(), Direction::North);
    assert_eq!(Direction::East.opposite(), Direction::West);
    assert_eq!(Direction::West.opposite(), Direction::East);
}

#[test]
fn opposite_is_an_involution() {
    for d in [Direction::North, Direction::East, Direction::South, Direction::West] {
        assert_eq!(d.opposite().opposite(), d);
    }
}

#[test]
fn walking_stops_at_the_edges() {
    let limit = (3, 2);
    assert_eq!(Direction::North.walk_pos((1, 0), limit), None);
    assert_eq!(Direction::North.walk_pos((1, 1), limit), Some((1, 0)));
    assert_eq!(Direction::South.walk_pos((1, 2), limit), None);
    assert_eq!(Direction::South.walk_pos((1, 1), limit), Some((1, 2)));
    assert_eq!(Direction::West.walk_pos((0, 1), limit), None);
    assert_eq!(Direction::West.walk_pos((3, 1), limit), Some((2, 1)));
    assert_eq!(Direction::East.walk_pos((3, 1), limit), None);
    assert_eq!(Direction::East.walk_pos((2, 1), limit), Some((3, 1)));
}

#[test]
fn a_step_can_be_walked_back() {
    let limit = (4, 4);
    for d in [Direction::North, Direction::East, Direction::South, Direction::West] {
        let there = d.walk_pos((2, 2), limit).unwrap();
        assert_eq!(d.opposite().walk_pos(there, limit), Some((2, 2)));
    }
}

#[test]
fn signed_walking_respects_both_limits() {
    let low = (-2, -1);
    let high = (2, 1);
    assert_eq!(Direction::North.walk_pos_signed((0, -1), low, high), None);
    assert_eq!(Direction::North.walk_pos_signed((0, 0), low, high), Some((0, -1)));
    assert_eq!(Direction::South.walk_pos_signed((0, 1), low, high), None);
    assert_eq!(Direction::South.walk_pos_signed((0, 0), low, high), Some((0, 1)));
    assert_eq!(Direction::West.walk_pos_signed((-2, 0), low, high), None);
    assert_eq!(Direction::West.walk_pos_signed((-1, 0), low, high), Some((-2, 0)));
    assert_eq!(Direction::East.walk_pos_signed((2, 0), low, high), None);
    assert_eq!(Direction::East.walk_pos_signed((1, 0), low, high), Some((2, 0)));
    assert_eq!(
        Direction::East.walk_pos_signed((isize::MAX, 0), (isize::MIN, isize::MIN), (isize::MAX, isize::MAX)),
        None
    );
}

#[test]
fn grid_lookup_is_bounds_checked() {
    let g: Grid<u8> = Grid::from(vec![vec![1, 2, 3], vec![4, 5, 6]]);
    assert_eq!(g.dimensions(), (3, 2));
    assert_eq!(g.get(0, 0), Some(&1));
    assert_eq!(g.get(2, 1), Some(&6));
    assert_eq!(g.get(3, 1), None);
    assert_eq!(g.get(0, 2), None);
    assert!(g.is_rectangular());
}

#[test]
fn grid_set_replaces_one_tile() {
    let mut g: Grid<u8> = Grid::from(vec![vec![1, 2, 3], vec![4, 5, 6]]);
    g.set(1, 1, 9);
    assert_eq!(g.get_raw_tiles(), &vec![vec![1, 2, 3], vec![4, 9, 6]]);
    assert_eq!(g.dimensions(), (3, 2));
}

#[test]
fn raw_tiles_can_be_changed_in_place() {
    let mut g: Grid<u8> = Grid::from(vec![vec![1, 2], vec![3, 4]]);
    g.get_raw_tiles_mut()[0][1] = 7;
    assert_eq!(g.get(1, 0), Some(&7));
    g.get_raw_tiles_mut().push(vec![5]);
    assert_eq!(g.dimensions(), (2, 2));
    assert!(!g.is_rectangular());
    assert_eq!(g.get(0, 2), Some(&5));
}

#[test]
fn empty_and_ragged_grids() {
    let empty: Grid<u8> = Grid::from(Vec::new());
    assert_eq!(empty.dimensions(), (0, 0));
    assert!(empty.is_rectangular());
    assert_eq!(empty.get(0, 0), None);
    let ragged: Grid<u8> = Grid::from(vec![vec![1, 2], vec![3]]);
    assert_eq!(ragged.dimensions(), (2, 2));
    assert!(!ragged.is_rectangular());
    assert_eq!(ragged.get(1, 1), None);
}
