use advent2023::crucible::{APos, Block, Data, Policy};
use advent2023::crucible_search::SearchError;
use advent2023::grid::{Direction, Grid};

fn grid_of(text: &str) -> Data {
    Grid::from(
        text.lines()
            .map(|line| {
                line.chars()
                    .map(|c| Block { heat_loss: c.to_digit(10).unwrap() as u8 })
                    .collect::<Vec<Block>>()
            })
            .collect::<Vec<Vec<Block>>>(),
    )
}

const CITY: &str = "2413432311323\n3215453535623\n3255245654254\n3446585845452\n4546657867536\n1438598798454\n4457876987766\n3637877979653\n4654967986887\n4564679986453\n1224686865563\n2546548887735\n4322674655533";

const CORRIDOR: &str = "111111111111\n999999999991\n999999999991\n999999999991\n999999999991";

fn entered_cost(grid: &Data, path: &[APos]) -> u64 {
    path.iter().skip(1).map(|s| grid.get(s.0, s.1).unwrap().heat_loss as u64).sum()
}

#[test]
fn city_under_policy_a_costs_102() {
    let grid = grid_of(CITY);
    let r = grid.find_min_cost((0, 0), Direction::East, (12, 12), &Policy::policy_a());
    assert_eq!(r, Ok(Some(102)));
}

#[test]
fn city_under_policy_b_costs_94() {
    let grid = grid_of(CITY);
    let r = grid.find_min_cost((0, 0), Direction::East, (12, 12), &Policy::policy_b());
    assert_eq!(r, Ok(Some(94)));
}

#[test]
fn corridor_under_policy_b_costs_71() {
    let grid = grid_of(CORRIDOR);
    let r = grid.find_min_cost((0, 0), Direction::East, (11, 4), &Policy::policy_b());
    assert_eq!(r, Ok(Some(71)));
}

#[test]
fn single_cell_under_policy_b_is_unreachable() {
    let grid = grid_of("7");
    let r = grid.find_min_cost((0, 0), Direction::East, (0, 0), &Policy::policy_b());
    assert_eq!(r, Ok(None));
}

#[test]
fn single_cell_under_policy_a_costs_nothing() {
    let grid = grid_of("7");
    let r = grid.find_min_cost((0, 0), Direction::East, (0, 0), &Policy::policy_a());
    assert_eq!(r, Ok(Some(0)));
    let path = grid.find_path((0, 0), Direction::East, (0, 0), &Policy::policy_a());
    assert_eq!(path, Ok(Some(vec![APos(0, 0, Direction::East, 0, 0)])));
}

#[test]
fn search_is_repeatable() {
    let grid = grid_of(CITY);
    let first = grid.find_min_cost((0, 0), Direction::East, (12, 12), &Policy::policy_a());
    let second = grid.find_min_cost((0, 0), Direction::East, (12, 12), &Policy::policy_a());
    assert_eq!(first, second);
    let once = grid.find_path((0, 0), Direction::East, (12, 12), &Policy::policy_b());
    let again = grid.find_path((0, 0), Direction::East, (12, 12), &Policy::policy_b());
    assert_eq!(once, again);
}

#[test]
fn reconstructed_path_adds_up() {
    let grid = grid_of(CITY);
    for policy in [Policy::policy_a(), Policy::policy_b()] {
        let (cost, path) = grid
            .search((0, 0), Direction::East, (12, 12), &policy)
            .unwrap()
            .unwrap();
        assert_eq!(path[0], APos(0, 0, Direction::East, 0, 0));
        let last = path[path.len() - 1];
        assert_eq!((last.0, last.1), (12, 12));
        assert_eq!(entered_cost(&grid, &path), cost);
        assert_eq!(path.iter().map(|s| s.4 as u64).sum::<u64>(), cost);
        for pair in path.windows(2) {
            let dx = pair[0].0.abs_diff(pair[1].0);
            let dy = pair[0].1.abs_diff(pair[1].1);
            assert_eq!(dx + dy, 1);
            assert!(pair[1].3 >= 1 && pair[1].3 <= policy.max_run);
            assert_ne!(pair[1].2, pair[0].2.opposite());
        }
    }
}

#[test]
fn single_row_costs_the_sum_of_entered_cells() {
    let grid = grid_of("1234");
    let r = grid.find_min_cost((0, 0), Direction::East, (3, 0), &Policy::policy_a());
    assert_eq!(r, Ok(Some(2 + 3 + 4)));
    let back = grid.find_min_cost((3, 0), Direction::West, (1, 0), &Policy::policy_a());
    assert_eq!(back, Ok(Some(3 + 2)));
}

#[test]
fn single_row_longer_than_a_run_is_unreachable() {
    let grid = grid_of("12345");
    let r = grid.find_min_cost((0, 0), Direction::East, (4, 0), &Policy::policy_a());
    assert_eq!(r, Ok(None));
}

#[test]
fn single_column_costs_the_sum_of_entered_cells() {
    let grid = grid_of("1\n2\n3");
    let r = grid.find_min_cost((0, 0), Direction::East, (0, 2), &Policy::policy_a());
    assert_eq!(r, Ok(Some(5)));
}

#[test]
fn policy_a_allows_three_straight_steps_but_not_four() {
    let a = Policy::policy_a();
    let after_two = APos(2, 0, Direction::East, 2, 1);
    let after_three = APos(3, 0, Direction::East, 3, 1);
    assert!(a.may_step(&after_two, Direction::East));
    assert!(!a.may_step(&after_three, Direction::East));
    assert!(a.may_step(&after_three, Direction::North));
    assert!(a.may_stop(&after_three));
    assert!(!a.may_step(&after_two, Direction::West));
}

#[test]
fn policy_b_needs_four_steps_before_turn_or_stop() {
    let b = Policy::policy_b();
    for run in 1..4u8 {
        let s = APos(5, 5, Direction::South, run, 1);
        assert!(!b.may_step(&s, Direction::East));
        assert!(!b.may_step(&s, Direction::West));
        assert!(!b.may_stop(&s));
        assert!(b.may_step(&s, Direction::South));
    }
    let four = APos(5, 5, Direction::South, 4, 1);
    assert!(b.may_step(&four, Direction::East));
    assert!(b.may_stop(&four));
    let ten = APos(5, 5, Direction::South, 10, 1);
    assert!(!b.may_step(&ten, Direction::South));
    let fresh = APos(0, 0, Direction::East, 0, 0);
    assert!(b.may_step(&fresh, Direction::South));
    assert!(!b.may_stop(&fresh));
}

#[test]
fn raising_a_cell_on_the_route_never_lowers_the_cost() {
    // The only cheap way leads along the top row and down the right column.
    let grid = grid_of("111\n991\n991");
    let raised = grid_of("111\n995\n991");
    let before = grid.find_min_cost((0, 0), Direction::East, (2, 2), &Policy::policy_a());
    let after = raised.find_min_cost((0, 0), Direction::East, (2, 2), &Policy::policy_a());
    assert_eq!(before, Ok(Some(4)));
    assert_eq!(after, Ok(Some(8)));
}

#[test]
fn raising_a_cell_off_the_route_changes_nothing() {
    let grid = grid_of("111\n151\n111");
    let raised = grid_of("111\n191\n111");
    let path = grid
        .find_path((0, 0), Direction::East, (2, 2), &Policy::policy_a())
        .unwrap()
        .unwrap();
    assert!(path.iter().skip(1).all(|s| (s.0, s.1) != (1, 1)));
    let before = grid.find_min_cost((0, 0), Direction::East, (2, 2), &Policy::policy_a());
    let after = raised.find_min_cost((0, 0), Direction::East, (2, 2), &Policy::policy_a());
    assert_eq!(before, Ok(Some(4)));
    assert_eq!(after, Ok(Some(4)));
}

#[test]
fn zero_cost_cells_are_handled() {
    let grid = grid_of("0000\n9990\n0000\n0999\n0000");
    let r = grid.find_min_cost((0, 0), Direction::East, (3, 4), &Policy::policy_a());
    assert_eq!(r, Ok(Some(0)));
}

#[test]
fn configuration_errors_are_reported() {
    let grid = grid_of("12\n34");
    let a = Policy::policy_a();
    assert_eq!(
        grid.find_min_cost((2, 0), Direction::East, (1, 1), &a),
        Err(SearchError::StartOutOfBounds)
    );
    assert_eq!(
        grid.find_min_cost((0, 0), Direction::East, (1, 2), &a),
        Err(SearchError::GoalOutOfBounds)
    );
    let ragged: Data = Grid::from(vec![
        vec![Block { heat_loss: 1 }, Block { heat_loss: 2 }],
        vec![Block { heat_loss: 3 }],
    ]);
    assert_eq!(
        ragged.find_min_cost((0, 0), Direction::East, (1, 0), &a),
        Err(SearchError::MalformedGrid)
    );
    let empty: Data = Grid::from(Vec::new());
    assert_eq!(
        empty.find_min_cost((0, 0), Direction::East, (0, 0), &a),
        Err(SearchError::StartOutOfBounds)
    );
}

#[test]
fn a_star_variants_match_the_policies() {
    let grid = grid_of(CITY);
    let start = APos(0, 0, Direction::East, 0, 0);
    let a = grid.modified_a_star_a(start, (12, 12)).unwrap().unwrap();
    assert_eq!(entered_cost(&grid, &a), 102);
    let b = grid.modified_a_star_b(start, (12, 12)).unwrap().unwrap();
    assert_eq!(entered_cost(&grid, &b), 94);
}

#[test]
fn neighbours_follow_the_turn_order() {
    let grid = grid_of("123\n456\n789");
    let s = APos(1, 1, Direction::East, 1, 5);
    assert_eq!(
        grid.get_neighbours_a(&s),
        vec![
            APos(2, 1, Direction::East, 2, 6),
            APos(1, 0, Direction::North, 1, 2),
            APos(1, 2, Direction::South, 1, 8),
        ]
    );
    assert_eq!(grid.get_neighbours_b(&s), vec![APos(2, 1, Direction::East, 2, 6)]);
    let corner = APos(0, 0, Direction::North, 0, 0);
    assert_eq!(grid.get_neighbours_a(&corner), vec![APos(1, 0, Direction::East, 1, 2)]);
}

#[test]
fn manhattan_distance() {
    assert_eq!(Data::distance((0, 0), (12, 12)), 24);
    assert_eq!(Data::distance((5, 2), (1, 7)), 9);
    assert_eq!(Data::distance((3, 3), (3, 3)), 0);
}
