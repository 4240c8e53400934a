use advent2023::crucible::{APos, Block, Data, Policy};
use advent2023::crucible_search::{positions, SearchError};
use advent2023::grid::Direction;
use advent2023::glyphs::{parse_tiles, FromByte};

const CITY: &str = "2413432311323\n3215453535623\n3255245654254\n3446585845452\n4546657867536\n1438598798454\n4457876987766\n3637877979653\n4654967986887\n4564679986453\n1224686865563\n2546548887735\n4322674655533\n";

#[test]
fn parsing_reads_a_rectangle_of_digits() {
    let g = Data::parse("123\n456\n").unwrap();
    assert_eq!(g.dimensions(), (3, 2));
    assert_eq!(g.get(0, 0), Some(&Block { heat_loss: 1 }));
    assert_eq!(g.get(2, 1), Some(&Block { heat_loss: 6 }));
    assert!(g.is_rectangular());
}

#[test]
fn parsing_rejects_what_is_no_grid() {
    assert!(Data::parse("").is_none());
    assert!(Data::parse("12\n3\n").is_none());
    assert!(Data::parse("12\n3x\n").is_none());
    assert!(Data::parse("12\n\n34\n").is_none());
    assert!(Data::parse("1 2\n").is_none());
}

#[test]
fn rows_of_blocks_are_digits_only() {
    assert_eq!(
        parse_tiles::<Block>(b"907"),
        Some(vec![Block { heat_loss: 9 }, Block { heat_loss: 0 }, Block { heat_loss: 7 }])
    );
    assert_eq!(parse_tiles::<Block>(b""), Some(vec![]));
    assert_eq!(parse_tiles::<Block>(b"9a7"), None);
    assert_eq!(Block::from_byte(b'5'), Some(Block { heat_loss: 5 }));
    assert_eq!(Block::from_byte(b'x'), None);
}

#[test]
fn least_heat_loss_of_the_city() {
    let g = Data::parse(CITY).unwrap();
    assert_eq!(g.least_heat_loss(&Policy::policy_a()), Ok(Some(102)));
    assert_eq!(g.least_heat_loss(&Policy::policy_b()), Ok(Some(94)));
}

#[test]
fn least_heat_loss_of_nothing_is_an_error() {
    let g: Data = advent2023::grid::Grid::from(Vec::new());
    assert_eq!(g.least_heat_loss(&Policy::policy_a()), Err(SearchError::StartOutOfBounds));
}

#[test]
fn heat_loss_along_a_found_path_is_its_cost() {
    let g = Data::parse(CITY).unwrap();
    for policy in [Policy::policy_a(), Policy::policy_b()] {
        let (cost, path) = g.search((0, 0), Direction::East, (12, 12), &policy).unwrap().unwrap();
        assert_eq!(g.heat_loss_along(&path), Some(cost));
        let cells = positions(&path);
        assert_eq!(cells.len(), path.len());
        assert_eq!(cells[0], (0, 0));
        assert_eq!(cells[cells.len() - 1], (12, 12));
    }
}

#[test]
fn heat_loss_along_skips_the_first_cell() {
    let g = Data::parse("19\n11\n").unwrap();
    let path = vec![
        APos(1, 0, Direction::South, 0, 0),
        APos(1, 1, Direction::South, 1, 1),
        APos(0, 1, Direction::West, 1, 1),
    ];
    assert_eq!(g.heat_loss_along(&path), Some(2));
    assert_eq!(g.heat_loss_along(&Vec::new()), Some(0));
    assert_eq!(g.heat_loss_along(&vec![APos(5, 5, Direction::East, 0, 0)]), Some(0));
    let off = vec![APos(0, 0, Direction::East, 0, 0), APos(2, 0, Direction::East, 1, 1)];
    assert_eq!(g.heat_loss_along(&off), None);
}

#[test]
fn too_many_states_is_refused() {
    let row = vec![Block { heat_loss: 1 }; 70000];
    let g: Data = advent2023::grid::Grid::from(vec![row; 70]);
    let wide = Policy { min_run: 0, max_run: 255 };
    assert_eq!(
        g.find_min_cost((0, 0), Direction::East, (1, 1), &wide),
        Err(SearchError::TooManyStates)
    );
}
