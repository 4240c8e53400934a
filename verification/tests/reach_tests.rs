use advent2023::glyphs::parse_grid;
use advent2023::pipes::{PipeGraph, Spot, Tile};
use advent2023::reach::{distances, reachable, Graph};

#[test]
fn reachability_follows_edges_only() {
    let grid = parse_grid::<Tile>(b"F-7.\n|.|.\nL-J.\n...S").unwrap();
    let graph = PipeGraph { grid: &grid, width: 4, height: 4, count: 16 };
    assert_eq!(graph.node_count(), 16);
    let marks = reachable(&graph, &vec![Spot { x: 0, y: 0 }]);
    let marked: Vec<usize> = (0..16).filter(|i| marks[*i]).collect();
    assert_eq!(marked, vec![0, 1, 2, 4, 6, 8, 9, 10]);
    let alone = reachable(&graph, &vec![Spot { x: 3, y: 3 }]);
    assert_eq!(alone.iter().filter(|m| **m).count(), 1);
    let nothing = reachable(&graph, &Vec::new());
    assert!(nothing.iter().all(|m| !*m));
    let both = reachable(&graph, &vec![Spot { x: 3, y: 3 }, Spot { x: 1, y: 0 }, Spot { x: 3, y: 3 }]);
    assert_eq!(both.iter().filter(|m| **m).count(), 9);
}

#[test]
fn slots_number_the_tiles_row_by_row() {
    let grid = parse_grid::<Tile>(b"...\n...").unwrap();
    let graph = PipeGraph { grid: &grid, width: 3, height: 2, count: 6 };
    assert_eq!(graph.slot_of(&Spot { x: 0, y: 0 }), 0);
    assert_eq!(graph.slot_of(&Spot { x: 2, y: 0 }), 2);
    assert_eq!(graph.slot_of(&Spot { x: 0, y: 1 }), 3);
    assert_eq!(graph.slot_of(&Spot { x: 2, y: 1 }), 5);
    assert_eq!(graph.neighbours(&Spot { x: 1, y: 1 }), vec![]);
}

#[test]
fn distances_count_the_fewest_edges() {
    let grid = parse_grid::<Tile>(b"F-7.\n|.|.\nL-J.\n...S").unwrap();
    let graph = PipeGraph { grid: &grid, width: 4, height: 4, count: 16 };
    let dist = distances(&graph, Spot { x: 0, y: 0 });
    assert_eq!(
        dist,
        vec![
            Some(0), Some(1), Some(2), None,
            Some(1), None, Some(3), None,
            Some(2), Some(3), Some(4), None,
            None, None, None, None
        ]
    );
    let marks = reachable(&graph, &vec![Spot { x: 0, y: 0 }]);
    for i in 0..16 {
        assert_eq!(marks[i], dist[i].is_some());
    }
    let alone = distances(&graph, Spot { x: 3, y: 3 });
    assert_eq!(alone.iter().filter(|d| d.is_some()).count(), 1);
    assert_eq!(alone[15], Some(0));
}
