use advent2023::grid::Grid;
use advent2023::platform::{Direction, Platform, Tile};

const DISH: &str = "O....#....\nO.OO#....#\n.....##...\nOO.#O....O\n.O.....O#.\nO.#..O.#.#\n..O..#O..O\n.......O..\n#....###..\n#OO..#....";

fn platform(text: &str) -> Platform {
    Grid::from(
        text.lines()
            .map(|l| l.chars().map(|c| Tile::parse(c).unwrap()).collect::<Vec<Tile>>())
            .collect::<Vec<Vec<Tile>>>(),
    )
}

fn show(p: &Platform) -> String {
    p.get_raw_tiles()
        .iter()
        .map(|row| {
            row.iter()
                .map(|t| match t {
                    Tile::RoundRock => 'O',
                    Tile::CubeRock => '#',
                    Tile::Empty => '.',
                })
                .collect::<String>()
        })
        .collect::<Vec<String>>()
        .join("\n")
}

#[test]
fn load_after_tilting_north_is_136() {
    let mut p = platform(DISH);
    p.slide_all(Direction::North, Tile::RoundRock);
    assert_eq!(p.get_load(), Some(136));
    assert_eq!(
        show(&p),
        "OOOO.#.O..\nOO..#....#\nOO..O##..O\nO..#.OO...\n........#.\n..#....#.#\n..O..#.O.O\n..O.......\n#....###..\n#....#...."
    );
}

#[test]
fn one_full_cycle() {
    let mut p = platform(DISH);
    for d in [Direction::North, Direction::West, Direction::South, Direction::East] {
        p.slide_all(d, Tile::RoundRock);
    }
    assert_eq!(
        show(&p),
        ".....#....\n....#...O#\n...OO##...\n.OO#......\n.....OOO#.\n.O#...O#.#\n....O#....\n......OOOO\n#...O###..\n#..OO#...."
    );
}

#[test]
fn a_tile_slides_until_something_stops_it() {
    let mut p = platform("..O.\n#...\n.O..");
    p.slide_tile(2, 0, Direction::West);
    assert_eq!(show(&p), "O...\n#...\n.O..");
    p.slide_tile(1, 2, Direction::North);
    assert_eq!(show(&p), "OO..\n#...\n....");
    p.slide_tile(0, 0, Direction::South);
    assert_eq!(show(&p), "OO..\n#...\n....");
    p.slide_tile(1, 0, Direction::South);
    assert_eq!(show(&p), "O...\n#...\n.O..");
    p.slide_tile(1, 2, Direction::East);
    assert_eq!(show(&p), "O...\n#...\n...O");
    p.slide_tile(3, 2, Direction::East);
    assert_eq!(show(&p), "O...\n#...\n...O");
}

#[test]
fn load_counts_rows_from_the_south() {
    assert_eq!(platform("O\n.\nO").get_load(), Some(4));
    assert_eq!(platform("#.\n..").get_load(), Some(0));
    assert_eq!(platform(DISH).get_load(), Some(104));
    assert_eq!(Tile::parse('x'), None);
}
