use advent2023::grid::Direction;
use advent2023::pipes::Tile;

#[test]
fn pipes_open_on_two_sides() {
    assert_eq!(Tile::VerticalPipe.get_connecting_directions(), vec![Direction::North, Direction::South]);
    assert_eq!(Tile::HorizontalPipe.get_connecting_directions(), vec![Direction::East, Direction::West]);
    assert_eq!(Tile::NorthEastPipe.get_connecting_directions(), vec![Direction::North, Direction::East]);
    assert_eq!(Tile::NorthWestPipe.get_connecting_directions(), vec![Direction::North, Direction::West]);
    assert_eq!(Tile::SouthWestPipe.get_connecting_directions(), vec![Direction::South, Direction::West]);
    assert_eq!(Tile::SouthEastPipe.get_connecting_directions(), vec![Direction::South, Direction::East]);
    assert_eq!(Tile::Ground.get_connecting_directions(), vec![]);
    assert_eq!(
        Tile::Start.get_connecting_directions(),
        vec![Direction::North, Direction::East, Direction::South, Direction::West]
    );
}

#[test]
fn connects_agrees_with_the_list() {
    let tiles = [
        Tile::VerticalPipe,
        Tile::HorizontalPipe,
        Tile::NorthEastPipe,
        Tile::NorthWestPipe,
        Tile::SouthWestPipe,
        Tile::SouthEastPipe,
        Tile::Ground,
        Tile::Start,
    ];
    for t in tiles {
        for d in [Direction::North, Direction::East, Direction::South, Direction::West] {
            assert_eq!(t.connects(d), t.get_connecting_directions().contains(&d));
        }
    }
}

#[test]
fn tiles_are_read_and_shown() {
    let pairs = [
        ('|', Tile::VerticalPipe, '┃'),
        ('-', Tile::HorizontalPipe, '━'),
        ('L', Tile::NorthEastPipe, '┗'),
        ('J', Tile::NorthWestPipe, '┛'),
        ('7', Tile::SouthWestPipe, '┓'),
        ('F', Tile::SouthEastPipe, '┏'),
        ('.', Tile::Ground, '.'),
        ('S', Tile::Start, '╋'),
    ];
    for (c, t, shown) in pairs {
        assert_eq!(Tile::parse(c), Some(t));
        assert_eq!(t.get_char(), shown);
    }
    assert_eq!(Tile::parse('x'), None);
}
