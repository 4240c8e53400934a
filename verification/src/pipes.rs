//! Pipe tiles and how they connect to their neighbours.

use vstd::prelude::*;
use crate::counting::{lemma_digit_bound, lemma_digit_unique, opt_seq};
use crate::glyphs::{parse_grid, readable, rows_of, FromByte};
use crate::grid::{Direction, Grid};
use crate::reach::{at_distance, distances, within, Graph};
use crate::text::spec_lines;

verus! {

/// One tile of a field of pipes.
#[derive(Debug, Clone, Copy, PartialEq, Eq, Structural)]
pub enum Tile {
    VerticalPipe,
    HorizontalPipe,
    NorthEastPipe,
    NorthWestPipe,
    SouthWestPipe,
    SouthEastPipe,
    Ground,
    Start,
}

/// The directions in which a tile has an opening. The start tile may turn
/// out to be any pipe, so it is open on all four sides.
pub open spec fn connections(t: Tile) -> Seq<Direction> {
    match t {
        Tile::VerticalPipe => seq![Direction::North, Direction::South],
        Tile::HorizontalPipe => seq![Direction::East, Direction::West],
        Tile::NorthEastPipe => seq![Direction::North, Direction::East],
        Tile::NorthWestPipe => seq![Direction::North, Direction::West],
        Tile::SouthWestPipe => seq![Direction::South, Direction::West],
        Tile::SouthEastPipe => seq![Direction::South, Direction::East],
        Tile::Ground => seq![],
        Tile::Start => seq![Direction::North, Direction::East, Direction::South, Direction::West],
    }
}

/// Whether a tile has an opening in direction `d`.
pub open spec fn opens(t: Tile, d: Direction) -> bool {
    match (t, d) {
        (Tile::VerticalPipe, Direction::North) | (Tile::VerticalPipe, Direction::South) => true,
        (Tile::HorizontalPipe, Direction::East) | (Tile::HorizontalPipe, Direction::West) => true,
        (Tile::NorthEastPipe, Direction::North) | (Tile::NorthEastPipe, Direction::East) => true,
        (Tile::NorthWestPipe, Direction::North) | (Tile::NorthWestPipe, Direction::West) => true,
        (Tile::SouthWestPipe, Direction::South) | (Tile::SouthWestPipe, Direction::West) => true,
        (Tile::SouthEastPipe, Direction::South) | (Tile::SouthEastPipe, Direction::East) => true,
        (Tile::Start, _) => true,
        _ => false,
    }
}

/// The character a tile is read from, if it is one of the eight known ones.
pub open spec fn spec_tile_of(c: char) -> Option<Tile> {
    if c == '|' {
        Some(Tile::VerticalPipe)
    } else if c == '-' {
        Some(Tile::HorizontalPipe)
    } else if c == 'L' {
        Some(Tile::NorthEastPipe)
    } else if c == 'J' {
        Some(Tile::NorthWestPipe)
    } else if c == '7' {
        Some(Tile::SouthWestPipe)
    } else if c == 'F' {
        Some(Tile::SouthEastPipe)
    } else if c == '.' {
        Some(Tile::Ground)
    } else if c == 'S' {
        Some(Tile::Start)
    } else {
        None
    }
}

/// The list of openings holds exactly the directions in which the tile opens.
pub proof fn lemma_connections_are_openings(t: Tile, d: Direction)
    ensures
        connections(t).contains(d) <==> opens(t, d),
{
    let c = connections(t);
    if opens(t, d) {
        if c.len() > 0 && c[0] == d {
        } else if c.len() > 1 && c[1] == d {
        } else if c.len() > 2 && c[2] == d {
        } else {
            assert(c.len() > 3 && c[3] == d);
        }
    }
}

impl Tile {
    /// The directions in which the tile has an opening.
    pub fn get_connecting_directions(&self) -> (r: Vec<Direction>)
        ensures
            r@ == connections(*self),
    {
        let mut r: Vec<Direction> = Vec::new();
        match self {
            Tile::VerticalPipe => {
                r.push(Direction::North);
                r.push(Direction::South);
            },
            Tile::HorizontalPipe => {
                r.push(Direction::East);
                r.push(Direction::West);
            },
            Tile::NorthEastPipe => {
                r.push(Direction::North);
                r.push(Direction::East);
            },
            Tile::NorthWestPipe => {
                r.push(Direction::North);
                r.push(Direction::West);
            },
            Tile::SouthWestPipe => {
                r.push(Direction::South);
                r.push(Direction::West);
            },
            Tile::SouthEastPipe => {
                r.push(Direction::South);
                r.push(Direction::East);
            },
            Tile::Ground => {},
            Tile::Start => {
                r.push(Direction::North);
                r.push(Direction::East);
                r.push(Direction::South);
                r.push(Direction::West);
            },
        }
        assert(r@ =~= connections(*self));
        r
    }

    /// Whether the tile has an opening in direction `d`.
    pub fn connects(&self, d: Direction) -> (r: bool)
        ensures
            r == opens(*self, d),
    {
        match (self, d) {
            (Tile::VerticalPipe, Direction::North) | (Tile::VerticalPipe, Direction::South) => true,
            (Tile::HorizontalPipe, Direction::East) | (Tile::HorizontalPipe, Direction::West) => true,
            (Tile::NorthEastPipe, Direction::North) | (Tile::NorthEastPipe, Direction::East) => true,
            (Tile::NorthWestPipe, Direction::North) | (Tile::NorthWestPipe, Direction::West) => true,
            (Tile::SouthWestPipe, Direction::South) | (Tile::SouthWestPipe, Direction::West) => true,
            (Tile::SouthEastPipe, Direction::South) | (Tile::SouthEastPipe, Direction::East) => true,
            (Tile::Start, _) => true,
            _ => false,
        }
    }

    /// The box-drawing character that shows the tile.
    pub fn get_char(&self) -> (c: char)
        ensures
            c == match *self {
                Tile::VerticalPipe => '\u{2503}',
                Tile::HorizontalPipe => '\u{2501}',
                Tile::NorthEastPipe => '\u{2517}',
                Tile::NorthWestPipe => '\u{251B}',
                Tile::SouthWestPipe => '\u{2513}',
                Tile::SouthEastPipe => '\u{250F}',
                Tile::Ground => '.',
                Tile::Start => '\u{254B}',
            },
    {
        match self {
            Tile::VerticalPipe => '\u{2503}',
            Tile::HorizontalPipe => '\u{2501}',
            Tile::NorthEastPipe => '\u{2517}',
            Tile::NorthWestPipe => '\u{251B}',
            Tile::SouthWestPipe => '\u{2513}',
            Tile::SouthEastPipe => '\u{250F}',
            Tile::Ground => '.',
            Tile::Start => '\u{254B}',
        }
    }

    /// Reads a tile from its character.
    pub fn parse(c: char) -> (r: Option<Tile>)
        ensures
            r == spec_tile_of(c),
    {
        if c == '|' {
            Some(Tile::VerticalPipe)
        } else if c == '-' {
            Some(Tile::HorizontalPipe)
        } else if c == 'L' {
            Some(Tile::NorthEastPipe)
        } else if c == 'J' {
            Some(Tile::NorthWestPipe)
        } else if c == '7' {
            Some(Tile::SouthWestPipe)
        } else if c == 'F' {
            Some(Tile::SouthEastPipe)
        } else if c == '.' {
            Some(Tile::Ground)
        } else if c == 'S' {
            Some(Tile::Start)
        } else {
            None
        }
    }
}

/// A field of pipes and the place of its start tile.
#[derive(Debug, Clone)]
pub struct PipeMaze {
    pub tiles: Grid<Tile>,
    pub start_x: usize,
    pub start_y: usize,
}

/// A place in a field.
#[derive(Debug, Clone, Copy, PartialEq, Eq, Structural)]
pub struct Spot {
    pub x: usize,
    pub y: usize,
}

/// The neighbour of the tile `(x, y)` in the direction, as a sequence of at
/// most one place: it counts if the tile opens in the direction, the field
/// has a tile there, and that tile opens back.
pub open spec fn joined(g: Grid<Tile>, x: usize, y: usize, d: Direction) -> Seq<Spot> {
    if !g.has(x as int, y as int) || !opens(g.rows()[y as int][x as int], d) || g.dims().0 == 0
        || g.dims().1 == 0 {
        Seq::empty()
    } else {
        match d.spec_walk_pos((x, y), ((g.dims().0 - 1) as usize, (g.dims().1 - 1) as usize)) {
            None => Seq::empty(),
            Some(p) => if g.has(p.0 as int, p.1 as int) && opens(
                g.rows()[p.1 as int][p.0 as int],
                d.spec_opposite(),
            ) {
                seq![Spot { x: p.0, y: p.1 }]
            } else {
                Seq::empty()
            },
        }
    }
}

/// The tiles that the tile `(x, y)` is joined to: to the North, East, South
/// and West, in that order.
pub open spec fn joined_all(g: Grid<Tile>, x: usize, y: usize) -> Seq<Spot> {
    joined(g, x, y, Direction::North) + joined(g, x, y, Direction::East) + joined(
        g,
        x,
        y,
        Direction::South,
    ) + joined(g, x, y, Direction::West)
}

/// The place of the last start tile among the first `n` tiles of the field in
/// the order of reading, or the top left corner if there is none.
pub open spec fn spec_start(rows: Seq<Seq<Tile>>, width: int, n: int) -> (int, int)
    decreases n,
{
    if n <= 0 || width <= 0 {
        (0, 0)
    } else if rows[(n - 1) / width][(n - 1) % width] == Tile::Start {
        ((n - 1) % width, (n - 1) / width)
    } else {
        spec_start(rows, width, n - 1)
    }
}

/// The field as a graph: an edge leads from a tile to each tile that it is
/// joined to.
pub struct PipeGraph<'a> {
    pub grid: &'a Grid<Tile>,
    pub width: usize,
    pub height: usize,
    pub count: usize,
}

impl<'a> PipeGraph<'a> {
    pub open spec fn wf(&self) -> bool {
        &&& self.grid.wf()
        &&& self.grid.dims() == (self.width, self.height)
        &&& self.count == self.width * self.height
    }

    /// The neighbour of the tile in the direction, if the two are joined.
    fn joined_to(&self, n: &Spot, d: Direction) -> (r: Option<Spot>)
        ensures
            opt_seq(r) == joined(*self.grid, n.x, n.y, d),
    {
        let (width, height) = self.grid.dimensions();
        let here = match self.grid.get(n.x, n.y) {
            None => {
                return None;
            },
            Some(tile) => *tile,
        };
        if !here.connects(d) || width == 0 || height == 0 {
            return None;
        }
        match d.walk_pos((n.x, n.y), (width - 1, height - 1)) {
            None => None,
            Some((x, y)) => match self.grid.get(x, y) {
                None => None,
                Some(there) => {
                    if there.connects(d.opposite()) {
                        Some(Spot { x, y })
                    } else {
                        None
                    }
                },
            },
        }
    }
}

impl<'a> Graph for PipeGraph<'a> {
    type Node = Spot;

    open spec fn size(&self) -> nat {
        self.count as nat
    }

    open spec fn valid(&self, n: Spot) -> bool {
        self.wf() && n.x < self.width && n.y < self.height
    }

    open spec fn slot(&self, n: Spot) -> int {
        n.y * self.width + n.x
    }

    open spec fn edges(&self, n: Spot) -> Seq<Spot> {
        joined_all(*self.grid, n.x, n.y)
    }

    proof fn lemma_slots(&self, a: Spot, b: Spot) {
        let w = self.width as int;
        let h = self.height as int;
        lemma_digit_bound(w, a.y as int, h, a.x as int);
        lemma_digit_bound(w, b.y as int, h, b.x as int);
        assert(h * w == w * h) by (nonlinear_arith);
        if self.slot(a) == self.slot(b) {
            lemma_digit_unique(w, a.y as int, a.x as int, b.y as int, b.x as int);
        }
    }

    proof fn lemma_edges_valid(&self, n: Spot, k: int) {
        let g = *self.grid;
        let north = joined(g, n.x, n.y, Direction::North);
        let east = joined(g, n.x, n.y, Direction::East);
        let south = joined(g, n.x, n.y, Direction::South);
        let west = joined(g, n.x, n.y, Direction::West);
        let e = self.edges(n)[k];
        assert(north.contains(e) || east.contains(e) || south.contains(e) || west.contains(e)) by {
            if k < north.len() {
                assert(north[k] == e);
            } else if k < north.len() + east.len() {
                assert(east[k - north.len()] == e);
            } else if k < north.len() + east.len() + south.len() {
                assert(south[k - north.len() - east.len()] == e);
            } else {
                assert(west[k - north.len() - east.len() - south.len()] == e);
            }
        }
        assert(g.rows()[e.y as int].len() == g.dims().0);
    }

    fn node_count(&self) -> (r: usize) {
        self.count
    }

    fn slot_of(&self, n: &Spot) -> (r: usize) {
        proof {
            lemma_digit_bound(self.width as int, n.y as int, self.height as int, n.x as int);
            assert(self.height * self.width == self.width * self.height) by (nonlinear_arith);
        }
        n.y * self.width + n.x
    }

    fn neighbours(&self, n: &Spot) -> (r: Vec<Spot>) {
        let mut r: Vec<Spot> = Vec::with_capacity(4);
        if let Some(p) = self.joined_to(n, Direction::North) {
            r.push(p);
        }
        if let Some(p) = self.joined_to(n, Direction::East) {
            r.push(p);
        }
        if let Some(p) = self.joined_to(n, Direction::South) {
            r.push(p);
        }
        if let Some(p) = self.joined_to(n, Direction::West) {
            r.push(p);
        }
        assert(r@ =~= self.edges(*n));
        r
    }
}

/// The graph of a field of pipes.
pub open spec fn graph_of(g: &Grid<Tile>) -> PipeGraph<'_> {
    PipeGraph {
        grid: g,
        width: g.dims().0,
        height: g.dims().1,
        count: (g.dims().0 * g.dims().1) as usize,
    }
}

/// The fewest steps along pipes that lead from the tile `(sx, sy)` to the
/// tile `(x, y)` are `d`.
pub open spec fn steps_along(g: Grid<Tile>, sx: usize, sy: usize, x: usize, y: usize, d: nat) -> bool {
    at_distance(&graph_of(&g), Spot { x: sx, y: sy }, Spot { x, y }, d)
}

/// No run of pipes joins the tile `(x, y)` to the tile `(sx, sy)`.
pub open spec fn apart(g: Grid<Tile>, sx: usize, sy: usize, x: usize, y: usize) -> bool {
    forall|k: nat| !within(&graph_of(&g), Spot { x: sx, y: sy }, Spot { x, y }, k)
}

/// The greatest of the first `n` distances; zero if there is none.
pub open spec fn greatest(dist: Seq<Option<usize>>, n: int) -> int
    decreases n,
{
    if n <= 0 {
        0
    } else {
        let rest = greatest(dist, n - 1);
        match dist[n - 1] {
            Some(d) => if d > rest {
                d as int
            } else {
                rest
            },
            None => rest,
        }
    }
}

/// The greatest of the distances.
pub fn farthest(dist: &Vec<Option<usize>>) -> (r: usize)
    ensures
        r == greatest(dist@, dist@.len() as int),
{
    let mut r: usize = 0;
    let mut i: usize = 0;
    while i < dist.len()
        invariant
            i <= dist@.len(),
            r == greatest(dist@, i as int),
        decreases dist@.len() - i,
    {
        if let Some(d) = dist[i] {
            if d > r {
                r = d;
            }
        }
        i += 1;
    }
    r
}

impl PipeMaze {
    /// Reads a field of pipes and finds its start tile.
    pub fn parse(text: &[u8]) -> (r: Option<PipeMaze>)
        ensures
            r is Some <==> readable::<Tile>(spec_lines(text@)),
            r matches Some(maze) ==> {
                let lines = spec_lines(text@);
                &&& maze.tiles.wf()
                &&& maze.tiles.dims() == (lines[0].len() as usize, lines.len() as usize)
                &&& maze.tiles.rows() == rows_of::<Tile>(lines)
                &&& (maze.start_x as int, maze.start_y as int) == spec_start(
                    maze.tiles.rows(),
                    lines[0].len() as int,
                    (lines[0].len() * lines.len()) as int,
                )
            },
    {
        let tiles = match parse_grid::<Tile>(text) {
            None => {
                return None;
            },
            Some(tiles) => tiles,
        };
        let (width, height) = tiles.dimensions();
        let mut start_x: usize = 0;
        let mut start_y: usize = 0;
        let mut y: usize = 0;
        proof {
            assert(0 * width == 0) by (nonlinear_arith);
        }
        while y < height
            invariant
                y <= height,
                tiles.wf(),
                tiles.dims() == (width, height),
                (start_x as int, start_y as int) == spec_start(tiles.rows(), width as int, y * width),
            decreases height - y,
        {
            let mut x: usize = 0;
            while x < width
                invariant
                    x <= width,
                    y < height,
                    tiles.wf(),
                    tiles.dims() == (width, height),
                    (start_x as int, start_y as int) == spec_start(
                        tiles.rows(),
                        width as int,
                        y * width + x,
                    ),
                decreases width - x,
            {
                proof {
                    lemma_cell_number(width as int, y as int, x as int);
                }
                assert(tiles.rows()[y as int].len() == width);
                let is_start = match tiles.get(x, y) {
                    Some(tile) => *tile == Tile::Start,
                    None => false,
                };
                if is_start {
                    start_x = x;
                    start_y = y;
                }
                x += 1;
            }
            proof {
                assert((y + 1) * width == y * width + width) by (nonlinear_arith);
            }
            y += 1;
        }
        proof {
            let lines = spec_lines(text@);
            assert(tiles.rows().len() == lines.len());
            assert(tiles.rows()[0].len() == lines[0].len());
            assert(lines[0].len() == width && lines.len() == height);
            assert(height * width == width * height) by (nonlinear_arith);
        }
        Some(PipeMaze { tiles, start_x, start_y })
    }

    /// The tiles that the tile at `pos` is joined to.
    pub fn get_connected_neighbours(&self, pos: (usize, usize)) -> (r: Vec<(usize, usize)>)
        ensures
            r@.len() == joined_all(self.tiles, pos.0, pos.1).len(),
            forall|k: int|
                0 <= k < r@.len() ==> #[trigger] r@[k] == (
                    joined_all(self.tiles, pos.0, pos.1)[k].x,
                    joined_all(self.tiles, pos.0, pos.1)[k].y,
                ),
    {
        let graph = PipeGraph { grid: &self.tiles, width: 0, height: 0, count: 0 };
        let spot = Spot { x: pos.0, y: pos.1 };
        let mut r: Vec<(usize, usize)> = Vec::with_capacity(4);
        let ghost mut found: Seq<Spot> = Seq::empty();
        if let Some(p) = graph.joined_to(&spot, Direction::North) {
            r.push((p.x, p.y));
            proof {
                found = found.push(p);
            }
        }
        if let Some(p) = graph.joined_to(&spot, Direction::East) {
            r.push((p.x, p.y));
            proof {
                found = found.push(p);
            }
        }
        if let Some(p) = graph.joined_to(&spot, Direction::South) {
            r.push((p.x, p.y));
            proof {
                found = found.push(p);
            }
        }
        if let Some(p) = graph.joined_to(&spot, Direction::West) {
            r.push((p.x, p.y));
            proof {
                found = found.push(p);
            }
        }
        assert(found =~= joined_all(self.tiles, pos.0, pos.1));
        assert(r@.len() == found.len());
        r
    }

    /// The tiles that are joined to the tile at `start_pos` by a run of
    /// pipes, each with the fewest steps along pipes that lead to it: one
    /// entry for each tile of the field, row by row, `None` for a tile that
    /// is not joined. Returns `None` if the field is not rectangular, the
    /// tile is not on it, or the field has too many tiles to number them.
    pub fn get_loop(&self, start_pos: (usize, usize)) -> (r: Option<Vec<Option<usize>>>)
        ensures
            r is Some <==> self.tiles.wf() && start_pos.0 < self.tiles.dims().0 && start_pos.1
                < self.tiles.dims().1 && self.tiles.dims().0 * self.tiles.dims().1 <= usize::MAX,
            r matches Some(steps) ==> steps@.len() == self.tiles.dims().0 * self.tiles.dims().1
                && forall|x: usize, y: usize|
                x < self.tiles.dims().0 && y < self.tiles.dims().1 ==> match #[trigger] steps@[y
                    * self.tiles.dims().0 + x] {
                    Some(d) => steps_along(self.tiles, start_pos.0, start_pos.1, x, y, d as nat),
                    None => apart(self.tiles, start_pos.0, start_pos.1, x, y),
                },
    {
        if !self.tiles.is_rectangular() {
            return None;
        }
        let (width, height) = self.tiles.dimensions();
        if !(start_pos.0 < width && start_pos.1 < height) {
            return None;
        }
        let count = match width.checked_mul(height) {
            None => {
                return None;
            },
            Some(count) => count,
        };
        let graph = PipeGraph { grid: &self.tiles, width, height, count };
        assert(graph == graph_of(&self.tiles));
        let start = Spot { x: start_pos.0, y: start_pos.1 };
        let steps = distances(&graph, start);
        proof {
            assert forall|x: usize, y: usize| x < width && y < height implies match #[trigger] steps@[y
                * width + x] {
                Some(d) => steps_along(self.tiles, start_pos.0, start_pos.1, x, y, d as nat),
                None => apart(self.tiles, start_pos.0, start_pos.1, x, y),
            } by {
                let n = Spot { x, y };
                assert(graph.valid(n));
                assert(graph.slot(n) == y * width + x);
            }
        }
        Some(steps)
    }
}

/// The state of a count of crossings along a line: how many times the run
/// of pipes has been crossed, and, while the line runs along a stretch of
/// it, on which side the stretch was entered: `1` for the first side, `2` for
/// the second, `0` outside a stretch.
pub open spec fn cross(state: (int, int), first: bool, second: bool) -> (int, int) {
    if state.1 == 0 {
        if first && second {
            (state.0 + 1, 0)
        } else if first {
            (state.0, 1)
        } else if second {
            (state.0, 2)
        } else {
            state
        }
    } else if state.1 == 1 {
        if first && !second {
            (state.0, 0)
        } else if !first && second {
            (state.0 + 1, 0)
        } else {
            state
        }
    } else {
        if !first && second {
            (state.0, 0)
        } else if first && !second {
            (state.0 + 1, 0)
        } else {
            state
        }
    }
}

/// The count of crossings over the first `n` tiles of row `y`: a tile of the
/// run of pipes crosses the row if it opens to the North and to the South,
/// and a stretch along the row crosses it if it was entered from one of the
/// two sides and is left to the other.
pub open spec fn crossings_west(
    rows: Seq<Seq<Tile>>,
    steps: Seq<Option<usize>>,
    width: int,
    y: int,
    n: int,
) -> (int, int)
    decreases n,
{
    if n <= 0 {
        (0, 0)
    } else {
        let before = crossings_west(rows, steps, width, y, n - 1);
        if steps[y * width + (n - 1)] is Some {
            cross(
                before,
                opens(rows[y][n - 1], Direction::North),
                opens(rows[y][n - 1], Direction::South),
            )
        } else {
            before
        }
    }
}

/// The count of crossings over the first `n` tiles of column `x`, with West
/// and East in the place of North and South.
pub open spec fn crossings_north(
    rows: Seq<Seq<Tile>>,
    steps: Seq<Option<usize>>,
    width: int,
    x: int,
    n: int,
) -> (int, int)
    decreases n,
{
    if n <= 0 {
        (0, 0)
    } else {
        let before = crossings_north(rows, steps, width, x, n - 1);
        if steps[(n - 1) * width + x] is Some {
            cross(
                before,
                opens(rows[n - 1][x], Direction::West),
                opens(rows[n - 1][x], Direction::East),
            )
        } else {
            before
        }
    }
}

/// The tile lies inside the run of pipes: it is no part of the run, and the
/// run is crossed an odd number of times on the way to the tile from the
/// West as well as from the North.
pub open spec fn inside(
    rows: Seq<Seq<Tile>>,
    steps: Seq<Option<usize>>,
    width: int,
    x: int,
    y: int,
) -> bool {
    &&& steps[y * width + x] is None
    &&& crossings_west(rows, steps, width, y, x).0 % 2 == 1
    &&& crossings_north(rows, steps, width, x, y).0 % 2 == 1
}

/// How many of the first `n` tiles of row `y` lie inside.
pub open spec fn inside_in_row(
    rows: Seq<Seq<Tile>>,
    steps: Seq<Option<usize>>,
    width: int,
    y: int,
    n: int,
) -> int
    decreases n,
{
    if n <= 0 {
        0
    } else {
        inside_in_row(rows, steps, width, y, n - 1) + if inside(rows, steps, width, n - 1, y) {
            1int
        } else {
            0int
        }
    }
}

/// How many tiles of the first `n` rows lie inside.
pub open spec fn spec_area(rows: Seq<Seq<Tile>>, steps: Seq<Option<usize>>, width: int, n: int) -> int
    decreases n,
{
    if n <= 0 {
        0
    } else {
        spec_area(rows, steps, width, n - 1) + inside_in_row(rows, steps, width, n - 1, width)
    }
}

/// One tile more on a line of crossings.
fn crossed(count: usize, side: u8, first: bool, second: bool) -> (r: (usize, u8))
    requires
        side <= 2,
        count < usize::MAX,
    ensures
        (r.0 as int, r.1 as int) == cross((count as int, side as int), first, second),
        r.1 <= 2,
        r.0 <= count + 1,
{
    if side == 0 {
        if first && second {
            (count + 1, 0)
        } else if first {
            (count, 1)
        } else if second {
            (count, 2)
        } else {
            (count, side)
        }
    } else if side == 1 {
        if first && !second {
            (count, 0)
        } else if !first && second {
            (count + 1, 0)
        } else {
            (count, side)
        }
    } else {
        if !first && second {
            (count, 0)
        } else if first && !second {
            (count + 1, 0)
        } else {
            (count, side)
        }
    }
}

impl PipeMaze {
    /// Whether the tile lies inside the run of pipes that `steps` marks.
    pub fn is_inside(&self, steps: &Vec<Option<usize>>, x: usize, y: usize) -> (r: bool)
        requires
            self.tiles.wf(),
            steps@.len() == self.tiles.dims().0 * self.tiles.dims().1,
            x < self.tiles.dims().0,
            y < self.tiles.dims().1,
        ensures
            r == inside(self.tiles.rows(), steps@, self.tiles.dims().0 as int, x as int, y as int),
    {
        let (width, height) = self.tiles.dimensions();
        let total = steps.len();
        proof {
            lemma_digit_bound(width as int, y as int, height as int, x as int);
            assert(height * width == width * height) by (nonlinear_arith);
        }
        if steps[y * width + x].is_some() {
            return false;
        }
        let mut count: usize = 0;
        let mut side: u8 = 0;
        let mut k: usize = 0;
        while k < x
            invariant
                k <= x,
                x < width,
                y < height,
                self.tiles.wf(),
                self.tiles.dims() == (width, height),
                steps@.len() == width * height,
                total == steps@.len(),
                side <= 2,
                count <= k,
                (count as int, side as int) == crossings_west(
                    self.tiles.rows(),
                    steps@,
                    width as int,
                    y as int,
                    k as int,
                ),
            decreases x - k,
        {
            proof {
                lemma_digit_bound(width as int, y as int, height as int, k as int);
                assert(height * width == width * height) by (nonlinear_arith);
            }
            assert(self.tiles.rows()[y as int].len() == width);
            if steps[y * width + k].is_some() {
                if let Some(tile) = self.tiles.get(k, y) {
                    let next = crossed(
                        count,
                        side,
                        tile.connects(Direction::North),
                        tile.connects(Direction::South),
                    );
                    count = next.0;
                    side = next.1;
                }
            }
            k += 1;
        }
        let west = count;
        count = 0;
        side = 0;
        k = 0;
        while k < y
            invariant
                k <= y,
                x < width,
                y < height,
                self.tiles.wf(),
                self.tiles.dims() == (width, height),
                steps@.len() == width * height,
                total == steps@.len(),
                side <= 2,
                count <= k,
                (count as int, side as int) == crossings_north(
                    self.tiles.rows(),
                    steps@,
                    width as int,
                    x as int,
                    k as int,
                ),
            decreases y - k,
        {
            proof {
                lemma_digit_bound(width as int, k as int, height as int, x as int);
                assert(height * width == width * height) by (nonlinear_arith);
            }
            assert(self.tiles.rows()[k as int].len() == width);
            if steps[k * width + x].is_some() {
                if let Some(tile) = self.tiles.get(x, k) {
                    let next = crossed(
                        count,
                        side,
                        tile.connects(Direction::West),
                        tile.connects(Direction::East),
                    );
                    count = next.0;
                    side = next.1;
                }
            }
            k += 1;
        }
        west % 2 == 1 && count % 2 == 1
    }

    /// The number of tiles that lie inside the run of pipes that `steps`
    /// marks.
    pub fn enclosed_area(&self, steps: &Vec<Option<usize>>) -> (area: usize)
        requires
            self.tiles.wf(),
            steps@.len() == self.tiles.dims().0 * self.tiles.dims().1,
        ensures
            area == spec_area(
                self.tiles.rows(),
                steps@,
                self.tiles.dims().0 as int,
                self.tiles.dims().1 as int,
            ),
    {
        let (width, height) = self.tiles.dimensions();
        let total = steps.len();
        let mut area: usize = 0;
        let mut y: usize = 0;
        proof {
            assert(0 * width == 0) by (nonlinear_arith);
        }
        while y < height
            invariant
                y <= height,
                self.tiles.wf(),
                self.tiles.dims() == (width, height),
                total == steps@.len(),
                steps@.len() == width * height,
                area <= y * width,
                area == spec_area(self.tiles.rows(), steps@, width as int, y as int),
            decreases height - y,
        {
            let ghost before = area;
            let mut x: usize = 0;
            while x < width
                invariant
                    x <= width,
                    y < height,
                    self.tiles.wf(),
                    self.tiles.dims() == (width, height),
                    total == steps@.len(),
                    steps@.len() == width * height,
                    before <= y * width,
                    area == before + inside_in_row(
                        self.tiles.rows(),
                        steps@,
                        width as int,
                        y as int,
                        x as int,
                    ),
                    area <= y * width + x,
                decreases width - x,
            {
                proof {
                    lemma_digit_bound(width as int, y as int, height as int, x as int);
                    assert(height * width == width * height) by (nonlinear_arith);
                }
                if self.is_inside(steps, x, y) {
                    area += 1;
                }
                x += 1;
            }
            proof {
                assert((y + 1) * width == y * width + width) by (nonlinear_arith);
            }
            y += 1;
        }
        area
    }
}

/// The tile in column `x` of row `y` is tile number `y * width + x`.
proof fn lemma_cell_number(width: int, y: int, x: int)
    by (nonlinear_arith)
    requires
        0 <= x < width,
        0 <= y,
    ensures
        (y * width + x) / width == y,
        (y * width + x) % width == x,
        y * width + x >= 0,
{
}

impl FromByte for Tile {
    open spec fn of_byte(b: u8) -> Option<Tile> {
        spec_tile_of(b as char)
    }

    fn from_byte(b: u8) -> (r: Option<Tile>) {
        Tile::parse(b as char)
    }
}

} // verus!
