//! A beam of light that is bent and split by the mirrors of a contraption.

use vstd::prelude::*;
use crate::counting::{lemma_digit_bound, lemma_digit_unique};
use crate::glyphs::FromByte;
use crate::grid::{Direction, Grid};
use crate::reach::{reachable, reaches, Graph};

verus! {

/// What stands on a tile of the contraption.
#[derive(Debug, Clone, Copy, PartialEq, Eq, Structural)]
pub enum Mirror {
    Vertical,
    Horizontal,
    DiagonalTopRight,
    DiagonalTopLeft,
    Empty,
}

/// The contraption: a grid of mirrors.
pub type Contraption = Grid<Mirror>;

/// A beam on a tile, about to leave it in a direction.
#[derive(Debug, Clone, Copy, PartialEq, Eq, Structural)]
pub struct Beam {
    pub x: usize,
    pub y: usize,
    pub dir: Direction,
}

/// The character a mirror is read from, if it is one of the five known ones.
pub open spec fn spec_mirror_of(c: char) -> Option<Mirror> {
    if c == '|' {
        Some(Mirror::Vertical)
    } else if c == '-' {
        Some(Mirror::Horizontal)
    } else if c == '/' {
        Some(Mirror::DiagonalTopRight)
    } else if c == '\\' {
        Some(Mirror::DiagonalTopLeft)
    } else if c == '.' {
        Some(Mirror::Empty)
    } else {
        None
    }
}

/// The directions in which light leaves a tile that it entered travelling in
/// direction `d`. A splitter that is met on its flat side sends the light
/// both ways along itself; a diagonal mirror turns it by a quarter; anything
/// else lets it pass.
pub open spec fn outs(m: Mirror, d: Direction) -> Seq<Direction> {
    match (m, d) {
        (Mirror::Horizontal, Direction::North) | (Mirror::Horizontal, Direction::South) => seq![
            Direction::East,
            Direction::West,
        ],
        (Mirror::Vertical, Direction::East) | (Mirror::Vertical, Direction::West) => seq![
            Direction::North,
            Direction::South,
        ],
        (Mirror::DiagonalTopLeft, Direction::North) => seq![Direction::West],
        (Mirror::DiagonalTopLeft, Direction::East) => seq![Direction::South],
        (Mirror::DiagonalTopLeft, Direction::South) => seq![Direction::East],
        (Mirror::DiagonalTopLeft, Direction::West) => seq![Direction::North],
        (Mirror::DiagonalTopRight, Direction::North) => seq![Direction::East],
        (Mirror::DiagonalTopRight, Direction::South) => seq![Direction::West],
        (Mirror::DiagonalTopRight, Direction::East) => seq![Direction::North],
        (Mirror::DiagonalTopRight, Direction::West) => seq![Direction::South],
        _ => seq![d],
    }
}

/// A number for each direction.
pub open spec fn dir_slot(d: Direction) -> int {
    match d {
        Direction::North => 0,
        Direction::East => 1,
        Direction::South => 2,
        Direction::West => 3,
    }
}

/// The tile next to `(x, y)` in the direction, if the grid has one.
pub open spec fn spec_move(width: usize, height: usize, x: usize, y: usize, dir: Direction) -> Option<
    (usize, usize),
> {
    match dir {
        Direction::North => if 0 < y <= height && x < width {
            Some((x, (y - 1) as usize))
        } else {
            None
        },
        Direction::West => if 0 < x <= width && y < height {
            Some(((x - 1) as usize, y))
        } else {
            None
        },
        Direction::South => if y + 1 < height && x < width {
            Some((x, (y + 1) as usize))
        } else {
            None
        },
        Direction::East => if x + 1 < width && y < height {
            Some(((x + 1) as usize, y))
        } else {
            None
        },
    }
}

/// The beams that leave the tile `(x, y)` when light enters it travelling in
/// the direction.
pub open spec fn beams_from(g: Contraption, x: usize, y: usize, into: Direction) -> Seq<Beam> {
    let out = outs(g.rows()[y as int][x as int], into);
    Seq::new(out.len(), |k: int| Beam { x, y, dir: out[k] })
}

impl Mirror {
    /// Reads a mirror from its character.
    pub fn parse(c: char) -> (r: Option<Mirror>)
        ensures
            r == spec_mirror_of(c),
    {
        if c == '|' {
            Some(Mirror::Vertical)
        } else if c == '-' {
            Some(Mirror::Horizontal)
        } else if c == '/' {
            Some(Mirror::DiagonalTopRight)
        } else if c == '\\' {
            Some(Mirror::DiagonalTopLeft)
        } else if c == '.' {
            Some(Mirror::Empty)
        } else {
            None
        }
    }

    /// The character that shows the mirror.
    pub fn to_char(&self) -> (c: char)
        ensures
            spec_mirror_of(c) == Some(*self),
    {
        match self {
            Mirror::Vertical => '|',
            Mirror::Horizontal => '-',
            Mirror::DiagonalTopLeft => '\\',
            Mirror::DiagonalTopRight => '/',
            Mirror::Empty => '.',
        }
    }

    /// The directions in which light leaves the tile that it entered
    /// travelling in direction `d`.
    pub fn turn(&self, d: Direction) -> (r: Vec<Direction>)
        ensures
            r@ == outs(*self, d),
    {
        let mut r: Vec<Direction> = Vec::with_capacity(2);
        match (self, d) {
            (Mirror::Horizontal, Direction::North) | (Mirror::Horizontal, Direction::South) => {
                r.push(Direction::East);
                r.push(Direction::West);
            },
            (Mirror::Vertical, Direction::East) | (Mirror::Vertical, Direction::West) => {
                r.push(Direction::North);
                r.push(Direction::South);
            },
            (Mirror::DiagonalTopLeft, Direction::North) => {
                r.push(Direction::West);
            },
            (Mirror::DiagonalTopLeft, Direction::East) => {
                r.push(Direction::South);
            },
            (Mirror::DiagonalTopLeft, Direction::South) => {
                r.push(Direction::East);
            },
            (Mirror::DiagonalTopLeft, Direction::West) => {
                r.push(Direction::North);
            },
            (Mirror::DiagonalTopRight, Direction::North) => {
                r.push(Direction::East);
            },
            (Mirror::DiagonalTopRight, Direction::South) => {
                r.push(Direction::West);
            },
            (Mirror::DiagonalTopRight, Direction::East) => {
                r.push(Direction::North);
            },
            (Mirror::DiagonalTopRight, Direction::West) => {
                r.push(Direction::South);
            },
            _ => {
                r.push(d);
            },
        }
        assert(r@ =~= outs(*self, d));
        r
    }
}

impl FromByte for Mirror {
    open spec fn of_byte(b: u8) -> Option<Mirror> {
        spec_mirror_of(b as char)
    }

    fn from_byte(b: u8) -> (r: Option<Mirror>) {
        Mirror::parse(b as char)
    }
}

/// The contraption as a graph of beams: an edge leads from a beam to each
/// beam that it becomes on the next tile.
pub struct BeamGraph<'a> {
    pub grid: &'a Contraption,
    pub width: usize,
    pub height: usize,
    pub count: usize,
}

impl<'a> BeamGraph<'a> {
    /// The graph describes its grid, which is rectangular.
    pub open spec fn wf(&self) -> bool {
        &&& self.grid.wf()
        &&& self.grid.dims() == (self.width, self.height)
        &&& self.count == self.width * self.height * 4
    }
}

impl<'a> Graph for BeamGraph<'a> {
    type Node = Beam;

    open spec fn size(&self) -> nat {
        self.count as nat
    }

    open spec fn valid(&self, n: Beam) -> bool {
        self.wf() && n.x < self.width && n.y < self.height
    }

    open spec fn slot(&self, n: Beam) -> int {
        (n.y * self.width + n.x) * 4 + dir_slot(n.dir)
    }

    open spec fn edges(&self, n: Beam) -> Seq<Beam> {
        match spec_move(self.width, self.height, n.x, n.y, n.dir) {
            None => Seq::empty(),
            Some(p) => beams_from(*self.grid, p.0, p.1, n.dir),
        }
    }

    proof fn lemma_slots(&self, a: Beam, b: Beam) {
        let w = self.width as int;
        let h = self.height as int;
        lemma_digit_bound(w, a.y as int, h, a.x as int);
        lemma_digit_bound(w, b.y as int, h, b.x as int);
        lemma_digit_bound(4, a.y * w + a.x, h * w, dir_slot(a.dir));
        lemma_digit_bound(4, b.y * w + b.x, h * w, dir_slot(b.dir));
        assert(h * w * 4 == w * h * 4) by (nonlinear_arith);
        if self.slot(a) == self.slot(b) {
            lemma_digit_unique(4, a.y * w + a.x, dir_slot(a.dir), b.y * w + b.x, dir_slot(b.dir));
            lemma_digit_unique(w, a.y as int, a.x as int, b.y as int, b.x as int);
        }
    }

    proof fn lemma_edges_valid(&self, n: Beam, k: int) {
    }

    fn node_count(&self) -> (r: usize) {
        self.count
    }

    fn slot_of(&self, n: &Beam) -> (r: usize) {
        proof {
            self.lemma_slots(*n, *n);
            lemma_digit_bound(
                self.width as int,
                n.y as int,
                self.height as int,
                n.x as int,
            );
            assert(self.height * self.width * 4 == self.width * self.height * 4)
                by (nonlinear_arith);
            assert(self.height * self.width <= self.height * self.width * 4) by (nonlinear_arith);
        }
        let d: usize = match n.dir {
            Direction::North => 0,
            Direction::East => 1,
            Direction::South => 2,
            Direction::West => 3,
        };
        (n.y * self.width + n.x) * 4 + d
    }

    fn neighbours(&self, n: &Beam) -> (r: Vec<Beam>) {
        let mut r: Vec<Beam> = Vec::with_capacity(2);
        match self.grid.move_in_direction(n.x, n.y, n.dir) {
            None => {},
            Some((x, y)) => {
                assert(self.grid.rows()[y as int].len() == self.width);
                match self.grid.get(x, y) {
                    None => {},
                    Some(mirror) => {
                        let out = mirror.turn(n.dir);
                        let mut k: usize = 0;
                        while k < out.len()
                            invariant
                                k <= out@.len(),
                                out@ == outs(self.grid.rows()[y as int][x as int], n.dir),
                                r@ == Seq::new(k as nat, |j: int| Beam { x, y, dir: out@[j] }),
                            decreases out@.len() - k,
                        {
                            r.push(Beam { x, y, dir: out[k] });
                            assert(r@ =~= Seq::new(
                                (k + 1) as nat,
                                |j: int| Beam { x, y, dir: out@[j] },
                            ));
                            k += 1;
                        }
                    },
                }
            },
        }
        assert(r@ =~= self.edges(*n));
        r
    }
}

/// The graph of the beams of a contraption.
pub open spec fn graph_of(g: &Contraption) -> BeamGraph<'_> {
    BeamGraph {
        grid: g,
        width: g.dims().0,
        height: g.dims().1,
        count: (g.dims().0 * g.dims().1 * 4) as usize,
    }
}

/// Light that enters the tile `(x, y)` travelling in the direction `into`
/// leaves the tile `(tx, ty)` in the direction `d` at some time.
pub open spec fn beam_reaches(
    g: Contraption,
    x: usize,
    y: usize,
    into: Direction,
    tx: usize,
    ty: usize,
    d: Direction,
) -> bool {
    reaches(&graph_of(&g), beams_from(g, x, y, into), Beam { x: tx, y: ty, dir: d })
}

/// Light that enters the tile `(x, y)` travelling in the direction `into`
/// gets to the tile `(tx, ty)`.
pub open spec fn energized(
    g: Contraption,
    x: usize,
    y: usize,
    into: Direction,
    tx: usize,
    ty: usize,
) -> bool {
    exists|d: Direction| #[trigger] beam_reaches(g, x, y, into, tx, ty, d)
}

/// The tiles that light gets to when it enters the tile `(x, y)` travelling
/// in the direction `into`.
pub open spec fn lit_tiles(g: Contraption, x: usize, y: usize, into: Direction) -> Set<
    (usize, usize),
> {
    Set::new(
        |t: (usize, usize)| t.0 < g.dims().0 && t.1 < g.dims().1 && energized(g, x, y, into, t.0, t.1),
    )
}

/// A list in the order of reading that holds exactly the lit tiles is as long
/// as there are lit tiles.
pub proof fn lemma_lit_count(
    g: Contraption,
    x: usize,
    y: usize,
    into: Direction,
    tiles: Seq<(usize, usize)>,
)
    requires
        in_reading_order(tiles),
        forall|tx: usize, ty: usize|
            #![trigger tiles.contains((tx, ty))]
            #![trigger energized(g, x, y, into, tx, ty)]
            tiles.contains((tx, ty)) <==> tx < g.dims().0 && ty < g.dims().1 && energized(
                g,
                x,
                y,
                into,
                tx,
                ty,
            ),
    ensures
        lit_tiles(g, x, y, into).finite(),
        lit_tiles(g, x, y, into).len() == tiles.len(),
{
    assert(tiles.no_duplicates()) by {
        assert forall|i: int, j: int| 0 <= i < tiles.len() && 0 <= j < tiles.len() && i
            != j implies tiles[i] != tiles[j] by {
            if i < j {
                assert(tiles[i].1 < tiles[j].1 || (tiles[i].1 == tiles[j].1 && tiles[i].0
                    < tiles[j].0));
            } else {
                assert(tiles[j].1 < tiles[i].1 || (tiles[j].1 == tiles[i].1 && tiles[j].0
                    < tiles[i].0));
            }
        }
    }
    tiles.unique_seq_to_set();
    assert(tiles.to_set() =~= lit_tiles(g, x, y, into)) by {
        assert forall|t: (usize, usize)| tiles.to_set().contains(t) <==> lit_tiles(
            g,
            x,
            y,
            into,
        ).contains(t) by {
            assert(tiles.contains((t.0, t.1)) <==> t.0 < g.dims().0 && t.1 < g.dims().1
                && energized(g, x, y, into, t.0, t.1));
        }
    }
}

/// Light enters the contraption here: down into the top row, up into the
/// bottom row, or, in the rows between these two, from the left into the
/// first column or from the right into the last.
pub open spec fn is_entry(g: Contraption, x: usize, y: usize, d: Direction) -> bool {
    let width = g.dims().0;
    let height = g.dims().1;
    ||| x < width && 0 < height && y == 0 && d == Direction::South
    ||| x < width && 0 < height && y == height - 1 && d == Direction::North
    ||| 0 < width && 1 <= y && y + 1 < height && x == 0 && d == Direction::East
    ||| 0 < width && 1 <= y && y + 1 < height && x == width - 1 && d == Direction::West
}

/// `best` is the greatest number of tiles that light lights from any entry,
/// or zero if there is no entry.
pub open spec fn is_best(g: Contraption, best: nat) -> bool {
    &&& forall|x: usize, y: usize, d: Direction| #[trigger]
        is_entry(g, x, y, d) ==> lit_tiles(g, x, y, d).len() <= best
    &&& best == 0 || exists|x: usize, y: usize, d: Direction| #[trigger]
        is_entry(g, x, y, d) && lit_tiles(g, x, y, d).len() == best
}

/// The tiles are in the order of reading, none twice.
pub open spec fn in_reading_order(tiles: Seq<(usize, usize)>) -> bool {
    forall|i: int, j: int|
        0 <= i < j < tiles.len() ==> (#[trigger] tiles[i]).1 < (#[trigger] tiles[j]).1 || (
        tiles[i].1 == tiles[j].1 && tiles[i].0 < tiles[j].0)
}

/// The tile `(a, b)` comes, in the order of reading, before the tile
/// `(tx, ty)`.
pub open spec fn read_before(a: int, b: int, tx: int, ty: int) -> bool {
    b < ty || (b == ty && a < tx)
}

/// The list holds exactly the lit tiles that come before the tile
/// `(tx, ty)`.
pub open spec fn lists_lit(
    g: Contraption,
    x: usize,
    y: usize,
    into: Direction,
    tiles: Seq<(usize, usize)>,
    tx: int,
    ty: int,
) -> bool {
    forall|a: usize, b: usize| #[trigger]
        tiles.contains((a, b)) <==> a < g.dims().0 && b < g.dims().1 && read_before(
            a as int,
            b as int,
            tx,
            ty,
        ) && energized(g, x, y, into, a, b)
}

/// The marks are those of the beams that the light becomes.
pub open spec fn marks_of(
    g: Contraption,
    x: usize,
    y: usize,
    into: Direction,
    graph: BeamGraph<'_>,
    marks: Seq<bool>,
) -> bool {
    &&& graph == graph_of(&g)
    &&& graph.wf()
    &&& marks.len() == graph.size()
    &&& forall|n: Beam|
        graph.valid(n) ==> (#[trigger] marks[graph.slot(n)] <==> reaches(
            &graph,
            beams_from(g, x, y, into),
            n,
        ))
}

/// A list that holds the lit tiles before the lit tile `(tx, ty)` holds,
/// with that tile at its end, the lit tiles before the next tile.
pub proof fn lemma_list_grows(
    g: Contraption,
    x: usize,
    y: usize,
    into: Direction,
    tiles: Seq<(usize, usize)>,
    tx: usize,
    ty: usize,
)
    requires
        tx < g.dims().0,
        ty < g.dims().1,
        lists_lit(g, x, y, into, tiles, tx as int, ty as int),
        in_reading_order(tiles),
    ensures
        energized(g, x, y, into, tx, ty) ==> lists_lit(
            g,
            x,
            y,
            into,
            tiles.push((tx, ty)),
            tx + 1,
            ty as int,
        ) && in_reading_order(tiles.push((tx, ty))),
{
    let more = tiles.push((tx, ty));
    if energized(g, x, y, into, tx, ty) {
        assert forall|a: usize, b: usize| #[trigger]
            more.contains((a, b)) <==> a < g.dims().0 && b < g.dims().1 && read_before(
                a as int,
                b as int,
                tx + 1,
                ty as int,
            ) && energized(g, x, y, into, a, b) by {
            if more.contains((a, b)) {
                let i = choose|i: int| 0 <= i < more.len() && more[i] == (a, b);
                if i < tiles.len() {
                    assert(tiles[i] == (a, b));
                    assert(tiles.contains((a, b)));
                }
            }
            if a == tx && b == ty {
                assert(more[tiles.len() as int] == (a, b));
            } else if tiles.contains((a, b)) {
                let i = choose|i: int| 0 <= i < tiles.len() && tiles[i] == (a, b);
                assert(more[i] == (a, b));
            }
        }
        assert forall|i: int, j: int| 0 <= i < j < more.len() implies (#[trigger] more[i]).1 < (
        #[trigger] more[j]).1 || (more[i].1 == more[j].1 && more[i].0 < more[j].0) by {
            if j == tiles.len() {
                assert(tiles.contains(tiles[i]));
            }
        }
    }
}

impl<'a> BeamGraph<'a> {
    /// Whether a beam leaves the tile in any direction.
    fn tile_lit(
        &self,
        marks: &Vec<bool>,
        tx: usize,
        ty: usize,
        Ghost(from): Ghost<(usize, usize, Direction)>,
    ) -> (lit: bool)
        requires
            marks_of(*self.grid, from.0, from.1, from.2, *self, marks@),
            tx < self.width,
            ty < self.height,
        ensures
            lit == energized(*self.grid, from.0, from.1, from.2, tx, ty),
    {
        let north = Beam { x: tx, y: ty, dir: Direction::North };
        let east = Beam { x: tx, y: ty, dir: Direction::East };
        let south = Beam { x: tx, y: ty, dir: Direction::South };
        let west = Beam { x: tx, y: ty, dir: Direction::West };
        proof {
            self.lemma_slots(north, north);
            self.lemma_slots(east, east);
            self.lemma_slots(south, south);
            self.lemma_slots(west, west);
        }
        let n = marks[self.slot_of(&north)];
        let e = marks[self.slot_of(&east)];
        let s = marks[self.slot_of(&south)];
        let w = marks[self.slot_of(&west)];
        proof {
            let g = *self.grid;
            assert(n == beam_reaches(g, from.0, from.1, from.2, tx, ty, Direction::North));
            assert(e == beam_reaches(g, from.0, from.1, from.2, tx, ty, Direction::East));
            assert(s == beam_reaches(g, from.0, from.1, from.2, tx, ty, Direction::South));
            assert(w == beam_reaches(g, from.0, from.1, from.2, tx, ty, Direction::West));
            if energized(g, from.0, from.1, from.2, tx, ty) {
                let d = choose|d: Direction| #[trigger]
                    beam_reaches(g, from.0, from.1, from.2, tx, ty, d);
                assert(d == Direction::North || d == Direction::East || d == Direction::South || d
                    == Direction::West);
            }
        }
        n || e || s || w
    }
}

impl Contraption {
    /// The tile next to `(x, y)` in the direction, if the grid has one.
    pub fn move_in_direction(&self, x: usize, y: usize, dir: Direction) -> (r: Option<
        (usize, usize),
    >)
        ensures
            r == spec_move(self.dims().0, self.dims().1, x, y, dir),
    {
        let (width, height) = self.dimensions();
        match dir {
            Direction::North => {
                if 0 < y && y <= height && x < width {
                    Some((x, y - 1))
                } else {
                    None
                }
            },
            Direction::West => {
                if 0 < x && x <= width && y < height {
                    Some((x - 1, y))
                } else {
                    None
                }
            },
            Direction::South => {
                if y < height && y + 1 < height && x < width {
                    Some((x, y + 1))
                } else {
                    None
                }
            },
            Direction::East => {
                if x < width && x + 1 < width && y < height {
                    Some((x + 1, y))
                } else {
                    None
                }
            },
        }
    }

    /// The tiles that light gets to when it enters the tile `(x, y)`
    /// travelling in the direction `dir`, in the order of reading. Returns
    /// `None` if the grid is not rectangular, the tile is not on it, or the
    /// grid has too many tiles to number its beams.
    pub fn start_energize(&self, x: usize, y: usize, dir: Direction) -> (r: Option<
        Vec<(usize, usize)>,
    >)
        ensures
            r is Some <==> self.wf() && x < self.dims().0 && y < self.dims().1 && self.dims().0
                * self.dims().1 * 4 <= usize::MAX,
            r matches Some(tiles) ==> {
                &&& in_reading_order(tiles@)
                &&& forall|tx: usize, ty: usize|
                    tiles@.contains((tx, ty)) <==> tx < self.dims().0 && ty < self.dims().1
                        && energized(*self, x, y, dir, tx, ty)
                &&& tiles@.len() == lit_tiles(*self, x, y, dir).len()
            },
    {
        if !self.is_rectangular() {
            return None;
        }
        let (width, height) = self.dimensions();
        if !(x < width && y < height) {
            return None;
        }
        let cells = match width.checked_mul(height) {
            None => {
                assert(width * height * 4 > usize::MAX) by (nonlinear_arith)
                    requires
                        width * height > usize::MAX,
                ;
                return None;
            },
            Some(cells) => cells,
        };
        let count = match cells.checked_mul(4) {
            None => {
                return None;
            },
            Some(count) => count,
        };
        let graph = BeamGraph { grid: self, width, height, count };
        assert(self.rows()[y as int].len() == width);
        let first = match self.get(x, y) {
            None => {
                return None;
            },
            Some(mirror) => mirror.turn(dir),
        };
        let mut starts: Vec<Beam> = Vec::with_capacity(2);
        let mut k: usize = 0;
        while k < first.len()
            invariant
                k <= first@.len(),
                first@ == outs(self.rows()[y as int][x as int], dir),
                starts@ == Seq::new(k as nat, |j: int| Beam { x, y, dir: first@[j] }),
            decreases first@.len() - k,
        {
            starts.push(Beam { x, y, dir: first[k] });
            assert(starts@ =~= Seq::new((k + 1) as nat, |j: int| Beam { x, y, dir: first@[j] }));
            k += 1;
        }
        assert(starts@ =~= beams_from(*self, x, y, dir));
        let marks = reachable(&graph, &starts);
        assert(graph == graph_of(self));
        let mut tiles: Vec<(usize, usize)> = Vec::new();
        let mut ty: usize = 0;
        while ty < height
            invariant
                ty <= height,
                self.dims() == (width, height),
                marks_of(*self, x, y, dir, graph, marks@),
                in_reading_order(tiles@),
                lists_lit(*self, x, y, dir, tiles@, 0, ty as int),
            decreases height - ty,
        {
            let mut tx: usize = 0;
            while tx < width
                invariant
                    tx <= width,
                    ty < height,
                    self.dims() == (width, height),
                    marks_of(*self, x, y, dir, graph, marks@),
                    in_reading_order(tiles@),
                    lists_lit(*self, x, y, dir, tiles@, tx as int, ty as int),
                decreases width - tx,
            {
                let lit = graph.tile_lit(&marks, tx, ty, Ghost((x, y, dir)));
                if lit {
                    proof {
                        lemma_list_grows(*self, x, y, dir, tiles@, tx, ty);
                    }
                    tiles.push((tx, ty));
                }
                tx += 1;
            }
            ty += 1;
        }
        proof {
            lemma_lit_count(*self, x, y, dir, tiles@);
        }
        Some(tiles)
    }

    /// The number of tiles that light lights when it enters at `(x, y)`
    /// travelling in the direction `dir`, if that is more than `best`; else
    /// `best`.
    fn better_of(&self, best: usize, x: usize, y: usize, dir: Direction) -> (r: Option<usize>)
        requires
            self.wf(),
            self.dims().0 * self.dims().1 * 4 <= usize::MAX,
            x < self.dims().0,
            y < self.dims().1,
        ensures
            r matches Some(better) && better == if lit_tiles(*self, x, y, dir).len() > best {
                lit_tiles(*self, x, y, dir).len()
            } else {
                best as nat
            },
    {
        match self.start_energize(x, y, dir) {
            None => None,
            Some(tiles) => {
                if tiles.len() > best {
                    Some(tiles.len())
                } else {
                    Some(best)
                }
            },
        }
    }

    /// The greatest number of tiles that light lights from any entry: down
    /// into the top row, up into the bottom row, or, in the rows between
    /// these two, from the left or from the right. Returns `None` if the grid
    /// is not rectangular or has too many tiles to number its beams.
    pub fn most_energized(&self) -> (r: Option<usize>)
        ensures
            r is Some <==> self.wf() && self.dims().0 * self.dims().1 * 4 <= usize::MAX,
            r matches Some(best) ==> is_best(*self, best as nat),
    {
        if !self.is_rectangular() {
            return None;
        }
        let (width, height) = self.dimensions();
        let fits = match width.checked_mul(height) {
            None => {
                assert(width * height * 4 > usize::MAX) by (nonlinear_arith)
                    requires
                        width * height > usize::MAX,
                ;
                false
            },
            Some(cells) => cells.checked_mul(4).is_some(),
        };
        if !fits {
            return None;
        }
        let mut best: usize = 0;
        if width == 0 || height == 0 {
            return Some(0);
        }
        let mut x: usize = 0;
        while x < width
            invariant
                x <= width,
                0 < width,
                0 < height,
                self.wf(),
                self.dims() == (width, height),
                width * height * 4 <= usize::MAX,
                forall|a: usize, b: usize, d: Direction| #[trigger]
                    is_entry(*self, a, b, d) && a < x && (d == Direction::South || d
                        == Direction::North) ==> lit_tiles(*self, a, b, d).len() <= best,
                best == 0 || exists|a: usize, b: usize, d: Direction| #[trigger]
                    is_entry(*self, a, b, d) && lit_tiles(*self, a, b, d).len() == best,
            decreases width - x,
        {
            let ghost before = best;
            best = match self.better_of(best, x, 0, Direction::South) {
                Some(better) => better,
                None => best,
            };
            assert(is_entry(*self, x, 0, Direction::South));
            best = match self.better_of(best, x, height - 1, Direction::North) {
                Some(better) => better,
                None => best,
            };
            assert(is_entry(*self, x, (height - 1) as usize, Direction::North));
            assert(best >= before);
            x += 1;
        }
        let mut y: usize = 1;
        while y < height - 1
            invariant
                1 <= y,
                0 < width,
                0 < height,
                self.wf(),
                self.dims() == (width, height),
                width * height * 4 <= usize::MAX,
                forall|a: usize, b: usize, d: Direction| #[trigger]
                    is_entry(*self, a, b, d) && (d == Direction::South || d == Direction::North)
                        ==> lit_tiles(*self, a, b, d).len() <= best,
                forall|a: usize, b: usize, d: Direction| #[trigger]
                    is_entry(*self, a, b, d) && b < y && (d == Direction::East || d
                        == Direction::West) ==> lit_tiles(*self, a, b, d).len() <= best,
                best == 0 || exists|a: usize, b: usize, d: Direction| #[trigger]
                    is_entry(*self, a, b, d) && lit_tiles(*self, a, b, d).len() == best,
            decreases height - y,
        {
            let ghost before = best;
            best = match self.better_of(best, 0, y, Direction::East) {
                Some(better) => better,
                None => best,
            };
            assert(is_entry(*self, 0, y, Direction::East));
            best = match self.better_of(best, width - 1, y, Direction::West) {
                Some(better) => better,
                None => best,
            };
            assert(is_entry(*self, (width - 1) as usize, y, Direction::West));
            assert(best >= before);
            y += 1;
        }
        Some(best)
    }
}

} // verus!
