//! A platform of rocks that is tilted so that the round rocks slide.

use vstd::prelude::*;
use crate::glyphs::FromByte;
use crate::grid::{tile_rows, Grid};

verus! {

#[derive(Debug, Clone, Copy, PartialEq, Eq, Hash, Structural)]
pub enum Direction {
    North,
    East,
    South,
    West,
}

#[derive(Debug, Clone, Copy, PartialEq, Eq, Hash, Structural)]
pub enum Tile {
    CubeRock,
    RoundRock,
    Empty,
}

/// The platform: a grid of tiles.
pub type Platform = Grid<Tile>;

/// The character a tile is read from, if it is one of the three known ones.
pub open spec fn spec_tile_of(c: char) -> Option<Tile> {
    if c == '#' {
        Some(Tile::CubeRock)
    } else if c == 'O' {
        Some(Tile::RoundRock)
    } else if c == '.' {
        Some(Tile::Empty)
    } else {
        None
    }
}

impl Tile {
    /// Reads a tile from its character.
    pub fn parse(c: char) -> (r: Option<Tile>)
        ensures
            r == spec_tile_of(c),
    {
        if c == '#' {
            Some(Tile::CubeRock)
        } else if c == 'O' {
            Some(Tile::RoundRock)
        } else if c == '.' {
            Some(Tile::Empty)
        } else {
            None
        }
    }
}

/// The cell next to `(x, y)` in the direction.
pub open spec fn next_cell(x: int, y: int, dir: Direction) -> (int, int) {
    match dir {
        Direction::North => (x, y - 1),
        Direction::South => (x, y + 1),
        Direction::West => (x - 1, y),
        Direction::East => (x + 1, y),
    }
}

/// The cell lies on the platform and is empty.
pub open spec fn free(rows: Seq<Seq<Tile>>, x: int, y: int) -> bool {
    0 <= y < rows.len() && 0 <= x < rows[y].len() && rows[y][x] == Tile::Empty
}

/// How many cells lie between `(x, y)` and the edge of the platform in the
/// direction.
pub open spec fn room(rows: Seq<Seq<Tile>>, x: int, y: int, dir: Direction) -> int {
    match dir {
        Direction::North => y,
        Direction::South => rows.len() - y,
        Direction::West => x,
        Direction::East => if 0 <= y < rows.len() {
            rows[y].len() - x
        } else {
            0
        },
    }
}

/// Where a tile that starts to slide at `(x, y)` comes to rest: the last cell
/// before the first one, in the direction, that is not a free cell.
pub open spec fn rest_cell(rows: Seq<Seq<Tile>>, x: int, y: int, dir: Direction) -> (int, int)
    decreases room(rows, x, y, dir),
{
    let n = next_cell(x, y, dir);
    if free(rows, n.0, n.1) {
        rest_cell(rows, n.0, n.1, dir)
    } else {
        (x, y)
    }
}

/// The rows with the tile at `(x, y)` replaced.
pub open spec fn with_tile(rows: Seq<Seq<Tile>>, x: int, y: int, t: Tile) -> Seq<Seq<Tile>> {
    rows.update(y, rows[y].update(x, t))
}

/// The rows after the tile at `(x, y)` has slid in the direction as far as it
/// can.
pub open spec fn after_slide(rows: Seq<Seq<Tile>>, x: int, y: int, dir: Direction) -> Seq<
    Seq<Tile>,
> {
    let rest = rest_cell(rows, x, y, dir);
    if rest == (x, y) {
        rows
    } else {
        with_tile(with_tile(rows, rest.0, rest.1, rows[y][x]), x, y, Tile::Empty)
    }
}

/// The cell that a sweep in the direction visits as number `i` of its line
/// number `line`. A sweep to the North takes the rows from the top down, one
/// to the South from the bottom up, one to the West takes the columns from
/// the left, one to the East from the right; so the tiles nearest to the edge
/// that they slide towards move first.
pub open spec fn sweep_cell(dir: Direction, width: int, height: int, line: int, i: int) -> (
    int,
    int,
) {
    match dir {
        Direction::North => (i, line),
        Direction::South => (i, height - 1 - line),
        Direction::West => (line, i),
        Direction::East => (width - 1 - line, i),
    }
}

/// How many cells a line of a sweep has.
pub open spec fn line_length(dir: Direction, width: int, height: int) -> int {
    match dir {
        Direction::North | Direction::South => width,
        Direction::West | Direction::East => height,
    }
}

/// How many lines a sweep has.
pub open spec fn line_count(dir: Direction, width: int, height: int) -> int {
    match dir {
        Direction::North | Direction::South => height,
        Direction::West | Direction::East => width,
    }
}

/// The rows after the first `i` cells of line `line` of a sweep have had
/// their turn: each tile of the type that is found on its cell slides.
pub open spec fn after_cells(
    rows: Seq<Seq<Tile>>,
    dir: Direction,
    tile_type: Tile,
    width: int,
    height: int,
    line: int,
    i: int,
) -> Seq<Seq<Tile>>
    decreases i,
{
    if i <= 0 {
        rows
    } else {
        let before = after_cells(rows, dir, tile_type, width, height, line, i - 1);
        let c = sweep_cell(dir, width, height, line, i - 1);
        if before[c.1][c.0] == tile_type {
            after_slide(before, c.0, c.1, dir)
        } else {
            before
        }
    }
}

/// The rows after the first `lines` lines of a sweep have had their turn.
pub open spec fn after_lines(
    rows: Seq<Seq<Tile>>,
    dir: Direction,
    tile_type: Tile,
    width: int,
    height: int,
    lines: int,
) -> Seq<Seq<Tile>>
    decreases lines,
{
    if lines <= 0 {
        rows
    } else {
        after_cells(
            after_lines(rows, dir, tile_type, width, height, lines - 1),
            dir,
            tile_type,
            width,
            height,
            lines - 1,
            line_length(dir, width, height),
        )
    }
}

/// The load of the round rocks among the first `x` tiles of row `y`: each
/// weighs as many units as there are rows from its own to the south edge.
pub open spec fn row_load(rows: Seq<Seq<Tile>>, y: int, x: int) -> int
    decreases x,
{
    if x <= 0 {
        0
    } else {
        row_load(rows, y, x - 1) + if rows[y][x - 1] == Tile::RoundRock {
            rows.len() - y
        } else {
            0
        }
    }
}

/// The load of the round rocks of the first `y` rows.
pub open spec fn spec_load(rows: Seq<Seq<Tile>>, y: int) -> int
    decreases y,
{
    if y <= 0 {
        0
    } else {
        spec_load(rows, y - 1) + row_load(rows, y - 1, rows[y - 1].len() as int)
    }
}

/// The load of a row does not shrink as more tiles are counted, and is not
/// negative.
pub proof fn lemma_row_load_grows(rows: Seq<Seq<Tile>>, y: int, k: int, n: int)
    requires
        0 <= y < rows.len(),
        0 <= k <= n,
    ensures
        0 <= row_load(rows, y, k) <= row_load(rows, y, n),
    decreases n,
{
    if n > 0 {
        if k < n {
            lemma_row_load_grows(rows, y, k, n - 1);
        } else {
            lemma_row_load_grows(rows, y, k - 1, n - 1);
        }
    }
}

/// The load does not shrink as more rows are counted, and is not negative.
pub proof fn lemma_load_grows(rows: Seq<Seq<Tile>>, k: int, n: int)
    requires
        0 <= k <= n <= rows.len(),
    ensures
        0 <= spec_load(rows, k) <= spec_load(rows, n),
    decreases n,
{
    if n > 0 {
        lemma_row_load_grows(rows, n - 1, 0, rows[n - 1].len() as int);
        if k < n {
            lemma_load_grows(rows, k, n - 1);
        } else {
            lemma_load_grows(rows, k - 1, n - 1);
        }
    }
}

/// The rows keep their lengths.
pub open spec fn same_frame(a: Seq<Seq<Tile>>, b: Seq<Seq<Tile>>) -> bool {
    a.len() == b.len() && forall|y: int| 0 <= y < a.len() ==> (#[trigger] a[y]).len() == b[y].len()
}

impl Platform {
    /// Lets the tile at `(x, y)` slide in the direction until the edge of the
    /// platform or a tile that is not empty stops it.
    pub fn slide_tile(&mut self, x: usize, y: usize, dir: Direction)
        requires
            old(self).has(x as int, y as int),
        ensures
            final(self).dims() == old(self).dims(),
            final(self).rows() == after_slide(old(self).rows(), x as int, y as int, dir),
            same_frame(old(self).rows(), final(self).rows()),
    {
        let ghost rows = self.rows();
        let row_count = self.get_raw_tiles().len();
        let row_length = self.get_raw_tiles()[y].len();
        assert(row_length == rows[y as int].len());
        let mut cx: usize = x;
        let mut cy: usize = y;
        loop
            invariant
                *self == *old(self),
                rows == self.rows(),
                row_count == rows.len(),
                dir == Direction::East || dir == Direction::West ==> cy == y,
                row_length == rows[y as int].len(),
                self.has(cx as int, cy as int),
                self.has(x as int, y as int),
                rest_cell(rows, x as int, y as int, dir) == rest_cell(rows, cx as int, cy as int, dir),
            ensures
                self.has(cx as int, cy as int),
                rest_cell(rows, x as int, y as int, dir) == (cx as int, cy as int),
            decreases room(rows, cx as int, cy as int, dir),
        {
            let blocked = match dir {
                Direction::North => cy == 0,
                Direction::West => cx == 0,
                Direction::South => cy + 1 >= row_count,
                Direction::East => cx + 1 >= row_length,
            };
            if blocked {
                break ;
            }
            let (nx, ny) = match dir {
                Direction::North => (cx, cy - 1),
                Direction::South => (cx, cy + 1),
                Direction::West => (cx - 1, cy),
                Direction::East => (cx + 1, cy),
            };
            let is_free = match self.get(nx, ny) {
                Some(tile) => *tile == Tile::Empty,
                None => false,
            };
            if !is_free {
                break ;
            }
            cx = nx;
            cy = ny;
        }
        if cx != x || cy != y {
            let tile = match self.get(x, y) {
                Some(tile) => *tile,
                None => Tile::Empty,
            };
            self.set(cx, cy, tile);
            self.set(x, y, Tile::Empty);
            assert(self.rows() =~= after_slide(rows, x as int, y as int, dir));
        }
        assert(same_frame(rows, self.rows())) by {
            assert forall|k: int| 0 <= k < rows.len() implies (#[trigger] rows[k]).len()
                == self.rows()[k].len() by {}
        }
    }

    /// Lets every tile of the given type slide in the direction, the tiles
    /// nearest to the edge that they slide towards first.
    pub fn slide_all(&mut self, dir: Direction, tile_type: Tile)
        requires
            old(self).wf(),
        ensures
            final(self).wf(),
            final(self).dims() == old(self).dims(),
            final(self).rows() == after_lines(
                old(self).rows(),
                dir,
                tile_type,
                old(self).dims().0 as int,
                old(self).dims().1 as int,
                line_count(dir, old(self).dims().0 as int, old(self).dims().1 as int),
            ),
    {
        let (width, height) = self.dimensions();
        let (lines, cells) = match dir {
            Direction::North | Direction::South => (height, width),
            Direction::West | Direction::East => (width, height),
        };
        let ghost start = self.rows();
        let mut line: usize = 0;
        while line < lines
            invariant
                line <= lines,
                lines == line_count(dir, width as int, height as int),
                cells == line_length(dir, width as int, height as int),
                self.wf(),
                self.dims() == (width, height),
                self.rows() == after_lines(
                    start,
                    dir,
                    tile_type,
                    width as int,
                    height as int,
                    line as int,
                ),
            decreases lines - line,
        {
            let ghost line_start = self.rows();
            let mut i: usize = 0;
            while i < cells
                invariant
                    i <= cells,
                    line < lines,
                    lines == line_count(dir, width as int, height as int),
                    cells == line_length(dir, width as int, height as int),
                    self.wf(),
                    self.dims() == (width, height),
                    self.rows() == after_cells(
                        line_start,
                        dir,
                        tile_type,
                        width as int,
                        height as int,
                        line as int,
                        i as int,
                    ),
                decreases cells - i,
            {
                let (x, y) = match dir {
                    Direction::North => (i, line),
                    Direction::South => (i, height - 1 - line),
                    Direction::West => (line, i),
                    Direction::East => (width - 1 - line, i),
                };
                assert(self.rows()[y as int].len() == width);
                let found = match self.get(x, y) {
                    Some(tile) => *tile == tile_type,
                    None => false,
                };
                if found {
                    let ghost before = self.rows();
                    self.slide_tile(x, y, dir);
                    assert(self.wf()) by {
                        assert forall|k: int| 0 <= k < self.rows().len() implies #[trigger] self.rows()[k].len()
                            == self.dims().0 by {
                            assert(before[k].len() == width);
                        }
                    }
                }
                i += 1;
            }
            line += 1;
        }
    }

    /// The load on the north support beams: every round rock weighs as many
    /// units as there are rows from its own to the south edge. Returns `None`
    /// if the load cannot be held in a `usize`.
    pub fn get_load(&self) -> (r: Option<usize>)
        requires
            self.wf(),
        ensures
            r matches Some(load) ==> load == spec_load(self.rows(), self.rows().len() as int),
            r is None <==> spec_load(self.rows(), self.rows().len() as int) > usize::MAX,
    {
        let (width, height) = self.dimensions();
        let mut load: usize = 0;
        let mut y: usize = 0;
        while y < height
            invariant
                y <= height,
                self.wf(),
                self.dims() == (width, height),
                load == spec_load(self.rows(), y as int),
            decreases height - y,
        {
            let mut part: usize = 0;
            let mut x: usize = 0;
            assert(self.rows()[y as int].len() == width);
            while x < width
                invariant
                    x <= width,
                    y < height,
                    self.wf(),
                    self.dims() == (width, height),
                    self.rows()[y as int].len() == width,
                    part == row_load(self.rows(), y as int, x as int),
                decreases width - x,
            {
                let round = match self.get(x, y) {
                    Some(tile) => *tile == Tile::RoundRock,
                    None => false,
                };
                proof {
                    lemma_row_load_grows(self.rows(), y as int, x + 1, width as int);
                    lemma_load_grows(self.rows(), y as int, y as int);
                    lemma_load_grows(self.rows(), y + 1, height as int);
                }
                if round {
                    part = match part.checked_add(height - y) {
                        None => {
                            return None;
                        },
                        Some(p) => p,
                    };
                }
                x += 1;
            }
            load = match load.checked_add(part) {
                None => {
                    proof {
                        lemma_load_grows(self.rows(), y + 1, height as int);
                    }
                    return None;
                },
                Some(l) => l,
            };
            y += 1;
        }
        Some(load)
    }
}

/// The rows after one cycle: the round rocks slide to the North, then to the
/// West, then to the South, then to the East.
pub open spec fn after_cycle(rows: Seq<Seq<Tile>>, width: int, height: int) -> Seq<Seq<Tile>> {
    let north = after_lines(
        rows,
        Direction::North,
        Tile::RoundRock,
        width,
        height,
        line_count(Direction::North, width, height),
    );
    let west = after_lines(
        north,
        Direction::West,
        Tile::RoundRock,
        width,
        height,
        line_count(Direction::West, width, height),
    );
    let south = after_lines(
        west,
        Direction::South,
        Tile::RoundRock,
        width,
        height,
        line_count(Direction::South, width, height),
    );
    after_lines(
        south,
        Direction::East,
        Tile::RoundRock,
        width,
        height,
        line_count(Direction::East, width, height),
    )
}

/// The rows after `n` cycles.
pub open spec fn after_cycles(rows: Seq<Seq<Tile>>, width: int, height: int, n: nat) -> Seq<
    Seq<Tile>,
>
    decreases n,
{
    if n == 0 {
        rows
    } else {
        after_cycle(after_cycles(rows, width, height, (n - 1) as nat), width, height)
    }
}

/// Once the rows after `a` cycles come back after `period` more cycles, they
/// come back after every multiple of `period` more cycles.
pub proof fn lemma_cycles_repeat(
    rows: Seq<Seq<Tile>>,
    width: int,
    height: int,
    a: nat,
    period: nat,
    times: nat,
)
    requires
        after_cycles(rows, width, height, a + period) == after_cycles(rows, width, height, a),
    ensures
        after_cycles(rows, width, height, a + times * period) == after_cycles(
            rows,
            width,
            height,
            a,
        ),
    decreases times,
{
    if times > 0 {
        lemma_cycles_repeat(rows, width, height, a, period, (times - 1) as nat);
        let earlier: nat = (a + (times - 1) * period) as nat;
        assert(a + times * period == earlier + period) by (nonlinear_arith)
            requires
                times > 0,
                earlier == a + (times - 1) * period,
        ;
        lemma_cycles_shift(rows, width, height, earlier, a, period);
    } else {
        assert(a + times * period == a) by (nonlinear_arith)
            requires
                times == 0,
        ;
    }
}

/// Rows that are the same after `a` and after `b` cycles are the same after
/// `k` more cycles each.
pub proof fn lemma_cycles_shift(
    rows: Seq<Seq<Tile>>,
    width: int,
    height: int,
    a: nat,
    b: nat,
    k: nat,
)
    requires
        after_cycles(rows, width, height, a) == after_cycles(rows, width, height, b),
    ensures
        after_cycles(rows, width, height, a + k) == after_cycles(rows, width, height, b + k),
    decreases k,
{
    if k > 0 {
        lemma_cycles_shift(rows, width, height, a, b, (k - 1) as nat);
    }
}

impl Platform {
    /// One cycle: the round rocks slide to the North, then to the West, then
    /// to the South, then to the East.
    pub fn spin(&mut self)
        requires
            old(self).wf(),
        ensures
            final(self).wf(),
            final(self).dims() == old(self).dims(),
            final(self).rows() == after_cycle(
                old(self).rows(),
                old(self).dims().0 as int,
                old(self).dims().1 as int,
            ),
    {
        self.slide_all(Direction::North, Tile::RoundRock);
        self.slide_all(Direction::West, Tile::RoundRock);
        self.slide_all(Direction::South, Tile::RoundRock);
        self.slide_all(Direction::East, Tile::RoundRock);
    }

    /// A copy of the rows of the platform.
    pub fn snapshot(&self) -> (copy: Vec<Vec<Tile>>)
        ensures
            tile_rows(copy@) == self.rows(),
    {
        let tiles = self.get_raw_tiles();
        let mut copy: Vec<Vec<Tile>> = Vec::with_capacity(tiles.len());
        let mut y: usize = 0;
        while y < tiles.len()
            invariant
                y <= tiles@.len(),
                copy@.len() == y,
                forall|k: int| 0 <= k < y ==> (#[trigger] copy@[k])@ == tiles@[k]@,
            decreases tiles@.len() - y,
        {
            let row = &tiles[y];
            let mut out: Vec<Tile> = Vec::with_capacity(row.len());
            let mut x: usize = 0;
            while x < row.len()
                invariant
                    x <= row@.len(),
                    out@ == row@.subrange(0, x as int),
                decreases row@.len() - x,
            {
                out.push(row[x]);
                assert(out@ =~= row@.subrange(0, x + 1));
                x += 1;
            }
            assert(out@ =~= row@);
            copy.push(out);
            y += 1;
        }
        assert(tile_rows(copy@) =~= tile_rows(tiles@));
        copy
    }

    /// Whether the rows of the platform are the rows of the copy.
    pub fn matches(&self, copy: &Vec<Vec<Tile>>) -> (r: bool)
        ensures
            r == (tile_rows(copy@) == self.rows()),
    {
        let tiles = self.get_raw_tiles();
        if tiles.len() != copy.len() {
            return false;
        }
        let mut y: usize = 0;
        while y < tiles.len()
            invariant
                y <= tiles@.len(),
                tiles@.len() == copy@.len(),
                tile_rows(tiles@) == self.rows(),
                forall|k: int| 0 <= k < y ==> copy@[k]@ == tiles@[k]@,
            decreases tiles@.len() - y,
        {
            let a = &tiles[y];
            let b = &copy[y];
            if a.len() != b.len() {
                assert(tile_rows(copy@)[y as int] != tile_rows(tiles@)[y as int]);
                return false;
            }
            let mut x: usize = 0;
            while x < a.len()
                invariant
                    x <= a@.len(),
                    a@.len() == b@.len(),
                    y < tiles@.len(),
                    tiles@.len() == copy@.len(),
                    tile_rows(tiles@) == self.rows(),
                    a@ == tiles@[y as int]@,
                    b@ == copy@[y as int]@,
                    forall|k: int| 0 <= k < x ==> a@[k] == b@[k],
                decreases a@.len() - x,
            {
                if a[x] != b[x] {
                    assert(tile_rows(copy@)[y as int][x as int] != tile_rows(tiles@)[y as int][x as int]);
                    return false;
                }
                x += 1;
            }
            assert(a@ =~= b@);
            y += 1;
        }
        assert(tile_rows(copy@) =~= tile_rows(tiles@));
        true
    }

    /// Brings the platform to the rows that it has after `cycles` cycles and
    /// returns the load on the north support beams then. The platform is
    /// spun only until it shows rows that it had before and the cycles still
    /// left are a whole number of repeats. Returns `None` if the load cannot
    /// be held in a `usize`.
    pub fn load_after_cycles(&mut self, cycles: u64) -> (r: Option<usize>)
        requires
            old(self).wf(),
        ensures
            final(self).wf(),
            final(self).dims() == old(self).dims(),
            final(self).rows() == after_cycles(
                old(self).rows(),
                old(self).dims().0 as int,
                old(self).dims().1 as int,
                cycles as nat,
            ),
            r matches Some(load) ==> {
                let rows = after_cycles(
                    old(self).rows(),
                    old(self).dims().0 as int,
                    old(self).dims().1 as int,
                    cycles as nat,
                );
                load == spec_load(rows, rows.len() as int)
            },
            r is None <==> {
                let rows = after_cycles(
                    old(self).rows(),
                    old(self).dims().0 as int,
                    old(self).dims().1 as int,
                    cycles as nat,
                );
                spec_load(rows, rows.len() as int) > usize::MAX
            },
    {
        let ghost start = self.rows();
        let ghost width = self.dims().0 as int;
        let ghost height = self.dims().1 as int;
        let mut seen: Vec<Vec<Vec<Tile>>> = Vec::new();
        let mut i: u64 = 0;
        while i < cycles
            invariant
                i <= cycles,
                self.wf(),
                self.dims() == old(self).dims(),
                width == old(self).dims().0,
                height == old(self).dims().1,
                start == old(self).rows(),
                seen@.len() == i,
                self.rows() == after_cycles(start, width, height, i as nat),
                forall|k: int|
                    0 <= k < i ==> tile_rows((#[trigger] seen@[k])@) == after_cycles(
                        start,
                        width,
                        height,
                        k as nat,
                    ),
            decreases cycles - i,
        {
            let mut k: usize = 0;
            while k < seen.len()
                invariant
                    k <= seen@.len(),
                    seen@.len() == i,
                    i < cycles,
                    self.wf(),
                    self.dims() == old(self).dims(),
                    width == old(self).dims().0,
                    height == old(self).dims().1,
                    start == old(self).rows(),
                    self.rows() == after_cycles(start, width, height, i as nat),
                    forall|j: int|
                        0 <= j < i ==> tile_rows((#[trigger] seen@[j])@) == after_cycles(
                            start,
                            width,
                            height,
                            j as nat,
                        ),
                decreases seen@.len() - k,
            {
                if self.matches(&seen[k]) {
                    let period: u64 = i - k as u64;
                    if (cycles - i) % period == 0 {
                        proof {
                            let times = ((cycles - i) / period as int) as nat;
                            assert(cycles == i + times * period) by (nonlinear_arith)
                                requires
                                    (cycles - i) % (period as int) == 0,
                                    times == (cycles - i) / (period as int),
                                    period > 0,
                                    cycles >= i,
                            ;
                            assert(k as nat + period as nat == i as nat);
                            lemma_cycles_repeat(
                                start,
                                width,
                                height,
                                k as nat,
                                period as nat,
                                1,
                            );
                            assert(k as nat + 1 * (period as nat) == i as nat) by (nonlinear_arith)
                                requires
                                    k as nat + period as nat == i as nat,
                            ;
                            lemma_cycles_shift(
                                start,
                                width,
                                height,
                                k as nat,
                                i as nat,
                                period as nat,
                            );
                            lemma_cycles_repeat(
                                start,
                                width,
                                height,
                                i as nat,
                                period as nat,
                                times,
                            );
                        }
                        return self.get_load();
                    }
                }
                k += 1;
            }
            let copy = self.snapshot();
            seen.push(copy);
            self.spin();
            i += 1;
        }
        self.get_load()
    }
}

impl FromByte for Tile {
    open spec fn of_byte(b: u8) -> Option<Tile> {
        spec_tile_of(b as char)
    }

    fn from_byte(b: u8) -> (r: Option<Tile>) {
        Tile::parse(b as char)
    }
}

} // verus!
