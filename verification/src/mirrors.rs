//! Finding the line along which a pattern of ash and rock mirrors itself.

use vstd::prelude::*;
use crate::glyphs::{parse_tiles, readable, rows_of, FromByte};
use crate::grid::tile_rows;
use crate::text::{block_rows, spec_blocks, spec_lines, split_blocks};

verus! {

#[derive(Debug, Clone, Copy, PartialEq, Eq, Structural)]
pub enum Tile {
    Ash,
    Rock,
}

/// A line of reflection. The first number is the position before which the
/// line runs, the second the width of the reflection: how many columns or
/// rows have an image on the other side.
#[derive(Debug, Clone, Copy, PartialEq, Eq, Structural)]
pub enum Reflection {
    OnXAxis(usize, usize),
    OnYAxis(usize, usize),
}

/// The character a tile is read from, if it is one of the two known ones.
pub open spec fn spec_tile_of(c: char) -> Option<Tile> {
    if c == '.' {
        Some(Tile::Ash)
    } else if c == '#' {
        Some(Tile::Rock)
    } else {
        None
    }
}

impl Tile {
    /// Reads a tile from its character.
    pub fn parse(c: char) -> (r: Option<Tile>)
        ensures
            r == spec_tile_of(c),
    {
        if c == '.' {
            Some(Tile::Ash)
        } else if c == '#' {
            Some(Tile::Rock)
        } else {
            None
        }
    }
}

pub open spec fn min_int(a: int, b: int) -> int {
    if a <= b {
        a
    } else {
        b
    }
}

/// A rectangular pattern of tiles.
#[derive(Debug, Clone)]
pub struct Pattern {
    pub tiles: Vec<Vec<Tile>>,
    pub width: usize,
    pub height: usize,
}

impl Pattern {
    /// The rows of the pattern all have its width, and there are as many as
    /// its height.
    pub open spec fn wf(&self) -> bool {
        &&& self.tiles@.len() == self.height
        &&& forall|y: int| 0 <= y < self.height ==> (#[trigger] self.tiles@[y])@.len() == self.width
    }

    pub open spec fn at(&self, x: int, y: int) -> Tile {
        self.tiles@[y]@[x]
    }

    /// The columns on both sides of the line before column `x` agree as far
    /// as both sides reach.
    pub open spec fn mirrors_at_x(&self, x: int) -> bool {
        forall|y: int, k: int|
            0 <= y < self.height && 0 <= k < min_int(x, self.width - x) ==> self.at(x - k - 1, y)
                == #[trigger] self.at(x + k, y)
    }

    /// The rows on both sides of the line before row `y` agree as far as both
    /// sides reach.
    pub open spec fn mirrors_at_y(&self, y: int) -> bool {
        forall|x: int, k: int|
            0 <= x < self.width && 0 <= k < min_int(y, self.height - y) ==> self.at(x, y - k - 1)
                == #[trigger] self.at(x, y + k)
    }

    /// The line that the search reports: the leftmost vertical line inside
    /// the pattern that mirrors it, else the topmost horizontal one, else
    /// none.
    pub open spec fn reflection(&self, r: Option<Reflection>) -> bool {
        match r {
            Some(Reflection::OnXAxis(x, w)) => {
                &&& 1 <= x < self.width
                &&& w == min_int(x as int, self.width - x)
                &&& self.mirrors_at_x(x as int)
                &&& forall|a: int| 1 <= a < x ==> !self.mirrors_at_x(a)
            },
            Some(Reflection::OnYAxis(y, w)) => {
                &&& 1 <= y < self.height
                &&& w == min_int(y as int, self.height - y)
                &&& self.mirrors_at_y(y as int)
                &&& forall|b: int| 1 <= b < y ==> !self.mirrors_at_y(b)
                &&& forall|a: int| 1 <= a < self.width ==> !self.mirrors_at_x(a)
            },
            None => {
                &&& forall|a: int| 1 <= a < self.width ==> !self.mirrors_at_x(a)
                &&& forall|b: int| 1 <= b < self.height ==> !self.mirrors_at_y(b)
            },
        }
    }

    /// Whether the pattern mirrors itself along the line before column `x`.
    pub fn is_mirrored_at_x(&self, x: usize) -> (r: bool)
        requires
            self.wf(),
            1 <= x < self.width,
        ensures
            r == self.mirrors_at_x(x as int),
    {
        let reach = if x <= self.width - x {
            x
        } else {
            self.width - x
        };
        let mut y: usize = 0;
        while y < self.height
            invariant
                self.wf(),
                1 <= x < self.width,
                reach == min_int(x as int, self.width - x),
                y <= self.height,
                forall|b: int, k: int|
                    0 <= b < y && 0 <= k < reach ==> self.at(x - k - 1, b) == #[trigger] self.at(
                        x + k,
                        b,
                    ),
            decreases self.height - y,
        {
            let mut k: usize = 0;
            while k < reach
                invariant
                    self.wf(),
                    1 <= x < self.width,
                    reach == min_int(x as int, self.width - x),
                    y < self.height,
                    k <= reach,
                    forall|j: int|
                        0 <= j < k ==> self.at(x - j - 1, y as int) == #[trigger] self.at(
                            x + j,
                            y as int,
                        ),
                decreases reach - k,
            {
                assert(self.tiles@[y as int]@.len() == self.width);
                if self.tiles[y][x - k - 1] != self.tiles[y][x + k] {
                    assert(self.at(x - k - 1, y as int) != self.at(x + k, y as int));
                    return false;
                }
                k += 1;
            }
            y += 1;
        }
        true
    }

    /// Whether the pattern mirrors itself along the line before row `y`.
    pub fn is_mirrored_at_y(&self, y: usize) -> (r: bool)
        requires
            self.wf(),
            1 <= y < self.height,
        ensures
            r == self.mirrors_at_y(y as int),
    {
        let reach = if y <= self.height - y {
            y
        } else {
            self.height - y
        };
        let mut x: usize = 0;
        while x < self.width
            invariant
                self.wf(),
                1 <= y < self.height,
                reach == min_int(y as int, self.height - y),
                x <= self.width,
                forall|a: int, k: int|
                    0 <= a < x && 0 <= k < reach ==> self.at(a, y - k - 1) == #[trigger] self.at(
                        a,
                        y + k,
                    ),
            decreases self.width - x,
        {
            let mut k: usize = 0;
            while k < reach
                invariant
                    self.wf(),
                    1 <= y < self.height,
                    reach == min_int(y as int, self.height - y),
                    x < self.width,
                    k <= reach,
                    forall|j: int|
                        0 <= j < k ==> self.at(x as int, y - j - 1) == #[trigger] self.at(
                            x as int,
                            y + j,
                        ),
                decreases reach - k,
            {
                assert(self.tiles@[y - k - 1]@.len() == self.width);
                assert(self.tiles@[y + k]@.len() == self.width);
                if self.tiles[y - k - 1][x] != self.tiles[y + k][x] {
                    assert(self.at(x as int, y - k - 1) != self.at(x as int, y + k));
                    return false;
                }
                k += 1;
            }
            x += 1;
        }
        true
    }

    /// Finds the line of reflection of the pattern: the leftmost vertical
    /// one, else the topmost horizontal one.
    pub fn get_reflection_line(&self) -> (r: Option<Reflection>)
        requires
            self.wf(),
        ensures
            self.reflection(r),
    {
        let mut x: usize = 1;
        while x < self.width
            invariant
                self.wf(),
                1 <= x,
                forall|a: int| 1 <= a < x && a < self.width ==> !self.mirrors_at_x(a),
            decreases self.width - x,
        {
            if self.is_mirrored_at_x(x) {
                let reach = if x <= self.width - x {
                    x
                } else {
                    self.width - x
                };
                return Some(Reflection::OnXAxis(x, reach));
            }
            x += 1;
        }
        let mut y: usize = 1;
        while y < self.height
            invariant
                self.wf(),
                1 <= y,
                forall|a: int| 1 <= a < self.width ==> !self.mirrors_at_x(a),
                forall|b: int| 1 <= b < y && b < self.height ==> !self.mirrors_at_y(b),
            decreases self.height - y,
        {
            if self.is_mirrored_at_y(y) {
                let reach = if y <= self.height - y {
                    y
                } else {
                    self.height - y
                };
                return Some(Reflection::OnYAxis(y, reach));
            }
            y += 1;
        }
        None
    }
}

/// How many of the first `k` tiles to the right of the line before column
/// `x` differ from their image in row `y`.
pub open spec fn flaws_in_row(p: Pattern, x: int, y: int, k: int) -> int
    decreases k,
{
    if k <= 0 {
        0
    } else {
        flaws_in_row(p, x, y, k - 1) + if p.at(x - k, y) != p.at(x + k - 1, y) {
            1int
        } else {
            0int
        }
    }
}

/// How many tiles of the first `rows` rows differ from their image across
/// the line before column `x`.
pub open spec fn flaws_at_x(p: Pattern, x: int, rows: int) -> int
    decreases rows,
{
    if rows <= 0 {
        0
    } else {
        flaws_at_x(p, x, rows - 1) + flaws_in_row(p, x, rows - 1, min_int(x, p.width - x))
    }
}

/// Some tile of column `x` differs from its image across the line before row
/// `y`.
pub open spec fn column_flawed(p: Pattern, x: int, y: int) -> bool {
    exists|k: int| 0 <= k < min_int(y, p.height - y) && p.at(x, y - k - 1) != #[trigger] p.at(x, y + k)
}

/// How many of the first `columns` columns hold a tile that differs from its
/// image across the line before row `y`.
pub open spec fn flawed_columns_at_y(p: Pattern, y: int, columns: int) -> int
    decreases columns,
{
    if columns <= 0 {
        0
    } else {
        flawed_columns_at_y(p, y, columns - 1) + if column_flawed(p, columns - 1, y) {
            1int
        } else {
            0int
        }
    }
}

impl Pattern {
    /// The line that the search for a smudged mirror reports: the leftmost
    /// vertical line across which exactly one tile differs from its image,
    /// else the topmost horizontal line across which the tiles of exactly one
    /// column differ from their images, else none.
    pub open spec fn corrected_reflection(&self, r: Option<Reflection>) -> bool {
        match r {
            Some(Reflection::OnXAxis(x, w)) => {
                &&& 1 <= x < self.width
                &&& w == min_int(x as int, self.width - x)
                &&& flaws_at_x(*self, x as int, self.height as int) == 1
                &&& forall|a: int| 1 <= a < x ==> flaws_at_x(*self, a, self.height as int) != 1
            },
            Some(Reflection::OnYAxis(y, w)) => {
                &&& 1 <= y < self.height
                &&& w == min_int(y as int, self.height - y)
                &&& flawed_columns_at_y(*self, y as int, self.width as int) == 1
                &&& forall|b: int|
                    1 <= b < y ==> flawed_columns_at_y(*self, b, self.width as int) != 1
                &&& forall|a: int|
                    1 <= a < self.width ==> flaws_at_x(*self, a, self.height as int) != 1
            },
            None => {
                &&& forall|a: int|
                    1 <= a < self.width ==> flaws_at_x(*self, a, self.height as int) != 1
                &&& forall|b: int|
                    1 <= b < self.height ==> flawed_columns_at_y(*self, b, self.width as int) != 1
            },
        }
    }

    /// Counts the tiles that differ from their image across the line before
    /// column `x`, up to two.
    pub fn count_flaws_at_x(&self, x: usize) -> (n: usize)
        requires
            self.wf(),
            1 <= x < self.width,
        ensures
            n <= 2,
            n < 2 ==> n == flaws_at_x(*self, x as int, self.height as int),
            n == 2 ==> flaws_at_x(*self, x as int, self.height as int) >= 2,
    {
        let reach = if x <= self.width - x {
            x
        } else {
            self.width - x
        };
        let mut n: usize = 0;
        let mut y: usize = 0;
        while y < self.height
            invariant
                self.wf(),
                1 <= x < self.width,
                reach == min_int(x as int, self.width - x),
                y <= self.height,
                n < 2,
                n == flaws_at_x(*self, x as int, y as int),
            decreases self.height - y,
        {
            let mut k: usize = 0;
            let ghost before = n;
            while k < reach
                invariant
                    self.wf(),
                    1 <= x < self.width,
                    reach == min_int(x as int, self.width - x),
                    y < self.height,
                    k <= reach,
                    n < 2,
                    n == before + flaws_in_row(*self, x as int, y as int, k as int),
                    before == flaws_at_x(*self, x as int, y as int),
                decreases reach - k,
            {
                assert(self.tiles@[y as int]@.len() == self.width);
                if self.tiles[y][x - k - 1] != self.tiles[y][x + k] {
                    n += 1;
                    if n == 2 {
                        proof {
                            lemma_row_flaws_grow(*self, x as int, y as int, k + 1, reach as int);
                            lemma_flaws_grow(*self, x as int, y + 1, self.height as int);
                        }
                        return 2;
                    }
                }
                k += 1;
            }
            y += 1;
        }
        n
    }

    /// Counts the columns that hold a tile that differs from its image across
    /// the line before row `y`, up to two.
    pub fn count_flawed_columns_at_y(&self, y: usize) -> (n: usize)
        requires
            self.wf(),
            1 <= y < self.height,
        ensures
            n <= 2,
            n < 2 ==> n == flawed_columns_at_y(*self, y as int, self.width as int),
            n == 2 ==> flawed_columns_at_y(*self, y as int, self.width as int) >= 2,
    {
        let reach = if y <= self.height - y {
            y
        } else {
            self.height - y
        };
        let mut n: usize = 0;
        let mut x: usize = 0;
        while x < self.width
            invariant
                self.wf(),
                1 <= y < self.height,
                reach == min_int(y as int, self.height - y),
                x <= self.width,
                n < 2,
                n == flawed_columns_at_y(*self, y as int, x as int),
            decreases self.width - x,
        {
            let mut k: usize = 0;
            let mut flawed = false;
            while k < reach
                invariant_except_break
                    !flawed,
                    forall|j: int|
                        0 <= j < k ==> self.at(x as int, y - j - 1) == #[trigger] self.at(
                            x as int,
                            y + j,
                        ),
                invariant
                    self.wf(),
                    1 <= y < self.height,
                    reach == min_int(y as int, self.height - y),
                    x < self.width,
                    k <= reach,
                ensures
                    flawed == column_flawed(*self, x as int, y as int),
                decreases reach - k,
            {
                assert(self.tiles@[y - k - 1]@.len() == self.width);
                assert(self.tiles@[y + k]@.len() == self.width);
                if self.tiles[y - k - 1][x] != self.tiles[y + k][x] {
                    flawed = true;
                    assert(self.at(x as int, y - k - 1) != self.at(x as int, y + k));
                    break ;
                }
                k += 1;
            }
            if flawed {
                n += 1;
                if n == 2 {
                    proof {
                        lemma_flawed_columns_grow(*self, y as int, x + 1, self.width as int);
                    }
                    return 2;
                }
            }
            x += 1;
        }
        n
    }

    /// Finds the line of reflection of the pattern once its one smudge is
    /// taken into account.
    pub fn get_corrected_reflection_line(&self) -> (r: Option<Reflection>)
        requires
            self.wf(),
        ensures
            self.corrected_reflection(r),
    {
        let mut x: usize = 1;
        while x < self.width
            invariant
                self.wf(),
                1 <= x,
                forall|a: int|
                    1 <= a < x && a < self.width ==> flaws_at_x(*self, a, self.height as int) != 1,
            decreases self.width - x,
        {
            if self.count_flaws_at_x(x) == 1 {
                let reach = if x <= self.width - x {
                    x
                } else {
                    self.width - x
                };
                return Some(Reflection::OnXAxis(x, reach));
            }
            x += 1;
        }
        let mut y: usize = 1;
        while y < self.height
            invariant
                self.wf(),
                1 <= y,
                forall|a: int|
                    1 <= a < self.width ==> flaws_at_x(*self, a, self.height as int) != 1,
                forall|b: int|
                    1 <= b < y && b < self.height ==> flawed_columns_at_y(
                        *self,
                        b,
                        self.width as int,
                    ) != 1,
            decreases self.height - y,
        {
            if self.count_flawed_columns_at_y(y) == 1 {
                let reach = if y <= self.height - y {
                    y
                } else {
                    self.height - y
                };
                return Some(Reflection::OnYAxis(y, reach));
            }
            y += 1;
        }
        None
    }
}

/// The count of flaws in a row does not shrink as more tiles are looked at.
pub proof fn lemma_row_flaws_grow(p: Pattern, x: int, y: int, k: int, n: int)
    requires
        0 <= k <= n,
    ensures
        flaws_in_row(p, x, y, k) <= flaws_in_row(p, x, y, n),
    decreases n - k,
{
    if k < n {
        lemma_row_flaws_grow(p, x, y, k, n - 1);
    }
}

/// The count of flaws does not shrink as more rows are looked at.
pub proof fn lemma_flaws_grow(p: Pattern, x: int, rows: int, n: int)
    requires
        0 <= rows <= n,
    ensures
        flaws_at_x(p, x, rows) <= flaws_at_x(p, x, n),
    decreases n - rows,
{
    if rows < n {
        lemma_flaws_grow(p, x, rows, n - 1);
        if min_int(x, p.width - x) >= 0 {
            lemma_row_flaws_grow(p, x, n - 1, 0, min_int(x, p.width - x));
        }
    }
}

/// The count of flawed columns does not shrink as more columns are looked
/// at.
pub proof fn lemma_flawed_columns_grow(p: Pattern, y: int, columns: int, n: int)
    requires
        0 <= columns <= n,
    ensures
        flawed_columns_at_y(p, y, columns) <= flawed_columns_at_y(p, y, n),
    decreases n - columns,
{
    if columns < n {
        lemma_flawed_columns_grow(p, y, columns, n - 1);
    }
}

/// What a line of reflection counts for in the summary of all patterns: the
/// columns to its left, or a hundred times the rows above it.
pub open spec fn spec_line_value(r: Reflection) -> int {
    match r {
        Reflection::OnXAxis(x, _) => x as int,
        Reflection::OnYAxis(y, _) => 100 * y,
    }
}

/// The value of a line of reflection, or `None` if it cannot be held in a
/// `usize`.
pub fn line_value(r: Reflection) -> (v: Option<usize>)
    ensures
        v matches Some(n) ==> n == spec_line_value(r),
        v is None <==> spec_line_value(r) > usize::MAX,
{
    match r {
        Reflection::OnXAxis(x, _) => Some(x),
        Reflection::OnYAxis(y, _) => y.checked_mul(100),
    }
}

/// The line that the search reports for a pattern: as it stands, or with its
/// smudge taken into account.
pub open spec fn is_line(p: Pattern, corrected: bool, r: Option<Reflection>) -> bool {
    if corrected {
        p.corrected_reflection(r)
    } else {
        p.reflection(r)
    }
}

/// The search reports one line for a pattern, or none, and no other.
pub proof fn lemma_line_unique(
    p: Pattern,
    corrected: bool,
    a: Option<Reflection>,
    b: Option<Reflection>,
)
    requires
        is_line(p, corrected, a),
        is_line(p, corrected, b),
    ensures
        a == b,
{
    match (a, b) {
        (Some(Reflection::OnXAxis(x, _)), Some(Reflection::OnXAxis(y, _))) => {
            assert(x == y);
        },
        (Some(Reflection::OnYAxis(x, _)), Some(Reflection::OnYAxis(y, _))) => {
            assert(x == y);
        },
        _ => {},
    }
}

/// The line of a pattern.
pub open spec fn the_line(p: Pattern, corrected: bool) -> Option<Reflection> {
    choose|r: Option<Reflection>| is_line(p, corrected, r)
}

/// The sum of the values of the lines of the first `n` patterns, if each of
/// them has a line.
pub open spec fn spec_summary(patterns: Seq<Pattern>, corrected: bool, n: int) -> Option<int>
    decreases n,
{
    if n <= 0 {
        Some(0)
    } else {
        match (spec_summary(patterns, corrected, n - 1), the_line(patterns[n - 1], corrected)) {
            (Some(before), Some(line)) => Some(before + spec_line_value(line)),
            _ => None,
        }
    }
}

/// A summary that has failed, or has grown too large, stays so as more
/// patterns are counted.
pub proof fn lemma_summary_grows(patterns: Seq<Pattern>, corrected: bool, k: int, n: int)
    requires
        0 <= k <= n,
    ensures
        spec_summary(patterns, corrected, k) is None ==> spec_summary(patterns, corrected, n)
            is None,
        spec_summary(patterns, corrected, n) matches Some(total) ==> spec_summary(
            patterns,
            corrected,
            k,
        ) matches Some(part) && 0 <= part <= total,
    decreases n,
{
    if n > 0 {
        if k < n {
            lemma_summary_grows(patterns, corrected, k, n - 1);
        } else {
            lemma_summary_grows(patterns, corrected, k - 1, n - 1);
        }
    }
}

/// The summary of all patterns: the sum of the values of their lines of
/// reflection. Returns `None` if a pattern has no such line or the sum cannot
/// be held in a `usize`.
pub fn summarize(patterns: &Vec<Pattern>, corrected: bool) -> (r: Option<usize>)
    requires
        forall|i: int| 0 <= i < patterns@.len() ==> (#[trigger] patterns@[i]).wf(),
    ensures
        r == match spec_summary(patterns@, corrected, patterns@.len() as int) {
            Some(total) => if total <= usize::MAX {
                Some(total as usize)
            } else {
                None
            },
            None => None,
        },
{
    let mut total: usize = 0;
    let mut i: usize = 0;
    while i < patterns.len()
        invariant
            i <= patterns@.len(),
            forall|k: int| 0 <= k < patterns@.len() ==> (#[trigger] patterns@[k]).wf(),
            spec_summary(patterns@, corrected, i as int) == Some(total as int),
        decreases patterns@.len() - i,
    {
        let found = if corrected {
            patterns[i].get_corrected_reflection_line()
        } else {
            patterns[i].get_reflection_line()
        };
        proof {
            assert(is_line(patterns@[i as int], corrected, found));
            lemma_line_unique(
                patterns@[i as int],
                corrected,
                found,
                the_line(patterns@[i as int], corrected),
            );
            lemma_summary_grows(patterns@, corrected, i + 1, patterns@.len() as int);
        }
        let line = match found {
            None => {
                return None;
            },
            Some(line) => line,
        };
        let value = match line_value(line) {
            None => {
                return None;
            },
            Some(value) => value,
        };
        total = match total.checked_add(value) {
            None => {
                return None;
            },
            Some(total) => total,
        };
        i += 1;
    }
    Some(total)
}

/// Reads a pattern from its lines. Returns `None` unless the lines write a
/// rectangle of known tiles.
pub fn parse_pattern(lines: &Vec<Vec<u8>>) -> (r: Option<Pattern>)
    ensures
        r is Some <==> readable::<Tile>(tile_rows(lines@)),
        r matches Some(p) ==> p.wf() && tile_rows(p.tiles@) == rows_of::<Tile>(tile_rows(lines@)),
{
    let ghost want = tile_rows(lines@);
    if lines.len() == 0 {
        return None;
    }
    let width = lines[0].len();
    let mut tiles: Vec<Vec<Tile>> = Vec::with_capacity(lines.len());
    let mut y: usize = 0;
    while y < lines.len()
        invariant
            y <= lines@.len(),
            want == tile_rows(lines@),
            lines@.len() > 0,
            width == lines@[0]@.len(),
            tiles@.len() == y,
            forall|k: int| 0 <= k < y ==> crate::glyphs::all_known::<Tile>(#[trigger] want[k]),
            forall|k: int| 0 <= k < y ==> (#[trigger] want[k]).len() == width,
            forall|k: int|
                0 <= k < y ==> (#[trigger] tiles@[k])@ == crate::glyphs::tiles_of::<Tile>(want[k]),
        decreases lines@.len() - y,
    {
        assert(want[y as int] == lines@[y as int]@);
        assert(want[0] == lines@[0]@);
        if lines[y].len() != width {
            assert(want[y as int].len() != want[0].len());
            return None;
        }
        match parse_tiles::<Tile>(lines[y].as_slice()) {
            None => {
                assert(!crate::glyphs::all_known::<Tile>(want[y as int]));
                return None;
            },
            Some(row) => {
                tiles.push(row);
            },
        }
        y += 1;
    }
    assert(want[0] == lines@[0]@);
    let p = Pattern { width, height: lines.len(), tiles };
    assert(tile_rows(p.tiles@) =~= rows_of::<Tile>(want)) by {
        assert forall|k: int| 0 <= k < want.len() implies tile_rows(p.tiles@)[k]
            == crate::glyphs::tiles_of::<Tile>(want[k]) by {
            assert(p.tiles@[k]@ == crate::glyphs::tiles_of::<Tile>(want[k]));
        }
    }
    assert(p.wf()) by {
        assert forall|k: int| 0 <= k < p.height implies (#[trigger] p.tiles@[k])@.len()
            == p.width by {
            assert(p.tiles@[k]@ == crate::glyphs::tiles_of::<Tile>(want[k]));
            assert(want[k].len() == width);
        }
    }
    Some(p)
}

/// The lines write the pattern.
pub open spec fn pattern_written_as(lines: Seq<Seq<u8>>, p: Pattern) -> bool {
    readable::<Tile>(lines) && p.wf() && tile_rows(p.tiles@) == rows_of::<Tile>(lines)
}

/// Reads the patterns of a text, which empty lines separate.
pub fn parse_patterns(text: &[u8]) -> (r: Option<Vec<Pattern>>)
    ensures
        r matches Some(patterns) ==> {
            let blocks = spec_blocks(spec_lines(text@));
            &&& patterns@.len() == blocks.len()
            &&& forall|i: int|
                0 <= i < blocks.len() ==> pattern_written_as(blocks[i], #[trigger] patterns@[i])
        },
        r is None ==> exists|i: int|
            0 <= i < spec_blocks(spec_lines(text@)).len() && !readable::<Tile>(
                #[trigger] spec_blocks(spec_lines(text@))[i],
            ),
{
    let blocks = split_blocks(text);
    let ghost want = spec_blocks(spec_lines(text@));
    let mut patterns: Vec<Pattern> = Vec::with_capacity(blocks.len());
    let mut i: usize = 0;
    while i < blocks.len()
        invariant
            i <= blocks@.len(),
            want == spec_blocks(spec_lines(text@)),
            block_rows(blocks@) == want,
            patterns@.len() == i,
            forall|k: int| 0 <= k < i ==> pattern_written_as(want[k], #[trigger] patterns@[k]),
        decreases blocks@.len() - i,
    {
        assert(want[i as int] == tile_rows(blocks@[i as int]@));
        match parse_pattern(&blocks[i]) {
            None => {
                assert(!readable::<Tile>(want[i as int]));
                return None;
            },
            Some(p) => {
                patterns.push(p);
            },
        }
        i += 1;
    }
    Some(patterns)
}

impl FromByte for Tile {
    open spec fn of_byte(b: u8) -> Option<Tile> {
        spec_tile_of(b as char)
    }

    fn from_byte(b: u8) -> (r: Option<Tile>) {
        Tile::parse(b as char)
    }
}

} // verus!
