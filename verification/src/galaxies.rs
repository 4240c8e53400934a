//! An image of galaxies in which empty rows and columns stand for far more
//! space than they show.

use vstd::prelude::*;
use crate::grid::tile_rows;
use crate::text::{spec_lines, split_lines};

verus! {

/// The galaxies of an image and the size of the image.
#[derive(Debug, Clone)]
pub struct Sky {
    pub stars: Vec<(u64, u64)>,
    pub width: u64,
    pub height: u64,
}

pub open spec fn abs_diff(a: int, b: int) -> int {
    if a >= b {
        a - b
    } else {
        b - a
    }
}

/// The number of steps between two galaxies along rows and columns.
pub open spec fn spec_distance(a: (u64, u64), b: (u64, u64)) -> int {
    abs_diff(a.0 as int, b.0 as int) + abs_diff(a.1 as int, b.1 as int)
}

/// No galaxy of the image stands in row `y`.
pub open spec fn row_empty(stars: Seq<(u64, u64)>, width: u64, y: int) -> bool {
    forall|k: int| 0 <= k < stars.len() ==> !((#[trigger] stars[k]).1 == y && stars[k].0 < width)
}

/// No galaxy of the image stands in column `x`.
pub open spec fn column_empty(stars: Seq<(u64, u64)>, height: u64, x: int) -> bool {
    forall|k: int| 0 <= k < stars.len() ==> !((#[trigger] stars[k]).0 == x && stars[k].1 < height)
}

/// The empty rows among the first `n`, in order.
pub open spec fn empty_rows(stars: Seq<(u64, u64)>, width: u64, n: int) -> Seq<u64>
    decreases n,
{
    if n <= 0 {
        Seq::empty()
    } else if row_empty(stars, width, n - 1) {
        empty_rows(stars, width, n - 1).push((n - 1) as u64)
    } else {
        empty_rows(stars, width, n - 1)
    }
}

/// The empty columns among the first `n`, in order.
pub open spec fn empty_columns(stars: Seq<(u64, u64)>, height: u64, n: int) -> Seq<u64>
    decreases n,
{
    if n <= 0 {
        Seq::empty()
    } else if column_empty(stars, height, n - 1) {
        empty_columns(stars, height, n - 1).push((n - 1) as u64)
    } else {
        empty_columns(stars, height, n - 1)
    }
}

/// How many of the first `n` entries are below `limit`.
pub open spec fn count_below(list: Seq<u64>, limit: u64, n: int) -> int
    decreases n,
{
    if n <= 0 {
        0
    } else {
        count_below(list, limit, n - 1) + if list[n - 1] < limit {
            1int
        } else {
            0int
        }
    }
}

/// Where a galaxy stands once every empty row and column before it has grown
/// by `factor`.
pub open spec fn expanded_star(star: (u64, u64), rows: Seq<u64>, columns: Seq<u64>, factor: u64) -> (
    int,
    int,
) {
    (
        star.0 + count_below(columns, star.0, columns.len() as int) * factor,
        star.1 + count_below(rows, star.1, rows.len() as int) * factor,
    )
}

/// The sum of the distances from galaxy `a` to the galaxies after it, up to
/// but not including galaxy `b`.
pub open spec fn distances_from(stars: Seq<(u64, u64)>, a: int, b: int) -> int
    decreases b - a,
{
    if b <= a + 1 {
        0
    } else {
        distances_from(stars, a, b - 1) + spec_distance(stars[a], stars[b - 1])
    }
}

/// The sum of the distances between every two of the galaxies of which the
/// first is among the first `n`.
pub open spec fn spec_distance_sum(stars: Seq<(u64, u64)>, n: int) -> int
    decreases n,
{
    if n <= 0 {
        0
    } else {
        spec_distance_sum(stars, n - 1) + distances_from(stars, n - 1, stars.len() as int)
    }
}

/// Counts the entries below `limit`.
pub fn entries_below(list: &Vec<u64>, limit: u64) -> (n: u64)
    ensures
        n == count_below(list@, limit, list@.len() as int),
        n <= list@.len(),
{
    let mut n: u64 = 0;
    let mut i: usize = 0;
    while i < list.len()
        invariant
            i <= list@.len(),
            n <= i,
            n == count_below(list@, limit, i as int),
        decreases list@.len() - i,
    {
        if list[i] < limit {
            n += 1;
        }
        i += 1;
    }
    n
}

/// Every coordinate of the image grown by `factor` can be held in a `u64`.
pub open spec fn expandable(sky: Sky, factor: u64) -> bool {
    let rows = empty_rows(sky.stars@, sky.width, sky.height as int);
    let columns = empty_columns(sky.stars@, sky.height, sky.width as int);
    &&& forall|k: int|
        0 <= k < sky.stars@.len() ==> expanded_star(#[trigger] sky.stars@[k], rows, columns, factor).0
            <= u64::MAX && expanded_star(sky.stars@[k], rows, columns, factor).1 <= u64::MAX
    &&& sky.width + columns.len() * factor <= u64::MAX
    &&& sky.height + rows.len() * factor <= u64::MAX
}

/// The sum of the distances from a galaxy does not shrink as more galaxies
/// are counted, and is not negative.
pub proof fn lemma_distances_from_grow(stars: Seq<(u64, u64)>, a: int, k: int, n: int)
    requires
        a + 1 <= k <= n,
    ensures
        0 <= distances_from(stars, a, k) <= distances_from(stars, a, n),
    decreases n - a,
{
    if n > a + 1 {
        if k < n {
            lemma_distances_from_grow(stars, a, k, n - 1);
        } else {
            lemma_distances_from_grow(stars, a, k - 1, n - 1);
        }
    }
}

/// The sum of all distances does not shrink as more galaxies are counted,
/// and is not negative.
pub proof fn lemma_distance_sum_grows(stars: Seq<(u64, u64)>, k: int, n: int)
    requires
        0 <= k <= n,
    ensures
        0 <= spec_distance_sum(stars, k) <= spec_distance_sum(stars, n),
    decreases n,
{
    if n > 0 {
        if stars.len() >= n {
            lemma_distances_from_grow(stars, n - 1, n, stars.len() as int);
        }
        if k < n {
            lemma_distance_sum_grows(stars, k, n - 1);
        } else {
            lemma_distance_sum_grows(stars, k - 1, n - 1);
        }
    }
}

impl Sky {
    /// The distance between the galaxies `a` and `b`, or `None` if it cannot
    /// be held in a `u64`.
    pub fn star_distance(&self, a: usize, b: usize) -> (r: Option<u64>)
        requires
            a < self.stars@.len(),
            b < self.stars@.len(),
        ensures
            r matches Some(d) ==> d == spec_distance(self.stars@[a as int], self.stars@[b as int]),
            r is None <==> spec_distance(self.stars@[a as int], self.stars@[b as int]) > u64::MAX,
    {
        let p = self.stars[a];
        let q = self.stars[b];
        let dx = if p.0 >= q.0 {
            p.0 - q.0
        } else {
            q.0 - p.0
        };
        let dy = if p.1 >= q.1 {
            p.1 - q.1
        } else {
            q.1 - p.1
        };
        dx.checked_add(dy)
    }

    /// Whether no galaxy of the image stands in row `y`.
    pub fn is_row_empty(&self, y: u64) -> (r: bool)
        ensures
            r == row_empty(self.stars@, self.width, y as int),
    {
        let mut k: usize = 0;
        while k < self.stars.len()
            invariant
                k <= self.stars@.len(),
                forall|j: int|
                    0 <= j < k ==> !((#[trigger] self.stars@[j]).1 == y && self.stars@[j].0
                        < self.width),
            decreases self.stars@.len() - k,
        {
            if self.stars[k].1 == y && self.stars[k].0 < self.width {
                return false;
            }
            k += 1;
        }
        true
    }

    /// Whether no galaxy of the image stands in column `x`.
    pub fn is_column_empty(&self, x: u64) -> (r: bool)
        ensures
            r == column_empty(self.stars@, self.height, x as int),
    {
        let mut k: usize = 0;
        while k < self.stars.len()
            invariant
                k <= self.stars@.len(),
                forall|j: int|
                    0 <= j < k ==> !((#[trigger] self.stars@[j]).0 == x && self.stars@[j].1
                        < self.height),
            decreases self.stars@.len() - k,
        {
            if self.stars[k].0 == x && self.stars[k].1 < self.height {
                return false;
            }
            k += 1;
        }
        true
    }

    /// The rows and the columns of the image in which no galaxy stands, each
    /// in ascending order.
    pub fn get_empty_rows_and_cols(&self) -> (r: (Vec<u64>, Vec<u64>))
        ensures
            r.0@ == empty_rows(self.stars@, self.width, self.height as int),
            r.1@ == empty_columns(self.stars@, self.height, self.width as int),
    {
        let mut rows: Vec<u64> = Vec::new();
        let mut cols: Vec<u64> = Vec::new();
        let mut y: u64 = 0;
        while y < self.height
            invariant
                y <= self.height,
                rows@ == empty_rows(self.stars@, self.width, y as int),
            decreases self.height - y,
        {
            if self.is_row_empty(y) {
                rows.push(y);
            }
            y += 1;
        }
        let mut x: u64 = 0;
        while x < self.width
            invariant
                x <= self.width,
                cols@ == empty_columns(self.stars@, self.height, x as int),
            decreases self.width - x,
        {
            if self.is_column_empty(x) {
                cols.push(x);
            }
            x += 1;
        }
        (rows, cols)
    }

    /// Lets every empty row and column grow by `factor` rows or columns and
    /// moves the galaxies accordingly. Returns `false`, and leaves the image
    /// as it is, if a new coordinate cannot be held in a `u64`.
    pub fn expand(&mut self, factor: u64) -> (done: bool)
        ensures
            !done ==> *final(self) == *old(self),
            done <==> expandable(*old(self), factor),
            done ==> {
                let rows = empty_rows(old(self).stars@, old(self).width, old(self).height as int);
                let columns = empty_columns(
                    old(self).stars@,
                    old(self).height,
                    old(self).width as int,
                );
                &&& final(self).stars@.len() == old(self).stars@.len()
                &&& forall|k: int|
                    0 <= k < old(self).stars@.len() ==> {
                        let moved = #[trigger] final(self).stars@[k];
                        let wanted = expanded_star(old(self).stars@[k], rows, columns, factor);
                        moved.0 == wanted.0 && moved.1 == wanted.1
                    }
                &&& final(self).width == old(self).width + columns.len() * factor
                &&& final(self).height == old(self).height + rows.len() * factor
            },
    {
        let (rows, cols) = self.get_empty_rows_and_cols();
        let mut moved: Vec<(u64, u64)> = Vec::with_capacity(self.stars.len());
        let mut k: usize = 0;
        while k < self.stars.len()
            invariant
                k <= self.stars@.len(),
                *self == *old(self),
                rows@ == empty_rows(self.stars@, self.width, self.height as int),
                cols@ == empty_columns(self.stars@, self.height, self.width as int),
                moved@.len() == k,
                forall|j: int|
                    0 <= j < k ==> (#[trigger] moved@[j]).0 == expanded_star(
                        self.stars@[j],
                        rows@,
                        cols@,
                        factor,
                    ).0 && moved@[j].1 == expanded_star(self.stars@[j], rows@, cols@, factor).1,
            decreases self.stars@.len() - k,
        {
            let star = self.stars[k];
            assert(self.stars@[k as int] == star);
            let x = match entries_below(&cols, star.0).checked_mul(factor) {
                None => {
                    return false;
                },
                Some(shift) => match star.0.checked_add(shift) {
                    None => {
                        return false;
                    },
                    Some(x) => x,
                },
            };
            let y = match entries_below(&rows, star.1).checked_mul(factor) {
                None => {
                    return false;
                },
                Some(shift) => match star.1.checked_add(shift) {
                    None => {
                        return false;
                    },
                    Some(y) => y,
                },
            };
            moved.push((x, y));
            k += 1;
        }
        let width = match (cols.len() as u64).checked_mul(factor) {
            None => {
                return false;
            },
            Some(grown) => match self.width.checked_add(grown) {
                None => {
                    return false;
                },
                Some(w) => w,
            },
        };
        let height = match (rows.len() as u64).checked_mul(factor) {
            None => {
                return false;
            },
            Some(grown) => match self.height.checked_add(grown) {
                None => {
                    return false;
                },
                Some(h) => h,
            },
        };
        assert(expandable(*old(self), factor)) by {
            assert forall|j: int| 0 <= j < self.stars@.len() implies expanded_star(
                #[trigger] self.stars@[j],
                rows@,
                cols@,
                factor,
            ).0 <= u64::MAX && expanded_star(self.stars@[j], rows@, cols@, factor).1
                <= u64::MAX by {
                assert(moved@[j].0 == expanded_star(self.stars@[j], rows@, cols@, factor).0);
            }
        }
        self.stars = moved;
        self.width = width;
        self.height = height;
        true
    }

    /// The sum of the distances between every two galaxies, or `None` if it
    /// cannot be held in a `u64`.
    pub fn sum_of_distances(&self) -> (r: Option<u64>)
        ensures
            r matches Some(sum) ==> sum == spec_distance_sum(
                self.stars@,
                self.stars@.len() as int,
            ),
            r is None <==> spec_distance_sum(self.stars@, self.stars@.len() as int) > u64::MAX,
    {
        let n = self.stars.len();
        let mut sum: u64 = 0;
        let mut a: usize = 0;
        while a < n
            invariant
                a <= n,
                n == self.stars@.len(),
                sum == spec_distance_sum(self.stars@, a as int),
            decreases n - a,
        {
            let mut part: u64 = 0;
            let mut b: usize = a + 1;
            while b < n
                invariant
                    a < n,
                    a + 1 <= b <= n,
                    n == self.stars@.len(),
                    part == distances_from(self.stars@, a as int, b as int),
                decreases n - b,
            {
                proof {
                    lemma_distances_from_grow(self.stars@, a as int, b as int, b as int);
                    lemma_distances_from_grow(self.stars@, a as int, b + 1, n as int);
                    lemma_distance_sum_grows(self.stars@, a as int, a as int);
                    lemma_distance_sum_grows(self.stars@, a + 1, n as int);
                }
                let d = match self.star_distance(a, b) {
                    None => {
                        return None;
                    },
                    Some(d) => d,
                };
                part = match part.checked_add(d) {
                    None => {
                        return None;
                    },
                    Some(p) => p,
                };
                b += 1;
            }
            sum = match sum.checked_add(part) {
                None => {
                    proof {
                        lemma_distance_sum_grows(self.stars@, a + 1, n as int);
                    }
                    return None;
                },
                Some(s) => s,
            };
            a += 1;
        }
        Some(sum)
    }
}

/// The galaxies among the first `k` bytes of row `y`: one for each `#`.
pub open spec fn row_stars(line: Seq<u8>, y: int, k: int) -> Seq<(u64, u64)>
    decreases k,
{
    if k <= 0 {
        Seq::empty()
    } else if line[k - 1] == 35 {
        row_stars(line, y, k - 1).push(((k - 1) as u64, y as u64))
    } else {
        row_stars(line, y, k - 1)
    }
}

/// The galaxies of the first `n` lines, in the order of reading.
pub open spec fn spec_stars(lines: Seq<Seq<u8>>, n: int) -> Seq<(u64, u64)>
    decreases n,
{
    if n <= 0 {
        Seq::empty()
    } else {
        spec_stars(lines, n - 1) + row_stars(lines[n - 1], n - 1, lines[n - 1].len() as int)
    }
}

/// The length of the longest of the first `n` lines.
pub open spec fn longest(lines: Seq<Seq<u8>>, n: int) -> int
    decreases n,
{
    if n <= 0 {
        0
    } else if lines[n - 1].len() > longest(lines, n - 1) {
        lines[n - 1].len() as int
    } else {
        longest(lines, n - 1)
    }
}

impl Sky {
    /// Reads an image: every `#` is a galaxy. The image is as wide as its
    /// longest line and as high as it has lines.
    pub fn parse(text: &[u8]) -> (sky: Sky)
        ensures
            sky.stars@ == spec_stars(spec_lines(text@), spec_lines(text@).len() as int),
            sky.width == longest(spec_lines(text@), spec_lines(text@).len() as int),
            sky.height == spec_lines(text@).len(),
    {
        let lines = split_lines(text);
        let ghost all = spec_lines(text@);
        let mut stars: Vec<(u64, u64)> = Vec::new();
        let mut width: usize = 0;
        let mut y: usize = 0;
        while y < lines.len()
            invariant
                y <= lines@.len(),
                tile_rows(lines@) == all,
                stars@ == spec_stars(all, y as int),
                width == longest(all, y as int),
            decreases lines@.len() - y,
        {
            let line = &lines[y];
            assert(all[y as int] == line@);
            let ghost before = stars@;
            let mut x: usize = 0;
            while x < line.len()
                invariant
                    x <= line@.len(),
                    y < lines@.len(),
                    stars@ == before + row_stars(line@, y as int, x as int),
                decreases line@.len() - x,
            {
                if line[x] == 35 {
                    stars.push((x as u64, y as u64));
                }
                assert(stars@ =~= before + row_stars(line@, y as int, x + 1));
                x += 1;
            }
            if line.len() > width {
                width = line.len();
            }
            y += 1;
        }
        Sky { stars, width: width as u64, height: lines.len() as u64 }
    }
}

} // verus!
