//! A rectangular container of tiles and the four compass directions used to
//! walk across it.

use vstd::prelude::*;
use vstd::std_specs::convert::FromSpec;

verus! {

/// One of the four axis-aligned directions. North decreases `y`, East
/// increases `x`.
#[derive(Debug, Clone, Copy, PartialEq, Eq, Hash, Structural)]
pub enum Direction {
    North,
    East,
    South,
    West,
}

impl Direction {
    /// The direction pointing the other way.
    pub open spec fn spec_opposite(self) -> Direction {
        match self {
            Direction::North => Direction::South,
            Direction::South => Direction::North,
            Direction::West => Direction::East,
            Direction::East => Direction::West,
        }
    }

    /// The position one step away from `pos`, if that step stays within
    /// `0..=upper_limit` on both axes.
    pub open spec fn spec_walk_pos(self, pos: (usize, usize), upper_limit: (usize, usize)) -> Option<
        (usize, usize),
    > {
        match self {
            Direction::North => if pos.1 != 0 {
                Some((pos.0, (pos.1 - 1) as usize))
            } else {
                None
            },
            Direction::South => if pos.1 < upper_limit.1 {
                Some((pos.0, (pos.1 + 1) as usize))
            } else {
                None
            },
            Direction::West => if pos.0 != 0 {
                Some(((pos.0 - 1) as usize, pos.1))
            } else {
                None
            },
            Direction::East => if pos.0 < upper_limit.0 {
                Some(((pos.0 + 1) as usize, pos.1))
            } else {
                None
            },
        }
    }

    /// The position one step away from `pos`, if that step stays within the
    /// inclusive box spanned by `lower_limit` and `upper_limit`.
    pub open spec fn spec_walk_pos_signed(
        self,
        pos: (isize, isize),
        lower_limit: (isize, isize),
        upper_limit: (isize, isize),
    ) -> Option<(isize, isize)> {
        match self {
            Direction::North => if pos.1 > lower_limit.1 {
                Some((pos.0, (pos.1 - 1) as isize))
            } else {
                None
            },
            Direction::South => if pos.1 < upper_limit.1 {
                Some((pos.0, (pos.1 + 1) as isize))
            } else {
                None
            },
            Direction::West => if pos.0 > lower_limit.0 {
                Some(((pos.0 - 1) as isize, pos.1))
            } else {
                None
            },
            Direction::East => if pos.0 < upper_limit.0 {
                Some(((pos.0 + 1) as isize, pos.1))
            } else {
                None
            },
        }
    }

    pub fn opposite(&self) -> (r: Direction)
        ensures
            r == self.spec_opposite(),
    {
        match self {
            Direction::North => Direction::South,
            Direction::South => Direction::North,
            Direction::West => Direction::East,
            Direction::East => Direction::West,
        }
    }

    pub fn walk_pos(&self, pos: (usize, usize), upper_limit: (usize, usize)) -> (r: Option<
        (usize, usize),
    >)
        ensures
            r == self.spec_walk_pos(pos, upper_limit),
    {
        match self {
            Direction::North => {
                if pos.1 != 0 {
                    Some((pos.0, pos.1 - 1))
                } else {
                    None
                }
            },
            Direction::South => {
                if pos.1 < upper_limit.1 {
                    Some((pos.0, pos.1 + 1))
                } else {
                    None
                }
            },
            Direction::West => {
                if pos.0 != 0 {
                    Some((pos.0 - 1, pos.1))
                } else {
                    None
                }
            },
            Direction::East => {
                if pos.0 < upper_limit.0 {
                    Some((pos.0 + 1, pos.1))
                } else {
                    None
                }
            },
        }
    }

    pub fn walk_pos_signed(
        &self,
        pos: (isize, isize),
        lower_limit: (isize, isize),
        upper_limit: (isize, isize),
    ) -> (r: Option<(isize, isize)>)
        ensures
            r == self.spec_walk_pos_signed(pos, lower_limit, upper_limit),
    {
        match self {
            Direction::North => {
                if pos.1 > lower_limit.1 {
                    Some((pos.0, pos.1 - 1))
                } else {
                    None
                }
            },
            Direction::South => {
                if pos.1 < upper_limit.1 {
                    Some((pos.0, pos.1 + 1))
                } else {
                    None
                }
            },
            Direction::West => {
                if pos.0 > lower_limit.0 {
                    Some((pos.0 - 1, pos.1))
                } else {
                    None
                }
            },
            Direction::East => {
                if pos.0 < upper_limit.0 {
                    Some((pos.0 + 1, pos.1))
                } else {
                    None
                }
            },
        }
    }
}

/// Turning around twice faces the same direction again.
pub proof fn lemma_opposite_involutive(d: Direction)
    ensures
        d.spec_opposite().spec_opposite() == d,
{
}

/// A step that succeeds can be undone by a step in the opposite direction.
pub proof fn lemma_walk_back(d: Direction, pos: (usize, usize), upper_limit: (usize, usize))
    requires
        pos.0 <= upper_limit.0,
        pos.1 <= upper_limit.1,
        d.spec_walk_pos(pos, upper_limit) is Some,
    ensures
        d.spec_opposite().spec_walk_pos(d.spec_walk_pos(pos, upper_limit).unwrap(), upper_limit)
            == Some(pos),
{
}

/// The contents of a vector of rows, as a sequence of sequences.
pub open spec fn tile_rows<T>(tiles: Seq<Vec<T>>) -> Seq<Seq<T>> {
    Seq::new(tiles.len(), |y: int| tiles[y]@)
}

/// The `(width, height)` that a vector of rows is recorded with: the length
/// of the first row, or zero if there is none, and the number of rows.
pub open spec fn tile_dims<T>(tiles: Seq<Vec<T>>) -> (usize, usize) {
    (
        if tiles.len() > 0 {
            tiles[0]@.len() as usize
        } else {
            0
        },
        tiles.len() as usize,
    )
}

/// A two-dimensional map of tiles stored row by row.
#[derive(Debug, Clone, Hash)]
pub struct Grid<T> {
    tiles: Vec<Vec<T>>,
    width: usize,
    height: usize,
}

impl<T> Grid<T> {
    /// The rows of the grid, top to bottom; `rows()[y][x]` is the tile at
    /// `(x, y)`.
    pub closed spec fn rows(&self) -> Seq<Seq<T>> {
        tile_rows(self.tiles@)
    }

    /// The recorded `(width, height)`.
    pub closed spec fn dims(&self) -> (usize, usize) {
        (self.width, self.height)
    }

    /// The grid is rectangular and its recorded dimensions describe it.
    pub open spec fn wf(&self) -> bool {
        &&& self.rows().len() == self.dims().1
        &&& forall|y: int| 0 <= y < self.rows().len() ==> #[trigger] self.rows()[y].len() == self.dims().0
    }

    /// Whether `(x, y)` names a stored tile.
    pub open spec fn has(&self, x: int, y: int) -> bool {
        0 <= y < self.rows().len() && 0 <= x < self.rows()[y].len()
    }

    /// Returns the dimensions of the map as a tuple `(x, y)`.
    pub fn dimensions(&self) -> (r: (usize, usize))
        ensures
            r == self.dims(),
    {
        (self.width, self.height)
    }

    /// Gets the tile of a specified position, or `None` if the position is
    /// outside the stored rows.
    pub fn get(&self, x: usize, y: usize) -> (r: Option<&T>)
        ensures
            r is Some <==> self.has(x as int, y as int),
            r matches Some(t) ==> *t == self.rows()[y as int][x as int],
    {
        if y < self.tiles.len() {
            let row = &self.tiles[y];
            if x < row.len() {
                Some(&row[x])
            } else {
                None
            }
        } else {
            None
        }
    }

    /// Sets the tile of a specified position.
    pub fn set(&mut self, x: usize, y: usize, value: T)
        requires
            old(self).has(x as int, y as int),
        ensures
            final(self).dims() == old(self).dims(),
            final(self).rows() == old(self).rows().update(
                y as int,
                old(self).rows()[y as int].update(x as int, value),
            ),
    {
        self.tiles[y][x] = value;
        assert(self.rows() =~= old(self).rows().update(
            y as int,
            old(self).rows()[y as int].update(x as int, value),
        ));
    }

    /// Get the internally stored tile data.
    pub fn get_raw_tiles(&self) -> (r: &Vec<Vec<T>>)
        ensures
            tile_rows(r@) == self.rows(),
    {
        &self.tiles
    }

    /// Get the internally stored tile data as mutable reference. The recorded
    /// dimensions stay as they are, whatever the caller does to the rows.
    pub fn get_raw_tiles_mut(&mut self) -> (r: &mut Vec<Vec<T>>)
        ensures
            tile_rows(r@) == old(self).rows(),
            final(self).rows() == tile_rows(final(r)@),
            final(self).dims() == old(self).dims(),
    {
        &mut self.tiles
    }

    /// Whether every row has the recorded width and there are as many rows as
    /// the recorded height.
    pub fn is_rectangular(&self) -> (r: bool)
        ensures
            r == self.wf(),
    {
        if self.tiles.len() != self.height {
            return false;
        }
        let mut y: usize = 0;
        while y < self.tiles.len()
            invariant
                y <= self.tiles.len(),
                forall|k: int| 0 <= k < y ==> #[trigger] self.rows()[k].len() == self.width,
            decreases self.tiles.len() - y,
        {
            if self.tiles[y].len() != self.width {
                assert(self.rows()[y as int].len() != self.dims().0);
                return false;
            }
            y += 1;
        }
        true
    }
}

impl<T> From<Vec<Vec<T>>> for Grid<T> {
    /// Creates a grid from its rows. The dimensions are derived from the
    /// number of rows and the length of the first row.
    fn from(value: Vec<Vec<T>>) -> (r: Self) {
        let width = if value.len() > 0 {
            value[0].len()
        } else {
            0
        };
        Grid { width, height: value.len(), tiles: value }
    }
}

impl<T> vstd::std_specs::convert::FromSpecImpl<Vec<Vec<T>>> for Grid<T> {
    open spec fn obeys_from_spec() -> bool {
        true
    }

    closed spec fn from_spec(v: Vec<Vec<T>>) -> Self {
        Grid { width: tile_dims(v@).0, height: tile_dims(v@).1, tiles: v }
    }
}

/// What a grid built from a vector of rows holds.
pub broadcast proof fn lemma_grid_from_rows<T>(v: Vec<Vec<T>>)
    ensures
        (#[trigger] Grid::<T>::from_spec(v)).rows() == tile_rows(v@),
        Grid::<T>::from_spec(v).dims() == tile_dims(v@),
{
}

} // verus!
