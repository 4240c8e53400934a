//! Reading grids of tiles from text, one byte per tile, and lists of values,
//! one line per value.

use vstd::prelude::*;
use crate::grid::{lemma_grid_from_rows, tile_dims, tile_rows, Grid};
use crate::text::{spec_lines, split_lines};

verus! {

/// A tile that is written as a single byte.
pub trait FromByte: Sized {
    /// The tile that the byte stands for, if it stands for one.
    spec fn of_byte(b: u8) -> Option<Self>;

    /// Reads a tile from its byte.
    fn from_byte(b: u8) -> (r: Option<Self>)
        ensures
            r == Self::of_byte(b),
    ;
}

/// Every byte of the line stands for a tile.
pub open spec fn all_known<T: FromByte>(line: Seq<u8>) -> bool {
    forall|i: int| 0 <= i < line.len() ==> (#[trigger] T::of_byte(line[i])) is Some
}

/// The tiles that the bytes of the line stand for.
pub open spec fn tiles_of<T: FromByte>(line: Seq<u8>) -> Seq<T> {
    Seq::new(line.len(), |i: int| T::of_byte(line[i]).unwrap())
}

/// The lines write a grid: there is at least one line, every byte stands for
/// a tile, and all lines are equally long.
pub open spec fn readable<T: FromByte>(lines: Seq<Seq<u8>>) -> bool {
    &&& lines.len() > 0
    &&& forall|i: int| 0 <= i < lines.len() ==> all_known::<T>(#[trigger] lines[i])
    &&& forall|i: int| 0 <= i < lines.len() ==> (#[trigger] lines[i]).len() == lines[0].len()
}

/// The rows of tiles that the lines write.
pub open spec fn rows_of<T: FromByte>(lines: Seq<Seq<u8>>) -> Seq<Seq<T>> {
    Seq::new(lines.len(), |y: int| tiles_of::<T>(lines[y]))
}

/// Reads one line as a row of tiles, or returns `None` if a byte of the line
/// stands for no tile.
pub fn parse_tiles<T: FromByte>(line: &[u8]) -> (r: Option<Vec<T>>)
    ensures
        r is Some <==> all_known::<T>(line@),
        r matches Some(row) ==> row@ == tiles_of::<T>(line@),
{
    let mut row: Vec<T> = Vec::with_capacity(line.len());
    let mut i: usize = 0;
    while i < line.len()
        invariant
            i <= line@.len(),
            forall|k: int| 0 <= k < i ==> (#[trigger] T::of_byte(line@[k])) is Some,
            row@.len() == i,
            forall|k: int| 0 <= k < i ==> row@[k] == T::of_byte(line@[k]).unwrap(),
        decreases line@.len() - i,
    {
        match T::from_byte(line[i]) {
            None => {
                assert(T::of_byte(line@[i as int]) is None);
                return None;
            },
            Some(tile) => {
                row.push(tile);
            },
        }
        i += 1;
    }
    assert(row@ =~= tiles_of::<T>(line@));
    Some(row)
}

/// Reads a grid from lines of text, one byte per tile. Returns `None` unless
/// the lines write a rectangle of known tiles.
pub fn parse_grid<T: FromByte>(text: &[u8]) -> (r: Option<Grid<T>>)
    ensures
        r is Some <==> readable::<T>(spec_lines(text@)),
        r matches Some(g) ==> {
            let lines = spec_lines(text@);
            &&& g.wf()
            &&& g.dims() == (lines[0].len() as usize, lines.len() as usize)
            &&& g.rows() == rows_of::<T>(lines)
        },
{
    let lines = split_lines(text);
    let ghost want = spec_lines(text@);
    if lines.len() == 0 {
        return None;
    }
    let width = lines[0].len();
    let mut rows: Vec<Vec<T>> = Vec::with_capacity(lines.len());
    let mut y: usize = 0;
    while y < lines.len()
        invariant
            y <= lines@.len(),
            want == spec_lines(text@),
            tile_rows(lines@) == want,
            lines@.len() > 0,
            width == lines@[0]@.len(),
            rows@.len() == y,
            forall|k: int| 0 <= k < y ==> all_known::<T>(#[trigger] want[k]),
            forall|k: int| 0 <= k < y ==> (#[trigger] want[k]).len() == width,
            forall|k: int| 0 <= k < y ==> (#[trigger] rows@[k])@ == tiles_of::<T>(want[k]),
        decreases lines@.len() - y,
    {
        assert(want[y as int] == lines@[y as int]@);
        assert(want[0] == lines@[0]@);
        if lines[y].len() != width {
            assert(want[y as int].len() != want[0].len());
            return None;
        }
        match parse_tiles::<T>(lines[y].as_slice()) {
            None => {
                assert(!all_known::<T>(want[y as int]));
                return None;
            },
            Some(row) => {
                rows.push(row);
            },
        }
        y += 1;
    }
    assert(want[0] == lines@[0]@);
    let ghost stored = rows@;
    let g: Grid<T> = Grid::from(rows);
    proof {
        lemma_grid_from_rows(rows);
        assert(g.rows() =~= rows_of::<T>(want)) by {
            assert forall|k: int| 0 <= k < want.len() implies g.rows()[k] == tiles_of::<T>(
                want[k],
            ) by {
                assert(stored[k]@ == tiles_of::<T>(want[k]));
            }
        }
        assert(tile_dims(stored) == (width, lines@.len() as usize)) by {
            assert(stored[0]@ == tiles_of::<T>(want[0]));
        }
        assert forall|k: int| 0 <= k < g.rows().len() implies #[trigger] g.rows()[k].len()
            == g.dims().0 by {
            assert(stored[k]@ == tiles_of::<T>(want[k]));
            assert(want[k].len() == width);
        }
    }
    Some(g)
}

/// A value that is written as one line of text.
pub trait FromLine: Sized {
    /// The line writes the value.
    spec fn written_as(line: Seq<u8>, value: Self) -> bool;

    /// Reads a value from its line, or returns `None` if the line writes
    /// none.
    fn from_line(line: &[u8]) -> (r: Option<Self>)
        ensures
            r matches Some(value) ==> Self::written_as(line@, value),
            r is None ==> forall|value: Self| !Self::written_as(line@, value),
    ;
}

/// The line writes no value.
pub open spec fn unreadable<T: FromLine>(line: Seq<u8>) -> bool {
    forall|value: T| !T::written_as(line, value)
}

/// Reads one value from each line of the text. Returns `None` if a line
/// writes no value.
pub fn parse_lines<T: FromLine>(text: &[u8]) -> (r: Option<Vec<T>>)
    ensures
        r matches Some(values) ==> values@.len() == spec_lines(text@).len() && forall|i: int|
            0 <= i < values@.len() ==> T::written_as(spec_lines(text@)[i], #[trigger] values@[i]),
        r is None ==> exists|i: int|
            0 <= i < spec_lines(text@).len() && unreadable::<T>(#[trigger] spec_lines(text@)[i]),
{
    let lines = split_lines(text);
    let mut values: Vec<T> = Vec::with_capacity(lines.len());
    let mut i: usize = 0;
    while i < lines.len()
        invariant
            i <= lines@.len(),
            tile_rows(lines@) == spec_lines(text@),
            values@.len() == i,
            forall|k: int|
                0 <= k < i ==> T::written_as(spec_lines(text@)[k], #[trigger] values@[k]),
        decreases lines@.len() - i,
    {
        assert(spec_lines(text@)[i as int] == lines@[i as int]@);
        match T::from_line(lines[i].as_slice()) {
            None => {
                assert(unreadable::<T>(spec_lines(text@)[i as int]));
                return None;
            },
            Some(value) => {
                values.push(value);
            },
        }
        i += 1;
    }
    Some(values)
}

} // verus!
