//! Reading a grid of heat-loss blocks from text, and adding up what a walk
//! across it loses.

use vstd::prelude::*;
use vstd::string::StringSliceAdditionalSpecFns;
use crate::crucible::{APos, Block, Data, Policy, Pos};
use crate::crucible_laws::{cells_cost, entered_cells};
use crate::crucible_search::{spec_find_min_cost, SearchError};
use crate::glyphs::{parse_grid, readable, rows_of, FromByte};
use crate::grid::Direction;
use crate::text::{digit_value, is_digit, spec_lines};

verus! {

impl FromByte for Block {
    /// A digit stands for the block that loses as much heat.
    open spec fn of_byte(b: u8) -> Option<Block> {
        if is_digit(b) {
            Some(Block { heat_loss: (b - 48) as u8 })
        } else {
            None
        }
    }

    fn from_byte(b: u8) -> (r: Option<Block>) {
        match digit_value(b) {
            Some(d) => Some(Block { heat_loss: d }),
            None => None,
        }
    }
}

/// The bottom right corner of the grid; the top left one for a grid without
/// cells.
pub open spec fn far_corner(g: Data) -> Pos {
    if g.dims().0 > 0 && g.dims().1 > 0 {
        ((g.dims().0 - 1) as usize, (g.dims().1 - 1) as usize)
    } else {
        (0, 0)
    }
}

/// Every cell of the sequence lies on the grid.
pub open spec fn all_on_grid(g: Data, cells: Seq<Pos>) -> bool {
    forall|i: int| 0 <= i < cells.len() ==> g.has((#[trigger] cells[i]).0 as int, cells[i].1 as int)
}

/// The sum grows with the sequence.
pub proof fn lemma_cells_cost_grows(g: Data, cells: Seq<Pos>, n: int)
    requires
        0 <= n <= cells.len(),
    ensures
        cells_cost(g, cells.subrange(0, n)) <= cells_cost(g, cells),
    decreases cells.len() - n,
{
    if n < cells.len() {
        assert(cells.subrange(0, n + 1).drop_last() =~= cells.subrange(0, n));
        lemma_cells_cost_grows(g, cells, n + 1);
    } else {
        assert(cells.subrange(0, n) =~= cells);
    }
}

impl Data {
    /// Reads a grid of blocks from lines of digits, one digit per block.
    /// Returns `None` unless the lines write a rectangle of digits.
    pub fn parse(text: &str) -> (r: Option<Data>)
        ensures
            r is Some <==> readable::<Block>(spec_lines(text.spec_bytes())),
            r matches Some(g) ==> {
                let lines = spec_lines(text.spec_bytes());
                &&& g.wf()
                &&& g.dims() == (lines[0].len() as usize, lines.len() as usize)
                &&& g.rows() == rows_of::<Block>(lines)
            },
    {
        parse_grid::<Block>(text.as_bytes())
    }

    /// The heat lost on entering, in turn, every cell of the path after its
    /// first. Returns `None` if one of these cells is not on the grid or the
    /// sum cannot be held in a `u64`.
    pub fn heat_loss_along(&self, path: &Vec<APos>) -> (r: Option<u64>)
        ensures
            r is Some <==> all_on_grid(*self, entered_cells(path@)) && cells_cost(
                *self,
                entered_cells(path@),
            ) <= u64::MAX,
            r matches Some(total) ==> total == cells_cost(*self, entered_cells(path@)),
    {
        let ghost cells = entered_cells(path@);
        let mut total: u64 = 0;
        let mut i: usize = 1;
        assert(cells.subrange(0, 0) =~= Seq::<Pos>::empty());
        while i < path.len()
            invariant
                1 <= i,
                cells == entered_cells(path@),
                i <= path@.len() || path@.len() == 0,
                path@.len() == 0 ==> total == 0,
                path@.len() > 0 ==> total == cells_cost(*self, cells.subrange(0, i - 1)),
                path@.len() > 0 ==> all_on_grid(*self, cells.subrange(0, i - 1)),
            decreases path@.len() - i,
        {
            let ghost head = cells.subrange(0, i - 1);
            let ghost next = cells.subrange(0, i as int);
            assert(next.drop_last() =~= head);
            assert(next.last() == (path@[i as int].0, path@[i as int].1));
            assert(cells[i - 1] == (path@[i as int].0, path@[i as int].1));
            let block = match self.get(path[i].0, path[i].1) {
                None => {
                    return None;
                },
                Some(block) => block,
            };
            total = match total.checked_add(block.heat_loss as u64) {
                None => {
                    proof {
                        lemma_cells_cost_grows(*self, cells, i as int);
                    }
                    return None;
                },
                Some(t) => t,
            };
            assert forall|k: int| 0 <= k < next.len() implies self.has(
                (#[trigger] next[k]).0 as int,
                next[k].1 as int,
            ) by {
                if k < i - 1 {
                    assert(head[k] == next[k]);
                }
            }
            i += 1;
        }
        proof {
            if path@.len() > 0 {
                assert(cells.subrange(0, i - 1) =~= cells);
            } else {
                assert(cells =~= Seq::<Pos>::empty());
            }
        }
        Some(total)
    }

    /// The least heat lost on the way from the top left corner, heading East,
    /// to the bottom right corner.
    pub fn least_heat_loss(&self, policy: &Policy) -> (r: Result<Option<u64>, SearchError>)
        ensures
            r == spec_find_min_cost(*self, *policy, (0, 0), Direction::East, far_corner(*self)),
    {
        let (width, height) = self.dimensions();
        if width == 0 || height == 0 {
            return self.find_min_cost((0, 0), Direction::East, (0, 0), policy);
        }
        self.find_min_cost((0, 0), Direction::East, (width - 1, height - 1), policy)
    }
}

} // verus!
