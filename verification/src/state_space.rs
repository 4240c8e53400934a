//! The numbering of search states: every state of a grid and policy gets a
//! slot of its own in a flat table.

use vstd::prelude::*;
use crate::crucible::{APos, Data, Policy};
use crate::grid::Direction;

verus! {

/// The most states a search is willing to number. It keeps every table index
/// within `usize` and every accumulated cost within `u64`.
pub const MAX_STATES: usize = 0xFFFF_FFFF;

/// A number for each direction.
pub open spec fn dir_index(d: Direction) -> int {
    match d {
        Direction::North => 0,
        Direction::East => 1,
        Direction::South => 2,
        Direction::West => 3,
    }
}

/// The number of states of a grid under a policy: one per cell, direction and
/// run length from zero up to the policy's maximum.
pub open spec fn state_count(g: Data, policy: Policy) -> int {
    g.dims().0 * g.dims().1 * 4 * (policy.max_run + 1)
}

proof fn lemma_slot_bound(w: int, h: int, r: int, x: int, y: int, d: int, k: int)
    by (nonlinear_arith)
    requires
        0 <= x < w,
        0 <= y < h,
        0 <= d < 4,
        0 <= k < r,
    ensures
        0 <= y * w <= y * w + x < w * h,
        0 <= (y * w + x) * 4 + d < w * h * 4,
        0 <= ((y * w + x) * 4 + d) * r <= ((y * w + x) * 4 + d) * r + k < w * h * 4 * r,
        w * h <= w * h * 4 <= w * h * 4 * r,
{
}

proof fn lemma_slot_unique(m: int, a1: int, b1: int, a2: int, b2: int)
    by (nonlinear_arith)
    requires
        0 <= b1 < m,
        0 <= b2 < m,
        0 <= a1,
        0 <= a2,
        a1 * m + b1 == a2 * m + b2,
    ensures
        a1 == a2,
        b1 == b2,
{
}

/// The dimensions of a state table: grid width and height, and the number of
/// run lengths told apart.
pub struct Layout {
    pub width: usize,
    pub height: usize,
    pub slots: usize,
    pub count: usize,
}

impl Layout {
    /// The table has one slot per cell, direction and run length, and no more
    /// than [`MAX_STATES`] of them.
    pub open spec fn wf(&self) -> bool {
        &&& self.count == self.width * self.height * 4 * self.slots
        &&& self.count <= MAX_STATES
    }

    /// The layout numbers the states of `g` under `policy`.
    pub open spec fn describes(&self, g: Data, policy: Policy) -> bool {
        &&& self.wf()
        &&& self.width == g.dims().0
        &&& self.height == g.dims().1
        &&& self.slots == policy.max_run + 1
    }

    /// The state has a slot in the table.
    pub open spec fn covers(&self, s: APos) -> bool {
        s.0 < self.width && s.1 < self.height && s.3 < self.slots
    }

    /// The slot of a state.
    pub open spec fn spec_index(&self, s: APos) -> int {
        ((s.1 * self.width + s.0) * 4 + dir_index(s.2)) * self.slots + s.3
    }

    /// Every covered state has a slot below the count.
    pub proof fn lemma_index_in_range(&self, s: APos)
        requires
            self.wf(),
            self.covers(s),
        ensures
            0 <= self.spec_index(s) < self.count,
    {
        lemma_slot_bound(
            self.width as int,
            self.height as int,
            self.slots as int,
            s.0 as int,
            s.1 as int,
            dir_index(s.2),
            s.3 as int,
        );
    }

    /// Two covered states that share a slot agree on position, direction and
    /// run length.
    pub proof fn lemma_index_injective(&self, a: APos, b: APos)
        requires
            self.covers(a),
            self.covers(b),
            self.spec_index(a) == self.spec_index(b),
        ensures
            a.0 == b.0,
            a.1 == b.1,
            a.2 == b.2,
            a.3 == b.3,
    {
        let w = self.width as int;
        let h = self.height as int;
        let r = self.slots as int;
        let ca = a.1 * w + a.0;
        let cb = b.1 * w + b.0;
        lemma_slot_bound(w, h, r, a.0 as int, a.1 as int, dir_index(a.2), a.3 as int);
        lemma_slot_bound(w, h, r, b.0 as int, b.1 as int, dir_index(b.2), b.3 as int);
        lemma_slot_unique(r, ca * 4 + dir_index(a.2), a.3 as int, cb * 4 + dir_index(b.2), b.3 as int);
        lemma_slot_unique(4, ca, dir_index(a.2), cb, dir_index(b.2));
        lemma_slot_unique(w, a.1 as int, a.0 as int, b.1 as int, b.0 as int);
    }

    /// Builds the numbering for a grid under a policy, or `None` if it would
    /// have more than [`MAX_STATES`] slots.
    pub fn new(g: &Data, policy: &Policy) -> (r: Option<Layout>)
        ensures
            r is Some <==> state_count(*g, *policy) <= MAX_STATES,
            r matches Some(l) ==> l.describes(*g, *policy),
    {
        let (width, height) = g.dimensions();
        let slots: usize = policy.max_run as usize + 1;
        let ghost n = state_count(*g, *policy);
        assert(n == width * height * 4 * slots);
        if width == 0 || height == 0 {
            assert(n == 0) by (nonlinear_arith)
                requires
                    n == width * height * 4 * slots,
                    width == 0 || height == 0,
            ;
            return Some(Layout { width, height, slots, count: 0 });
        }
        if width > MAX_STATES / height {
            assert(n > MAX_STATES) by (nonlinear_arith)
                requires
                    n == width * height * 4 * slots,
                    width > MAX_STATES / height,
                    height >= 1,
                    slots >= 1,
            ;
            return None;
        }
        assert(width * height <= MAX_STATES) by (nonlinear_arith)
            requires
                width <= MAX_STATES / height,
                height >= 1,
        ;
        let cells: usize = width * height;
        let per_cell: usize = 4 * slots;
        if cells > MAX_STATES / per_cell {
            assert(n > MAX_STATES) by (nonlinear_arith)
                requires
                    n == width * height * 4 * slots,
                    cells == width * height,
                    per_cell == 4 * slots,
                    cells > MAX_STATES / per_cell,
                    per_cell >= 1,
            ;
            return None;
        }
        assert(cells * per_cell <= MAX_STATES && cells * per_cell == n) by (nonlinear_arith)
            requires
                n == width * height * 4 * slots,
                cells == width * height,
                per_cell == 4 * slots,
                cells <= MAX_STATES / per_cell,
                per_cell >= 1,
        ;
        Some(Layout { width, height, slots, count: cells * per_cell })
    }

    /// The slot of a covered state.
    pub fn index(&self, s: &APos) -> (r: usize)
        requires
            self.wf(),
            self.covers(*s),
        ensures
            r == self.spec_index(*s),
            r < self.count,
    {
        let d: usize = match s.2 {
            Direction::North => 0,
            Direction::East => 1,
            Direction::South => 2,
            Direction::West => 3,
        };
        proof {
            lemma_slot_bound(
                self.width as int,
                self.height as int,
                self.slots as int,
                s.0 as int,
                s.1 as int,
                d as int,
                s.3 as int,
            );
        }
        ((s.1 * self.width + s.0) * 4 + d) * self.slots + s.3 as usize
    }
}

} // verus!
