//! The model of a constrained walk across a grid of heat-loss blocks.
//!
//! A traveller stands on a cell, faces a direction and remembers how many
//! steps it has just taken in a straight line. A [`Policy`] limits how long a
//! straight run may get and how short it may be before a turn or a stop. The
//! search graph is therefore not the grid itself but the product of position,
//! direction and run length: an [`APos`].
//!
//! This module defines the states, the legal steps between them, routes and
//! their cost, and what it means for a cost to be minimal. The search that
//! computes it lives in [`crate::crucible_search`].

use vstd::prelude::*;
use crate::counting::opt_seq;
use crate::grid::{Direction, Grid};

verus! {

/// One cell of the grid: the heat lost on entering it.
#[derive(Debug, Clone, Copy, PartialEq, Eq, Structural)]
pub struct Block {
    pub heat_loss: u8,
}

/// A grid position `(x, y)`.
pub type Pos = (usize, usize);

/// A search state: `(x, y, heading, run length, heat lost on entering)`.
///
/// The run length counts the consecutive steps already taken in the heading.
/// It is zero only for a state that has not moved yet, and such a state has
/// paid nothing.
#[derive(Debug, PartialEq, Eq, Hash, Clone, Copy, Structural)]
pub struct APos(pub usize, pub usize, pub Direction, pub u8, pub u8);

/// The grid of blocks that the search walks over.
pub type Data = Grid<Block>;

/// How long a straight run may get, and how long it must be before the
/// traveller may turn or stop.
#[derive(Debug, Clone, Copy, PartialEq, Eq, Structural)]
pub struct Policy {
    pub min_run: u8,
    pub max_run: u8,
}

impl Policy {
    /// Continuing straight is legal while the run is shorter than the maximum.
    pub open spec fn can_continue(self, run: u8) -> bool {
        run < self.max_run
    }

    /// A quarter turn is legal once the run has reached the minimum. A state
    /// that has not moved yet is exempt from the minimum. The step after a
    /// turn is a run of one, so a turn needs a maximum of at least one.
    pub open spec fn can_turn(self, run: u8) -> bool {
        (run == 0 || run >= self.min_run) && self.max_run >= 1
    }

    /// Stopping is legal once the run has reached the minimum.
    pub open spec fn can_stop(self, run: u8) -> bool {
        run >= self.min_run
    }

    /// Whether a traveller in state `s` may take its next step in direction
    /// `d`. Reversing is never legal.
    pub open spec fn allows(self, s: APos, d: Direction) -> bool {
        if d == s.2 {
            self.can_continue(s.3)
        } else if d == s.2.spec_opposite() {
            false
        } else {
            self.can_turn(s.3)
        }
    }

    /// At most three steps in a row, no minimum.
    pub fn policy_a() -> (p: Policy)
        ensures
            p == (Policy { min_run: 0, max_run: 3 }),
    {
        Policy { min_run: 0, max_run: 3 }
    }

    /// At least four and at most ten steps in a row.
    pub fn policy_b() -> (p: Policy)
        ensures
            p == (Policy { min_run: 4, max_run: 10 }),
    {
        Policy { min_run: 4, max_run: 10 }
    }

    /// Whether a traveller in state `s` may take its next step in direction
    /// `d`.
    pub fn may_step(&self, s: &APos, d: Direction) -> (r: bool)
        ensures
            r == self.allows(*s, d),
    {
        if d == s.2 {
            s.3 < self.max_run
        } else if d == s.2.opposite() {
            false
        } else {
            (s.3 == 0 || s.3 >= self.min_run) && self.max_run >= 1
        }
    }

    /// Whether a traveller may end its walk in state `s`.
    pub fn may_stop(&self, s: &APos) -> (r: bool)
        ensures
            r == self.can_stop(s.3),
    {
        s.3 >= self.min_run
    }
}

/// The two directions at a right angle to `d`, in the order in which the
/// search tries them.
pub open spec fn spec_perpendicular(d: Direction) -> (Direction, Direction) {
    match d {
        Direction::East | Direction::West => (Direction::North, Direction::South),
        Direction::North | Direction::South => (Direction::West, Direction::East),
    }
}

pub fn perpendicular(d: Direction) -> (r: (Direction, Direction))
    ensures
        r == spec_perpendicular(d),
{
    match d {
        Direction::East | Direction::West => (Direction::North, Direction::South),
        Direction::North | Direction::South => (Direction::West, Direction::East),
    }
}

/// The number of steps between two positions when only axis-aligned steps
/// exist.
pub open spec fn spec_distance(a: Pos, b: Pos) -> int {
    (if a.0 >= b.0 {
        a.0 - b.0
    } else {
        b.0 - a.0
    }) + (if a.1 >= b.1 {
        a.1 - b.1
    } else {
        b.1 - a.1
    })
}

/// The heat lost on entering the cell at `(x, y)`.
pub open spec fn cell_cost(g: Data, x: int, y: int) -> u8 {
    g.rows()[y][x].heat_loss
}

/// The state that starts a walk at `pos` heading `dir`: nothing walked,
/// nothing paid.
pub open spec fn start_state(pos: Pos, dir: Direction) -> APos {
    APos(pos.0, pos.1, dir, 0, 0)
}

/// A state that lies on the grid, whose run the policy can produce, and whose
/// last field is what entering its cell cost.
pub open spec fn valid_state(g: Data, policy: Policy, s: APos) -> bool {
    &&& s.0 < g.dims().0
    &&& s.1 < g.dims().1
    &&& s.3 <= policy.max_run
    &&& s.4 == if s.3 == 0 {
        0
    } else {
        cell_cost(g, s.0 as int, s.1 as int)
    }
}

/// The state reached from `s` by one step in direction `d`, if the policy
/// allows the step and the grid has a cell there. Walking off the grid is not
/// a violation: there is simply no such neighbour.
pub open spec fn spec_step(g: Data, policy: Policy, s: APos, d: Direction) -> Option<APos> {
    if !policy.allows(s, d) || g.dims().0 == 0 || g.dims().1 == 0 {
        None
    } else {
        match d.spec_walk_pos(
            (s.0, s.1),
            ((g.dims().0 - 1) as usize, (g.dims().1 - 1) as usize),
        ) {
            None => None,
            Some(p) => if g.has(p.0 as int, p.1 as int) {
                Some(
                    APos(
                        p.0,
                        p.1,
                        d,
                        if d == s.2 {
                            (s.3 + 1) as u8
                        } else {
                            1
                        },
                        cell_cost(g, p.0 as int, p.1 as int),
                    ),
                )
            } else {
                None
            },
        }
    }
}

/// `b` is reached from `a` by one legal step.
pub open spec fn is_step(g: Data, policy: Policy, a: APos, b: APos) -> bool {
    spec_step(g, policy, a, b.2) == Some(b)
}

/// The states one legal step away from `s`: straight ahead first, then the
/// two quarter turns.
pub open spec fn spec_neighbours(g: Data, policy: Policy, s: APos) -> Seq<APos> {
    let turns = spec_perpendicular(s.2);
    opt_seq(spec_step(g, policy, s, s.2)) + opt_seq(spec_step(g, policy, s, turns.0)) + opt_seq(
        spec_step(g, policy, s, turns.1),
    )
}

/// A non-empty sequence of states, each one legal step from the one before.
pub open spec fn is_path(g: Data, policy: Policy, p: Seq<APos>) -> bool {
    &&& p.len() >= 1
    &&& forall|i: int| 0 <= i < p.len() - 1 ==> is_step(g, policy, #[trigger] p[i], p[i + 1])
}

/// The heat lost along a path: what entering each state but the first cost.
pub open spec fn path_cost(p: Seq<APos>) -> nat
    decreases p.len(),
{
    if p.len() <= 1 {
        0
    } else {
        path_cost(p.drop_last()) + p.last().4 as nat
    }
}

/// `p` is a path from `start` to `end`.
pub open spec fn is_route(g: Data, policy: Policy, start: APos, end: APos, p: Seq<APos>) -> bool {
    &&& is_path(g, policy, p)
    &&& p[0] == start
    &&& p.last() == end
}

/// A state in which the walk may end: it stands on the goal and the policy
/// lets it stop.
pub open spec fn accepts(policy: Policy, goal: Pos, s: APos) -> bool {
    s.0 == goal.0 && s.1 == goal.1 && policy.can_stop(s.3)
}

/// `p` is a path from `start` to a state in which the walk may end.
pub open spec fn is_solution(g: Data, policy: Policy, start: APos, goal: Pos, p: Seq<APos>) -> bool {
    &&& is_path(g, policy, p)
    &&& p[0] == start
    &&& accepts(policy, goal, p.last())
}

/// Some walk from `start` may end on the goal.
pub open spec fn reachable(g: Data, policy: Policy, start: APos, goal: Pos) -> bool {
    exists|p: Seq<APos>| is_solution(g, policy, start, goal, p)
}

/// `c` is the cost of some walk from `start` that may end on the goal, and no
/// such walk is cheaper.
pub open spec fn is_min_cost(g: Data, policy: Policy, start: APos, goal: Pos, c: nat) -> bool {
    &&& exists|p: Seq<APos>| is_solution(g, policy, start, goal, p) && path_cost(p) == c
    &&& forall|p: Seq<APos>| is_solution(g, policy, start, goal, p) ==> path_cost(p) >= c
}

/// The least heat lost on any walk from `start` that may end on the goal, or
/// `None` if there is no such walk.
pub open spec fn min_cost(g: Data, policy: Policy, start: APos, goal: Pos) -> Option<nat> {
    if exists|c: nat| is_min_cost(g, policy, start, goal, c) {
        Some(choose|c: nat| is_min_cost(g, policy, start, goal, c))
    } else {
        None
    }
}

/// A cost that is minimal is the minimal cost.
pub proof fn lemma_min_cost_unique(g: Data, policy: Policy, start: APos, goal: Pos, c: nat)
    requires
        is_min_cost(g, policy, start, goal, c),
    ensures
        min_cost(g, policy, start, goal) == Some(c),
{
    let chosen = choose|c: nat| is_min_cost(g, policy, start, goal, c);
    let p = choose|p: Seq<APos>| is_solution(g, policy, start, goal, p) && path_cost(p) == c;
    let q = choose|q: Seq<APos>| is_solution(g, policy, start, goal, q) && path_cost(q) == chosen;
    assert(path_cost(p) >= chosen);
    assert(path_cost(q) >= c);
}

/// Where no walk may end on the goal there is no minimal cost.
pub proof fn lemma_min_cost_none(g: Data, policy: Policy, start: APos, goal: Pos)
    requires
        !reachable(g, policy, start, goal),
    ensures
        min_cost(g, policy, start, goal) is None,
{
}

impl Data {
    /// The state reached from `s` by one step in direction `d`, if there is
    /// one.
    pub fn step(&self, policy: &Policy, s: &APos, d: Direction) -> (r: Option<APos>)
        ensures
            r == spec_step(*self, *policy, *s, d),
    {
        let (width, height) = self.dimensions();
        if !policy.may_step(s, d) || width == 0 || height == 0 {
            return None;
        }
        match d.walk_pos((s.0, s.1), (width - 1, height - 1)) {
            None => None,
            Some((x, y)) => match self.get(x, y) {
                None => None,
                Some(block) => {
                    let run: u8 = if d == s.2 {
                        s.3 + 1
                    } else {
                        1
                    };
                    Some(APos(x, y, d, run, block.heat_loss))
                },
            },
        }
    }

    /// The states one legal step away from `s` under `policy`: straight ahead
    /// first, then the two quarter turns.
    pub fn neighbours(&self, policy: &Policy, s: &APos) -> (r: Vec<APos>)
        ensures
            r@ == spec_neighbours(*self, *policy, *s),
    {
        let mut out: Vec<APos> = Vec::with_capacity(3);
        let (left, right) = perpendicular(s.2);
        if let Some(n) = self.step(policy, s, s.2) {
            out.push(n);
        }
        if let Some(n) = self.step(policy, s, left) {
            out.push(n);
        }
        if let Some(n) = self.step(policy, s, right) {
            out.push(n);
        }
        assert(out@ =~= spec_neighbours(*self, *policy, *s));
        out
    }

    /// The neighbours of `pos` when at most three steps may be taken in a
    /// row.
    pub fn get_neighbours_a(&self, pos: &APos) -> (r: Vec<APos>)
        ensures
            r@ == spec_neighbours(*self, Policy { min_run: 0, max_run: 3 }, *pos),
    {
        self.neighbours(&Policy::policy_a(), pos)
    }

    /// The neighbours of `pos` when at least four and at most ten steps must
    /// be taken in a row.
    pub fn get_neighbours_b(&self, pos: &APos) -> (r: Vec<APos>)
        ensures
            r@ == spec_neighbours(*self, Policy { min_run: 4, max_run: 10 }, *pos),
    {
        self.neighbours(&Policy::policy_b(), pos)
    }

    /// The Manhattan distance between two positions.
    pub fn distance(a: Pos, b: Pos) -> (r: usize)
        requires
            spec_distance(a, b) <= usize::MAX,
        ensures
            r == spec_distance(a, b),
    {
        let dx = if a.0 >= b.0 {
            a.0 - b.0
        } else {
            b.0 - a.0
        };
        let dy = if a.1 >= b.1 {
            a.1 - b.1
        } else {
            b.1 - a.1
        };
        dx + dy
    }
}

} // verus!
