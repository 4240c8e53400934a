//! Laws of the constrained walk that hold of the model alone, whatever
//! search computes it.

use vstd::prelude::*;
use crate::crucible::{
    cell_cost, is_min_cost, is_path, is_solution, is_step, lemma_min_cost_unique, min_cost,
    path_cost, reachable, start_state, APos, Data, Policy, Pos,
};
use crate::grid::Direction;
use crate::search_invariant::lemma_path_split;

verus! {

/// The cells that a path enters: the position of every state but the first.
pub open spec fn entered_cells(p: Seq<APos>) -> Seq<Pos> {
    if p.len() == 0 {
        Seq::empty()
    } else {
        Seq::new((p.len() - 1) as nat, |i: int| (p[i + 1].0, p[i + 1].1))
    }
}

/// The heat lost on entering each of the cells in turn.
pub open spec fn cells_cost(g: Data, cells: Seq<Pos>) -> nat
    decreases cells.len(),
{
    if cells.len() == 0 {
        0
    } else {
        cells_cost(g, cells.drop_last()) + cell_cost(g, cells.last().0 as int, cells.last().1 as int) as nat
    }
}

/// A path has one state more than it enters cells, and its cost is the sum of
/// what the grid charges for the cells it enters.
pub proof fn lemma_path_cost_is_cells_cost(g: Data, policy: Policy, p: Seq<APos>)
    requires
        is_path(g, policy, p),
    ensures
        p.len() == entered_cells(p).len() + 1,
        path_cost(p) == cells_cost(g, entered_cells(p)),
    decreases p.len(),
{
    if p.len() >= 2 {
        let q = p.drop_last();
        lemma_path_split(g, policy, p);
        lemma_path_cost_is_cells_cost(g, policy, q);
        assert(entered_cells(p).drop_last() =~= entered_cells(q));
        assert(entered_cells(p).last() == (p.last().0, p.last().1));
    }
}

/// The straight-run limits of the two named policies. Under a maximum of
/// three, a third step in a row is legal and a fourth is not. Under a minimum
/// of four, a traveller that has moved may neither turn nor stop before its
/// fourth step in a row, while one that has not moved yet may turn at once.
pub proof fn lemma_policy_limits(s: APos, d: Direction)
    ensures
        s.3 == 2 ==> (Policy { min_run: 0, max_run: 3 }).allows(s, s.2),
        s.3 == 3 ==> !(Policy { min_run: 0, max_run: 3 }).allows(s, s.2),
        d != s.2 && d != s.2.spec_opposite() ==> (Policy { min_run: 0, max_run: 3 }).allows(s, d),
        (Policy { min_run: 0, max_run: 3 }).can_stop(s.3),
        1 <= s.3 < 4 && d != s.2 ==> !(Policy { min_run: 4, max_run: 10 }).allows(s, d),
        s.3 < 4 ==> !(Policy { min_run: 4, max_run: 10 }).can_stop(s.3),
        s.3 == 0 && d != s.2.spec_opposite() ==> (Policy { min_run: 4, max_run: 10 }).allows(s, d),
        s.3 >= 10 ==> !(Policy { min_run: 4, max_run: 10 }).allows(s, s.2),
        !(Policy { min_run: 0, max_run: 3 }).allows(s, s.2.spec_opposite()),
        !(Policy { min_run: 4, max_run: 10 }).allows(s, s.2.spec_opposite()),
{
}

/// Where some walk may end on the goal, some such walk is cheapest.
pub proof fn lemma_min_cost_exists(g: Data, policy: Policy, start: APos, goal: Pos, p: Seq<APos>)
    requires
        is_solution(g, policy, start, goal, p),
    ensures
        min_cost(g, policy, start, goal) matches Some(c) && c <= path_cost(p),
    decreases path_cost(p),
{
    if forall|q: Seq<APos>| is_solution(g, policy, start, goal, q) ==> path_cost(q) >= path_cost(p) {
        assert(is_min_cost(g, policy, start, goal, path_cost(p)));
        lemma_min_cost_unique(g, policy, start, goal, path_cost(p));
    } else {
        let q = choose|q: Seq<APos>|
            is_solution(g, policy, start, goal, q) && path_cost(q) < path_cost(p);
        lemma_min_cost_exists(g, policy, start, goal, q);
    }
}

/// The minimal cost, where there is one, is the cost of some walk and a lower
/// bound on the cost of every walk; where there is none, no walk may end on
/// the goal.
pub proof fn lemma_min_cost_spec(g: Data, policy: Policy, start: APos, goal: Pos)
    ensures
        min_cost(g, policy, start, goal) matches Some(c) ==> is_min_cost(g, policy, start, goal, c),
        min_cost(g, policy, start, goal) is None <==> !reachable(g, policy, start, goal),
{
    if reachable(g, policy, start, goal) {
        let p = choose|p: Seq<APos>| is_solution(g, policy, start, goal, p);
        lemma_min_cost_exists(g, policy, start, goal, p);
    }
}

/// Two grids of the same shape: both rectangular, with the same dimensions.
pub open spec fn same_shape(g: Data, h: Data) -> bool {
    g.wf() && h.wf() && g.dims() == h.dims()
}

/// The state `s` with the heat loss that entering its cell costs in `h`. A
/// state that has not moved has paid nothing in any grid.
pub open spec fn recost_state(h: Data, s: APos) -> APos {
    APos(
        s.0,
        s.1,
        s.2,
        s.3,
        if s.3 == 0 {
            s.4
        } else {
            cell_cost(h, s.0 as int, s.1 as int)
        },
    )
}

/// The path `p` with every state charged as in `h`.
pub open spec fn recost(h: Data, p: Seq<APos>) -> Seq<APos> {
    Seq::new(p.len(), |i: int| recost_state(h, p[i]))
}

/// A step in one grid is a step in any grid of the same shape, up to what
/// entering the cell costs.
pub proof fn lemma_recost_step(g: Data, h: Data, policy: Policy, a: APos, b: APos)
    requires
        same_shape(g, h),
        is_step(g, policy, a, b),
    ensures
        is_step(h, policy, recost_state(h, a), recost_state(h, b)),
        b.3 >= 1,
        g.has(b.0 as int, b.1 as int),
        b.4 == cell_cost(g, b.0 as int, b.1 as int),
{
    assert(g.has(b.0 as int, b.1 as int));
    assert(h.rows()[b.1 as int].len() == h.dims().0);
    assert(g.rows()[b.1 as int].len() == g.dims().0);
}

/// A path in one grid, charged as in another grid of the same shape, is a
/// path there.
pub proof fn lemma_recost_path(g: Data, h: Data, policy: Policy, p: Seq<APos>)
    requires
        same_shape(g, h),
        is_path(g, policy, p),
        p[0].3 == 0,
    ensures
        is_path(h, policy, recost(h, p)),
        recost(h, p)[0] == p[0],
        recost(h, p).len() == p.len(),
{
    let q = recost(h, p);
    assert forall|i: int| 0 <= i < q.len() - 1 implies is_step(h, policy, #[trigger] q[i], q[i + 1]) by {
        assert(is_step(g, policy, p[i], p[i + 1]));
        lemma_recost_step(g, h, policy, p[i], p[i + 1]);
    }
}

/// No cell of `h` is cheaper than in `g`.
pub open spec fn no_cheaper(g: Data, h: Data) -> bool {
    forall|x: int, y: int| g.has(x, y) ==> cell_cost(g, x, y) <= #[trigger] cell_cost(h, x, y)
}

/// The grids charge the same for every cell but `(x, y)`.
pub open spec fn same_but_at(g: Data, h: Data, x: usize, y: usize) -> bool {
    forall|a: int, b: int|
        g.has(a, b) && !(a == x && b == y) ==> cell_cost(g, a, b) == #[trigger] cell_cost(h, a, b)
}

/// The path never enters the cell `(x, y)`.
pub open spec fn avoids(p: Seq<APos>, x: usize, y: usize) -> bool {
    forall|i: int| 1 <= i < p.len() ==> !((#[trigger] p[i]).0 == x && p[i].1 == y)
}

/// Where no cell got cheaper, no path did.
pub proof fn lemma_recost_dearer(g: Data, h: Data, policy: Policy, p: Seq<APos>)
    requires
        same_shape(g, h),
        no_cheaper(g, h),
        is_path(g, policy, p),
        p[0].3 == 0,
    ensures
        path_cost(recost(h, p)) >= path_cost(p),
    decreases p.len(),
{
    if p.len() >= 2 {
        let q = p.drop_last();
        lemma_path_split(g, policy, p);
        lemma_recost_dearer(g, h, policy, q);
        lemma_recost_step(g, h, policy, q.last(), p.last());
        assert(recost(h, p).drop_last() =~= recost(h, q));
        assert(cell_cost(g, p.last().0 as int, p.last().1 as int) <= cell_cost(
            h,
            p.last().0 as int,
            p.last().1 as int,
        ));
    }
}

/// A path that avoids the only cell that changed costs what it did.
pub proof fn lemma_recost_same(g: Data, h: Data, policy: Policy, p: Seq<APos>, x: usize, y: usize)
    requires
        same_shape(g, h),
        same_but_at(g, h, x, y),
        is_path(g, policy, p),
        p[0].3 == 0,
        avoids(p, x, y),
    ensures
        path_cost(recost(h, p)) == path_cost(p),
    decreases p.len(),
{
    if p.len() >= 2 {
        let q = p.drop_last();
        lemma_path_split(g, policy, p);
        assert forall|i: int| 1 <= i < q.len() implies !((#[trigger] q[i]).0 == x && q[i].1 == y) by {
            assert(q[i] == p[i]);
        }
        lemma_recost_same(g, h, policy, q, x, y);
        lemma_recost_step(g, h, policy, q.last(), p.last());
        assert(recost(h, p).drop_last() =~= recost(h, q));
        assert(p.last() == p[p.len() - 1]);
        assert(cell_cost(g, p.last().0 as int, p.last().1 as int) == cell_cost(
            h,
            p.last().0 as int,
            p.last().1 as int,
        ));
    }
}

/// Raising the cost of cells never lowers the minimal cost, and never changes
/// whether the goal can be reached.
pub proof fn lemma_cost_monotone(g: Data, h: Data, policy: Policy, start: Pos, dir: Direction, goal: Pos)
    requires
        same_shape(g, h),
        no_cheaper(g, h),
    ensures
        min_cost(g, policy, start_state(start, dir), goal) is None <==> min_cost(
            h,
            policy,
            start_state(start, dir),
            goal,
        ) is None,
        min_cost(h, policy, start_state(start, dir), goal) matches Some(dearer) ==> min_cost(
            g,
            policy,
            start_state(start, dir),
            goal,
        ) matches Some(cheaper) && cheaper <= dearer,
{
    let s = start_state(start, dir);
    lemma_min_cost_spec(g, policy, s, goal);
    lemma_min_cost_spec(h, policy, s, goal);
    if reachable(g, policy, s, goal) {
        let p = choose|p: Seq<APos>| is_solution(g, policy, s, goal, p);
        lemma_recost_path(g, h, policy, p);
        assert(recost(h, p).last() == recost_state(h, p.last()));
        assert(is_solution(h, policy, s, goal, recost(h, p)));
    }
    if min_cost(h, policy, s, goal) is Some {
        let dearer = min_cost(h, policy, s, goal).unwrap();
        let p = choose|p: Seq<APos>| is_solution(h, policy, s, goal, p) && path_cost(p) == dearer;
        lemma_recost_path(h, g, policy, p);
        let q = recost(g, p);
        assert(q.last() == recost_state(g, p.last()));
        assert(is_solution(g, policy, s, goal, q));
        lemma_recost_path(g, h, policy, q);
        lemma_recost_dearer(g, h, policy, q);
        assert(recost(h, q) =~= p) by {
            assert forall|i: int| 0 <= i < p.len() implies recost(h, q)[i] == p[i] by {
                if i > 0 {
                    assert(is_step(h, policy, p[i - 1], p[i]));
                    lemma_recost_step(h, g, policy, p[i - 1], p[i]);
                }
            }
        }
        lemma_min_cost_exists(g, policy, s, goal, q);
    }
}

/// Raising the cost of one cell does not raise the minimal cost if a cheapest
/// walk never enters that cell.
pub proof fn lemma_cost_unchanged_off_route(
    g: Data,
    h: Data,
    policy: Policy,
    start: Pos,
    dir: Direction,
    goal: Pos,
    x: usize,
    y: usize,
    p: Seq<APos>,
)
    requires
        same_shape(g, h),
        no_cheaper(g, h),
        same_but_at(g, h, x, y),
        is_solution(g, policy, start_state(start, dir), goal, p),
        min_cost(g, policy, start_state(start, dir), goal) == Some(path_cost(p)),
        avoids(p, x, y),
    ensures
        min_cost(h, policy, start_state(start, dir), goal) == Some(path_cost(p)),
{
    let s = start_state(start, dir);
    lemma_recost_path(g, h, policy, p);
    lemma_recost_same(g, h, policy, p, x, y);
    let q = recost(h, p);
    assert(q.last() == recost_state(h, p.last()));
    assert(is_solution(h, policy, s, goal, q));
    lemma_min_cost_exists(h, policy, s, goal, q);
    lemma_cost_monotone(g, h, policy, start, dir, goal);
}

/// The heat lost on walking along row `y` from column `from` to column `to`:
/// what entering each cell after the first costs.
pub open spec fn row_walk_cost(g: Data, y: int, from: int, to: int) -> nat
    decreases
            if to >= from {
                to - from
            } else {
                from - to
            },
{
    if to == from {
        0
    } else if to > from {
        row_walk_cost(g, y, from, to - 1) + cell_cost(g, to, y) as nat
    } else {
        row_walk_cost(g, y, from, to + 1) + cell_cost(g, to, y) as nat
    }
}

/// The heat lost on walking along column `x` from row `from` to row `to`:
/// what entering each cell after the first costs.
pub open spec fn column_walk_cost(g: Data, x: int, from: int, to: int) -> nat
    decreases
            if to >= from {
                to - from
            } else {
                from - to
            },
{
    if to == from {
        0
    } else if to > from {
        column_walk_cost(g, x, from, to - 1) + cell_cost(g, x, to) as nat
    } else {
        column_walk_cost(g, x, from, to + 1) + cell_cost(g, x, to) as nat
    }
}

/// A step in a grid of one row goes East or West.
proof fn lemma_row_step(g: Data, policy: Policy, u: APos, t: APos)
    requires
        g.wf(),
        g.dims().1 == 1,
        u.1 == 0,
        is_step(g, policy, u, t),
    ensures
        t.1 == 0,
        t.2 != u.2.spec_opposite(),
        t.4 == cell_cost(g, t.0 as int, 0),
        (t.2 == Direction::East && t.0 == u.0 + 1) || (t.2 == Direction::West && t.0 + 1 == u.0),
{
}

/// A step in a grid of one column goes South or North.
proof fn lemma_column_step(g: Data, policy: Policy, u: APos, t: APos)
    requires
        g.wf(),
        g.dims().0 == 1,
        u.0 == 0,
        is_step(g, policy, u, t),
    ensures
        t.0 == 0,
        t.2 != u.2.spec_opposite(),
        t.4 == cell_cost(g, 0, t.1 as int),
        (t.2 == Direction::South && t.1 == u.1 + 1) || (t.2 == Direction::North && t.1 + 1 == u.1),
{
}

/// In a grid of one row every walk runs straight along the row, away from
/// its start.
proof fn lemma_row_walk(g: Data, policy: Policy, start: Pos, dir: Direction, p: Seq<APos>)
    requires
        g.wf(),
        g.dims().1 == 1,
        start.0 < g.dims().0,
        start.1 == 0,
        is_path(g, policy, p),
        p[0] == start_state(start, dir),
    ensures
        p.last().1 == 0,
        path_cost(p) == row_walk_cost(g, 0, start.0 as int, p.last().0 as int),
        p.len() >= 2 ==> {
            ||| p.last().2 == Direction::East && p.last().0 == start.0 + (p.len() - 1)
            ||| p.last().2 == Direction::West && p.last().0 == start.0 - (p.len() - 1)
        },
    decreases p.len(),
{
    if p.len() >= 2 {
        let q = p.drop_last();
        lemma_path_split(g, policy, p);
        lemma_row_walk(g, policy, start, dir, q);
        lemma_row_step(g, policy, q.last(), p.last());
    }
}

/// In a grid of one column every walk runs straight along the column, away
/// from its start.
proof fn lemma_column_walk(g: Data, policy: Policy, start: Pos, dir: Direction, p: Seq<APos>)
    requires
        g.wf(),
        g.dims().0 == 1,
        start.1 < g.dims().1,
        start.0 == 0,
        is_path(g, policy, p),
        p[0] == start_state(start, dir),
    ensures
        p.last().0 == 0,
        path_cost(p) == column_walk_cost(g, 0, start.1 as int, p.last().1 as int),
        p.len() >= 2 ==> {
            ||| p.last().2 == Direction::South && p.last().1 == start.1 + (p.len() - 1)
            ||| p.last().2 == Direction::North && p.last().1 == start.1 - (p.len() - 1)
        },
    decreases p.len(),
{
    if p.len() >= 2 {
        let q = p.drop_last();
        lemma_path_split(g, policy, p);
        lemma_column_walk(g, policy, start, dir, q);
        lemma_column_step(g, policy, q.last(), p.last());
    }
}

/// In a grid of a single row, where no quarter turn leads anywhere, the
/// minimal cost under any policy is the plain sum of the cells entered on the
/// way along the row, if the policy lets the walk get there at all.
pub proof fn lemma_single_row_cost(g: Data, policy: Policy, start: Pos, dir: Direction, goal: Pos)
    requires
        g.wf(),
        g.dims().1 == 1,
        start.0 < g.dims().0,
        start.1 == 0,
    ensures
        min_cost(g, policy, start_state(start, dir), goal) matches Some(c) ==> goal.1 == 0 && c
            == row_walk_cost(g, 0, start.0 as int, goal.0 as int),
{
    let s = start_state(start, dir);
    lemma_min_cost_spec(g, policy, s, goal);
    if min_cost(g, policy, s, goal) is Some {
        let c = min_cost(g, policy, s, goal).unwrap();
        let p = choose|p: Seq<APos>| is_solution(g, policy, s, goal, p) && path_cost(p) == c;
        lemma_row_walk(g, policy, start, dir, p);
    }
}

/// In a grid of a single column, where no quarter turn leads anywhere, the
/// minimal cost under any policy is the plain sum of the cells entered on the
/// way along the column, if the policy lets the walk get there at all.
pub proof fn lemma_single_column_cost(g: Data, policy: Policy, start: Pos, dir: Direction, goal: Pos)
    requires
        g.wf(),
        g.dims().0 == 1,
        start.1 < g.dims().1,
        start.0 == 0,
    ensures
        min_cost(g, policy, start_state(start, dir), goal) matches Some(c) ==> goal.0 == 0 && c
            == column_walk_cost(g, 0, start.1 as int, goal.1 as int),
{
    let s = start_state(start, dir);
    lemma_min_cost_spec(g, policy, s, goal);
    if min_cost(g, policy, s, goal) is Some {
        let c = min_cost(g, policy, s, goal).unwrap();
        let p = choose|p: Seq<APos>| is_solution(g, policy, s, goal, p) && path_cost(p) == c;
        lemma_column_walk(g, policy, start, dir, p);
    }
}

/// On a grid of a single cell no walk that must run at least one step may
/// end: the only walk is the one that has not moved.
pub proof fn lemma_single_cell_unreachable(g: Data, policy: Policy, dir: Direction)
    requires
        g.wf(),
        g.dims() == (1usize, 1usize),
        policy.min_run >= 1,
    ensures
        min_cost(g, policy, start_state((0, 0), dir), (0, 0)) is None,
{
    let s = start_state((0, 0), dir);
    assert forall|p: Seq<APos>| !is_solution(g, policy, s, (0, 0), p) by {
        if is_solution(g, policy, s, (0, 0), p) {
            if p.len() >= 2 {
                assert(is_step(g, policy, p[0], p[1]));
            }
        }
    }
}

} // verus!
