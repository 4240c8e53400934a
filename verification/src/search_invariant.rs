//! What the search knows at every moment, and why that is enough.
//!
//! The search keeps three tables indexed by state slot (best known cost,
//! predecessor, closed flag) and a queue of open states. This module states
//! the invariant that ties them to the routes of the model and proves the two
//! facts the search rests on: a state taken from the front of the queue has
//! its final cost, and once the queue runs dry every route ends in a closed
//! state.

use vstd::prelude::*;
use vstd::multiset::Multiset;
use crate::crucible::{
    accepts, cell_cost, is_path, is_route, is_step, path_cost, spec_distance, spec_step,
    valid_state, APos, Data, Policy, Pos,
};
use crate::counting::count_true;
use crate::grid::Direction;
use crate::state_space::{Layout, MAX_STATES};

verus! {

/// No cell of the grid costs less than `m` to enter.
pub open spec fn is_floor(g: Data, m: u8) -> bool {
    forall|x: int, y: int| g.has(x, y) ==> #[trigger] cell_cost(g, x, y) >= m
}

/// One search problem: the grid, the policy, where the walk starts and where
/// it is to end, a lower bound on the cost of any cell, and the numbering of
/// the states.
pub struct Task {
    pub g: Data,
    pub policy: Policy,
    pub start: APos,
    pub goal: Pos,
    pub floor: u8,
    pub layout: Layout,
}

/// The search tables as mathematical values.
pub struct Tables {
    pub dist: Seq<Option<u64>>,
    pub prev: Seq<Option<APos>>,
    pub closed: Seq<bool>,
    pub paths: Seq<Seq<APos>>,
    pub queue: Multiset<(u64, APos)>,
    pub closed_count: nat,
}

pub open spec fn slot(t: Task, s: APos) -> int {
    t.layout.spec_index(s)
}

pub open spec fn ok(t: Task, s: APos) -> bool {
    valid_state(t.g, t.policy, s)
}

/// A lower bound on what it still costs to walk from `s` to the goal cell:
/// the cheapest cell times the number of steps.
pub open spec fn est(t: Task, s: APos) -> int {
    t.floor * spec_distance((s.0, s.1), t.goal)
}

pub open spec fn task_ok(t: Task) -> bool {
    &&& t.g.wf()
    &&& t.layout.describes(t.g, t.policy)
    &&& ok(t, t.start)
    &&& t.start.3 == 0
    &&& t.goal.0 < t.g.dims().0
    &&& t.goal.1 < t.g.dims().1
    &&& is_floor(t.g, t.floor)
}

pub open spec fn shape_ok(t: Task, st: Tables) -> bool {
    &&& st.dist.len() == t.layout.count
    &&& st.prev.len() == t.layout.count
    &&& st.closed.len() == t.layout.count
    &&& st.paths.len() == t.layout.count
    &&& st.closed_count == count_true(st.closed)
    &&& st.closed_count <= t.layout.count
}

/// What the tables say of one state: its recorded cost is the cost of a
/// recorded route, the route ends with a step from its predecessor, and while
/// the state is open it waits in the queue under cost plus estimate.
pub open spec fn state_ok(t: Task, st: Tables, s: APos) -> bool {
    let i = slot(t, s);
    &&& st.closed[i] ==> st.dist[i] is Some
    &&& st.dist[i] matches Some(d) ==> {
        &&& is_route(t.g, t.policy, t.start, s, st.paths[i])
        &&& path_cost(st.paths[i]) == d
        &&& d <= 255 * st.closed_count
        &&& st.prev[i] is None ==> st.paths[i] == seq![s]
        &&& st.prev[i] matches Some(u) ==> {
            &&& ok(t, u)
            &&& st.closed[slot(t, u)]
            &&& st.dist[slot(t, u)] is Some
            &&& st.paths[i] == st.paths[slot(t, u)].push(s)
        }
        &&& !st.closed[i] ==> st.queue.count(((d + est(t, s)) as u64, s)) > 0
    }
}

/// No route from the start to `s` costs less than `d`.
pub open spec fn no_cheaper_route(t: Task, s: APos, d: int) -> bool {
    forall|p: Seq<APos>| is_route(t.g, t.policy, t.start, s, p) ==> path_cost(p) >= d
}

pub open spec fn closed_optimal(t: Task, st: Tables, s: APos) -> bool {
    st.closed[slot(t, s)] ==> no_cheaper_route(t, s, st.dist[slot(t, s)].unwrap() as int)
}

/// A closed state has offered its cost to the neighbour in direction `d`.
pub open spec fn edge_relaxed(t: Task, st: Tables, u: APos, d: Direction) -> bool {
    st.closed[slot(t, u)] ==> match spec_step(t.g, t.policy, u, d) {
        None => true,
        Some(v) => st.dist[slot(t, v)] matches Some(dv) && dv <= st.dist[slot(t, u)].unwrap() + v.4,
    }
}

pub open spec fn entry_ok(t: Task, st: Tables, e: (u64, APos)) -> bool {
    st.queue.count(e) > 0 ==> {
        &&& ok(t, e.1)
        &&& st.dist[slot(t, e.1)] matches Some(d) && d + est(t, e.1) <= e.0
    }
}

pub open spec fn closed_rejects(t: Task, st: Tables, s: APos) -> bool {
    st.closed[slot(t, s)] ==> !accepts(t.policy, t.goal, s)
}

/// The state being expanded, if any, is closed and cheap enough that its
/// neighbours' costs stay within the bound.
pub open spec fn cur_ok(t: Task, st: Tables, cur: Option<APos>) -> bool {
    cur matches Some(u) ==> {
        &&& ok(t, u)
        &&& st.closed[slot(t, u)]
        &&& st.dist[slot(t, u)] matches Some(d) && d + 255 <= 255 * st.closed_count
    }
}

/// Every valid state is recorded consistently.
pub open spec fn states_ok(t: Task, st: Tables) -> bool {
    forall|s: APos| ok(t, s) ==> #[trigger] state_ok(t, st, s)
}

/// Every closed state has its final cost.
pub open spec fn optimal_ok(t: Task, st: Tables) -> bool {
    forall|s: APos| ok(t, s) ==> #[trigger] closed_optimal(t, st, s)
}

/// Every closed state has offered its cost in every direction, but for the
/// directions `pending` of the state `cur` that is being expanded.
pub open spec fn edges_ok(t: Task, st: Tables, cur: Option<APos>, pending: Set<Direction>) -> bool {
    forall|u: APos, d: Direction|
        ok(t, u) && !(cur == Some(u) && pending.contains(d)) ==> #[trigger] edge_relaxed(t, st, u, d)
}

/// Every queue entry names a state with a known cost no higher than the
/// entry says.
pub open spec fn entries_ok(t: Task, st: Tables) -> bool {
    forall|e: (u64, APos)| #[trigger] entry_ok(t, st, e)
}

/// The walk may not end in any closed state.
pub open spec fn rejects_ok(t: Task, st: Tables) -> bool {
    forall|s: APos| ok(t, s) ==> #[trigger] closed_rejects(t, st, s)
}

/// The start is known at cost zero and has no predecessor.
pub open spec fn start_ok(t: Task, st: Tables) -> bool {
    &&& st.dist[slot(t, t.start)] == Some(0u64)
    &&& st.prev[slot(t, t.start)] is None
}

/// The search invariant. While a state `cur` is being expanded, its steps in
/// the directions of `pending` have not been offered yet.
pub open spec fn inv(t: Task, st: Tables, cur: Option<APos>, pending: Set<Direction>) -> bool {
    &&& task_ok(t)
    &&& shape_ok(t, st)
    &&& start_ok(t, st)
    &&& states_ok(t, st)
    &&& optimal_ok(t, st)
    &&& edges_ok(t, st, cur, pending)
    &&& entries_ok(t, st)
    &&& rejects_ok(t, st)
    &&& cur_ok(t, st, cur)
}

/// A legal step from a valid state leads to a valid state that has moved.
pub proof fn lemma_step_valid(g: Data, policy: Policy, s: APos, d: Direction)
    requires
        g.wf(),
        valid_state(g, policy, s),
        spec_step(g, policy, s, d) is Some,
    ensures
        valid_state(g, policy, spec_step(g, policy, s, d).unwrap()),
        spec_step(g, policy, s, d).unwrap().3 >= 1,
        spec_step(g, policy, s, d).unwrap().2 == d,
{
}

/// Every state on a path that starts in a valid state is valid.
pub proof fn lemma_path_valid(g: Data, policy: Policy, p: Seq<APos>, i: int)
    requires
        g.wf(),
        is_path(g, policy, p),
        valid_state(g, policy, p[0]),
        0 <= i < p.len(),
    ensures
        valid_state(g, policy, p[i]),
        i > 0 ==> p[i].3 >= 1,
    decreases i,
{
    if i > 0 {
        lemma_path_valid(g, policy, p, i - 1);
        assert(is_step(g, policy, p[i - 1], p[i]));
        lemma_step_valid(g, policy, p[i - 1], p[i].2);
    }
}

/// Extending a path by one legal step gives a path that costs the step more.
pub proof fn lemma_path_push(g: Data, policy: Policy, p: Seq<APos>, s: APos)
    requires
        is_path(g, policy, p),
        is_step(g, policy, p.last(), s),
    ensures
        is_path(g, policy, p.push(s)),
        path_cost(p.push(s)) == path_cost(p) + s.4,
        p.push(s)[0] == p[0],
        p.push(s).last() == s,
{
    let q = p.push(s);
    assert(q.drop_last() =~= p);
    assert forall|i: int| 0 <= i < q.len() - 1 implies is_step(g, policy, #[trigger] q[i], q[i + 1]) by {
        if i < p.len() - 1 {
            assert(is_step(g, policy, p[i], p[i + 1]));
        }
    }
}

/// A path of at least two states is a shorter path plus one legal step.
pub proof fn lemma_path_split(g: Data, policy: Policy, p: Seq<APos>)
    requires
        is_path(g, policy, p),
        p.len() >= 2,
    ensures
        is_path(g, policy, p.drop_last()),
        is_step(g, policy, p.drop_last().last(), p.last()),
        path_cost(p) == path_cost(p.drop_last()) + p.last().4,
        p.drop_last()[0] == p[0],
{
    let q = p.drop_last();
    assert forall|i: int| 0 <= i < q.len() - 1 implies is_step(g, policy, #[trigger] q[i], q[i + 1]) by {
        assert(is_step(g, policy, p[i], p[i + 1]));
    }
    assert(is_step(g, policy, p[p.len() - 2], p[p.len() - 2 + 1]));
}

/// Two valid states with the same slot are the same state.
pub proof fn lemma_slot_injective(t: Task, a: APos, b: APos)
    requires
        task_ok(t),
        ok(t, a),
        ok(t, b),
        slot(t, a) == slot(t, b),
    ensures
        a == b,
{
    t.layout.lemma_index_injective(a, b);
}

/// Every valid state has a slot in the tables.
pub proof fn lemma_slot_in_range(t: Task, s: APos)
    requires
        task_ok(t),
        ok(t, s),
    ensures
        0 <= slot(t, s) < t.layout.count,
        t.layout.covers(s),
{
    t.layout.lemma_index_in_range(s);
}

proof fn lemma_dims_sum(w: int, h: int)
    by (nonlinear_arith)
    requires
        w >= 1,
        h >= 1,
    ensures
        w + h <= w * h + 1,
        w * h <= w * h * 4,
{
}

/// The estimate of a state on the grid is small.
pub proof fn lemma_est_bound(t: Task, s: APos)
    requires
        task_ok(t),
        ok(t, s),
    ensures
        0 <= spec_distance((s.0, s.1), t.goal) <= MAX_STATES,
        0 <= est(t, s) <= 255 * MAX_STATES,
{
    let w = t.g.dims().0 as int;
    let h = t.g.dims().1 as int;
    lemma_dims_sum(w, h);
    assert(w * h * 4 <= w * h * 4 * t.layout.slots) by (nonlinear_arith)
        requires
            t.layout.slots >= 1,
            w * h * 4 >= 0,
    ;
    let dist = spec_distance((s.0, s.1), t.goal);
    assert(0 <= dist <= MAX_STATES);
    assert(0 <= t.floor * dist <= 255 * MAX_STATES) by (nonlinear_arith)
        requires
            0 <= dist <= MAX_STATES,
            0 <= t.floor <= 255,
    ;
}

/// The estimate never drops by more than the cost of the step taken.
pub proof fn lemma_est_consistent(t: Task, u: APos, v: APos)
    requires
        task_ok(t),
        ok(t, u),
        is_step(t.g, t.policy, u, v),
    ensures
        est(t, u) <= v.4 + est(t, v),
{
    let du = spec_distance((u.0, u.1), t.goal);
    let dv = spec_distance((v.0, v.1), t.goal);
    assert(du <= dv + 1);
    assert(t.g.has(v.0 as int, v.1 as int));
    assert(cell_cost(t.g, v.0 as int, v.1 as int) >= t.floor);
    assert(t.floor * du <= t.floor * dv + t.floor) by (nonlinear_arith)
        requires
            du <= dv + 1,
            t.floor >= 0,
    ;
}

/// A route that ends in an open state costs, together with the estimate of
/// its end, at least as much as the cheapest entry of the queue.
pub proof fn lemma_lower_bound(t: Task, st: Tables, k: int, p: Seq<APos>)
    requires
        inv(t, st, None, Set::empty()),
        forall|e: (u64, APos)| st.queue.count(e) > 0 ==> k <= e.0,
        is_path(t.g, t.policy, p),
        p[0] == t.start,
        !st.closed[slot(t, p.last())],
    ensures
        path_cost(p) + est(t, p.last()) >= k,
    decreases p.len(),
{
    let end = p.last();
    lemma_path_valid(t.g, t.policy, p, p.len() - 1);
    lemma_est_bound(t, end);
    if p.len() == 1 {
        assert(state_ok(t, st, t.start));
    } else {
        let q = p.drop_last();
        let u = q.last();
        lemma_path_split(t.g, t.policy, p);
        lemma_path_valid(t.g, t.policy, p, p.len() - 2);
        if st.closed[slot(t, u)] {
            assert(closed_optimal(t, st, u));
            assert(is_route(t.g, t.policy, t.start, u, q));
            assert(edge_relaxed(t, st, u, end.2));
            assert(state_ok(t, st, end));
            assert(state_ok(t, st, u));
        } else {
            lemma_lower_bound(t, st, k, q);
            lemma_est_consistent(t, u, end);
        }
    }
}

/// Once nothing is open, every route from the start ends in a closed state.
pub proof fn lemma_all_routes_closed(t: Task, st: Tables, p: Seq<APos>)
    requires
        inv(t, st, None, Set::empty()),
        st.queue.len() == 0,
        is_path(t.g, t.policy, p),
        p[0] == t.start,
    ensures
        st.closed[slot(t, p.last())],
    decreases p.len(),
{
    let end = p.last();
    lemma_path_valid(t.g, t.policy, p, p.len() - 1);
    lemma_est_bound(t, end);
    assert(state_ok(t, st, end));
    if p.len() == 1 {
    } else {
        let q = p.drop_last();
        let u = q.last();
        lemma_path_split(t.g, t.policy, p);
        lemma_path_valid(t.g, t.policy, p, p.len() - 2);
        lemma_all_routes_closed(t, st, q);
        assert(edge_relaxed(t, st, u, end.2));
    }
}

} // verus!
