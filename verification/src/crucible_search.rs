//! The search for the cheapest constrained route across a grid of blocks.
//!
//! States are explored in order of known cost plus a lower bound on the cost
//! that remains: the cheapest cell of the grid times the Manhattan distance to
//! the goal. With a cheapest cell of zero this is a plain uniform-cost search.

use vstd::prelude::*;
use crate::crucible::{
    accepts, cell_cost, is_route, is_solution, lemma_min_cost_none, lemma_min_cost_unique,
    min_cost, path_cost, perpendicular, reachable, start_state, APos, Data, Policy, Pos,
};
use crate::crucible_laws::{cells_cost, entered_cells, lemma_path_cost_is_cells_cost};
use crate::grid::Direction;
use crate::min_queue::MinQueue;
use crate::counting::{filled, lemma_count_true_all_false};
use crate::search_invariant::{
    closed_optimal, closed_rejects, edge_relaxed, entry_ok, est, inv, is_floor,
    lemma_all_routes_closed, lemma_est_bound, lemma_lower_bound,
    lemma_path_valid, lemma_slot_in_range, lemma_slot_injective, lemma_step_valid, ok, shape_ok,
    slot, state_ok, task_ok, Tables, Task,
};
use crate::search_steps::{
    after_close, after_offer, after_pop, lemma_close, lemma_expanded, lemma_front,
    lemma_offer_declined, lemma_offer_taken, lemma_pop_stale,
};
use crate::state_space::{state_count, Layout, MAX_STATES};

verus! {

/// Why a search could not be started.
#[derive(Debug, Clone, Copy, PartialEq, Eq, Structural)]
pub enum SearchError {
    /// The rows of the grid do not all have the recorded width, or their
    /// number is not the recorded height.
    MalformedGrid,
    /// The start position is not a cell of the grid.
    StartOutOfBounds,
    /// The goal position is not a cell of the grid.
    GoalOutOfBounds,
    /// The grid and policy have more states than a search will number.
    TooManyStates,
}

/// The reason, if any, for which a search on these inputs is refused.
pub open spec fn config_error(g: Data, policy: Policy, start: Pos, goal: Pos) -> Option<
    SearchError,
> {
    if !g.wf() {
        Some(SearchError::MalformedGrid)
    } else if !(start.0 < g.dims().0 && start.1 < g.dims().1) {
        Some(SearchError::StartOutOfBounds)
    } else if !(goal.0 < g.dims().0 && goal.1 < g.dims().1) {
        Some(SearchError::GoalOutOfBounds)
    } else if state_count(g, policy) > MAX_STATES {
        Some(SearchError::TooManyStates)
    } else {
        None
    }
}

/// What a search for the minimal cost returns: the reason for which it is
/// refused, or else the minimal cost of the model, or `None` where the goal
/// cannot be reached. It is a function of the arguments alone.
pub open spec fn spec_find_min_cost(
    g: Data,
    policy: Policy,
    start: Pos,
    dir: Direction,
    goal: Pos,
) -> Result<Option<u64>, SearchError> {
    match config_error(g, policy, start, goal) {
        Some(e) => Err(e),
        None => Ok(
            match min_cost(g, policy, start_state(start, dir), goal) {
                Some(c) => Some(c as u64),
                None => None,
            },
        ),
    }
}

/// What a search for a cheapest walk may return: the reason for which it is
/// refused, or else a walk that starts in the start state, may end on the
/// goal and costs the minimal cost, or `None` where there is no such walk.
pub open spec fn is_find_path_result(
    g: Data,
    policy: Policy,
    start: Pos,
    dir: Direction,
    goal: Pos,
    r: Result<Option<Vec<APos>>, SearchError>,
) -> bool {
    match config_error(g, policy, start, goal) {
        Some(e) => r == Err::<Option<Vec<APos>>, SearchError>(e),
        None => r matches Ok(found) && match found {
            Some(path) => {
                &&& is_solution(g, policy, start_state(start, dir), goal, path@)
                &&& min_cost(g, policy, start_state(start, dir), goal) == Some(path_cost(path@))
                &&& path@.len() == entered_cells(path@).len() + 1
                &&& cells_cost(g, entered_cells(path@)) == path_cost(path@)
            },
            None => {
                &&& !reachable(g, policy, start_state(start, dir), goal)
                &&& min_cost(g, policy, start_state(start, dir), goal) is None
            },
        },
    }
}

/// One step of walking a recorded route backwards: if the route is the
/// recorded route to `cur` less its last state, followed by the states walked
/// so far in reverse, then it is the same of the predecessor `u`.
proof fn lemma_unwind(whole: Seq<APos>, to_u: Seq<APos>, back: Seq<APos>, cur: APos, u: APos)
    requires
        to_u.len() >= 1,
        to_u.last() == u,
        whole == to_u.push(cur).drop_last() + back.reverse(),
    ensures
        whole == to_u.drop_last() + back.push(u).reverse(),
        to_u.push(cur).len() > to_u.len(),
{
    assert(to_u.push(cur).drop_last() =~= to_u);
    assert(back.push(u).reverse() =~= seq![u] + back.reverse());
    assert(to_u =~= to_u.drop_last() + seq![u]);
    assert(whole =~= to_u.drop_last() + back.push(u).reverse());
}

/// The tables of a running search.
struct Search {
    layout: Layout,
    goal: Pos,
    floor: u8,
    dist: Vec<Option<u64>>,
    prev: Vec<Option<APos>>,
    closed: Vec<bool>,
    closed_count: usize,
    queue: MinQueue<APos>,
    paths: Ghost<Seq<Seq<APos>>>,
}

impl Search {
    spec fn tables(&self) -> Tables {
        Tables {
            dist: self.dist@,
            prev: self.prev@,
            closed: self.closed@,
            paths: self.paths@,
            queue: self.queue@,
            closed_count: self.closed_count as nat,
        }
    }

    /// The search works on task `t`, and its queue is in order.
    spec fn serves(&self, t: Task) -> bool {
        &&& self.layout == t.layout
        &&& self.goal == t.goal
        &&& self.floor == t.floor
        &&& self.queue.wf()
    }

    /// The lower bound on the cost that remains from `s`.
    fn estimate(&self, s: &APos, Ghost(t): Ghost<Task>) -> (r: u64)
        requires
            task_ok(t),
            self.serves(t),
            ok(t, *s),
        ensures
            r == est(t, *s),
            r <= 255 * MAX_STATES,
    {
        proof {
            lemma_est_bound(t, *s);
        }
        let d = Data::distance((s.0, s.1), self.goal);
        assert(self.floor * d <= 255 * MAX_STATES) by (nonlinear_arith)
            requires
                0 <= d <= MAX_STATES,
                0 <= self.floor <= 255,
        ;
        (self.floor as u64) * (d as u64)
    }

    /// Tables in which only the start is known, at cost zero.
    fn new(layout: Layout, start: APos, goal: Pos, floor: u8, Ghost(t): Ghost<Task>) -> (s: Search)
        requires
            task_ok(t),
            t.layout == layout,
            t.start == start,
            t.goal == goal,
            t.floor == floor,
        ensures
            s.serves(t),
            inv(t, s.tables(), None, Set::empty()),
    {
        let n = layout.count;
        proof {
            lemma_slot_in_range(t, start);
        }
        let i = layout.index(&start);
        let mut dist: Vec<Option<u64>> = filled(None, n);
        let prev: Vec<Option<APos>> = filled(None, n);
        let closed: Vec<bool> = filled(false, n);
        dist[i] = Some(0u64);
        let mut s = Search {
            layout,
            goal,
            floor,
            dist,
            prev,
            closed,
            closed_count: 0,
            queue: MinQueue::new(),
            paths: Ghost(Seq::new(n as nat, |j: int| seq![start])),
        };
        let h = s.estimate(&start, Ghost(t));
        s.queue.push(h, start);
        proof {
            let st = s.tables();
            lemma_count_true_all_false(st.closed);
            assert forall|x: APos| ok(t, x) implies #[trigger] state_ok(t, st, x) by {
                lemma_slot_in_range(t, x);
                if slot(t, x) == i {
                    lemma_slot_injective(t, x, start);
                    assert(path_cost(seq![start]) == 0);
                    assert(is_route(t.g, t.policy, t.start, x, st.paths[i as int]));
                }
            }
            assert forall|x: APos| ok(t, x) implies #[trigger] closed_optimal(t, st, x) by {
                lemma_slot_in_range(t, x);
            }
            assert forall|u: APos, d: Direction| ok(t, u) implies #[trigger] edge_relaxed(
                t,
                st,
                u,
                d,
            ) by {
                lemma_slot_in_range(t, u);
            }
            assert forall|e: (u64, APos)| #[trigger] entry_ok(t, st, e) by {
                if st.queue.count(e) > 0 {
                    assert(e == (h, start));
                }
            }
            assert forall|x: APos| ok(t, x) implies #[trigger] closed_rejects(t, st, x) by {
                lemma_slot_in_range(t, x);
            }
        }
        s
    }

    /// Offers the cost of the closed state `u` to its neighbour in direction
    /// `d`, if there is one.
    fn relax(
        &mut self,
        g: &Data,
        policy: &Policy,
        u: &APos,
        d: Direction,
        Ghost(t): Ghost<Task>,
        Ghost(pending): Ghost<Set<Direction>>,
    )
        requires
            old(self).serves(t),
            *g == t.g,
            *policy == t.policy,
            inv(t, old(self).tables(), Some(*u), pending),
        ensures
            final(self).serves(t),
            inv(t, final(self).tables(), Some(*u), pending.remove(d)),
            final(self).closed@ == old(self).closed@,
            final(self).closed_count == old(self).closed_count,
    {
        let ghost st = self.tables();
        proof {
            lemma_slot_in_range(t, *u);
            assert(state_ok(t, st, *u));
        }
        let iu = self.layout.index(u);
        let du: u64 = match self.dist[iu] {
            Some(x) => x,
            None => 0,
        };
        let v = match g.step(policy, u, d) {
            None => {
                proof {
                    lemma_offer_declined(t, st, *u, d, pending);
                }
                return ;
            },
            Some(v) => v,
        };
        proof {
            lemma_step_valid(t.g, t.policy, *u, d);
            lemma_slot_in_range(t, v);
            lemma_est_bound(t, v);
        }
        let j = self.layout.index(&v);
        let offered: u64 = du + v.4 as u64;
        let better = !self.closed[j] && match self.dist[j] {
            None => true,
            Some(known) => offered < known,
        };
        if !better {
            proof {
                lemma_offer_declined(t, st, *u, d, pending);
            }
            return ;
        }
        let h = self.estimate(&v, Ghost(t));
        self.dist[j] = Some(offered);
        self.prev[j] = Some(*u);
        self.paths = Ghost(self.paths@.update(j as int, self.paths@[iu as int].push(v)));
        self.queue.push(offered + h, v);
        proof {
            lemma_offer_taken(t, st, *u, d, pending);
            let st2 = after_offer(t, st, *u, v);
            assert(self.tables().dist =~= st2.dist);
            assert(self.tables().prev =~= st2.prev);
            assert(self.tables().paths =~= st2.paths);
            assert(self.tables().queue =~= st2.queue);
            assert(self.tables() == st2);
        }
    }

    /// Runs the search to its end. Returns the state in which the cheapest
    /// walk ends, or `None` if no walk may end on the goal.
    fn run(&mut self, g: &Data, policy: &Policy, Ghost(t): Ghost<Task>) -> (r: Option<APos>)
        requires
            old(self).serves(t),
            *g == t.g,
            *policy == t.policy,
            inv(t, old(self).tables(), None, Set::empty()),
        ensures
            final(self).serves(t),
            task_ok(t),
            shape_ok(t, final(self).tables()),
            forall|x: APos| ok(t, x) ==> #[trigger] final(self).linked(t, x),
            r is None ==> forall|p: Seq<APos>| !is_solution(t.g, t.policy, t.start, t.goal, p),
            r matches Some(s) ==> {
                &&& ok(t, s)
                &&& accepts(t.policy, t.goal, s)
                &&& final(self).dist@[slot(t, s)] matches Some(c) && forall|p: Seq<APos>|
                    is_solution(t.g, t.policy, t.start, t.goal, p) ==> path_cost(p) >= c
            },
    {
        loop
            invariant
                self.serves(t),
                *g == t.g,
                *policy == t.policy,
                inv(t, self.tables(), None, Set::empty()),
            decreases self.layout.count - self.closed_count, self.queue@.len(),
        {
            let ghost st = self.tables();
            let entry = match self.queue.pop_min() {
                None => {
                    proof {
                        assert forall|p: Seq<APos>| !is_solution(
                            t.g,
                            t.policy,
                            t.start,
                            t.goal,
                            p,
                        ) by {
                            if is_solution(t.g, t.policy, t.start, t.goal, p) {
                                lemma_all_routes_closed(t, st, p);
                                lemma_path_valid(t.g, t.policy, p, p.len() - 1);
                                assert(closed_rejects(t, st, p.last()));
                            }
                        }
                        assert forall|x: APos| ok(t, x) implies #[trigger] self.linked(t, x) by {
                            assert(state_ok(t, st, x));
                        }
                    }
                    return None;
                },
                Some(entry) => entry,
            };
            let s = entry.1;
            proof {
                lemma_front(t, st, entry);
            }
            let i = self.layout.index(&s);
            if self.closed[i] {
                proof {
                    lemma_pop_stale(t, st, entry);
                    assert(self.tables() == after_pop(st, entry));
                }
                continue ;
            }
            if s.0 == self.goal.0 && s.1 == self.goal.1 && policy.may_stop(&s) {
                proof {
                    let c = st.dist[i as int].unwrap();
                    assert forall|p: Seq<APos>|
                        is_solution(t.g, t.policy, t.start, t.goal, p) implies path_cost(p)
                        >= c by {
                        lemma_path_valid(t.g, t.policy, p, p.len() - 1);
                        assert(closed_rejects(t, st, p.last()));
                        lemma_lower_bound(t, st, entry.0 as int, p);
                    }
                    assert forall|x: APos| ok(t, x) implies #[trigger] self.linked(t, x) by {
                        assert(state_ok(t, st, x));
                    }
                }
                return Some(s);
            }
            self.closed[i] = true;
            self.closed_count = self.closed_count + 1;
            proof {
                lemma_close(t, st, entry);
                assert(self.tables().closed =~= after_close(t, st, entry).closed);
                assert(self.tables() == after_close(t, st, entry));
            }
            let (left, right) = perpendicular(s.2);
            let ghost pending: Set<Direction> = Set::full();
            self.relax(g, policy, &s, s.2, Ghost(t), Ghost(pending));
            self.relax(g, policy, &s, left, Ghost(t), Ghost(pending.remove(s.2)));
            self.relax(g, policy, &s, right, Ghost(t), Ghost(pending.remove(s.2).remove(left)));
            proof {
                lemma_expanded(t, self.tables(), s, pending.remove(s.2).remove(left).remove(right));
            }
        }
    }

    /// The part of the invariant that route recovery rests on: a state with a
    /// known cost has a recorded route, which is either the state alone or
    /// the recorded route of its predecessor and one more step.
    spec fn linked(&self, t: Task, s: APos) -> bool {
        let i = slot(t, s);
        self.dist@[i] matches Some(d) ==> {
            &&& is_route(t.g, t.policy, t.start, s, self.paths@[i])
            &&& path_cost(self.paths@[i]) == d
            &&& self.prev@[i] is None ==> self.paths@[i] == seq![s]
            &&& self.prev@[i] matches Some(u) ==> {
                &&& ok(t, u)
                &&& self.dist@[slot(t, u)] is Some
                &&& self.paths@[i] == self.paths@[slot(t, u)].push(s)
            }
        }
    }

    /// The recorded route to a state with a known cost, from the start to the
    /// state itself.
    fn route_to(&self, end: &APos, Ghost(t): Ghost<Task>) -> (r: Vec<APos>)
        requires
            self.serves(t),
            task_ok(t),
            shape_ok(t, self.tables()),
            forall|x: APos| ok(t, x) ==> #[trigger] self.linked(t, x),
            ok(t, *end),
            self.dist@[slot(t, *end)] is Some,
        ensures
            r@ == self.paths@[slot(t, *end)],
    {
        let ghost whole = self.paths@[slot(t, *end)];
        let mut back: Vec<APos> = Vec::new();
        back.push(*end);
        let mut cur: APos = *end;
        proof {
            assert(self.linked(t, cur));
            assert(whole =~= whole.drop_last() + back@.reverse());
        }
        loop
            invariant
                self.serves(t),
                task_ok(t),
                shape_ok(t, self.tables()),
                forall|x: APos| ok(t, x) ==> #[trigger] self.linked(t, x),
                ok(t, cur),
                self.dist@[slot(t, cur)] is Some,
                back@.len() >= 1,
                whole == self.paths@[slot(t, cur)].drop_last() + back@.reverse(),
            ensures
                whole == back@.reverse(),
            decreases self.paths@[slot(t, cur)].len(),
        {
            proof {
                lemma_slot_in_range(t, cur);
                assert(self.linked(t, cur));
            }
            let i = self.layout.index(&cur);
            match self.prev[i] {
                None => {
                    proof {
                        assert(self.paths@[i as int].drop_last() =~= Seq::<APos>::empty());
                        assert(whole =~= back@.reverse());
                    }
                    break ;
                },
                Some(u) => {
                    proof {
                        assert(self.linked(t, u));
                        lemma_slot_in_range(t, u);
                        lemma_unwind(whole, self.paths@[slot(t, u)], back@, cur, u);
                    }
                    back.push(u);
                    cur = u;
                },
            }
        }
        let n = back.len();
        let mut out: Vec<APos> = Vec::with_capacity(n);
        let mut k: usize = n;
        while k > 0
            invariant
                k <= n,
                n == back@.len(),
                out@.len() == n - k,
                forall|j: int| 0 <= j < out@.len() ==> out@[j] == back@[n - 1 - j],
            decreases k,
        {
            k -= 1;
            out.push(back[k]);
        }
        assert(out@ =~= back@.reverse());
        out
    }
}

/// Some cell of the grid costs exactly `m` to enter.
pub open spec fn is_cost_of_a_cell(g: Data, m: u8) -> bool {
    exists|x: int, y: int| g.has(x, y) && #[trigger] cell_cost(g, x, y) == m
}

/// `m` is the least heat loss of any cell of the grid: no cell costs less,
/// and some cell costs `m`. A grid without cells has 255.
pub open spec fn is_cheapest(g: Data, m: u8) -> bool {
    &&& is_floor(g, m)
    &&& if exists|x: int, y: int| g.has(x, y) {
        is_cost_of_a_cell(g, m)
    } else {
        m == 255
    }
}

/// The least heat loss of any cell of the grid, or 255 for a grid without
/// cells.
fn cheapest_cell(g: &Data) -> (m: u8)
    requires
        g.wf(),
    ensures
        is_cheapest(*g, m),
{
    let (width, height) = g.dimensions();
    let mut m: u8 = 255;
    let ghost mut at: Option<(int, int)> = None;
    let mut y: usize = 0;
    while y < height
        invariant
            g.wf(),
            (width, height) == g.dims(),
            y <= height,
            forall|a: int, b: int| 0 <= b < y && 0 <= a < width ==> #[trigger] cell_cost(*g, a, b) >= m,
            match at {
                Some((a, b)) => g.has(a, b) && cell_cost(*g, a, b) == m,
                None => m == 255,
            },
        decreases height - y,
    {
        let mut x: usize = 0;
        while x < width
            invariant
                g.wf(),
                (width, height) == g.dims(),
                y < height,
                x <= width,
                forall|a: int, b: int|
                    0 <= b < y && 0 <= a < width ==> #[trigger] cell_cost(*g, a, b) >= m,
                forall|a: int| 0 <= a < x ==> #[trigger] cell_cost(*g, a, y as int) >= m,
                match at {
                    Some((a, b)) => g.has(a, b) && cell_cost(*g, a, b) == m,
                    None => m == 255,
                },
            decreases width - x,
        {
            assert(g.rows()[y as int].len() == width);
            match g.get(x, y) {
                Some(block) => {
                    if block.heat_loss < m {
                        m = block.heat_loss;
                        proof {
                            at = Some((x as int, y as int));
                        }
                    }
                },
                None => {},
            }
            x += 1;
        }
        y += 1;
    }
    assert forall|a: int, b: int| g.has(a, b) implies #[trigger] cell_cost(*g, a, b) >= m by {
        assert(g.rows()[b].len() == width);
    }
    proof {
        if exists|x: int, y: int| g.has(x, y) {
            match at {
                Some((a, b)) => {
                    assert(g.has(a, b) && cell_cost(*g, a, b) == m);
                },
                None => {
                    let (a, b) = choose|x: int, y: int| g.has(x, y);
                    assert(cell_cost(*g, a, b) >= m);
                    assert(g.has(a, b) && cell_cost(*g, a, b) == m);
                },
            }
        } else {
            if at is Some {
                let (a, b) = at->Some_0;
                assert(g.has(a, b));
            }
        }
    }
    m
}

impl Data {
    /// Searches for a cheapest walk from `start`, heading `dir` with no step
    /// taken yet, to a state in which the policy lets the walk end on `goal`.
    ///
    /// Returns the cost and the states of such a walk from first to last,
    /// `Ok(None)` if there is no such walk, and an error if the grid is not
    /// rectangular, a position lies outside it, or it is too large to search.
    pub fn search(&self, start: Pos, dir: Direction, goal: Pos, policy: &Policy) -> (r: Result<
        Option<(u64, Vec<APos>)>,
        SearchError,
    >)
        ensures
            match config_error(*self, *policy, start, goal) {
                Some(e) => r == Err::<Option<(u64, Vec<APos>)>, SearchError>(e),
                None => r matches Ok(found) && match found {
                    Some((cost, path)) => {
                        &&& is_solution(*self, *policy, start_state(start, dir), goal, path@)
                        &&& path_cost(path@) == cost
                        &&& min_cost(*self, *policy, start_state(start, dir), goal) == Some(
                            cost as nat,
                        )
                        &&& path@.len() == entered_cells(path@).len() + 1
                        &&& cells_cost(*self, entered_cells(path@)) == cost
                    },
                    None => {
                        &&& !reachable(*self, *policy, start_state(start, dir), goal)
                        &&& min_cost(*self, *policy, start_state(start, dir), goal) is None
                    },
                },
            },
    {
        if !self.is_rectangular() {
            return Err(SearchError::MalformedGrid);
        }
        let (width, height) = self.dimensions();
        if !(start.0 < width && start.1 < height) {
            return Err(SearchError::StartOutOfBounds);
        }
        if !(goal.0 < width && goal.1 < height) {
            return Err(SearchError::GoalOutOfBounds);
        }
        let layout = match Layout::new(self, policy) {
            None => {
                return Err(SearchError::TooManyStates);
            },
            Some(layout) => layout,
        };
        let floor = cheapest_cell(self);
        let first = APos(start.0, start.1, dir, 0, 0);
        let ghost t = Task { g: *self, policy: *policy, start: first, goal, floor, layout };
        let mut tables = Search::new(layout, first, goal, floor, Ghost(t));
        match tables.run(self, policy, Ghost(t)) {
            None => {
                proof {
                    lemma_min_cost_none(*self, *policy, first, goal);
                }
                Ok(None)
            },
            Some(last) => {
                proof {
                    lemma_slot_in_range(t, last);
                    assert(tables.linked(t, last));
                }
                let i = tables.layout.index(&last);
                let cost: u64 = match tables.dist[i] {
                    Some(c) => c,
                    None => 0,
                };
                let path = tables.route_to(&last, Ghost(t));
                proof {
                    assert(is_solution(*self, *policy, first, goal, path@));
                    lemma_min_cost_unique(*self, *policy, first, goal, cost as nat);
                    lemma_path_cost_is_cells_cost(*self, *policy, path@);
                }
                Ok(Some((cost, path)))
            },
        }
    }

    /// The least heat lost on any walk from `start`, heading `dir` with no
    /// step taken yet, that the policy lets end on `goal`; `Ok(None)` if there
    /// is no such walk. The heat of the start cell is not counted. The result
    /// depends on the arguments alone.
    pub fn find_min_cost(&self, start: Pos, dir: Direction, goal: Pos, policy: &Policy) -> (r:
        Result<Option<u64>, SearchError>)
        ensures
            r == spec_find_min_cost(*self, *policy, start, dir, goal),
            r matches Ok(Some(cost)) ==> min_cost(*self, *policy, start_state(start, dir), goal)
                == Some(cost as nat),
    {
        match self.search(start, dir, goal, policy) {
            Err(e) => Err(e),
            Ok(None) => Ok(None),
            Ok(Some((cost, _))) => Ok(Some(cost)),
        }
    }

    /// The states of a cheapest walk from `start`, heading `dir` with no step
    /// taken yet, that the policy lets end on `goal`, from the start state to
    /// the last; `Ok(None)` if there is no such walk.
    pub fn find_path(&self, start: Pos, dir: Direction, goal: Pos, policy: &Policy) -> (r: Result<
        Option<Vec<APos>>,
        SearchError,
    >)
        ensures
            is_find_path_result(*self, *policy, start, dir, goal, r),
    {
        match self.search(start, dir, goal, policy) {
            Err(e) => Err(e),
            Ok(None) => Ok(None),
            Ok(Some((_, path))) => Ok(Some(path)),
        }
    }

    /// A cheapest walk to `goal` when at most three steps may be taken in a
    /// row. The walk starts on the cell of `start`, heading as `start` does,
    /// with no step taken yet: the run length and the heat loss recorded in
    /// `start` are not read.
    pub fn modified_a_star_a(&self, start: APos, goal: Pos) -> (r: Result<
        Option<Vec<APos>>,
        SearchError,
    >)
        ensures
            is_find_path_result(
                *self,
                Policy { min_run: 0, max_run: 3 },
                (start.0, start.1),
                start.2,
                goal,
                r,
            ),
    {
        self.find_path((start.0, start.1), start.2, goal, &Policy::policy_a())
    }

    /// A cheapest walk to `goal` when at least four and at most ten steps must
    /// be taken in a row, the last run included. The walk starts on the cell
    /// of `start`, heading as `start` does, with no step taken yet: the run
    /// length and the heat loss recorded in `start` are not read.
    pub fn modified_a_star_b(&self, start: APos, goal: Pos) -> (r: Result<
        Option<Vec<APos>>,
        SearchError,
    >)
        ensures
            is_find_path_result(
                *self,
                Policy { min_run: 4, max_run: 10 },
                (start.0, start.1),
                start.2,
                goal,
                r,
            ),
    {
        self.find_path((start.0, start.1), start.2, goal, &Policy::policy_b())
    }
}

/// The positions of the states of a path, in order.
pub fn positions(path: &Vec<APos>) -> (r: Vec<Pos>)
    ensures
        r@ == Seq::new(path@.len(), |i: int| (path@[i].0, path@[i].1)),
{
    let mut r: Vec<Pos> = Vec::with_capacity(path.len());
    let mut i: usize = 0;
    while i < path.len()
        invariant
            i <= path@.len(),
            r@ == Seq::new(i as nat, |k: int| (path@[k].0, path@[k].1)),
        decreases path@.len() - i,
    {
        r.push((path[i].0, path[i].1));
        assert(r@ =~= Seq::new((i + 1) as nat, |k: int| (path@[k].0, path@[k].1)));
        i += 1;
    }
    r
}

} // verus!
