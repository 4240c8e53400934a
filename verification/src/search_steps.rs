//! The moves of the search, as changes to its tables, each with the proof
//! that it keeps the search invariant.

use vstd::prelude::*;
use crate::crucible::{accepts, is_route, path_cost, spec_step, APos};
use crate::grid::Direction;
use crate::counting::{lemma_count_true_bound, lemma_count_true_set};
use crate::search_invariant::{
    closed_optimal, closed_rejects, cur_ok, edge_relaxed, edges_ok, entries_ok, entry_ok, est,
    inv, lemma_est_bound, lemma_lower_bound,
    lemma_path_push, lemma_slot_in_range, lemma_slot_injective, lemma_step_valid,
    no_cheaper_route, ok, optimal_ok, rejects_ok, shape_ok, slot, start_ok, state_ok, states_ok,
    Tables, Task,
};

verus! {

/// The cost that the closed state `u` offers to its neighbour `v`.
pub open spec fn offer(t: Task, st: Tables, u: APos, v: APos) -> int {
    st.dist[slot(t, u)].unwrap() + v.4
}

/// The neighbour of `u` in direction `d` exists, is open, and has no cost as
/// low as the one `u` offers.
pub open spec fn offer_taken(t: Task, st: Tables, u: APos, d: Direction) -> bool {
    spec_step(t.g, t.policy, u, d) matches Some(v) && !st.closed[slot(t, v)] && match st.dist[slot(
        t,
        v,
    )] {
        None => true,
        Some(known) => offer(t, st, u, v) < known,
    }
}

/// The tables after `v` has taken the offer of `u`.
pub open spec fn after_offer(t: Task, st: Tables, u: APos, v: APos) -> Tables {
    let j = slot(t, v);
    let c = offer(t, st, u, v);
    Tables {
        dist: st.dist.update(j, Some(c as u64)),
        prev: st.prev.update(j, Some(u)),
        closed: st.closed,
        paths: st.paths.update(j, st.paths[slot(t, u)].push(v)),
        queue: st.queue.insert(((c + est(t, v)) as u64, v)),
        closed_count: st.closed_count,
    }
}

/// The tables after the open state `s` has been closed and the queue entry
/// `e` that named it taken out.
pub open spec fn after_close(t: Task, st: Tables, e: (u64, APos)) -> Tables {
    Tables {
        dist: st.dist,
        prev: st.prev,
        closed: st.closed.update(slot(t, e.1), true),
        paths: st.paths,
        queue: st.queue.remove(e),
        closed_count: st.closed_count + 1,
    }
}

/// The tables after the queue entry `e` has been taken out.
pub open spec fn after_pop(st: Tables, e: (u64, APos)) -> Tables {
    Tables {
        dist: st.dist,
        prev: st.prev,
        closed: st.closed,
        paths: st.paths,
        queue: st.queue.remove(e),
        closed_count: st.closed_count,
    }
}

/// What is known of the neighbour `v` of the state `u` that is being
/// expanded.
proof fn lemma_offer_facts(t: Task, st: Tables, u: APos, d: Direction, pending: Set<Direction>)
    requires
        inv(t, st, Some(u), pending),
        spec_step(t.g, t.policy, u, d) is Some,
    ensures
        ({
            let v = spec_step(t.g, t.policy, u, d).unwrap();
            let c = offer(t, st, u, v);
            &&& ok(t, v)
            &&& v.3 >= 1
            &&& 0 <= slot(t, v) < t.layout.count
            &&& 0 <= slot(t, u) < t.layout.count
            &&& 0 <= c <= 255 * st.closed_count
            &&& 0 <= est(t, v) <= 255 * 0xFFFF_FFFF
            &&& st.closed_count <= 0xFFFF_FFFF
            &&& is_route(t.g, t.policy, t.start, v, st.paths[slot(t, u)].push(v))
            &&& path_cost(st.paths[slot(t, u)].push(v)) == c
            &&& slot(t, v) != slot(t, t.start)
        }),
{
    let v = spec_step(t.g, t.policy, u, d).unwrap();
    lemma_step_valid(t.g, t.policy, u, d);
    lemma_slot_in_range(t, v);
    lemma_slot_in_range(t, u);
    lemma_slot_in_range(t, t.start);
    lemma_est_bound(t, v);
    assert(state_ok(t, st, u));
    lemma_path_push(t.g, t.policy, st.paths[slot(t, u)], v);
    if slot(t, v) == slot(t, t.start) {
        lemma_slot_injective(t, v, t.start);
    }
}

proof fn lemma_offer_states(t: Task, st: Tables, u: APos, d: Direction, pending: Set<Direction>)
    requires
        inv(t, st, Some(u), pending),
        offer_taken(t, st, u, d),
    ensures
        states_ok(t, after_offer(t, st, u, spec_step(t.g, t.policy, u, d).unwrap())),
{
    let v = spec_step(t.g, t.policy, u, d).unwrap();
    let st2 = after_offer(t, st, u, v);
    lemma_offer_facts(t, st, u, d, pending);
    assert forall|x: APos| ok(t, x) implies #[trigger] state_ok(t, st2, x) by {
        lemma_slot_in_range(t, x);
        assert(state_ok(t, st, x));
        if slot(t, x) == slot(t, v) {
            lemma_slot_injective(t, x, v);
        } else {
            if st.dist[slot(t, x)] is Some && st.prev[slot(t, x)] is Some {
                lemma_slot_in_range(t, st.prev[slot(t, x)].unwrap());
            }
        }
    }
}

proof fn lemma_offer_edges(t: Task, st: Tables, u: APos, d: Direction, pending: Set<Direction>)
    requires
        inv(t, st, Some(u), pending),
        offer_taken(t, st, u, d),
    ensures
        edges_ok(
            t,
            after_offer(t, st, u, spec_step(t.g, t.policy, u, d).unwrap()),
            Some(u),
            pending.remove(d),
        ),
{
    let v = spec_step(t.g, t.policy, u, d).unwrap();
    let st2 = after_offer(t, st, u, v);
    lemma_offer_facts(t, st, u, d, pending);
    assert forall|x: APos, dd: Direction|
        ok(t, x) && !(Some(u) == Some(x) && pending.remove(d).contains(dd)) implies #[trigger] edge_relaxed(
        t,
        st2,
        x,
        dd,
    ) by {
        lemma_slot_in_range(t, x);
        if st2.closed[slot(t, x)] {
            if x == u && dd == d {
            } else {
                assert(edge_relaxed(t, st, x, dd));
                if spec_step(t.g, t.policy, x, dd) is Some {
                    lemma_step_valid(t.g, t.policy, x, dd);
                    lemma_slot_in_range(t, spec_step(t.g, t.policy, x, dd).unwrap());
                }
            }
        }
    }
}

proof fn lemma_offer_entries(t: Task, st: Tables, u: APos, d: Direction, pending: Set<Direction>)
    requires
        inv(t, st, Some(u), pending),
        offer_taken(t, st, u, d),
    ensures
        entries_ok(t, after_offer(t, st, u, spec_step(t.g, t.policy, u, d).unwrap())),
{
    let v = spec_step(t.g, t.policy, u, d).unwrap();
    let st2 = after_offer(t, st, u, v);
    lemma_offer_facts(t, st, u, d, pending);
    let c = offer(t, st, u, v);
    assert forall|e: (u64, APos)| #[trigger] entry_ok(t, st2, e) by {
        if st2.queue.count(e) > 0 {
            if e == ((c + est(t, v)) as u64, v) {
            } else {
                assert(st.queue.count(e) > 0);
                assert(entry_ok(t, st, e));
                lemma_slot_in_range(t, e.1);
                if slot(t, e.1) == slot(t, v) {
                    lemma_slot_injective(t, e.1, v);
                }
            }
        }
    }
}

proof fn lemma_offer_closed(t: Task, st: Tables, u: APos, d: Direction, pending: Set<Direction>)
    requires
        inv(t, st, Some(u), pending),
        offer_taken(t, st, u, d),
    ensures
        optimal_ok(t, after_offer(t, st, u, spec_step(t.g, t.policy, u, d).unwrap())),
        rejects_ok(t, after_offer(t, st, u, spec_step(t.g, t.policy, u, d).unwrap())),
        cur_ok(t, after_offer(t, st, u, spec_step(t.g, t.policy, u, d).unwrap()), Some(u)),
        shape_ok(t, after_offer(t, st, u, spec_step(t.g, t.policy, u, d).unwrap())),
        start_ok(t, after_offer(t, st, u, spec_step(t.g, t.policy, u, d).unwrap())),
{
    let v = spec_step(t.g, t.policy, u, d).unwrap();
    let st2 = after_offer(t, st, u, v);
    lemma_offer_facts(t, st, u, d, pending);
    lemma_slot_in_range(t, t.start);
    assert forall|x: APos| ok(t, x) implies #[trigger] closed_optimal(t, st2, x) by {
        lemma_slot_in_range(t, x);
        assert(closed_optimal(t, st, x));
    }
    assert forall|x: APos| ok(t, x) implies #[trigger] closed_rejects(t, st2, x) by {
        lemma_slot_in_range(t, x);
        assert(closed_rejects(t, st, x));
    }
}

/// Taking an offer keeps the invariant and settles the direction it came
/// from.
pub proof fn lemma_offer_taken(t: Task, st: Tables, u: APos, d: Direction, pending: Set<Direction>)
    requires
        inv(t, st, Some(u), pending),
        offer_taken(t, st, u, d),
    ensures
        inv(
            t,
            after_offer(t, st, u, spec_step(t.g, t.policy, u, d).unwrap()),
            Some(u),
            pending.remove(d),
        ),
{
    let v = spec_step(t.g, t.policy, u, d).unwrap();
    let st2 = after_offer(t, st, u, v);
    lemma_offer_facts(t, st, u, d, pending);
    lemma_offer_states(t, st, u, d, pending);
    lemma_offer_edges(t, st, u, d, pending);
    lemma_offer_entries(t, st, u, d, pending);
    lemma_offer_closed(t, st, u, d, pending);
}

/// An offer that is not taken settles its direction too.
pub proof fn lemma_offer_declined(t: Task, st: Tables, u: APos, d: Direction, pending: Set<Direction>)
    requires
        inv(t, st, Some(u), pending),
        !offer_taken(t, st, u, d),
    ensures
        inv(t, st, Some(u), pending.remove(d)),
{
    assert(edge_relaxed(t, st, u, d)) by {
        if spec_step(t.g, t.policy, u, d) is Some {
            let v = spec_step(t.g, t.policy, u, d).unwrap();
            lemma_offer_facts(t, st, u, d, pending);
            assert(state_ok(t, st, v));
            if st.closed[slot(t, v)] {
                assert(closed_optimal(t, st, v));
            }
        }
    }
    assert forall|x: APos, dd: Direction|
        ok(t, x) && !(Some(u) == Some(x) && pending.remove(d).contains(dd)) implies #[trigger] edge_relaxed(
        t,
        st,
        x,
        dd,
    ) by {
        if x == u && dd == d {
        } else {
            assert(!(Some(u) == Some(x) && pending.contains(dd)));
        }
    }
}

/// An entry at the front of the queue names its state's final cost: either
/// the state is closed already, or the entry's priority is the state's cost
/// plus estimate and no route to the state is cheaper.
pub proof fn lemma_front(t: Task, st: Tables, e: (u64, APos))
    requires
        inv(t, st, None, Set::empty()),
        st.queue.count(e) > 0,
        forall|o: (u64, APos)| st.queue.count(o) > 0 ==> e.0 <= o.0,
    ensures
        ok(t, e.1),
        0 <= slot(t, e.1) < t.layout.count,
        st.dist[slot(t, e.1)] is Some,
        !st.closed[slot(t, e.1)] ==> {
            &&& e.0 == st.dist[slot(t, e.1)].unwrap() + est(t, e.1)
            &&& no_cheaper_route(t, e.1, st.dist[slot(t, e.1)].unwrap() as int)
            &&& st.closed_count < t.layout.count
        },
{
    let s = e.1;
    assert(entry_ok(t, st, e));
    lemma_slot_in_range(t, s);
    lemma_est_bound(t, s);
    assert(state_ok(t, st, s));
    if !st.closed[slot(t, s)] {
        let d = st.dist[slot(t, s)].unwrap();
        assert(e.0 == d + est(t, s));
        assert forall|p: Seq<APos>| is_route(t.g, t.policy, t.start, s, p) implies path_cost(p)
            >= d by {
            lemma_lower_bound(t, st, e.0 as int, p);
        }
        lemma_count_true_set(st.closed, slot(t, s));
        lemma_count_true_bound(st.closed.update(slot(t, s), true));
    }
}

/// Dropping a queue entry whose state is closed keeps the invariant.
pub proof fn lemma_pop_stale(t: Task, st: Tables, e: (u64, APos))
    requires
        inv(t, st, None, Set::empty()),
        st.queue.count(e) > 0,
        ok(t, e.1),
        st.closed[slot(t, e.1)],
    ensures
        inv(t, after_pop(st, e), None, Set::empty()),
{
    let st2 = after_pop(st, e);
    assert forall|x: APos| ok(t, x) implies #[trigger] state_ok(t, st2, x) by {
        assert(state_ok(t, st, x));
    }
    assert forall|x: APos| ok(t, x) implies #[trigger] closed_optimal(t, st2, x) by {
        assert(closed_optimal(t, st, x));
    }
    assert forall|x: APos, dd: Direction| ok(t, x) implies #[trigger] edge_relaxed(t, st2, x, dd) by {
        assert(edge_relaxed(t, st, x, dd));
    }
    assert forall|o: (u64, APos)| #[trigger] entry_ok(t, st2, o) by {
        assert(entry_ok(t, st, o));
    }
    assert forall|x: APos| ok(t, x) implies #[trigger] closed_rejects(t, st2, x) by {
        assert(closed_rejects(t, st, x));
    }
}

proof fn lemma_close_states(t: Task, st: Tables, e: (u64, APos))
    requires
        inv(t, st, None, Set::empty()),
        st.queue.count(e) > 0,
        forall|o: (u64, APos)| st.queue.count(o) > 0 ==> e.0 <= o.0,
        !st.closed[slot(t, e.1)],
    ensures
        states_ok(t, after_close(t, st, e)),
        shape_ok(t, after_close(t, st, e)),
        start_ok(t, after_close(t, st, e)),
        entries_ok(t, after_close(t, st, e)),
        cur_ok(t, after_close(t, st, e), Some(e.1)),
{
    let s = e.1;
    let st2 = after_close(t, st, e);
    lemma_front(t, st, e);
    lemma_count_true_set(st.closed, slot(t, s));
    lemma_slot_in_range(t, t.start);
    assert(state_ok(t, st, s));
    assert forall|x: APos| ok(t, x) implies #[trigger] state_ok(t, st2, x) by {
        lemma_slot_in_range(t, x);
        assert(state_ok(t, st, x));
        if st.dist[slot(t, x)] is Some && st.prev[slot(t, x)] is Some {
            lemma_slot_in_range(t, st.prev[slot(t, x)].unwrap());
        }
        if slot(t, x) == slot(t, s) {
            lemma_slot_injective(t, x, s);
        }
    }
    assert forall|o: (u64, APos)| #[trigger] entry_ok(t, st2, o) by {
        assert(entry_ok(t, st, o));
    }
}

proof fn lemma_close_closed(t: Task, st: Tables, e: (u64, APos))
    requires
        inv(t, st, None, Set::empty()),
        st.queue.count(e) > 0,
        forall|o: (u64, APos)| st.queue.count(o) > 0 ==> e.0 <= o.0,
        !st.closed[slot(t, e.1)],
        !accepts(t.policy, t.goal, e.1),
    ensures
        optimal_ok(t, after_close(t, st, e)),
        rejects_ok(t, after_close(t, st, e)),
        edges_ok(t, after_close(t, st, e), Some(e.1), Set::full()),
{
    let s = e.1;
    let st2 = after_close(t, st, e);
    lemma_front(t, st, e);
    assert forall|x: APos| ok(t, x) implies #[trigger] closed_optimal(t, st2, x) by {
        lemma_slot_in_range(t, x);
        assert(closed_optimal(t, st, x));
        if slot(t, x) == slot(t, s) {
            lemma_slot_injective(t, x, s);
        }
    }
    assert forall|x: APos, dd: Direction|
        ok(t, x) && !(Some(s) == Some(x) && Set::<Direction>::full().contains(dd)) implies #[trigger] edge_relaxed(
        t,
        st2,
        x,
        dd,
    ) by {
        lemma_slot_in_range(t, x);
        assert(edge_relaxed(t, st, x, dd));
        if slot(t, x) == slot(t, s) {
            lemma_slot_injective(t, x, s);
        }
    }
    assert forall|x: APos| ok(t, x) implies #[trigger] closed_rejects(t, st2, x) by {
        lemma_slot_in_range(t, x);
        assert(closed_rejects(t, st, x));
        if slot(t, x) == slot(t, s) {
            lemma_slot_injective(t, x, s);
        }
    }
}

/// Closing the open state at the front of the queue, if the walk may not end
/// in it, keeps the invariant; all its directions are then still to do.
pub proof fn lemma_close(t: Task, st: Tables, e: (u64, APos))
    requires
        inv(t, st, None, Set::empty()),
        st.queue.count(e) > 0,
        forall|o: (u64, APos)| st.queue.count(o) > 0 ==> e.0 <= o.0,
        !st.closed[slot(t, e.1)],
        !accepts(t.policy, t.goal, e.1),
    ensures
        inv(t, after_close(t, st, e), Some(e.1), Set::full()),
{
    lemma_close_states(t, st, e);
    lemma_close_closed(t, st, e);
}

/// Once the three forward directions of the expanded state are settled, the
/// expansion is over: the way back is never a step.
pub proof fn lemma_expanded(t: Task, st: Tables, u: APos, pending: Set<Direction>)
    requires
        inv(t, st, Some(u), pending),
        forall|d: Direction| pending.contains(d) ==> d == u.2.spec_opposite(),
    ensures
        inv(t, st, None, Set::empty()),
{
    assert forall|x: APos, dd: Direction| ok(t, x) implies #[trigger] edge_relaxed(t, st, x, dd) by {
        if x == u && pending.contains(dd) {
            assert(spec_step(t.g, t.policy, u, dd) is None);
        }
    }
}

} // verus!
