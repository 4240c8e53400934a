//! Which nodes of a finite graph can be reached from a set of start nodes.

use vstd::prelude::*;
use crate::counting::{count_true, filled, lemma_count_true_bound, lemma_count_true_set};

verus! {

/// A finite directed graph whose nodes are numbered.
pub trait Graph {
    type Node: Copy;

    /// The number of slots that the nodes are numbered with.
    spec fn size(&self) -> nat;

    /// The value names a node of the graph.
    spec fn valid(&self, n: Self::Node) -> bool;

    /// The number of a node.
    spec fn slot(&self, n: Self::Node) -> int;

    /// The nodes that an edge leads to from the node.
    spec fn edges(&self, n: Self::Node) -> Seq<Self::Node>;

    /// Every node has a slot of its own.
    proof fn lemma_slots(&self, a: Self::Node, b: Self::Node)
        requires
            self.valid(a),
            self.valid(b),
        ensures
            0 <= self.slot(a) < self.size(),
            self.slot(a) == self.slot(b) ==> a == b,
    ;

    /// Edges lead to nodes.
    proof fn lemma_edges_valid(&self, n: Self::Node, k: int)
        requires
            self.valid(n),
            0 <= k < self.edges(n).len(),
        ensures
            self.valid(self.edges(n)[k]),
    ;

    fn node_count(&self) -> (r: usize)
        ensures
            r == self.size(),
    ;

    fn slot_of(&self, n: &Self::Node) -> (r: usize)
        requires
            self.valid(*n),
        ensures
            r == self.slot(*n),
    ;

    fn neighbours(&self, n: &Self::Node) -> (r: Vec<Self::Node>)
        requires
            self.valid(*n),
        ensures
            r@ == self.edges(*n),
    ;
}

/// A non-empty sequence of nodes, each joined to the next by an edge.
pub open spec fn is_walk<G: Graph>(g: &G, p: Seq<G::Node>) -> bool {
    &&& p.len() >= 1
    &&& forall|i: int| 0 <= i < p.len() - 1 ==> g.edges(#[trigger] p[i]).contains(p[i + 1])
}

/// Some walk leads from one of the start nodes to the node.
pub open spec fn reaches<G: Graph>(g: &G, starts: Seq<G::Node>, n: G::Node) -> bool {
    exists|p: Seq<G::Node>| is_walk(g, p) && starts.contains(p[0]) && p.last() == n
}

/// Every node that is marked can be reached.
pub open spec fn marks_sound<G: Graph>(g: &G, starts: Seq<G::Node>, marks: Seq<bool>) -> bool {
    forall|n: G::Node| g.valid(n) && #[trigger] marks[g.slot(n)] ==> reaches(g, starts, n)
}

/// Every edge from the node leads to a marked node.
pub open spec fn done<G: Graph>(g: &G, marks: Seq<bool>, n: G::Node) -> bool {
    forall|k: int| 0 <= k < g.edges(n).len() ==> marks[g.slot(#[trigger] g.edges(n)[k])]
}

/// Every marked node that is neither waiting nor being worked on is done.
pub open spec fn marks_closed<G: Graph>(
    g: &G,
    marks: Seq<bool>,
    waiting: Seq<G::Node>,
    current: Option<G::Node>,
) -> bool {
    forall|n: G::Node|
        g.valid(n) && marks[g.slot(n)] && !waiting.contains(n) && current != Some(n)
            ==> #[trigger] done(g, marks, n)
}

/// Every waiting node is a marked node of the graph.
pub open spec fn waiting_ok<G: Graph>(g: &G, marks: Seq<bool>, waiting: Seq<G::Node>) -> bool {
    forall|k: int| 0 <= k < waiting.len() ==> g.valid(#[trigger] waiting[k]) && marks[g.slot(
        waiting[k],
    )]
}

/// A walk extended by one edge is a walk.
pub proof fn lemma_walk_push<G: Graph>(g: &G, p: Seq<G::Node>, n: G::Node)
    requires
        is_walk(g, p),
        g.edges(p.last()).contains(n),
    ensures
        is_walk(g, p.push(n)),
        p.push(n)[0] == p[0],
        p.push(n).last() == n,
{
    let q = p.push(n);
    assert forall|i: int| 0 <= i < q.len() - 1 implies g.edges(#[trigger] q[i]).contains(q[i + 1]) by {
        if i < p.len() - 1 {
            assert(g.edges(p[i]).contains(p[i + 1]));
        }
    }
}

/// Where every marked node is done and every start node is marked, every
/// node that can be reached is marked.
pub proof fn lemma_closed_marks_all<G: Graph>(
    g: &G,
    starts: Seq<G::Node>,
    marks: Seq<bool>,
    p: Seq<G::Node>,
)
    requires
        forall|k: int| 0 <= k < starts.len() ==> g.valid(#[trigger] starts[k]) && marks[g.slot(
            starts[k],
        )],
        marks_closed(g, marks, Seq::<G::Node>::empty(), None),
        is_walk(g, p),
        starts.contains(p[0]),
    ensures
        g.valid(p.last()),
        marks[g.slot(p.last())],
    decreases p.len(),
{
    if p.len() == 1 {
        let k = choose|k: int| 0 <= k < starts.len() && starts[k] == p[0];
        assert(g.valid(starts[k]));
    } else {
        let q = p.drop_last();
        assert forall|i: int| 0 <= i < q.len() - 1 implies g.edges(#[trigger] q[i]).contains(
            q[i + 1],
        ) by {
            assert(g.edges(p[i]).contains(p[i + 1]));
        }
        lemma_closed_marks_all(g, starts, marks, q);
        let u = q.last();
        assert(u == p[p.len() - 2]);
        assert(g.edges(p[p.len() - 2]).contains(p[p.len() - 2 + 1]));
        let k = choose|k: int| 0 <= k < g.edges(u).len() && g.edges(u)[k] == p.last();
        g.lemma_edges_valid(u, k);
        assert(!Seq::<G::Node>::empty().contains(u));
        assert(done(g, marks, u));
    }
}

/// Marks a node that can be reached and puts it on the waiting list.
fn mark<G: Graph>(
    g: &G,
    marks: &mut Vec<bool>,
    waiting: &mut Vec<G::Node>,
    n: G::Node,
    Ghost(starts): Ghost<Seq<G::Node>>,
    Ghost(current): Ghost<Option<G::Node>>,
)
    requires
        g.valid(n),
        reaches(g, starts, n),
        old(marks)@.len() == g.size(),
        marks_sound(g, starts, old(marks)@),
        waiting_ok(g, old(marks)@, old(waiting)@),
        marks_closed(g, old(marks)@, old(waiting)@, current),
    ensures
        final(marks)@.len() == g.size(),
        marks_sound(g, starts, final(marks)@),
        waiting_ok(g, final(marks)@, final(waiting)@),
        marks_closed(g, final(marks)@, final(waiting)@, current),
        final(marks)@[g.slot(n)],
        forall|i: int| 0 <= i < old(marks)@.len() && old(marks)@[i] ==> final(marks)@[i],
        count_true(final(marks)@) - count_true(old(marks)@) == final(waiting)@.len() - old(
            waiting,
        )@.len(),
        final(waiting)@.len() >= old(waiting)@.len(),
        forall|k: int| 0 <= k < old(waiting)@.len() ==> final(waiting)@[k] == old(waiting)@[k],
{
    proof {
        g.lemma_slots(n, n);
    }
    let i = g.slot_of(&n);
    if marks[i] {
        return ;
    }
    let ghost before = marks@;
    let ghost queue = waiting@;
    marks[i] = true;
    waiting.push(n);
    proof {
        lemma_count_true_set(before, i as int);
        assert forall|m: G::Node| g.valid(m) && #[trigger] marks@[g.slot(m)] implies reaches(
            g,
            starts,
            m,
        ) by {
            g.lemma_slots(m, n);
        }
        assert forall|k: int| 0 <= k < waiting@.len() implies g.valid(#[trigger] waiting@[k])
            && marks@[g.slot(waiting@[k])] by {
            if k < queue.len() {
                assert(waiting@[k] == queue[k]);
                g.lemma_slots(queue[k], n);
            }
        }
        assert forall|m: G::Node|
            g.valid(m) && marks@[g.slot(m)] && !waiting@.contains(m) && current != Some(
                m,
            ) implies #[trigger] done(g, marks@, m) by {
            g.lemma_slots(m, n);
            assert(waiting@[queue.len() as int] == n);
            assert(m != n);
            assert(!queue.contains(m)) by {
                if queue.contains(m) {
                    let k = choose|k: int| 0 <= k < queue.len() && queue[k] == m;
                    assert(waiting@[k] == m);
                }
            }
            assert(done(g, before, m));
            assert forall|k: int| 0 <= k < g.edges(m).len() implies marks@[g.slot(
                #[trigger] g.edges(m)[k],
            )] by {
                g.lemma_edges_valid(m, k);
                g.lemma_slots(g.edges(m)[k], n);
            }
        }
    }
}

/// Finds the nodes that can be reached from the start nodes. The result has
/// one flag per slot, set for the slots of the nodes that can be reached.
pub fn reachable<G: Graph>(g: &G, starts: &Vec<G::Node>) -> (marks: Vec<bool>)
    requires
        forall|k: int| 0 <= k < starts@.len() ==> g.valid(#[trigger] starts@[k]),
    ensures
        marks@.len() == g.size(),
        forall|n: G::Node| g.valid(n) ==> (#[trigger] marks@[g.slot(n)] <==> reaches(g, starts@, n)),
{
    let size = g.node_count();
    let mut marks: Vec<bool> = filled(false, size);
    let mut waiting: Vec<G::Node> = Vec::new();
    proof {
        assert forall|n: G::Node| g.valid(n) implies !#[trigger] marks@[g.slot(n)] by {
            g.lemma_slots(n, n);
        }
    }
    let mut s: usize = 0;
    while s < starts.len()
        invariant
            s <= starts@.len(),
            forall|k: int| 0 <= k < starts@.len() ==> g.valid(#[trigger] starts@[k]),
            marks@.len() == g.size(),
            marks_sound(g, starts@, marks@),
            waiting_ok(g, marks@, waiting@),
            marks_closed(g, marks@, waiting@, None),
            forall|k: int| 0 <= k < s ==> marks@[g.slot(#[trigger] starts@[k])],
        decreases starts@.len() - s,
    {
        let n = starts[s];
        proof {
            let p = seq![n];
            assert(is_walk(g, p));
            assert(starts@[s as int] == n);
            assert(p[0] == n && p.last() == n);
            assert(reaches(g, starts@, n));
            assert forall|k: int| 0 <= k < s implies 0 <= g.slot(#[trigger] starts@[k])
                < marks@.len() by {
                g.lemma_slots(starts@[k], starts@[k]);
            }
        }
        mark(g, &mut marks, &mut waiting, n, Ghost(starts@), Ghost(None));
        s += 1;
    }
    loop
        invariant
            forall|k: int| 0 <= k < starts@.len() ==> g.valid(#[trigger] starts@[k]),
            marks@.len() == g.size(),
            marks_sound(g, starts@, marks@),
            waiting_ok(g, marks@, waiting@),
            marks_closed(g, marks@, waiting@, None),
            forall|k: int| 0 <= k < starts@.len() ==> marks@[g.slot(#[trigger] starts@[k])],
        ensures
            marks@.len() == g.size(),
            marks_sound(g, starts@, marks@),
            marks_closed(g, marks@, Seq::<G::Node>::empty(), None),
            forall|k: int| 0 <= k < starts@.len() ==> marks@[g.slot(#[trigger] starts@[k])],
        decreases g.size() - count_true(marks@), waiting@.len(),
    {
        proof {
            lemma_count_true_bound(marks@);
        }
        let ghost queue = waiting@;
        let ghost marked = count_true(marks@);
        let u = match waiting.pop() {
            None => {
                assert(waiting@ =~= Seq::<G::Node>::empty());
                break ;
            },
            Some(u) => u,
        };
        assert(queue[queue.len() - 1] == u);
        assert(queue =~= waiting@.push(u));
        proof {
            assert forall|n: G::Node|
                g.valid(n) && marks@[g.slot(n)] && !waiting@.contains(n) && Some(u) != Some(
                    n,
                ) implies #[trigger] done(g, marks@, n) by {
                assert(!queue.contains(n)) by {
                    if queue.contains(n) {
                        let k = choose|k: int| 0 <= k < queue.len() && queue[k] == n;
                        if k < waiting@.len() {
                            assert(waiting@[k] == n);
                        }
                    }
                }
            }
            assert forall|k: int| 0 <= k < waiting@.len() implies g.valid(#[trigger] waiting@[k])
                && marks@[g.slot(waiting@[k])] by {
                assert(queue[k] == waiting@[k]);
            }
        }
        let next = g.neighbours(&u);
        let mut k: usize = 0;
        while k < next.len()
            invariant
                k <= next@.len(),
                next@ == g.edges(u),
                g.valid(u),
                marks@[g.slot(u)],
                forall|j: int| 0 <= j < starts@.len() ==> g.valid(#[trigger] starts@[j]),
                marks@.len() == g.size(),
                marks_sound(g, starts@, marks@),
                waiting_ok(g, marks@, waiting@),
                marks_closed(g, marks@, waiting@, Some(u)),
                forall|j: int| 0 <= j < starts@.len() ==> marks@[g.slot(#[trigger] starts@[j])],
                forall|j: int| 0 <= j < k ==> marks@[g.slot(#[trigger] g.edges(u)[j])],
                count_true(marks@) - marked == waiting@.len() - (queue.len() - 1),
                waiting@.len() >= queue.len() - 1,
            decreases next@.len() - k,
        {
            let v = next[k];
            proof {
                g.lemma_edges_valid(u, k as int);
                g.lemma_slots(u, u);
                assert(reaches(g, starts@, u));
                let p = choose|p: Seq<G::Node>|
                    is_walk(g, p) && starts@.contains(p[0]) && p.last() == u;
                assert(g.edges(u)[k as int] == v);
                lemma_walk_push(g, p, v);
                assert(reaches(g, starts@, v));
                assert forall|j: int| 0 <= j < k implies 0 <= g.slot(#[trigger] g.edges(u)[j])
                    < marks@.len() by {
                    g.lemma_edges_valid(u, j);
                    g.lemma_slots(g.edges(u)[j], u);
                }
                assert forall|j: int| 0 <= j < starts@.len() implies 0 <= g.slot(
                    #[trigger] starts@[j],
                ) < marks@.len() by {
                    g.lemma_slots(starts@[j], u);
                }
            }
            mark(g, &mut marks, &mut waiting, v, Ghost(starts@), Ghost(Some(u)));
            k += 1;
        }
        proof {
            assert(done(g, marks@, u));
            lemma_count_true_bound(marks@);
        }
    }
    proof {
        assert forall|n: G::Node| g.valid(n) && reaches(g, starts@, n) implies #[trigger] marks@[g.slot(
            n,
        )] by {
            let p = choose|p: Seq<G::Node>|
                is_walk(g, p) && starts@.contains(p[0]) && p.last() == n;
            lemma_closed_marks_all(g, starts@, marks@, p);
        }
    }
    marks
}

/// Some walk of at most `k` edges leads from `start` to the node.
pub open spec fn within<G: Graph>(g: &G, start: G::Node, n: G::Node, k: nat) -> bool {
    exists|p: Seq<G::Node>|
        #[trigger] is_walk(g, p) && p[0] == start && p.last() == n && p.len() <= k + 1
}

/// The shortest walk from `start` to the node has `d` edges.
pub open spec fn at_distance<G: Graph>(g: &G, start: G::Node, n: G::Node, d: nat) -> bool {
    within(g, start, n, d) && (d > 0 ==> !within(g, start, n, (d - 1) as nat))
}

/// A walk of at most `k` edges is a walk of at most `m` edges if `m` is no
/// less than `k`.
pub proof fn lemma_within_more<G: Graph>(g: &G, start: G::Node, n: G::Node, k: nat, m: nat)
    requires
        k <= m,
        within(g, start, n, k),
    ensures
        within(g, start, n, m),
{
    let p = choose|p: Seq<G::Node>|
        #[trigger] is_walk(g, p) && p[0] == start && p.last() == n && p.len() <= k + 1;
    assert(is_walk(g, p) && p[0] == start && p.last() == n && p.len() <= m + 1);
}

/// One more edge leads one step further.
pub proof fn lemma_within_step<G: Graph>(g: &G, start: G::Node, u: G::Node, v: G::Node, k: nat)
    requires
        within(g, start, u, k),
        g.edges(u).contains(v),
    ensures
        within(g, start, v, k + 1),
{
    let p = choose|p: Seq<G::Node>|
        #[trigger] is_walk(g, p) && p[0] == start && p.last() == u && p.len() <= k + 1;
    lemma_walk_push(g, p, v);
    let q = p.push(v);
    assert(is_walk(g, q) && q[0] == start && q.last() == v && q.len() <= k + 2);
}

/// Only the start is no edge away from the start.
pub proof fn lemma_within_zero<G: Graph>(g: &G, start: G::Node, n: G::Node)
    ensures
        within(g, start, n, 0) <==> n == start,
{
    if n == start {
        let p = seq![start];
        assert(is_walk(g, p) && p[0] == start && p.last() == n && p.len() <= 1);
    }
    if within(g, start, n, 0) {
        let p = choose|p: Seq<G::Node>|
            #[trigger] is_walk(g, p) && p[0] == start && p.last() == n && p.len() <= 1;
        assert(p.last() == p[0]);
    }
}

/// A node that is `k + 1` edges away, and no less, hangs on a node that is
/// at most `k` edges away.
pub proof fn lemma_within_split<G: Graph>(g: &G, start: G::Node, n: G::Node, k: nat) -> (u:
    G::Node)
    requires
        within(g, start, n, k + 1),
        !within(g, start, n, k),
    ensures
        within(g, start, u, k),
        g.edges(u).contains(n),
{
    let p = choose|p: Seq<G::Node>|
        #[trigger] is_walk(g, p) && p[0] == start && p.last() == n && p.len() <= k + 2;
    if p.len() <= k + 1 {
        assert(is_walk(g, p) && p[0] == start && p.last() == n && p.len() <= k + 1);
    }
    let q = p.drop_last();
    assert forall|i: int| 0 <= i < q.len() - 1 implies g.edges(#[trigger] q[i]).contains(
        q[i + 1],
    ) by {
        assert(g.edges(p[i]).contains(p[i + 1]));
    }
    assert(is_walk(g, q) && q[0] == start && q.len() <= k + 1);
    let u = q.last();
    assert(u == p[p.len() - 2]);
    assert(g.edges(p[p.len() - 2]).contains(p[p.len() - 2 + 1]));
    u
}

/// Every node on a walk from a node of the graph is a node of the graph.
pub proof fn lemma_within_valid<G: Graph>(g: &G, start: G::Node, n: G::Node, k: nat)
    requires
        g.valid(start),
        within(g, start, n, k),
    ensures
        g.valid(n),
    decreases k,
{
    if k == 0 {
        lemma_within_zero(g, start, n);
    } else if within(g, start, n, (k - 1) as nat) {
        lemma_within_valid(g, start, n, (k - 1) as nat);
    } else {
        let u = lemma_within_split(g, start, n, (k - 1) as nat);
        lemma_within_valid(g, start, u, (k - 1) as nat);
        let j = choose|j: int| 0 <= j < g.edges(u).len() && g.edges(u)[j] == n;
        g.lemma_edges_valid(u, j);
    }
}

/// Every recorded distance is the length of a shortest walk, and is at most
/// `level`.
pub open spec fn dist_sound<G: Graph>(g: &G, start: G::Node, dist: Seq<Option<usize>>, level: nat) -> bool {
    forall|n: G::Node|
        g.valid(n) && (#[trigger] dist[g.slot(n)]) is Some ==> dist[g.slot(n)].unwrap() <= level
            && at_distance(g, start, n, dist[g.slot(n)].unwrap() as nat)
}

/// Every node that is at most `level` edges away has a recorded distance.
pub open spec fn dist_complete<G: Graph>(g: &G, start: G::Node, dist: Seq<Option<usize>>, level: nat) -> bool {
    forall|n: G::Node| g.valid(n) && #[trigger] within(g, start, n, level) ==> dist[g.slot(n)] is Some
}

/// Every edge from the node leads to a node with a recorded distance.
pub open spec fn spread<G: Graph>(g: &G, dist: Seq<Option<usize>>, n: G::Node) -> bool {
    forall|k: int| 0 <= k < g.edges(n).len() ==> dist[g.slot(#[trigger] g.edges(n)[k])] is Some
}

/// Every node whose recorded distance is below `level` has spread it.
pub open spec fn dist_closed<G: Graph>(g: &G, dist: Seq<Option<usize>>, level: nat) -> bool {
    forall|n: G::Node|
        g.valid(n) && dist[g.slot(n)] is Some && dist[g.slot(n)].unwrap() < level
            ==> #[trigger] spread(g, dist, n)
}

/// The layer holds the nodes whose recorded distance is `level`, and no
/// others.
pub open spec fn layer_ok<G: Graph>(g: &G, dist: Seq<Option<usize>>, layer: Seq<G::Node>, level: nat) -> bool {
    &&& forall|k: int|
        0 <= k < layer.len() ==> g.valid(#[trigger] layer[k]) && dist[g.slot(layer[k])] == Some(
            level as usize,
        )
    &&& forall|n: G::Node|
        g.valid(n) && #[trigger] dist[g.slot(n)] == Some(level as usize) ==> layer.contains(n)
}

/// Once every node of a layer has spread its distance, every node that is
/// one edge further away has a recorded distance.
pub proof fn lemma_next_level<G: Graph>(
    g: &G,
    start: G::Node,
    dist: Seq<Option<usize>>,
    layer: Seq<G::Node>,
    level: nat,
)
    requires
        g.valid(start),
        dist.len() == g.size(),
        dist_sound(g, start, dist, level + 1),
        dist_complete(g, start, dist, level),
        dist_closed(g, dist, level),
        forall|n: G::Node|
            g.valid(n) && #[trigger] dist[g.slot(n)] == Some(level as usize) ==> layer.contains(n),
        forall|k: int| 0 <= k < layer.len() ==> g.valid(#[trigger] layer[k]) && spread(g, dist, layer[k]),
    ensures
        dist_complete(g, start, dist, level + 1),
        dist_closed(g, dist, level + 1),
{
    assert forall|n: G::Node|
        g.valid(n) && dist[g.slot(n)] is Some && dist[g.slot(n)].unwrap() < level
            + 1 implies #[trigger] spread(g, dist, n) by {
        if dist[g.slot(n)].unwrap() == level {
            assert(dist[g.slot(n)] == Some(level as usize));
            let k = choose|k: int| 0 <= k < layer.len() && layer[k] == n;
            assert(spread(g, dist, layer[k]));
        }
    }
    assert forall|n: G::Node| g.valid(n) && #[trigger] within(g, start, n, level + 1) implies dist[g.slot(
        n,
    )] is Some by {
        if !within(g, start, n, level) {
            let u = lemma_within_split(g, start, n, level);
            lemma_within_valid(g, start, u, level);
            assert(dist[g.slot(u)] is Some);
            g.lemma_slots(u, u);
            assert(spread(g, dist, u));
            let j = choose|j: int| 0 <= j < g.edges(u).len() && g.edges(u)[j] == n;
            assert(dist[g.slot(g.edges(u)[j])] is Some);
        }
    }
}

/// Once there is no node whose recorded distance is `level`, every node that
/// any number of edges away has a recorded distance.
pub proof fn lemma_last_level<G: Graph>(
    g: &G,
    start: G::Node,
    dist: Seq<Option<usize>>,
    level: nat,
    k: nat,
    n: G::Node,
)
    requires
        g.valid(start),
        dist.len() == g.size(),
        dist_sound(g, start, dist, level),
        dist_complete(g, start, dist, level),
        dist_closed(g, dist, level),
        forall|m: G::Node| g.valid(m) ==> #[trigger] dist[g.slot(m)] != Some(level as usize),
        within(g, start, n, k),
    ensures
        g.valid(n),
        dist[g.slot(n)] is Some,
    decreases k,
{
    lemma_within_valid(g, start, n, k);
    if k <= level {
        lemma_within_more(g, start, n, k, level);
    } else if within(g, start, n, (k - 1) as nat) {
        lemma_last_level(g, start, dist, level, (k - 1) as nat, n);
    } else {
        let u = lemma_within_split(g, start, n, (k - 1) as nat);
        lemma_last_level(g, start, dist, level, (k - 1) as nat, u);
        g.lemma_slots(u, u);
        assert(dist[g.slot(u)].unwrap() <= level);
        assert(dist[g.slot(u)] != Some(level as usize));
        assert(spread(g, dist, u));
        let j = choose|j: int| 0 <= j < g.edges(u).len() && g.edges(u)[j] == n;
        assert(dist[g.slot(g.edges(u)[j])] is Some);
    }
}

/// How many entries of a sequence are not `None`.
pub open spec fn count_some(s: Seq<Option<usize>>) -> nat
    decreases s.len(),
{
    if s.len() == 0 {
        0
    } else {
        count_some(s.drop_last()) + if s.last() is Some {
            1nat
        } else {
            0nat
        }
    }
}

/// No more entries are recorded than there are entries.
pub proof fn lemma_count_some_bound(s: Seq<Option<usize>>)
    ensures
        count_some(s) <= s.len(),
    decreases s.len(),
{
    if s.len() > 0 {
        lemma_count_some_bound(s.drop_last());
    }
}

/// Recording an entry that was `None` raises the count by one.
pub proof fn lemma_count_some_set(s: Seq<Option<usize>>, i: int, v: usize)
    requires
        0 <= i < s.len(),
        s[i] is None,
    ensures
        count_some(s.update(i, Some(v))) == count_some(s) + 1,
    decreases s.len(),
{
    let s2 = s.update(i, Some(v));
    if i == s.len() - 1 {
        assert(s2.drop_last() =~= s.drop_last());
    } else {
        assert(s2.drop_last() =~= s.drop_last().update(i, Some(v)));
        lemma_count_some_set(s.drop_last(), i, v);
    }
}

/// Records the distance of a node that hangs on a node of the current layer,
/// unless it has one already.
fn record<G: Graph>(
    g: &G,
    dist: &mut Vec<Option<usize>>,
    next: &mut Vec<G::Node>,
    v: G::Node,
    level: usize,
    Ghost(start): Ghost<G::Node>,
)
    requires
        g.valid(start),
        g.valid(v),
        level < usize::MAX,
        within(g, start, v, (level + 1) as nat),
        old(dist)@.len() == g.size(),
        dist_sound(g, start, old(dist)@, (level + 1) as nat),
        dist_complete(g, start, old(dist)@, level as nat),
        layer_ok(g, old(dist)@, old(next)@, (level + 1) as nat),
    ensures
        final(dist)@.len() == g.size(),
        dist_sound(g, start, final(dist)@, (level + 1) as nat),
        dist_complete(g, start, final(dist)@, level as nat),
        layer_ok(g, final(dist)@, final(next)@, (level + 1) as nat),
        final(dist)@[g.slot(v)] is Some,
        forall|i: int|
            0 <= i < old(dist)@.len() && old(dist)@[i] is Some ==> final(dist)@[i] == old(dist)@[i],
        forall|i: int|
            0 <= i < old(dist)@.len() && final(dist)@[i] is Some && old(dist)@[i] is None
                ==> final(dist)@[i] == Some((level + 1) as usize),
        count_some(final(dist)@) - count_some(old(dist)@) == final(next)@.len() - old(next)@.len(),
        final(next)@.len() >= old(next)@.len(),
{
    proof {
        g.lemma_slots(v, v);
    }
    let i = g.slot_of(&v);
    if dist[i].is_some() {
        return ;
    }
    let ghost before = dist@;
    let ghost queue = next@;
    dist[i] = Some(level + 1);
    next.push(v);
    proof {
        lemma_count_some_set(before, i as int, (level + 1) as usize);
        assert(!within(g, start, v, level as nat));
        assert forall|n: G::Node|
            g.valid(n) && (#[trigger] dist@[g.slot(n)]) is Some implies dist@[g.slot(n)].unwrap()
            <= level + 1 && at_distance(g, start, n, dist@[g.slot(n)].unwrap() as nat) by {
            g.lemma_slots(n, v);
            if n != v {
                assert(before[g.slot(n)] is Some);
            }
        }
        assert forall|n: G::Node| g.valid(n) && #[trigger] within(g, start, n, level as nat) implies dist@[g.slot(
            n,
        )] is Some by {
            g.lemma_slots(n, v);
        }
        assert forall|k: int| 0 <= k < next@.len() implies g.valid(#[trigger] next@[k]) && dist@[g.slot(
            next@[k],
        )] == Some((level + 1) as usize) by {
            if k < queue.len() {
                assert(next@[k] == queue[k]);
                g.lemma_slots(queue[k], v);
            }
        }
        assert forall|n: G::Node|
            g.valid(n) && #[trigger] dist@[g.slot(n)] == Some(
                (level + 1) as usize,
            ) implies next@.contains(n) by {
            g.lemma_slots(n, v);
            if n == v {
                assert(next@[queue.len() as int] == v);
            } else {
                assert(before[g.slot(n)] == Some((level + 1) as usize));
                let k = choose|k: int| 0 <= k < queue.len() && queue[k] == n;
                assert(next@[k] == n);
            }
        }
    }
}

/// Finds, for every node, how many edges the shortest walk from `start` to
/// it has. The result has one entry per slot: the number of edges for a node
/// that can be reached, `None` for one that cannot.
pub fn distances<G: Graph>(g: &G, start: G::Node) -> (dist: Vec<Option<usize>>)
    requires
        g.valid(start),
    ensures
        dist@.len() == g.size(),
        forall|n: G::Node|
            g.valid(n) ==> match #[trigger] dist@[g.slot(n)] {
                Some(d) => at_distance(g, start, n, d as nat),
                None => forall|k: nat| !within(g, start, n, k),
            },
{
    let size = g.node_count();
    let mut dist: Vec<Option<usize>> = filled(None, size);
    proof {
        g.lemma_slots(start, start);
        lemma_within_zero(g, start, start);
    }
    let s = g.slot_of(&start);
    let ghost empty = dist@;
    dist[s] = Some(0);
    let mut layer: Vec<G::Node> = Vec::new();
    layer.push(start);
    let mut level: usize = 0;
    proof {
        lemma_count_some_set(empty, s as int, 0);
        assert forall|n: G::Node|
            g.valid(n) && (#[trigger] dist@[g.slot(n)]) is Some implies dist@[g.slot(n)].unwrap()
            <= 0 && at_distance(g, start, n, dist@[g.slot(n)].unwrap() as nat) by {
            g.lemma_slots(n, start);
        }
        assert forall|n: G::Node| g.valid(n) && #[trigger] within(g, start, n, 0) implies dist@[g.slot(
            n,
        )] is Some by {
            lemma_within_zero(g, start, n);
        }
        assert forall|n: G::Node| g.valid(n) && #[trigger] dist@[g.slot(n)] == Some(
            0usize,
        ) implies layer@.contains(n) by {
            g.lemma_slots(n, start);
            assert(layer@[0] == start);
        }
        lemma_count_some_bound(empty);
    }
    loop
        invariant
            g.valid(start),
            size == g.size(),
            dist@.len() == g.size(),
            dist_sound(g, start, dist@, level as nat),
            dist_complete(g, start, dist@, level as nat),
            dist_closed(g, dist@, level as nat),
            layer_ok(g, dist@, layer@, level as nat),
            layer@.len() > 0 ==> level < count_some(dist@),
        ensures
            dist@.len() == g.size(),
            dist_sound(g, start, dist@, level as nat),
            dist_complete(g, start, dist@, level as nat),
            dist_closed(g, dist@, level as nat),
            forall|m: G::Node| g.valid(m) ==> #[trigger] dist@[g.slot(m)] != Some(level),
        decreases g.size() - count_some(dist@), layer@.len(),
    {
        proof {
            lemma_count_some_bound(dist@);
        }
        if layer.len() == 0 {
            proof {
                assert forall|m: G::Node| g.valid(m) implies #[trigger] dist@[g.slot(m)] != Some(
                    level,
                ) by {
                    if dist@[g.slot(m)] == Some(level) {
                        assert(layer@.contains(m));
                    }
                }
            }
            break ;
        }
        let ghost recorded = count_some(dist@);
        let mut next: Vec<G::Node> = Vec::new();
        let mut i: usize = 0;
        proof {
            assert forall|n: G::Node|
                g.valid(n) && (#[trigger] dist@[g.slot(n)]) is Some implies dist@[g.slot(
                n,
            )].unwrap() <= level + 1 && at_distance(
                g,
                start,
                n,
                dist@[g.slot(n)].unwrap() as nat,
            ) by {}
            assert forall|n: G::Node|
                g.valid(n) && #[trigger] dist@[g.slot(n)] == Some(
                    (level + 1) as usize,
                ) implies next@.contains(n) by {
                assert(dist@[g.slot(n)].unwrap() <= level);
            }
        }
        while i < layer.len()
            invariant
                i <= layer@.len(),
                g.valid(start),
                size == g.size(),
                level < size,
                dist@.len() == g.size(),
                dist_sound(g, start, dist@, (level + 1) as nat),
                dist_complete(g, start, dist@, level as nat),
                dist_closed(g, dist@, level as nat),
                layer_ok(g, dist@, layer@, level as nat),
                layer_ok(g, dist@, next@, (level + 1) as nat),
                forall|k: int| 0 <= k < i ==> spread(g, dist@, #[trigger] layer@[k]),
                count_some(dist@) - recorded == next@.len(),
            decreases layer@.len() - i,
        {
            let u = layer[i];
            let around = g.neighbours(&u);
            let mut j: usize = 0;
            while j < around.len()
                invariant
                    j <= around@.len(),
                    i < layer@.len(),
                    u == layer@[i as int],
                    around@ == g.edges(u),
                    g.valid(start),
                    g.valid(u),
                    size == g.size(),
                    level < size,
                    dist@.len() == g.size(),
                    dist@[g.slot(u)] == Some(level),
                    dist_sound(g, start, dist@, (level + 1) as nat),
                    dist_complete(g, start, dist@, level as nat),
                    dist_closed(g, dist@, level as nat),
                    layer_ok(g, dist@, layer@, level as nat),
                    layer_ok(g, dist@, next@, (level + 1) as nat),
                    forall|k: int| 0 <= k < i ==> spread(g, dist@, #[trigger] layer@[k]),
                    forall|k: int| 0 <= k < j ==> dist@[g.slot(#[trigger] g.edges(u)[k])] is Some,
                    count_some(dist@) - recorded == next@.len(),
                decreases around@.len() - j,
            {
                let v = around[j];
                let ghost before = dist@;
                proof {
                    g.lemma_edges_valid(u, j as int);
                    g.lemma_slots(u, u);
                    assert(g.edges(u)[j as int] == v);
                    lemma_within_step(g, start, u, v, level as nat);
                    assert forall|k: int| 0 <= k < j implies 0 <= g.slot(
                        #[trigger] g.edges(u)[k],
                    ) < dist@.len() by {
                        g.lemma_edges_valid(u, k);
                        g.lemma_slots(g.edges(u)[k], u);
                    }
                }
                record(g, &mut dist, &mut next, v, level, Ghost(start));
                proof {
                    lemma_keeps_spread(g, before, dist@, layer@, i as int, level as nat);
                }
                j += 1;
            }
            assert(spread(g, dist@, u));
            i += 1;
        }
        proof {
            lemma_next_level(g, start, dist@, layer@, level as nat);
            lemma_count_some_bound(dist@);
        }
        layer = next;
        level = level + 1;
    }
    proof {
        assert forall|n: G::Node| g.valid(n) implies match #[trigger] dist@[g.slot(n)] {
            Some(d) => at_distance(g, start, n, d as nat),
            None => forall|k: nat| !within(g, start, n, k),
        } by {
            if dist@[g.slot(n)] is None {
                assert forall|k: nat| !within(g, start, n, k) by {
                    if within(g, start, n, k) {
                        lemma_last_level(g, start, dist@, level as nat, k, n);
                    }
                }
            }
        }
    }
    dist
}

/// Distances that are only added to keep what was spread and closed.
proof fn lemma_keeps_spread<G: Graph>(
    g: &G,
    before: Seq<Option<usize>>,
    after: Seq<Option<usize>>,
    layer: Seq<G::Node>,
    i: int,
    level: nat,
)
    requires
        level < usize::MAX,
        before.len() == g.size(),
        after.len() == g.size(),
        forall|k: int| 0 <= k < before.len() && before[k] is Some ==> after[k] == before[k],
        forall|k: int|
            0 <= k < before.len() && after[k] is Some && before[k] is None ==> after[k] == Some(
                (level + 1) as usize,
            ),
        dist_closed(g, before, level),
        0 <= i <= layer.len(),
        forall|k: int| 0 <= k < layer.len() ==> g.valid(#[trigger] layer[k]),
        forall|k: int| 0 <= k < i ==> spread(g, before, #[trigger] layer[k]),
    ensures
        dist_closed(g, after, level),
        forall|k: int| 0 <= k < i ==> spread(g, after, #[trigger] layer[k]),
{
    assert forall|n: G::Node|
        g.valid(n) && after[g.slot(n)] is Some && after[g.slot(n)].unwrap()
            < level implies #[trigger] spread(g, after, n) by {
        g.lemma_slots(n, n);
        let at = g.slot(n);
        if before[at] is None {
            assert(after[at] is Some && before[at] is None);
            assert(after[at] == Some((level + 1) as usize));
        }
        assert(before[at] is Some);
        assert(after[at] == before[at]);
        assert(spread(g, before, n));
        assert forall|k: int| 0 <= k < g.edges(n).len() implies after[g.slot(
            #[trigger] g.edges(n)[k],
        )] is Some by {
            g.lemma_edges_valid(n, k);
            g.lemma_slots(g.edges(n)[k], n);
        }
    }
    assert forall|k: int| 0 <= k < i implies spread(g, after, #[trigger] layer[k]) by {
        let n = layer[k];
        assert(spread(g, before, n));
        assert forall|j: int| 0 <= j < g.edges(n).len() implies after[g.slot(
            #[trigger] g.edges(n)[j],
        )] is Some by {
            g.lemma_edges_valid(n, j);
            g.lemma_slots(g.edges(n)[j], n);
        }
    }
}

} // verus!
