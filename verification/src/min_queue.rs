//! A min-priority queue of `(priority, item)` pairs, kept as a binary heap.

use vstd::prelude::*;
use vstd::multiset::Multiset;

verus! {

/// The slot above slot `i` in the heap.
pub open spec fn parent(i: int) -> int {
    (i - 1) / 2
}

/// No entry has a lower priority than the entry above it.
pub open spec fn heap_ordered<T>(s: Seq<(u64, T)>) -> bool {
    forall|j: int| 1 <= j < s.len() ==> s[parent(j)].0 <= (#[trigger] s[j]).0
}

/// The heap order holds but perhaps between slot `i` and the slot above it,
/// and what hangs below `i` is no lower than what stands above `i`.
pub open spec fn ordered_but_above<T>(s: Seq<(u64, T)>, i: int) -> bool {
    &&& forall|j: int| 1 <= j < s.len() && j != i ==> s[parent(j)].0 <= (#[trigger] s[j]).0
    &&& forall|j: int|
        1 <= j < s.len() && parent(j) == i && i > 0 ==> s[parent(i)].0 <= (#[trigger] s[j]).0
}

/// The heap order holds but perhaps between slot `i` and the slots below it,
/// and what hangs below `i` is no lower than what stands above `i`.
pub open spec fn ordered_but_below<T>(s: Seq<(u64, T)>, i: int) -> bool {
    &&& forall|j: int| 1 <= j < s.len() && parent(j) != i ==> s[parent(j)].0 <= (#[trigger] s[j]).0
    &&& forall|j: int|
        1 <= j < s.len() && parent(j) == i && i > 0 ==> s[parent(i)].0 <= (#[trigger] s[j]).0
}

/// The sequence with the entries of slots `i` and `j` exchanged.
pub open spec fn swapped<T>(s: Seq<(u64, T)>, i: int, j: int) -> Seq<(u64, T)> {
    s.update(i, s[j]).update(j, s[i])
}

/// Replacing one entry takes it out of the multiset and puts the new one in.
pub proof fn lemma_update_multiset<T>(s: Seq<(u64, T)>, i: int, x: (u64, T))
    requires
        0 <= i < s.len(),
    ensures
        s.update(i, x).to_multiset() == s.to_multiset().remove(s[i]).insert(x),
{
    broadcast use vstd::seq_lib::group_to_multiset_ensures;

    let u = s.update(i, x);
    assert(u.remove(i) =~= s.remove(i));
    assert(u.to_multiset().remove(x) == s.to_multiset().remove(s[i]));
    assert(u.contains(x)) by {
        assert(u[i] == x);
    }
    assert(u.to_multiset() =~= u.to_multiset().remove(x).insert(x));
}

/// Exchanging two entries keeps the multiset.
pub proof fn lemma_swap_multiset<T>(s: Seq<(u64, T)>, i: int, j: int)
    requires
        0 <= i < s.len(),
        0 <= j < s.len(),
    ensures
        swapped(s, i, j).to_multiset() == s.to_multiset(),
{
    broadcast use vstd::seq_lib::group_to_multiset_ensures;

    if i == j {
        assert(swapped(s, i, j) =~= s);
    } else {
        let s1 = s.update(i, s[j]);
        lemma_update_multiset(s, i, s[j]);
        lemma_update_multiset(s1, j, s[i]);
        assert(s.contains(s[i])) by {
            assert(s[i] == s[i]);
        }
        assert(s.contains(s[j])) by {
            assert(s[j] == s[j]);
        }
        assert(swapped(s, i, j).to_multiset() =~= s.to_multiset());
    }
}

/// In a heap no entry has a lower priority than the first.
pub proof fn lemma_root_least<T>(s: Seq<(u64, T)>, i: int)
    requires
        heap_ordered(s),
        0 <= i < s.len(),
    ensures
        s[0].0 <= s[i].0,
    decreases i,
{
    if i > 0 {
        assert(s[parent(i)].0 <= s[i].0);
        lemma_root_least(s, parent(i));
    }
}

/// Moving a low entry one slot up keeps the order everywhere but above its
/// new slot.
proof fn lemma_step_up<T>(s: Seq<(u64, T)>, i: int)
    requires
        1 <= i < s.len(),
        ordered_but_above(s, i),
        s[i].0 < s[parent(i)].0,
    ensures
        ordered_but_above(swapped(s, parent(i), i), parent(i)),
{
    let p = parent(i);
    let t = swapped(s, p, i);
    assert forall|j: int| 1 <= j < t.len() && j != p implies t[parent(j)].0 <= (#[trigger] t[j]).0 by {
        if j == i {
        } else if parent(j) == i {
            assert(s[parent(i)].0 <= s[j].0);
        } else if parent(j) == p {
            assert(s[parent(j)].0 <= s[j].0);
        } else {
            assert(s[parent(j)].0 <= s[j].0);
        }
    }
    assert forall|j: int| 1 <= j < t.len() && parent(j) == p && p > 0 implies t[parent(p)].0 <= (
    #[trigger] t[j]).0 by {
        assert(s[parent(p)].0 <= s[p].0);
        if j != i {
            assert(s[parent(j)].0 <= s[j].0);
        }
    }
}

/// Moving a high entry one slot down, below the lower of the entries that
/// hang from it, keeps the order everywhere but below its new slot.
proof fn lemma_step_down<T>(s: Seq<(u64, T)>, i: int, c: int)
    requires
        0 <= i < c < s.len(),
        parent(c) == i,
        ordered_but_below(s, i),
        s[c].0 < s[i].0,
        forall|j: int| 1 <= j < s.len() && parent(j) == i ==> s[c].0 <= (#[trigger] s[j]).0,
    ensures
        ordered_but_below(swapped(s, i, c), c),
{
    let t = swapped(s, i, c);
    assert forall|j: int| 1 <= j < t.len() && parent(j) != c implies t[parent(j)].0 <= (
    #[trigger] t[j]).0 by {
        if j == c {
        } else if parent(j) == i {
            assert(s[c].0 <= s[j].0);
        } else if j == i {
            assert(s[parent(i)].0 <= s[c].0);
        } else {
            assert(s[parent(j)].0 <= s[j].0);
        }
    }
    assert forall|j: int| 1 <= j < t.len() && parent(j) == c && c > 0 implies t[parent(c)].0 <= (
    #[trigger] t[j]).0 by {
        assert(s[parent(j)].0 <= s[j].0);
    }
}

/// A queue that hands out its entries in order of ascending priority.
pub struct MinQueue<T> {
    entries: Vec<(u64, T)>,
}

impl<T: Copy> MinQueue<T> {
    /// The entries waiting in the queue.
    pub closed spec fn view(&self) -> Multiset<(u64, T)> {
        self.entries@.to_multiset()
    }

    /// The entries are in heap order.
    pub closed spec fn wf(&self) -> bool {
        heap_ordered(self.entries@)
    }

    /// An empty queue.
    pub fn new() -> (q: Self)
        ensures
            q.wf(),
            q@ == Multiset::<(u64, T)>::empty(),
    {
        let q = MinQueue { entries: Vec::new() };
        assert(q.entries@.to_multiset() =~= Multiset::<(u64, T)>::empty()) by {
            broadcast use vstd::seq_lib::group_to_multiset_ensures;

        }
        q
    }

    /// The number of entries waiting.
    pub fn len(&self) -> (n: usize)
        ensures
            n == self@.len(),
    {
        proof {
            broadcast use vstd::seq_lib::group_to_multiset_ensures;

        }
        self.entries.len()
    }

    /// Exchanges the entries of two slots.
    fn swap(&mut self, i: usize, j: usize)
        requires
            i < old(self).entries@.len(),
            j < old(self).entries@.len(),
        ensures
            final(self).entries@ == swapped(old(self).entries@, i as int, j as int),
            final(self)@ == old(self)@,
    {
        proof {
            lemma_swap_multiset(self.entries@, i as int, j as int);
        }
        let a = self.entries[i];
        let b = self.entries[j];
        self.entries[i] = b;
        self.entries[j] = a;
    }

    /// Adds an entry.
    pub fn push(&mut self, priority: u64, item: T)
        requires
            old(self).wf(),
        ensures
            final(self).wf(),
            final(self)@ == old(self)@.insert((priority, item)),
    {
        proof {
            broadcast use vstd::seq_lib::group_to_multiset_ensures;

        }
        self.entries.push((priority, item));
        assert(self.entries@ == old(self).entries@.push((priority, item)));
        let mut i: usize = self.entries.len() - 1;
        assert forall|j: int| 1 <= j < self.entries@.len() && j != i implies self.entries@[parent(
            j,
        )].0 <= (#[trigger] self.entries@[j]).0 by {
            assert(old(self).entries@[parent(j)].0 <= old(self).entries@[j].0);
        }
        while i > 0
            invariant
                i < self.entries@.len(),
                ordered_but_above(self.entries@, i as int),
                self@ == old(self)@.insert((priority, item)),
            ensures
                heap_ordered(self.entries@),
                self@ == old(self)@.insert((priority, item)),
            decreases i,
        {
            let above: usize = (i - 1) / 2;
            if self.entries[above].0 <= self.entries[i].0 {
                break ;
            }
            proof {
                lemma_step_up(self.entries@, i as int);
            }
            self.swap(above, i);
            i = above;
        }
    }

    /// Takes out an entry of least priority, or returns `None` if the queue
    /// is empty.
    pub fn pop_min(&mut self) -> (r: Option<(u64, T)>)
        requires
            old(self).wf(),
        ensures
            final(self).wf(),
            r is None <==> old(self)@.len() == 0,
            r is None ==> final(self)@ == old(self)@,
            r matches Some(e) ==> {
                &&& old(self)@.count(e) > 0
                &&& final(self)@ == old(self)@.remove(e)
                &&& forall|o: (u64, T)| old(self)@.count(o) > 0 ==> e.0 <= o.0
            },
    {
        proof {
            broadcast use vstd::seq_lib::group_to_multiset_ensures;

        }
        let ghost before = self.entries@;
        let n = self.entries.len();
        if n == 0 {
            return None;
        }
        let top = self.entries[0];
        proof {
            assert(before.contains(top)) by {
                assert(before[0] == top);
            }
            assert forall|o: (u64, T)| before.to_multiset().count(o) > 0 implies top.0 <= o.0 by {
                assert(before.contains(o));
                let k = choose|k: int| 0 <= k < before.len() && before[k] == o;
                lemma_root_least(before, k);
            }
        }
        let last = match self.entries.pop() {
            Some(last) => last,
            None => top,
        };
        assert(self.entries@ == before.remove(n - 1));
        if n == 1 {
            return Some(top);
        }
        let ghost shorter = self.entries@;
        self.entries[0] = last;
        proof {
            lemma_update_multiset(shorter, 0, last);
            assert(before.contains(last)) by {
                assert(before[n - 1] == last);
            }
            assert(self.entries@.to_multiset() =~= before.to_multiset().remove(top));
            assert forall|j: int| 1 <= j < self.entries@.len() && parent(j) != 0 implies self.entries@[parent(
                j,
            )].0 <= (#[trigger] self.entries@[j]).0 by {
                assert(before[parent(j)].0 <= before[j].0);
            }
        }
        let len = n - 1;
        let mut i: usize = 0;
        while i < len / 2
            invariant
                len == self.entries@.len(),
                i < len,
                ordered_but_below(self.entries@, i as int),
                self@ == before.to_multiset().remove(top),
            ensures
                heap_ordered(self.entries@),
                self@ == before.to_multiset().remove(top),
            decreases len - i,
        {
            let left: usize = 2 * i + 1;
            let right: usize = left + 1;
            let mut low: usize = left;
            if right < len && self.entries[right].0 < self.entries[left].0 {
                low = right;
            }
            assert forall|j: int| 1 <= j < len && parent(j) == i implies self.entries@[low as int].0
                <= (#[trigger] self.entries@[j]).0 by {
                assert(j == left || j == right);
            }
            if self.entries[i].0 <= self.entries[low].0 {
                break ;
            }
            proof {
                lemma_step_down(self.entries@, i as int, low as int);
            }
            self.swap(i, low);
            i = low;
        }
        Some(top)
    }
}

} // verus!
