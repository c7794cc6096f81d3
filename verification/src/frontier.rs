//! The frontier of a search: a priority queue of tiles that hands out the
//! tile with the lowest priority first, kept as a binary heap.

use vstd::prelude::*;
use vstd::multiset::Multiset;

verus! {

/// Index of the entry above entry `i` in a heap.
pub open spec fn above(i: int) -> int {
    (i - 1) / 2
}

/// Entry `i` has no lower priority than the entry above it.
pub open spec fn in_order(heap: Seq<(u128, usize)>, i: int) -> bool {
    heap[above(i)].0 <= heap[i].0
}

/// Entry `c`, right below entry `hole`, has no lower priority than the
/// entry above `hole`.
pub open spec fn spans(heap: Seq<(u128, usize)>, hole: int, c: int) -> bool {
    heap[above(hole)].0 <= heap[c].0
}

/// Each entry has no lower priority than the entry above it.
pub open spec fn is_heap(heap: Seq<(u128, usize)>) -> bool {
    forall|i: int| 1 <= i < heap.len() ==> #[trigger] in_order(heap, i)
}

/// A heap but for entry `hole`, which may have a lower priority than the
/// entry above it. The entries right below `hole` are in order with the
/// entry above it.
pub open spec fn heap_but(heap: Seq<(u128, usize)>, hole: int) -> bool {
    &&& forall|i: int| 1 <= i < heap.len() && i != hole ==> #[trigger] in_order(heap, i)
    &&& hole > 0 ==> forall|c: int|
        1 <= c < heap.len() && above(c) == hole ==> #[trigger] spans(heap, hole, c)
}

/// A heap but for entry `hole`, which may have a higher priority than the
/// entries right below it. Those entries are in order with the entry
/// above `hole`.
pub open spec fn heap_below(heap: Seq<(u128, usize)>, hole: int) -> bool {
    &&& forall|i: int| 1 <= i < heap.len() && above(i) != hole ==> #[trigger] in_order(heap, i)
    &&& hole > 0 ==> forall|c: int|
        1 <= c < heap.len() && above(c) == hole ==> #[trigger] spans(heap, hole, c)
}

/// The heap with entries `i` and `j` exchanged.
pub open spec fn exchanged(heap: Seq<(u128, usize)>, i: int, j: int) -> Seq<(u128, usize)> {
    heap.update(i, heap[j]).update(j, heap[i])
}

/// The first entry of a heap has the lowest priority of all.
pub proof fn lemma_heap_first_is_lowest(heap: Seq<(u128, usize)>, i: int)
    requires
        is_heap(heap),
        0 <= i < heap.len(),
    ensures
        heap[0].0 <= heap[i].0,
    decreases i,
{
    if i > 0 {
        lemma_heap_first_is_lowest(heap, above(i));
        assert(in_order(heap, i));
    }
}

/// An entry that is out of order with the one above it moves one place
/// up: the heap is then in order but for that place.
pub proof fn lemma_sift_up(heap: Seq<(u128, usize)>, i: int)
    requires
        heap_but(heap, i),
        1 <= i < heap.len(),
        heap[i].0 < heap[above(i)].0,
    ensures
        heap_but(exchanged(heap, above(i), i), above(i)),
{
    let up = above(i);
    let after = exchanged(heap, up, i);
    assert forall|j: int| 1 <= j < after.len() && j != up implies #[trigger] in_order(after, j) by {
        if j == i {
        } else if above(j) == i {
            assert(spans(heap, i, j));
        } else {
            assert(in_order(heap, j));
        }
    }
    if up > 0 {
        assert(in_order(heap, up));
        assert forall|c: int| 1 <= c < after.len() && above(c) == up implies #[trigger] spans(
            after,
            up,
            c,
        ) by {
            if c != i {
                assert(in_order(heap, c));
            }
        }
    }
}

/// A heap that is in order but for its first entry, or for an entry that
/// is in order with the one above it, is in order.
pub proof fn lemma_sift_up_done(heap: Seq<(u128, usize)>, i: int)
    requires
        heap_but(heap, i),
        0 <= i < heap.len(),
        i > 0 ==> heap[above(i)].0 <= heap[i].0,
    ensures
        is_heap(heap),
{
    assert forall|j: int| 1 <= j < heap.len() implies #[trigger] in_order(heap, j) by {}
}

/// An entry that is out of order with the lower of the entries below it
/// moves down to that entry's place: the heap is then in order but for
/// that place.
pub proof fn lemma_sift_down(heap: Seq<(u128, usize)>, i: int, least: int)
    requires
        heap_below(heap, i),
        0 <= i < heap.len(),
        i < least < heap.len(),
        above(least) == i,
        heap[least].0 < heap[i].0,
        forall|c: int| 1 <= c < heap.len() && above(c) == i ==> heap[least].0 <= (#[trigger] heap[c]).0,
    ensures
        heap_below(exchanged(heap, i, least), least),
{
    let after = exchanged(heap, i, least);
    assert forall|j: int| 1 <= j < after.len() && above(j) != least implies #[trigger] in_order(
        after,
        j,
    ) by {
        if j == least {
        } else if above(j) == i {
            assert(heap[least].0 <= heap[j].0);
        } else if j == i {
            assert(spans(heap, i, least));
        } else {
            assert(in_order(heap, j));
        }
    }
    assert forall|c: int| 1 <= c < after.len() && above(c) == least implies #[trigger] spans(
        after,
        least,
        c,
    ) by {
        assert(in_order(heap, c));
    }
}

/// A heap that is in order but for an entry that is in order with the
/// entries right below it is in order.
pub proof fn lemma_sift_down_done(heap: Seq<(u128, usize)>, i: int)
    requires
        heap_below(heap, i),
        0 <= i,
        forall|c: int| 1 <= c < heap.len() && above(c) == i ==> heap[i].0 <= (#[trigger] heap[c]).0,
    ensures
        is_heap(heap),
{
    assert forall|j: int| 1 <= j < heap.len() implies #[trigger] in_order(heap, j) by {
        if above(j) == i {
            assert(heap[i].0 <= heap[j].0);
        }
    }
}

/// Tiles waiting to be expanded, each with a priority.
#[derive(Debug)]
pub struct Frontier {
    heap: Vec<(u128, usize)>,
}

impl Frontier {
    /// The entries that wait, each a priority and the index of a tile. An
    /// entry may wait more than once.
    pub closed spec fn entries(&self) -> Multiset<(u128, usize)> {
        self.heap@.to_multiset()
    }

    /// The entries are in heap order.
    pub closed spec fn wf(&self) -> bool {
        is_heap(self.heap@)
    }

    /// A frontier in which nothing waits.
    pub fn new() -> (frontier: Self)
        ensures
            frontier.wf(),
            frontier.entries() == Multiset::<(u128, usize)>::empty(),
    {
        let frontier = Self { heap: Vec::new() };
        proof {
            broadcast use vstd::seq_lib::group_to_multiset_ensures;

            assert(frontier.heap@.to_multiset().len() == 0);
            assert(frontier.entries() =~= Multiset::<(u128, usize)>::empty());
        }
        frontier
    }

    /// How many entries wait.
    pub fn len(&self) -> (n: usize)
        ensures
            n == self.entries().len(),
    {
        proof {
            broadcast use vstd::seq_lib::group_to_multiset_ensures;

        }
        self.heap.len()
    }

    pub fn is_empty(&self) -> (b: bool)
        ensures
            b == (self.entries().len() == 0),
    {
        self.len() == 0
    }

    /// Exchanges two entries.
    fn swap(&mut self, i: usize, j: usize)
        requires
            i < old(self).heap@.len(),
            j < old(self).heap@.len(),
        ensures
            final(self).heap@ == exchanged(old(self).heap@, i as int, j as int),
            final(self).entries() == old(self).entries(),
    {
        let a: (u128, usize) = self.heap[i];
        let b: (u128, usize) = self.heap[j];
        proof {
            broadcast use vstd::seq_lib::group_to_multiset_ensures;

            let before = self.heap@;
            let halfway = before.update(i as int, b);
            assert(halfway.to_multiset() =~= before.to_multiset().insert(b).remove(a));
            assert(halfway.update(j as int, a).to_multiset() =~= halfway.to_multiset().insert(
                a,
            ).remove(halfway[j as int]));
            assert(before.to_multiset().count(a) > 0) by {
                assert(before.contains(a));
            }
            assert(before.to_multiset().count(b) > 0) by {
                assert(before.contains(b));
            }
            assert(halfway.update(j as int, a).to_multiset() =~= before.to_multiset());
        }
        self.heap.set(i, b);
        self.heap.set(j, a);
    }

    /// Lets the tile with index `index` wait at `priority`.
    pub fn push(&mut self, priority: u128, index: usize)
        requires
            old(self).wf(),
        ensures
            final(self).wf(),
            final(self).entries() == old(self).entries().insert((priority, index)),
    {
        proof {
            broadcast use vstd::seq_lib::group_to_multiset_ensures;

        }
        let ghost before = self.heap@;
        self.heap.push((priority, index));
        let mut i: usize = self.heap.len() - 1;
        proof {
            assert forall|j: int| 1 <= j < self.heap@.len() && j != i implies #[trigger] in_order(
                self.heap@,
                j,
            ) by {
                assert(in_order(before, j));
            }
        }
        while i > 0
            invariant
                0 <= i < self.heap@.len(),
                self.entries() == old(self).entries().insert((priority, index)),
                heap_but(self.heap@, i as int),
            ensures
                is_heap(self.heap@),
            decreases i,
        {
            let up: usize = (i - 1) / 2;
            if self.heap[up].0 <= self.heap[i].0 {
                proof {
                    lemma_sift_up_done(self.heap@, i as int);
                }
                break;
            }
            proof {
                lemma_sift_up(self.heap@, i as int);
            }
            self.swap(up, i);
            i = up;
        }
        proof {
            if i == 0 {
                lemma_sift_up_done(self.heap@, 0);
            }
        }
    }

    /// Takes out an entry with the lowest priority of all that wait;
    /// `None` where nothing waits.
    pub fn pop(&mut self) -> (r: Option<(u128, usize)>)
        requires
            old(self).wf(),
        ensures
            final(self).wf(),
            r is None ==> old(self).entries().len() == 0 && final(self).entries() == old(
                self,
            ).entries(),
            r matches Some(entry) ==> {
                &&& old(self).entries().count(entry) > 0
                &&& final(self).entries() == old(self).entries().remove(entry)
                &&& forall|other: (u128, usize)|
                    #[trigger] old(self).entries().count(other) > 0 ==> entry.0 <= other.0
            },
    {
        proof {
            broadcast use vstd::seq_lib::group_to_multiset_ensures;

        }
        let len: usize = self.heap.len();
        if len == 0 {
            return None;
        }
        let ghost before = self.heap@;
        proof {
            assert forall|other: (u128, usize)| #[trigger]
                before.to_multiset().count(other) > 0 implies before[0].0 <= other.0 by {
                assert(before.contains(other));
                let i = choose|i: int| 0 <= i < before.len() && before[i] == other;
                lemma_heap_first_is_lowest(before, i);
            }
            assert(before.contains(before[0]));
        }
        self.swap(0, len - 1);
        let ghost swapped = self.heap@;
        let lowest: (u128, usize) = match self.heap.pop() {
            Some(entry) => entry,
            None => {
                return None;
            },
        };
        proof {
            assert(self.heap@ =~= swapped.remove(len - 1));
        }
        let rest: usize = len - 1;
        proof {
            assert forall|j: int| 1 <= j < self.heap@.len() && above(j) != 0 implies #[trigger] in_order(
                self.heap@,
                j,
            ) by {
                assert(in_order(before, j));
            }
        }
        let mut i: usize = 0;
        loop
            invariant_except_break
                rest == self.heap@.len(),
                0 <= i,
                self.entries() == old(self).entries().remove(lowest),
                heap_below(self.heap@, i as int),
            ensures
                self.entries() == old(self).entries().remove(lowest),
                is_heap(self.heap@),
            decreases rest - i,
        {
            if i >= rest / 2 {
                proof {
                    lemma_sift_down_done(self.heap@, i as int);
                }
                break;
            }
            let left: usize = 2 * i + 1;
            let right: usize = 2 * i + 2;
            let mut least: usize = left;
            if right < rest && self.heap[right].0 < self.heap[left].0 {
                least = right;
            }
            if self.heap[i].0 <= self.heap[least].0 {
                proof {
                    lemma_sift_down_done(self.heap@, i as int);
                }
                break;
            }
            proof {
                lemma_sift_down(self.heap@, i as int, least as int);
            }
            self.swap(i, least);
            i = least;
        }
        Some(lowest)
    }
}

} // verus!
