//! The open list of a best-first search: a binary heap of search nodes.

use vstd::prelude::*;
use vstd::multiset::*;
use crate::search::SearchNode;

verus! {

/// Whether `a` may be taken from a queue that also holds `b`: `b` does not
/// come before it.
pub open spec fn not_after<S>(a: SearchNode<S>, b: SearchNode<S>) -> bool {
    !b.precedes(&a)
}

/// Whether every node of `s` but the first has a parent, at half its index,
/// that does not come after it.
pub open spec fn heap_ordered<S>(s: Seq<SearchNode<S>>) -> bool {
    forall|i: int| 1 <= i < s.len() ==> not_after(s[(i - 1) / 2], #[trigger] s[i])
}

/// As `heap_ordered`, but for the node at `hole`, which may come before its
/// parent; the parent of `hole` does not come after the children of `hole`.
pub open spec fn ordered_but_up<S>(s: Seq<SearchNode<S>>, hole: int) -> bool {
    &&& forall|i: int| 1 <= i < s.len() && i != hole ==> not_after(s[(i - 1) / 2], #[trigger] s[i])
    &&& forall|i: int|
        1 <= i < s.len() && hole >= 1 && (i - 1) / 2 == hole ==> not_after(
            s[(hole - 1) / 2],
            #[trigger] s[i],
        )
}

/// As `heap_ordered`, but for the children of `hole`, which may come before
/// it; the parent of `hole` does not come after them.
pub open spec fn ordered_but_down<S>(s: Seq<SearchNode<S>>, hole: int) -> bool {
    &&& forall|i: int|
        1 <= i < s.len() && (i - 1) / 2 != hole ==> not_after(s[(i - 1) / 2], #[trigger] s[i])
    &&& forall|i: int|
        1 <= i < s.len() && hole >= 1 && (i - 1) / 2 == hole ==> not_after(
            s[(hole - 1) / 2],
            #[trigger] s[i],
        )
}

/// In an ordered heap the first node does not come after any other.
pub proof fn lemma_root_first<S>(s: Seq<SearchNode<S>>, i: int)
    requires
        heap_ordered(s),
        0 <= i < s.len(),
    ensures
        not_after(s[0], s[i]),
    decreases i,
{
    if i > 0 {
        lemma_root_first(s, (i - 1) / 2);
        assert(not_after(s[(i - 1) / 2], s[i]));
    }
}

/// Exchanging two nodes of a sequence leaves the nodes that it holds as they
/// are.
pub proof fn lemma_swap_keeps_nodes<S>(s: Seq<SearchNode<S>>, i: int, j: int)
    requires
        0 <= i < s.len(),
        0 <= j < s.len(),
    ensures
        s.update(i, s[j]).update(j, s[i]).to_multiset() == s.to_multiset(),
{
    broadcast use vstd::multiset::group_multiset_axioms;

    let t = s.update(i, s[j]);
    vstd::seq_lib::to_multiset_update(s, i, s[j]);
    vstd::seq_lib::to_multiset_update(t, j, s[i]);
    vstd::seq_lib::to_multiset_contains(s, s[i]);
    vstd::seq_lib::to_multiset_contains(s, s[j]);
    assert(s.contains(s[i]));
    assert(s.contains(s[j]));
    if i == j {
        assert(t.update(j, s[i]) =~= s);
    } else {
        assert(t[j] == s[j]);
        assert(t.update(j, s[i]).to_multiset() =~= s.to_multiset());
    }
}

/// A priority queue of search nodes.
pub struct PriorityQueue<S> {
    heap: Vec<SearchNode<S>>,
}

impl<S: Copy> PriorityQueue<S> {
    /// The nodes in the queue.
    pub closed spec fn contents(&self) -> Multiset<SearchNode<S>> {
        self.heap@.to_multiset()
    }

    /// The heap is ordered.
    pub closed spec fn wf(&self) -> bool {
        heap_ordered(self.heap@)
    }

    /// The number of nodes in the queue.
    pub closed spec fn spec_len(&self) -> nat {
        self.heap@.len()
    }

    /// The number of nodes is the size of the contents.
    pub proof fn lemma_len(&self)
        ensures
            self.spec_len() == self.contents().len(),
    {
        vstd::seq_lib::to_multiset_len(self.heap@);
    }

    pub fn new() -> (q: Self)
        ensures
            q.wf(),
            q.contents() == Multiset::<SearchNode<S>>::empty(),
            q.spec_len() == 0,
    {
        let q = PriorityQueue { heap: Vec::new() };
        proof {
            assert(q.heap@.to_multiset() =~= Multiset::<SearchNode<S>>::empty()) by {
                vstd::seq_lib::to_multiset_len(q.heap@);
                vstd::multiset::lemma_multiset_empty_len(q.heap@.to_multiset());
            }
        }
        q
    }

    pub fn len(&self) -> (n: usize)
        ensures
            n == self.spec_len(),
    {
        self.heap.len()
    }

    /// Takes every node out of the queue.
    pub fn clear(&mut self)
        ensures
            final(self).wf(),
            final(self).contents() == Multiset::<SearchNode<S>>::empty(),
            final(self).spec_len() == 0,
    {
        self.heap.clear();
        proof {
            assert(self.heap@.to_multiset() =~= Multiset::<SearchNode<S>>::empty()) by {
                vstd::seq_lib::to_multiset_len(self.heap@);
                vstd::multiset::lemma_multiset_empty_len(self.heap@.to_multiset());
            }
        }
    }

    fn exchange(&mut self, i: usize, j: usize)
        requires
            i < old(self).heap.len(),
            j < old(self).heap.len(),
        ensures
            final(self).heap@ == old(self).heap@.update(i as int, old(self).heap@[j as int]).update(
                j as int,
                old(self).heap@[i as int],
            ),
            final(self).heap@.to_multiset() == old(self).heap@.to_multiset(),
    {
        let a = self.heap[i];
        let b = self.heap[j];
        self.heap.set(i, b);
        self.heap.set(j, a);
        proof {
            lemma_swap_keeps_nodes(old(self).heap@, i as int, j as int);
        }
    }

    /// Puts `node` into the queue.
    pub fn push(&mut self, node: SearchNode<S>)
        requires
            old(self).wf(),
        ensures
            final(self).wf(),
            final(self).contents() == old(self).contents().insert(node),
            final(self).spec_len() == old(self).spec_len() + 1,
    {
        self.heap.push(node);
        proof {
            vstd::seq_lib::to_multiset_build(old(self).heap@, node);
        }
        let mut i: usize = self.heap.len() - 1;
        while i > 0 && self.heap[i].precedes_exec(&self.heap[(i - 1) / 2])
            invariant
                i < self.heap.len(),
                self.heap.len() == old(self).heap.len() + 1,
                self.heap@.to_multiset() == old(self).heap@.to_multiset().insert(node),
                ordered_but_up(self.heap@, i as int),
            decreases i,
        {
            let parent: usize = (i - 1) / 2;
            let ghost before = self.heap@;
            self.exchange(i, parent);
            proof {
                let after = self.heap@;
                assert forall|k: int| 1 <= k < after.len() && k != parent implies not_after(
                    after[(k - 1) / 2],
                    #[trigger] after[k],
                ) by {
                    if k == i {
                    } else if (k - 1) / 2 == i {
                        assert(not_after(before[(i - 1) / 2], before[k]));
                    } else if (k - 1) / 2 == parent {
                        assert(not_after(before[(k - 1) / 2], before[k]));
                    } else {
                        assert(not_after(before[(k - 1) / 2], before[k]));
                    }
                }
                assert forall|k: int|
                    1 <= k < after.len() && parent >= 1 && (k - 1) / 2 == parent implies not_after(
                    after[(parent - 1) / 2],
                    #[trigger] after[k],
                ) by {
                    assert(not_after(before[(parent - 1) / 2], before[parent as int]));
                    if k != i {
                        assert(not_after(before[(k - 1) / 2], before[k]));
                    }
                }
            }
            i = parent;
        }
    }

    /// Takes out of the queue a node that no other node of it comes before.
    pub fn pop(&mut self) -> (r: Option<SearchNode<S>>)
        requires
            old(self).wf(),
        ensures
            final(self).wf(),
            match r {
                Some(node) => {
                    &&& old(self).contents().count(node) > 0
                    &&& final(self).contents() == old(self).contents().remove(node)
                    &&& final(self).spec_len() + 1 == old(self).spec_len()
                    &&& forall|other: SearchNode<S>|
                        old(self).contents().count(other) > 0 ==> !other.precedes(&node)
                },
                None => old(self).spec_len() == 0 && final(self).spec_len() == 0 && final(self).contents() == old(self).contents(),
            },
    {
        let n: usize = self.heap.len();
        if n == 0 {
            return None;
        }
        let top = self.heap[0];
        proof {
            assert forall|other: SearchNode<S>|
                old(self).heap@.to_multiset().count(other) > 0 implies !other.precedes(&top) by {
                vstd::seq_lib::to_multiset_contains(old(self).heap@, other);
                let k = old(self).heap@.index_of(other);
                lemma_root_first(old(self).heap@, k);
            }
            vstd::seq_lib::to_multiset_contains(old(self).heap@, top);
            assert(old(self).heap@.contains(top));
        }
        self.exchange(0, n - 1);
        let ghost swapped = self.heap@;
        let last = self.heap.pop();
        proof {
            assert(self.heap@ =~= swapped.remove(n - 1));
            vstd::seq_lib::to_multiset_remove(swapped, n - 1);
            assert forall|k: int|
                1 <= k < self.heap@.len() && (k - 1) / 2 != 0 implies not_after(
                self.heap@[(k - 1) / 2],
                #[trigger] self.heap@[k],
            ) by {
                assert(not_after(old(self).heap@[(k - 1) / 2], old(self).heap@[k]));
            }
        }
        let m: usize = self.heap.len();
        let mut i: usize = 0;
        loop
            invariant
                m == self.heap.len(),
                m + 1 == n,
                i < m || m == 0,
                self.heap@.to_multiset() == old(self).heap@.to_multiset().remove(top),
                ordered_but_down(self.heap@, i as int),
            ensures
                heap_ordered(self.heap@),
            decreases m - i,
        {
            if m == 0 || i > (m - 1) / 2 {
                break ;
            }
            let left: usize = 2 * i + 1;
            let right: usize = 2 * i + 2;
            let mut least: usize = i;
            if left < m && self.heap[left].precedes_exec(&self.heap[least]) {
                least = left;
            }
            if right < m && self.heap[right].precedes_exec(&self.heap[least]) {
                least = right;
            }
            if least == i {
                proof {
                    assert forall|k: int| 1 <= k < self.heap@.len() implies not_after(
                        self.heap@[(k - 1) / 2],
                        #[trigger] self.heap@[k],
                    ) by {
                        if (k - 1) / 2 == i {
                            assert(k == left || k == right);
                        }
                    }
                }
                break ;
            }
            let ghost before = self.heap@;
            self.exchange(i, least);
            proof {
                let after = self.heap@;
                assert forall|k: int|
                    1 <= k < after.len() && (k - 1) / 2 != least implies not_after(
                    after[(k - 1) / 2],
                    #[trigger] after[k],
                ) by {
                    if (k - 1) / 2 == i {
                        assert(k == left || k == right);
                    } else if k == i {
                        assert(not_after(before[(i - 1) / 2], before[least as int]));
                    } else {
                        assert(not_after(before[(k - 1) / 2], before[k]));
                    }
                }
                assert forall|k: int|
                    1 <= k < after.len() && least >= 1 && (k - 1) / 2 == least implies not_after(
                    after[(least - 1) / 2],
                    #[trigger] after[k],
                ) by {
                    assert(not_after(before[(k - 1) / 2], before[k]));
                }
            }
            i = least;
        }
        Some(top)
    }
}

} // verus!
