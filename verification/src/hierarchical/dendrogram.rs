use crate::heap::MaxHeap;
use crate::hierarchical::cut::{
    cut_state, ent, is_cluster_tree, is_cut, leaf_count, lemma_cut_result, lemma_cut_start,
    lemma_cut_step, lemma_no_leaf_split,
};
use crate::hierarchical::node::Node;
use vstd::prelude::*;

verus! {

broadcast use {vstd::seq_lib::group_to_multiset_ensures, vstd::multiset::group_multiset_axioms};

/// A dendrogram: the nodes of a hierarchical clustering, leaves first and each
/// merged node after the two nodes it joins.
#[derive(Debug)]
pub struct Dendrogram {
    nodes: Vec<Node>,
    capacity: usize,
}

impl View for Dendrogram {
    type V = Seq<Node>;

    /// The nodes in the order they were pushed.
    closed spec fn view(&self) -> Seq<Node> {
        self.nodes@
    }
}

impl Dendrogram {
    /// The number of nodes this dendrogram was created to hold.
    pub closed spec fn capacity(&self) -> nat {
        self.capacity as nat
    }

    /// Every child label names a node of this dendrogram.
    pub open spec fn children_in_bounds(&self) -> bool {
        forall|i: int|
            0 <= i < self@.len() ==> {
                &&& (#[trigger] self@[i]).node1 matches Some(c) ==> c < self@.len()
                &&& self@[i].node2 matches Some(c) ==> c < self@.len()
            }
    }

    /// Creates a new, empty `Dendrogram` that can hold `capacity` nodes.
    pub fn new(capacity: usize) -> (d: Self)
        ensures
            d@ == Seq::<Node>::empty(),
            d.capacity() == capacity,
    {
        Dendrogram { nodes: Vec::with_capacity(capacity), capacity }
    }

    /// Returns the number of nodes in this dendrogram.
    pub fn len(&self) -> (n: usize)
        ensures
            n == self@.len(),
    {
        self.nodes.len()
    }

    /// Returns the nodes of this dendrogram.
    pub fn nodes(&self) -> (s: &[Node])
        ensures
            s@ == self@,
    {
        self.nodes.as_slice()
    }

    /// Pushes a new node to this dendrogram, which must not be full.
    pub fn push(&mut self, node: Node)
        requires
            old(self)@.len() < old(self).capacity(),
        ensures
            final(self)@ == old(self)@.push(node),
            final(self).capacity() == old(self).capacity(),
    {
        self.nodes.push(node);
    }

    /// Partitions this dendrogram into at most `n` clusters.
    ///
    /// Starting from the last node, the node with the largest distance is
    /// repeatedly split into its children; a leaf that is split is taken as a
    /// cluster (once for each of its two missing children). As soon as the
    /// pending nodes and the clusters found reach `n`, the pending nodes are
    /// taken as clusters too and the list is cut to `n`. On a dendrogram of
    /// the shape clustering gives, with positive merge distances, and for `n`
    /// no larger than the number of leaves, the result is a cut: `n`
    /// distinct nodes whose leaf sets partition the leaves, every node above
    /// them merged at a distance no smaller than theirs.
    #[verifier::rlimit(40)]
    pub fn partition(&self, n: usize) -> (clusters: Vec<Node>)
        requires
            self.children_in_bounds(),
        ensures
            clusters@.len() <= n,
            forall|k: int| 0 <= k < clusters@.len() ==> self@.contains(#[trigger] clusters@[k]),
            n == 0 || self@.len() == 0 ==> clusters@.len() == 0,
            n >= 1 && self@.len() > 0 ==> clusters@.len() >= 1,
            n == 1 && self@.len() > 0 ==> clusters@ == seq![self@.last()],
            clusters@.len() == n || forall|k: int|
                0 <= k < clusters@.len() ==> (#[trigger] clusters@[k]).lacks_child(),
            is_cluster_tree(self@) && 1 <= n <= leaf_count(self@) ==> clusters@.len() == n && is_cut(
                self@,
                clusters@,
            ),
            is_cluster_tree(self@) && 1 <= n <= leaf_count(self@) ==> forall|k: int|
                0 <= k < clusters@.len() ==> (#[trigger] clusters@[k]).distance
                    <= clusters@[0].distance,
    {
        let len = self.nodes.len();
        let mut heap: MaxHeap<usize> = MaxHeap::with_capacity(0);
        if len > 0 {
            let last = len - 1;
            heap.push(self.nodes[last].distance, last);
            proof {
                let e = (self@[last as int].distance, last);
                assert(heap@.to_multiset().count(heap@[0]) > 0);
                assert(heap@[0] == e);
                assert(heap@ =~= seq![e]);
            }
        }
        let ghost tree = is_cluster_tree(self@) && 1 <= n <= leaf_count(self@);
        let ghost mut expanded: Set<int> = Set::empty();
        let ghost mut floor: u64 = u64::MAX;
        proof {
            if tree {
                assert(heap@ == seq![ent(self@, len - 1)]);
                lemma_cut_start(self@, heap@);
            }
        }
        let mut membership: Vec<Node> = Vec::with_capacity(n);
        let mut done = false;
        while !done && membership.len() < n
            invariant
                tree == (is_cluster_tree(self@) && 1 <= n <= leaf_count(self@)),
                tree && !done ==> membership@.len() == 0 && cut_state(self@, heap@, expanded, floor),
                tree && done ==> membership@.len() == n && is_cut(self@, membership@),
                tree && done ==> forall|k: int|
                    0 <= k < membership@.len() ==> (#[trigger] membership@[k]).distance
                        <= membership@[0].distance,
                len == self@.len(),
                self.children_in_bounds(),
                heap.wf(),
                forall|i: int| 0 <= i < heap@.len() ==> (#[trigger] heap@[i]).1 < len,
                forall|k: int| 0 <= k < membership@.len() ==> self@.contains(#[trigger] membership@[k]),
                membership@.len() <= n,
                len == 0 ==> membership@.len() == 0,
                done && len > 0 ==> membership@.len() >= 1,
                done && n == 1 && len > 0 ==> membership@ == seq![self@.last()],
                done ==> membership@.len() == n || forall|k: int|
                    0 <= k < membership@.len() ==> (#[trigger] membership@[k]).lacks_child(),
                !done ==> {
                    &&& forall|k: int|
                        0 <= k < membership@.len() ==> (#[trigger] membership@[k]).lacks_child()
                    &&& membership@.len() < n ==> heap@.len() + membership@.len() <= n
                    &&& len > 0 ==> heap@.len() + membership@.len() >= 1
                    &&& len == 0 ==> heap@.len() == 0
                    &&& n == 1 && len > 0 ==> membership@.len() == 0 && heap@ == seq![
                        (self@[len - 1].distance, (len - 1) as usize),
                    ]
                },
            decreases (if done { 0 } else { n - (heap@.len() + membership@.len()) + 1 }),
        {
            if heap.len() + membership.len() >= n {
                let ghost m0 = membership@;
                self.append_pending(&mut membership, heap.as_slice());
                proof {
                    assert forall|k: int| 0 <= k < membership@.len() implies self@.contains(
                        #[trigger] membership@[k],
                    ) by {
                        if k >= m0.len() {
                            let e = heap@[k - m0.len()];
                            assert(membership@[k] == self@[e.1 as int]);
                        } else {
                            assert(membership@[k] == m0[k]);
                        }
                    }
                }
                let ghost m2 = membership@;
                proof {
                    assert(len > 0);
                    assert(m2.len() == m0.len() + heap@.len());
                    if n == 1 {
                        assert(m0.len() == 0);
                        assert(m2[0] == self@[len - 1]);
                    }
                }
                membership.truncate(n);
                proof {
                    assert(membership@.len() == n);
                    if n == 1 && len > 0 {
                        assert(membership@[0] == m2[0]);
                        assert(membership@ =~= seq![self@.last()]);
                        assert(membership@ =~= seq![self@.last()]);
                    }
                    if tree {
                        assert(heap@.len() == n);
                        assert(membership@ =~= m2);
                        let mapped = heap@.map_values(|e: (u64, usize)| self@[e.1 as int]);
                        assert(membership@ =~= mapped);
                        lemma_cut_result(self@, heap@, expanded, floor, membership@);
                        assert forall|k: int| 0 <= k < membership@.len() implies (
                        #[trigger] membership@[k]).distance <= membership@[0].distance by {
                            crate::heap::lemma_root_is_max(heap@, k);
                            assert(heap@.to_multiset().count(heap@[k]) > 0);
                            assert(heap@.to_multiset().count(heap@[0]) > 0);
                            assert(membership@[k] == mapped[k]);
                            assert(membership@[0] == mapped[0]);
                        }
                    }
                }
                done = true;
            } else {
                let ghost h0 = heap@;
                let popped = heap.pop();
                match popped {
                    None => {
                        assert(h0.len() == 0);
                        done = true;
                    },
                    Some(entry) => {
                        proof {
                            assert forall|i: int| 0 <= i < heap@.len() implies (
                            #[trigger] heap@[i]).1 < len by {
                                assert(heap@.to_multiset().count(heap@[i]) > 0);
                                assert(h0.to_multiset().count(heap@[i]) > 0);
                            }
                            if tree {
                                assert(h0.to_multiset().count(entry) > 0);
                                assert(entry == ent(self@, entry.1 as int));
                                if (entry.1 as int) < leaf_count(self@) {
                                    lemma_no_leaf_split(self@, h0, expanded, floor, entry.1 as int);
                                }
                            }
                        }
                        let node = self.nodes[entry.1];
                        proof {
                            assert(self@.contains(node));
                        }
                        let ghost h1 = heap@;
                        let ghost m1 = membership@;
                        self.expand(&mut heap, &mut membership, node);
                        proof {
                            assert forall|i: int| 0 <= i < heap@.len() implies (
                            #[trigger] heap@[i]).1 < len by {
                                assert(heap@.to_multiset().count(heap@[i]) > 0);
                                if h1.to_multiset().count(heap@[i]) > 0 {
                                    assert(h1.contains(heap@[i]));
                                }
                            }
                            assert forall|k: int| 0 <= k < membership@.len() implies self@.contains(
                                #[trigger] membership@[k],
                            ) by {
                                if k < m1.len() {
                                    assert(membership@.take(m1.len() as int)[k] == m1[k]);
                                }
                            }
                            assert forall|k: int| 0 <= k < membership@.len() implies (
                            #[trigger] membership@[k]).lacks_child() by {
                                if k < m1.len() {
                                    assert(membership@.take(m1.len() as int)[k] == m1[k]);
                                }
                            }
                            if tree {
                                let v = entry.1 as int;
                                assert(node == self@[v]);
                                assert(self@[v].node1 is Some && self@[v].node2 is Some);
                                lemma_cut_step(self@, h0, heap@, expanded, floor, v);
                                expanded = expanded.insert(v);
                                floor = self@[v].distance;
                            }
                        }
                    },
                }
            }
        }
        membership
    }

    /// Appends, in storage order, the nodes named by the pending heap entries.
    fn append_pending(&self, membership: &mut Vec<Node>, entries: &[(u64, usize)])
        requires
            forall|j: int| 0 <= j < entries@.len() ==> (#[trigger] entries@[j]).1 < self@.len(),
        ensures
            final(membership)@ == old(membership)@ + entries@.map_values(
                |e: (u64, usize)| self@[e.1 as int],
            ),
    {
        let ghost m0 = membership@;
        let mut i: usize = 0;
        while i < entries.len()
            invariant
                i <= entries@.len(),
                forall|j: int| 0 <= j < entries@.len() ==> (#[trigger] entries@[j]).1 < self@.len(),
                membership@ == m0 + entries@.take(i as int).map_values(
                    |e: (u64, usize)| self@[e.1 as int],
                ),
            decreases entries@.len() - i,
        {
            let idx = entries[i].1;
            membership.push(self.nodes[idx]);
            proof {
                assert(entries@.take(i + 1) =~= entries@.take(i as int).push(entries@[i as int]));
            }
            i = i + 1;
        }
        proof {
            assert(entries@.take(entries@.len() as int) =~= entries@);
        }
    }

    /// Splits `node`: each child goes back to the heap, each missing child
    /// makes `node` itself a cluster.
    fn expand(&self, heap: &mut MaxHeap<usize>, membership: &mut Vec<Node>, node: Node)
        requires
            self.children_in_bounds(),
            self@.contains(node),
            old(heap).wf(),
        ensures
            final(heap).wf(),
            final(heap)@.len() + final(membership)@.len() == old(heap)@.len() + old(membership)@.len() + 2,
            forall|x: (u64, usize)| #[trigger]
                final(heap)@.to_multiset().count(x) > 0 ==> old(heap)@.to_multiset().count(x) > 0
                    || x.1 < self@.len(),
            final(membership)@.len() >= old(membership)@.len(),
            final(membership)@.take(old(membership)@.len() as int) == old(membership)@,
            forall|k: int|
                old(membership)@.len() <= k < final(membership)@.len() ==> #[trigger] final(membership)@[k] == node,
            final(membership)@.len() > old(membership)@.len() ==> node.lacks_child(),
            node.node1 is Some && node.node2 is Some ==> {
                &&& final(membership)@ == old(membership)@
                &&& final(heap)@.to_multiset() == old(heap)@.to_multiset().insert(
                    (self@[node.node1.unwrap() as int].distance, node.node1.unwrap()),
                ).insert((self@[node.node2.unwrap() as int].distance, node.node2.unwrap()))
            },
    {
        let ghost m0 = membership@;
        match node.node1 {
            Some(c) => {
                heap.push(self.nodes[c].distance, c);
            },
            None => {
                membership.push(node);
            },
        }
        match node.node2 {
            Some(c) => {
                heap.push(self.nodes[c].distance, c);
            },
            None => {
                membership.push(node);
            },
        }
        proof {
            assert(membership@.take(m0.len() as int) =~= m0);
        }
    }
}

} // verus!
