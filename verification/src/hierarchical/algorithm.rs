use crate::heap::MaxHeap;
use crate::hierarchical::dendrogram::Dendrogram;
use crate::hierarchical::linkage::{min_u64, Linkage, SingleLinkage};
use crate::hierarchical::cut::is_cluster_tree;
use crate::hierarchical::node::Node;
use crate::hierarchical::shape::lemma_agglomeration_is_tree;
use vstd::prelude::*;

verus! {

broadcast use {vstd::seq_lib::group_to_multiset_ensures, vstd::multiset::group_multiset_axioms};

/// `x` exists before the node `t` is created and none of the merged nodes
/// `n .. t` has taken it as a child.
pub open spec fn active(nodes: Seq<Node>, n: int, t: int, x: int) -> bool {
    &&& 0 <= x < t
    &&& forall|s: int| n <= s < t ==> !(#[trigger] nodes[s]).has_child(x)
}

/// The node `s` merges two clusters that are still unmerged when it is
/// created, at their distance, and no two unmerged clusters are closer.
pub open spec fn is_merge_step(
    nodes: Seq<Node>,
    n: int,
    s: int,
    dist: spec_fn(int, int) -> u64,
) -> bool {
    let node = nodes[s];
    &&& node.label == s
    &&& node.node1 is Some
    &&& node.node2 is Some
    &&& node.node1->0 < node.node2->0 < s
    &&& active(nodes, n, s, node.node1->0 as int)
    &&& active(nodes, n, s, node.node2->0 as int)
    &&& node.distance == dist(node.node1->0 as int, node.node2->0 as int)
    &&& forall|x: int, y: int|
        x < y && active(nodes, n, s, x) && active(nodes, n, s, y) ==> node.distance
            <= #[trigger] dist(x, y)
}

/// The first `n` nodes are the leaves `0 .. n`.
pub open spec fn has_leaves(nodes: Seq<Node>, n: int) -> bool {
    forall|i: int|
        0 <= i < n ==> #[trigger] nodes[i] == (Node {
            label: i as usize,
            node1: None,
            node2: None,
            distance: 0,
        })
}

/// `nodes` is a complete agglomeration of `n` points under the distances
/// `dist`: the `n` leaves, then `n - 1` merge steps, each joining the two
/// closest clusters that are still unmerged.
pub open spec fn is_agglomeration(nodes: Seq<Node>, n: int, dist: spec_fn(int, int) -> u64) -> bool {
    &&& nodes.len() == 2 * n - 1
    &&& has_leaves(nodes, n)
    &&& forall|s: int| n <= s < 2 * n - 1 ==> #[trigger] is_merge_step(nodes, n, s, dist)
}

/// The distances of a linkage, as a function of two labels.
pub open spec fn linkage_dist<L: Linkage>(l: L) -> spec_fn(int, int) -> u64 {
    |a: int, b: int| l.dist(a, b)
}

/// `nodes` is a single-linkage clustering of `dataset` under `dist`: `dist`
/// is symmetric, gives the measured distances between points, makes a merged
/// cluster as close to any other cluster as the closer of its two parts, and
/// `nodes` agglomerates the points under it.
pub open spec fn is_single_linkage_clustering<T, DF: Fn(&T, &T) -> u64>(
    nodes: Seq<Node>,
    dataset: Seq<T>,
    distance_fn: DF,
    dist: spec_fn(int, int) -> u64,
) -> bool {
    let n = dataset.len() as int;
    &&& forall|x: int, y: int| #[trigger] dist(x, y) == dist(y, x)
    &&& forall|i: int, j: int|
        0 <= i < j < n ==> distance_fn.ensures((&dataset[i], &dataset[j]), #[trigger] dist(i, j))
    &&& forall|t: int, k: int|
        n <= t < 2 * n - 1 && 0 <= k < t && !nodes[t].has_child(k) ==> #[trigger] dist(k, t)
            == min_u64(dist(nodes[t].node1->0 as int, k), dist(nodes[t].node2->0 as int, k))
    &&& is_agglomeration(nodes, n, dist)
}

/// The number of `true` entries.
pub open spec fn count_true(s: Seq<bool>) -> nat
    decreases s.len(),
{
    if s.len() == 0 {
        0
    } else {
        count_true(s.drop_last()) + if s.last() {
            1nat
        } else {
            0nat
        }
    }
}

proof fn lemma_count_set(s: Seq<bool>, i: int)
    requires
        0 <= i < s.len(),
        !s[i],
    ensures
        count_true(s.update(i, true)) == count_true(s) + 1,
    decreases s.len(),
{
    let u = s.update(i, true);
    if i == s.len() - 1 {
        assert(u.drop_last() =~= s.drop_last());
    } else {
        assert(u.drop_last() =~= s.drop_last().update(i, true));
        lemma_count_set(s.drop_last(), i);
    }
}

proof fn lemma_count_two_false(s: Seq<bool>, a: int, b: int)
    requires
        0 <= a < s.len(),
        0 <= b < s.len(),
        a != b,
        !s[a],
        !s[b],
    ensures
        count_true(s) + 2 <= s.len(),
    decreases s.len(),
{
    lemma_count_bound(s.drop_last());
    if a == s.len() - 1 || b == s.len() - 1 {
        let c = if a == s.len() - 1 {
            b
        } else {
            a
        };
        lemma_count_one_false(s.drop_last(), c);
    } else {
        lemma_count_two_false(s.drop_last(), a, b);
    }
}

proof fn lemma_count_one_false(s: Seq<bool>, a: int)
    requires
        0 <= a < s.len(),
        !s[a],
    ensures
        count_true(s) + 1 <= s.len(),
    decreases s.len(),
{
    lemma_count_bound(s.drop_last());
    if a < s.len() - 1 {
        lemma_count_one_false(s.drop_last(), a);
    }
}

proof fn lemma_count_bound(s: Seq<bool>)
    ensures
        count_true(s) <= s.len(),
    decreases s.len(),
{
    if s.len() > 0 {
        lemma_count_bound(s.drop_last());
    }
}

/// With at most one `false` entry (at `z`), all but one entry are `true`.
proof fn lemma_count_all_but_one(s: Seq<bool>, z: int)
    requires
        forall|x: int| 0 <= x < s.len() && x != z ==> #[trigger] s[x],
    ensures
        count_true(s) + 1 >= s.len(),
    decreases s.len(),
{
    if s.len() > 0 {
        if s.len() - 1 == z {
            lemma_count_all_true(s.drop_last(), z);
        } else {
            lemma_count_all_but_one(s.drop_last(), z);
        }
    }
}

proof fn lemma_count_all_true(s: Seq<bool>, z: int)
    requires
        forall|x: int| 0 <= x < s.len() && x != z ==> #[trigger] s[x],
        z >= s.len() || z < 0,
    ensures
        count_true(s) == s.len(),
    decreases s.len(),
{
    if s.len() > 0 {
        lemma_count_all_true(s.drop_last(), z);
    }
}

/// Entries past `t` that are all `false` add nothing to the count.
proof fn lemma_count_prefix(s: Seq<bool>, t: int)
    requires
        0 <= t <= s.len(),
        forall|x: int| t <= x < s.len() ==> !#[trigger] s[x],
    ensures
        count_true(s) == count_true(s.take(t)),
    decreases s.len(),
{
    if s.len() > t {
        lemma_count_prefix(s.drop_last(), t);
        assert(s.drop_last().take(t) =~= s.take(t));
    } else {
        assert(s.take(t) =~= s);
    }
}


/// The step just recorded at the end of `d1` is a merge step, and the earlier
/// steps stay merge steps under the new distances.
proof fn lemma_merge_step_recorded(
    d0: Seq<Node>,
    d1: Seq<Node>,
    n: int,
    h0: Seq<(u64, (usize, usize))>,
    e: (u64, (usize, usize)),
    dist_old: spec_fn(int, int) -> u64,
    dist_new: spec_fn(int, int) -> u64,
)
    requires
        0 <= n <= d0.len(),
        d0.len() < usize::MAX,
        e.1.0 < e.1.1 < d0.len(),
        active(d0, n, d0.len() as int, e.1.0 as int),
        active(d0, n, d0.len() as int, e.1.1 as int),
        e.0 == u64::MAX - dist_old(e.1.0 as int, e.1.1 as int),
        d1 == d0.push(
            Node {
                label: d0.len() as usize,
                node1: Some(e.1.0),
                node2: Some(e.1.1),
                distance: (u64::MAX - e.0) as u64,
            },
        ),
        forall|k: int| 0 <= k < h0.len() ==> #[trigger] h0[k].0 <= e.0,
        forall|x: int, y: int|
            x < y && active(d0, n, d0.len() as int, x) && active(d0, n, d0.len() as int, y)
                ==> #[trigger] h0.to_multiset().count(
                ((u64::MAX - dist_old(x, y)) as u64, (x as usize, y as usize)),
            ) > 0,
        forall|a: int, b: int|
            0 <= a < d0.len() && 0 <= b < d0.len() ==> #[trigger] dist_new(a, b) == dist_old(a, b),
        has_leaves(d0, n),
        forall|s: int| n <= s < d0.len() ==> #[trigger] is_merge_step(d0, n, s, dist_old),
    ensures
        has_leaves(d1, n),
        forall|s: int| n <= s < d1.len() ==> #[trigger] is_merge_step(d1, n, s, dist_new),
{
    let t = d0.len() as int;
    assert forall|s: int, x: int| n <= s <= t implies active(d1, n, s, x) == active(d0, n, s, x) by {
        assert forall|r: int| n <= r < s implies d1[r] == d0[r] by {}
    }
    assert forall|s: int| n <= s < d1.len() implies #[trigger] is_merge_step(d1, n, s, dist_new) by {
        if s < t {
            assert(is_merge_step(d0, n, s, dist_old));
            assert(d1[s] == d0[s]);
            let node = d1[s];
            assert(node.distance == dist_new(node.node1->0 as int, node.node2->0 as int));
            assert(active(d1, n, s, node.node1->0 as int));
            assert(active(d1, n, s, node.node2->0 as int));
            assert forall|x: int, y: int|
                x < y && active(d1, n, s, x) && active(d1, n, s, y) implies node.distance
                <= #[trigger] dist_new(x, y) by {
                assert(active(d0, n, s, x) && active(d0, n, s, y));
                assert(node.distance <= dist_old(x, y));
            }
        } else {
            let node = d1[s];
            assert(node.distance == dist_new(e.1.0 as int, e.1.1 as int));
            assert(active(d1, n, s, e.1.0 as int));
            assert(active(d1, n, s, e.1.1 as int));
            assert forall|x: int, y: int|
                x < y && active(d1, n, s, x) && active(d1, n, s, y) implies node.distance
                <= #[trigger] dist_new(x, y) by {
                assert(active(d0, n, t, x) && active(d0, n, t, y));
                let f = ((u64::MAX - dist_old(x, y)) as u64, (x as usize, y as usize));
                assert(h0.to_multiset().count(f) > 0);
                assert(h0.contains(f));
                let k = choose|k: int| 0 <= k < h0.len() && h0[k] == f;
                assert(h0[k].0 <= e.0);
            }
        }
    }
}

/// The flags of merged labels after `a` and `b` are merged into the label `t`.
proof fn lemma_flags_after_merge(
    f0: Seq<bool>,
    f: Seq<bool>,
    d0: Seq<Node>,
    d1: Seq<Node>,
    n: int,
    size: int,
    dist: spec_fn(int, int) -> u64,
)
    requires
        0 <= n <= d0.len() < size,
        size <= usize::MAX,
        f0.len() == size,
        d1.len() == d0.len() + 1,
        forall|r: int| 0 <= r < d0.len() ==> d1[r] == d0[r],
        d1[d0.len() as int].node1 is Some,
        d1[d0.len() as int].node2 is Some,
        d1[d0.len() as int].node1->0 < d0.len(),
        d1[d0.len() as int].node2->0 < d0.len(),
        f == f0.update(d1[d0.len() as int].node1->0 as int, true).update(
            d1[d0.len() as int].node2->0 as int,
            true,
        ),
        forall|s: int| n <= s < d0.len() ==> #[trigger] is_merge_step(d0, n, s, dist),
        forall|x: int|
            0 <= x < size ==> #[trigger] f0[x] == (x < d0.len() && !active(
                d0,
                n,
                d0.len() as int,
                x,
            )),
    ensures
        forall|x: int|
            0 <= x < size ==> #[trigger] f[x] == (x < d1.len() && !active(
                d1,
                n,
                d1.len() as int,
                x,
            )),
{
    let t = d0.len() as int;
    let a = d1[t].node1->0 as int;
    let b = d1[t].node2->0 as int;
    assert forall|x: int| 0 <= x < size implies #[trigger] f[x] == (x < d1.len() && !active(
        d1,
        n,
        d1.len() as int,
        x,
    )) by {
        if x < t {
            if active(d0, n, t, x) && x != a && x != b {
                assert forall|s: int| n <= s < t + 1 implies !(#[trigger] d1[s]).has_child(x) by {
                    if s < t {
                        assert(d1[s] == d0[s]);
                    }
                }
            }
            if !active(d0, n, t, x) {
                let s = choose|s: int| n <= s < t && (#[trigger] d0[s]).has_child(x);
                assert(d1[s] == d0[s]);
            }
            if x == a || x == b {
                assert(d1[t].has_child(x));
            }
        } else if x == t {
            assert forall|s: int| n <= s < t + 1 implies !(#[trigger] d1[s]).has_child(x) by {
                if s < t {
                    assert(d1[s] == d0[s]);
                    assert(is_merge_step(d0, n, s, dist));
                }
            }
        }
    }
}

/// After the pop of `e`, every entry left is one of `h0`, and every pair of
/// active labels other than the popped one still has its entry.
proof fn lemma_heap_after_merge_pop(
    h0: Seq<(u64, (usize, usize))>,
    h1: Seq<(u64, (usize, usize))>,
    e: (u64, (usize, usize)),
    nodes: Seq<Node>,
    n: int,
    dist: spec_fn(int, int) -> u64,
)
    requires
        nodes.len() <= usize::MAX,
        h1.to_multiset() == h0.to_multiset().remove(e),
        h0.contains(e),
        forall|k: int|
            0 <= k < h0.len() ==> {
                let f = #[trigger] h0[k];
                &&& f.1.0 < f.1.1 < nodes.len()
                &&& f.0 == u64::MAX - dist(f.1.0 as int, f.1.1 as int)
            },
        forall|x: int, y: int|
            x < y && active(nodes, n, nodes.len() as int, x) && active(nodes, n, nodes.len() as int, y)
                ==> #[trigger] h0.to_multiset().count(
                ((u64::MAX - dist(x, y)) as u64, (x as usize, y as usize)),
            ) > 0,
    ensures
        forall|k: int|
            0 <= k < h1.len() ==> {
                let f = #[trigger] h1[k];
                &&& f.1.0 < f.1.1 < nodes.len()
                &&& f.0 == u64::MAX - dist(f.1.0 as int, f.1.1 as int)
            },
        forall|x: int, y: int|
            x < y && active(nodes, n, nodes.len() as int, x) && active(nodes, n, nodes.len() as int, y)
                && !(x == e.1.0 && y == e.1.1) ==> #[trigger] h1.to_multiset().count(
                ((u64::MAX - dist(x, y)) as u64, (x as usize, y as usize)),
            ) > 0,
{
    assert forall|k: int| 0 <= k < h1.len() implies {
        let f = #[trigger] h1[k];
        &&& f.1.0 < f.1.1 < nodes.len()
        &&& f.0 == u64::MAX - dist(f.1.0 as int, f.1.1 as int)
    } by {
        assert(h1.to_multiset().count(h1[k]) > 0);
        assert(h0.to_multiset().count(h1[k]) > 0);
        assert(h0.contains(h1[k]));
    }
    assert forall|x: int, y: int|
        x < y && active(nodes, n, nodes.len() as int, x) && active(nodes, n, nodes.len() as int, y)
            && !(x == e.1.0 && y == e.1.1) implies #[trigger] h1.to_multiset().count(
        ((u64::MAX - dist(x, y)) as u64, (x as usize, y as usize)),
    ) > 0 by {
        let g = ((u64::MAX - dist(x, y)) as u64, (x as usize, y as usize));
        assert(h0.to_multiset().count(g) > 0);
        assert(g != e);
        assert(h1.to_multiset().count(g) == h0.to_multiset().count(g));
    }
}

/// The entries kept after a merge stay valid under the new distances, and
/// cover every pair of active labels that existed before the merge.
proof fn lemma_heap_carried_over(
    h1: Seq<(u64, (usize, usize))>,
    d0: Seq<Node>,
    d1: Seq<Node>,
    n: int,
    e: (u64, (usize, usize)),
    dist_old: spec_fn(int, int) -> u64,
    dist_new: spec_fn(int, int) -> u64,
)
    requires
        0 <= n <= d0.len(),
        d1.len() <= usize::MAX,
        d1.len() == d0.len() + 1,
        forall|r: int| 0 <= r < d0.len() ==> d1[r] == d0[r],
        d1[d0.len() as int].node1 == Some(e.1.0),
        d1[d0.len() as int].node2 == Some(e.1.1),
        forall|a: int, b: int|
            0 <= a < d0.len() && 0 <= b < d0.len() ==> #[trigger] dist_new(a, b) == dist_old(a, b),
        forall|k: int|
            0 <= k < h1.len() ==> {
                let f = #[trigger] h1[k];
                &&& f.1.0 < f.1.1 < d0.len()
                &&& f.0 == u64::MAX - dist_old(f.1.0 as int, f.1.1 as int)
            },
        forall|x: int, y: int|
            x < y && active(d0, n, d0.len() as int, x) && active(d0, n, d0.len() as int, y) && !(x
                == e.1.0 && y == e.1.1) ==> #[trigger] h1.to_multiset().count(
                ((u64::MAX - dist_old(x, y)) as u64, (x as usize, y as usize)),
            ) > 0,
    ensures
        forall|k: int|
            0 <= k < h1.len() ==> {
                let f = #[trigger] h1[k];
                &&& f.1.0 < f.1.1 < d1.len()
                &&& f.0 == u64::MAX - dist_new(f.1.0 as int, f.1.1 as int)
            },
        forall|x: int, y: int|
            x < y && active(d1, n, d1.len() as int, x) && active(d1, n, d1.len() as int, y) && y
                < d0.len() ==> #[trigger] h1.to_multiset().count(
                ((u64::MAX - dist_new(x, y)) as u64, (x as usize, y as usize)),
            ) > 0,
{
    let t = d0.len() as int;
    assert forall|x: int, y: int|
        x < y && active(d1, n, d1.len() as int, x) && active(d1, n, d1.len() as int, y) && y
            < d0.len() implies #[trigger] h1.to_multiset().count(
        ((u64::MAX - dist_new(x, y)) as u64, (x as usize, y as usize)),
    ) > 0 by {
        assert(!d1[t].has_child(x));
        assert(!d1[t].has_child(y));
        assert forall|s: int| n <= s < t implies !(#[trigger] d0[s]).has_child(x) by {
            assert(d1[s] == d0[s]);
        }
        assert forall|s: int| n <= s < t implies !(#[trigger] d0[s]).has_child(y) by {
            assert(d1[s] == d0[s]);
        }
        assert(active(d0, n, t, x));
        assert(active(d0, n, t, y));
    }
}

/// Merge heights never decrease: in an agglomeration under symmetric
/// distances where a merged cluster is never closer to another cluster than
/// the closer of its two parts, each merge happens at a distance no smaller
/// than the one before.
pub proof fn lemma_merge_heights_monotone(
    nodes: Seq<Node>,
    n: int,
    dist: spec_fn(int, int) -> u64,
    s: int,
)
    requires
        is_agglomeration(nodes, n, dist),
        forall|x: int, y: int| #[trigger] dist(x, y) == dist(y, x),
        forall|t: int, k: int|
            n <= t < 2 * n - 1 && 0 <= k < t ==> #[trigger] dist(k, t) >= min_u64(
                dist(nodes[t].node1->0 as int, k),
                dist(nodes[t].node2->0 as int, k),
            ),
        n <= s,
        s + 1 < 2 * n - 1,
    ensures
        nodes[s].distance <= nodes[s + 1].distance,
{
    assert(is_merge_step(nodes, n, s, dist));
    assert(is_merge_step(nodes, n, s + 1, dist));
    let a = nodes[s + 1].node1->0 as int;
    let b = nodes[s + 1].node2->0 as int;
    let c1 = nodes[s].node1->0 as int;
    let c2 = nodes[s].node2->0 as int;
    assert(active(nodes, n, s + 1, a));
    assert(active(nodes, n, s + 1, b));
    if b < s {
        assert(active(nodes, n, s, a));
        assert(active(nodes, n, s, b));
        assert(nodes[s].distance <= dist(a, b));
    } else {
        assert(b == s);
        assert(active(nodes, n, s, a));
        assert(!nodes[s].has_child(a));
        assert(dist(a, s) >= min_u64(dist(c1, a), dist(c2, a)));
        if a < c1 {
            assert(nodes[s].distance <= dist(a, c1));
        } else {
            assert(a != c1);
            assert(nodes[s].distance <= dist(c1, a));
        }
        if a < c2 {
            assert(nodes[s].distance <= dist(a, c2));
        } else {
            assert(a != c2);
            assert(nodes[s].distance <= dist(c2, a));
        }
    }
}

/// The struct representing the hierarchical clustering algorithm.
#[derive(Debug, PartialEq, Eq)]
pub struct HierarchicalClustering {}

impl HierarchicalClustering {
    /// Creates a new `HierarchicalClustering` instance.
    pub fn new() -> (h: Self)
        ensures
            h == (HierarchicalClustering {}),
    {
        HierarchicalClustering {  }
    }

    /// Fits the hierarchical clustering algorithm to the given dataset,
    /// measuring the distance between two points with `distance_fn` and
    /// merging by single linkage.
    pub fn fit<T, DF: Fn(&T, &T) -> u64>(&self, dataset: &[T], distance_fn: &DF) -> (dendrogram:
        Dendrogram)
        requires
            dataset@.len() >= 1,
            (2 * dataset@.len() - 1) * (2 * dataset@.len()) <= usize::MAX,
            forall|i: int, j: int|
                0 <= i < j < dataset@.len() ==> distance_fn.requires((&dataset@[i], &dataset@[j])),
        ensures
            exists|dist: spec_fn(int, int) -> u64| #[trigger]
                is_single_linkage_clustering(dendrogram@, dataset@, *distance_fn, dist),
            forall|s: int|
                dataset@.len() <= s && s + 1 < 2 * dataset@.len() - 1 ==> #[trigger] dendrogram@[s].distance
                    <= dendrogram@[s + 1].distance,
            (forall|s: int|
                dataset@.len() <= s < 2 * dataset@.len() - 1 ==> #[trigger] dendrogram@[s].distance > 0)
                ==> is_cluster_tree(dendrogram@),
    {
        proof {
            let n = dataset@.len() as int;
            assert(2 * n <= (2 * n - 1) * (2 * n)) by (nonlinear_arith)
                requires
                    n >= 1,
            ;
        }
        let mut linkage = SingleLinkage::new(dataset, distance_fn);
        let ghost l0 = linkage;
        let dendrogram = self.fit_with_linkage(dataset, &mut linkage);
        proof {
            let dist = linkage_dist(linkage);
            let n = dataset@.len() as int;
            assert forall|x: int, y: int| #[trigger] dist(x, y) == dist(y, x) by {
                linkage.lemma_dist_symmetric(x, y);
            }
            assert forall|i: int, j: int| 0 <= i < j < n implies distance_fn.ensures(
                (&dataset@[i], &dataset@[j]),
                #[trigger] dist(i, j),
            ) by {
                assert(linkage.dist(i, j) == l0.dist(i, j));
            }
            assert forall|t: int, k: int|
                n <= t < 2 * n - 1 && 0 <= k < t && !dendrogram@[t].has_child(k) implies #[trigger] dist(
                k,
                t,
            ) == min_u64(
                dist(dendrogram@[t].node1->0 as int, k),
                dist(dendrogram@[t].node2->0 as int, k),
            ) by {}
            assert(is_single_linkage_clustering(dendrogram@, dataset@, *distance_fn, dist));
        }
        dendrogram
    }

    /// Fits the hierarchical clustering algorithm with the given linkage to
    /// the given dataset.
    ///
    /// Starting from one cluster per point, the two closest clusters are
    /// merged until a single cluster is left; the result holds the `n`
    /// leaves followed by the `n - 1` merged nodes. When every merge happens
    /// at a positive distance, the result is a cluster tree, which
    /// `Dendrogram::partition` cuts.
    pub fn fit_with_linkage<T, L: Linkage>(&self, dataset: &[T], linkage: &mut L) -> (dendrogram:
        Dendrogram)
        requires
            dataset@.len() >= 1,
            2 * dataset@.len() <= usize::MAX,
            old(linkage).inv(),
            old(linkage).next_label() == dataset@.len(),
            old(linkage).capacity() == 2 * dataset@.len() - 1,
        ensures
            is_agglomeration(
                dendrogram@,
                dataset@.len() as int,
                linkage_dist(*final(linkage)),
            ),
            final(linkage).inv(),
            final(linkage).next_label() == 2 * dataset@.len() - 1,
            forall|t: int, k: int|
                dataset@.len() <= t < 2 * dataset@.len() - 1 && 0 <= k < t ==> #[trigger] final(linkage).dist(k, t)
                    == L::merged_distance(
                    final(linkage).dist(dendrogram@[t].node1->0 as int, k),
                    final(linkage).dist(dendrogram@[t].node2->0 as int, k),
                    dendrogram@[t].node1->0 as int,
                    dendrogram@[t].node2->0 as int,
                    k,
                ),

            forall|t: int, k: int|
                dataset@.len() <= t < 2 * dataset@.len() - 1 && 0 <= k < t ==> #[trigger] final(linkage).dist(k, t)
                    >= min_u64(
                    final(linkage).dist(dendrogram@[t].node1->0 as int, k),
                    final(linkage).dist(dendrogram@[t].node2->0 as int, k),
                ),
            forall|s: int|
                dataset@.len() <= s && s + 1 < 2 * dataset@.len() - 1 ==> #[trigger] dendrogram@[s].distance
                    <= dendrogram@[s + 1].distance,
            forall|a: int, b: int|
                0 <= a < dataset@.len() && 0 <= b < dataset@.len() ==> #[trigger] final(linkage).dist(a, b) == old(linkage).dist(a, b),
            (forall|s: int|
                dataset@.len() <= s < 2 * dataset@.len() - 1 ==> #[trigger] dendrogram@[s].distance > 0)
                ==> is_cluster_tree(dendrogram@),
    {
        let n = dataset.len();
        let size = n * 2 - 1;
        let mut dendrogram = Dendrogram::new(size);
        let mut i: usize = 0;
        while i < n
            invariant
                i <= n,
                n == dataset@.len(),
                size == 2 * n - 1,
                dendrogram.capacity() == size,
                dendrogram@.len() == i,
                has_leaves(dendrogram@, i as int),
            decreases n - i,
        {
            dendrogram.push(Node::new(i, None, None, 0));
            i = i + 1;
        }
        let ghost dist0 = linkage_dist(*linkage);
        let mut heap: MaxHeap<(usize, usize)> = MaxHeap::with_capacity(0);
        let mut i: usize = 0;
        while i < n
            invariant
                i <= n,
                n == dataset@.len(),
                n == linkage.next_label(),
                linkage.inv(),
                linkage.capacity() == 2 * n - 1,
                heap.wf(),
                forall|k: int|
                    0 <= k < heap@.len() ==> {
                        let e = #[trigger] heap@[k];
                        &&& e.1.0 < e.1.1 < n
                        &&& e.0 == u64::MAX - linkage_dist(*linkage)(e.1.0 as int, e.1.1 as int)
                    },
                forall|x: int, y: int|
                    0 <= x < y < n && x < i ==> #[trigger] heap@.to_multiset().count(
                        ((u64::MAX - linkage_dist(*linkage)(x, y)) as u64, (x as usize, y as usize)),
                    ) > 0,
            decreases n - i,
        {
            let mut j: usize = i + 1;
            while j < n
                invariant
                    i < n,
                    i + 1 <= j <= n,
                    n == dataset@.len(),
                    n == linkage.next_label(),
                    linkage.inv(),
                    linkage.capacity() == 2 * n - 1,
                    heap.wf(),
                    forall|k: int|
                        0 <= k < heap@.len() ==> {
                            let e = #[trigger] heap@[k];
                            &&& e.1.0 < e.1.1 < n
                            &&& e.0 == u64::MAX - linkage_dist(*linkage)(e.1.0 as int, e.1.1 as int)
                        },
                    forall|x: int, y: int|
                        0 <= x < y < n && (x < i || (x == i && y < j)) ==> #[trigger] heap@.to_multiset().count(
                            ((u64::MAX - linkage_dist(*linkage)(x, y)) as u64, (x as usize, y as usize)),
                        ) > 0,
                decreases n - j,
            {
                let distance = linkage.distance(i, j);
                let ghost h0 = heap@;
                heap.push(u64::MAX - distance, (i, j));
                proof {
                    assert forall|k: int| 0 <= k < heap@.len() implies {
                        let e = #[trigger] heap@[k];
                        &&& e.1.0 < e.1.1 < n
                        &&& e.0 == u64::MAX - linkage_dist(*linkage)(e.1.0 as int, e.1.1 as int)
                    } by {
                        assert(heap@.to_multiset().count(heap@[k]) > 0);
                        if heap@[k] != ((u64::MAX - distance) as u64, (i, j)) {
                            assert(h0.to_multiset().count(heap@[k]) > 0);
                            assert(h0.contains(heap@[k]));
                        }
                    }
                }
                j = j + 1;
            }
            i = i + 1;
        }
        let mut inactive: Vec<bool> = vec![false; size];
        proof {
            assert(count_true(inactive@) == 0) by {
                assert forall|x: int| 0 <= x < inactive@.len() implies !#[trigger] inactive@[x] by {}
                lemma_count_prefix(inactive@, 0);
            }
            assert(forall|a: int, b: int|
                0 <= a < n && 0 <= b < n ==> #[trigger] linkage.dist(a, b) == dist0(a, b));
        }
        while heap.len() > 0
            invariant
                n == dataset@.len(),
                size == 2 * n - 1,
                2 * n <= usize::MAX,
                linkage.inv(),
                linkage.capacity() == size,
                n <= linkage.next_label() <= size,
                dendrogram@.len() == linkage.next_label(),
                dendrogram.capacity() == size,
                has_leaves(dendrogram@, n as int),
                forall|s: int|
                    n <= s < dendrogram@.len() ==> #[trigger] is_merge_step(
                        dendrogram@,
                        n as int,
                        s,
                        linkage_dist(*linkage),
                    ),
                forall|a: int, b: int|
                    0 <= a < n && 0 <= b < n ==> #[trigger] linkage.dist(a, b) == dist0(a, b),
                forall|t: int, k: int|
                    n <= t < dendrogram@.len() && 0 <= k < t ==> #[trigger] linkage.dist(k, t)
                        == L::merged_distance(
                        linkage.dist(dendrogram@[t].node1->0 as int, k),
                        linkage.dist(dendrogram@[t].node2->0 as int, k),
                        dendrogram@[t].node1->0 as int,
                        dendrogram@[t].node2->0 as int,
                        k,
                    ),
                forall|t: int, k: int|
                    n <= t < dendrogram@.len() && 0 <= k < t ==> #[trigger] linkage.dist(k, t)
                        >= min_u64(
                        linkage.dist(dendrogram@[t].node1->0 as int, k),
                        linkage.dist(dendrogram@[t].node2->0 as int, k),
                    ),
                inactive@.len() == size,
                forall|x: int|
                    0 <= x < size ==> #[trigger] inactive@[x] == (x < dendrogram@.len() && !active(
                        dendrogram@,
                        n as int,
                        dendrogram@.len() as int,
                        x,
                    )),
                count_true(inactive@) == 2 * (dendrogram@.len() - n),
                heap.wf(),
                forall|k: int|
                    0 <= k < heap@.len() ==> {
                        let e = #[trigger] heap@[k];
                        &&& e.1.0 < e.1.1 < dendrogram@.len()
                        &&& e.0 == u64::MAX - linkage_dist(*linkage)(e.1.0 as int, e.1.1 as int)
                    },
                forall|x: int, y: int|
                    x < y && active(dendrogram@, n as int, dendrogram@.len() as int, x) && active(
                        dendrogram@,
                        n as int,
                        dendrogram@.len() as int,
                        y,
                    ) ==> #[trigger] heap@.to_multiset().count(
                        ((u64::MAX - linkage_dist(*linkage)(x, y)) as u64, (x as usize, y as usize)),
                    ) > 0,
            decreases size - dendrogram@.len(), heap@.len(),
        {
            let ghost h0 = heap@;
            let popped = heap.pop();
            let (key, pair) = popped.unwrap();
            let (label1, label2) = pair;
            proof {
                assert(h0.contains((key, pair)));
                let k0 = choose|k: int| 0 <= k < h0.len() && h0[k] == (key, pair);
                assert(h0[k0] == (key, pair));
            }
            if inactive[label1] || inactive[label2] {
                proof {
                    lemma_heap_after_merge_pop(
                        h0,
                        heap@,
                        (key, pair),
                        dendrogram@,
                        n as int,
                        linkage_dist(*linkage),
                    );
                }
                continue;
            }
            let ghost t = dendrogram@.len() as int;
            let ghost d0 = dendrogram@;
            let ghost dist_before = linkage_dist(*linkage);
            proof {
                assert(active(d0, n as int, t, label1 as int));
                assert(active(d0, n as int, t, label2 as int));
                lemma_count_prefix(inactive@, t);
                lemma_count_two_false(inactive@.take(t), label1 as int, label2 as int);
                assert forall|k: int| 0 <= k < h0.len() implies #[trigger] h0[k].0 <= key by {}
            }
            let ghost lk0 = *linkage;
            let label = linkage.merge(label1, label2);
            let ghost f0 = inactive@;
            inactive.set(label1, true);
            proof {
                lemma_count_set(f0, label1 as int);
            }
            let ghost f1 = inactive@;
            inactive.set(label2, true);
            proof {
                lemma_count_set(f1, label2 as int);
            }
            let distance = u64::MAX - key;
            dendrogram.push(Node::new(label, Some(label1), Some(label2), distance));
            proof {
                lemma_merge_step_recorded(
                    d0,
                    dendrogram@,
                    n as int,
                    h0,
                    (key, pair),
                    dist_before,
                    linkage_dist(*linkage),
                );
                lemma_flags_after_merge(f0, inactive@, d0, dendrogram@, n as int, size as int, dist_before);
                lemma_heap_after_merge_pop(h0, heap@, (key, pair), d0, n as int, dist_before);
                lemma_heap_carried_over(
                    heap@,
                    d0,
                    dendrogram@,
                    n as int,
                    (key, pair),
                    dist_before,
                    linkage_dist(*linkage),
                );
            }
            proof {
                assert forall|tt: int, k: int|
                    n <= tt < dendrogram@.len() && 0 <= k < tt implies #[trigger] linkage.dist(k, tt)
                        == L::merged_distance(
                        linkage.dist(dendrogram@[tt].node1->0 as int, k),
                        linkage.dist(dendrogram@[tt].node2->0 as int, k),
                        dendrogram@[tt].node1->0 as int,
                        dendrogram@[tt].node2->0 as int,
                        k,
                    ) by {
                    if tt < t {
                        assert(dendrogram@[tt] == d0[tt]);
                        assert(is_merge_step(d0, n as int, tt, dist_before));
                        assert(lk0.dist(k, tt) == L::merged_distance(
                            lk0.dist(d0[tt].node1->0 as int, k),
                            lk0.dist(d0[tt].node2->0 as int, k),
                            d0[tt].node1->0 as int,
                            d0[tt].node2->0 as int,
                            k,
                        ));
                    }
                }
            }
            proof {
                assert forall|tt: int, k: int|
                    n <= tt < dendrogram@.len() && 0 <= k < tt implies #[trigger] linkage.dist(k, tt)
                        >= min_u64(
                        linkage.dist(dendrogram@[tt].node1->0 as int, k),
                        linkage.dist(dendrogram@[tt].node2->0 as int, k),
                    ) by {
                    if tt < t {
                        assert(dendrogram@[tt] == d0[tt]);
                        assert(is_merge_step(d0, n as int, tt, dist_before));
                        assert(lk0.dist(k, tt) >= min_u64(
                            lk0.dist(d0[tt].node1->0 as int, k),
                            lk0.dist(d0[tt].node2->0 as int, k),
                        ));
                    }
                }
            }
            let mut i: usize = 0;
            while i < label
                invariant
                    forall|tt: int, k: int|
                        n <= tt < dendrogram@.len() && 0 <= k < tt ==> #[trigger] linkage.dist(k, tt)
                            == L::merged_distance(
                            linkage.dist(dendrogram@[tt].node1->0 as int, k),
                            linkage.dist(dendrogram@[tt].node2->0 as int, k),
                            dendrogram@[tt].node1->0 as int,
                            dendrogram@[tt].node2->0 as int,
                            k,
                        ),
                    forall|tt: int, k: int|
                        n <= tt < dendrogram@.len() && 0 <= k < tt ==> #[trigger] linkage.dist(k, tt)
                            >= min_u64(
                            linkage.dist(dendrogram@[tt].node1->0 as int, k),
                            linkage.dist(dendrogram@[tt].node2->0 as int, k),
                        ),
                    label as int == t,
                    t + 1 == dendrogram@.len(),
                    label < size,
                    size == 2 * n - 1,
                    linkage.inv(),
                    linkage.capacity() == size,
                    inactive@.len() == size,
                    forall|x: int|
                        0 <= x < size ==> #[trigger] inactive@[x] == (x < dendrogram@.len() && !active(
                            dendrogram@,
                            n as int,
                            dendrogram@.len() as int,
                            x,
                        )),
                    heap.wf(),
                    forall|k: int|
                        0 <= k < heap@.len() ==> {
                            let e = #[trigger] heap@[k];
                            &&& e.1.0 < e.1.1 < dendrogram@.len()
                            &&& e.0 == u64::MAX - linkage_dist(*linkage)(e.1.0 as int, e.1.1 as int)
                        },
                    forall|x: int, y: int|
                        x < y && active(dendrogram@, n as int, dendrogram@.len() as int, x) && active(
                            dendrogram@,
                            n as int,
                            dendrogram@.len() as int,
                            y,
                        ) && (y < t || x < i) ==> #[trigger] heap@.to_multiset().count(
                            ((u64::MAX - linkage_dist(*linkage)(x, y)) as u64, (x as usize, y as usize)),
                        ) > 0,
                decreases label - i,
            {
                if !inactive[i] {
                    let d = linkage.distance(i, label);
                    let ghost h2 = heap@;
                    heap.push(u64::MAX - d, (i, label));
                    proof {
                        assert forall|k: int| 0 <= k < heap@.len() implies {
                            let e = #[trigger] heap@[k];
                            &&& e.1.0 < e.1.1 < dendrogram@.len()
                            &&& e.0 == u64::MAX - linkage_dist(*linkage)(e.1.0 as int, e.1.1 as int)
                        } by {
                            assert(heap@.to_multiset().count(heap@[k]) > 0);
                            if heap@[k] != ((u64::MAX - d) as u64, (i, label)) {
                                assert(h2.to_multiset().count(heap@[k]) > 0);
                                assert(h2.contains(heap@[k]));
                            }
                        }
                    }
                }
                i = i + 1;
            }
        }
        proof {
            self.lemma_all_merged(inactive@, dendrogram@, n as int, heap@, linkage_dist(*linkage));
            let dist = linkage_dist(*linkage);
            assert forall|x: int, y: int| #[trigger] dist(x, y) == dist(y, x) by {
                linkage.lemma_dist_symmetric(x, y);
            }
            assert forall|t: int, k: int| n <= t < 2 * n - 1 && 0 <= k < t implies #[trigger] dist(k, t)
                >= min_u64(dist(dendrogram@[t].node1->0 as int, k), dist(dendrogram@[t].node2->0 as int, k)) by {
                assert(linkage.dist(k, t) >= min_u64(
                    linkage.dist(dendrogram@[t].node1->0 as int, k),
                    linkage.dist(dendrogram@[t].node2->0 as int, k),
                ));
            }
            assert forall|s: int| n <= s && s + 1 < 2 * n - 1 implies #[trigger] dendrogram@[s].distance
                <= dendrogram@[s + 1].distance by {
                lemma_merge_heights_monotone(dendrogram@, n as int, dist, s);
            }
            if forall|s: int| n <= s < 2 * n - 1 ==> #[trigger] dendrogram@[s].distance > 0 {
                lemma_agglomeration_is_tree(dendrogram@, n as int, dist);
            }
        }
        dendrogram
    }

    /// When no entry is left, every label but the last has been merged.
    proof fn lemma_all_merged(
        &self,
        f: Seq<bool>,
        d: Seq<Node>,
        n: int,
        h: Seq<(u64, (usize, usize))>,
        dist: spec_fn(int, int) -> u64,
    )
        requires
            1 <= n <= d.len() <= 2 * n - 1,
            f.len() == 2 * n - 1,
            h.len() == 0,
            forall|x: int|
                0 <= x < 2 * n - 1 ==> #[trigger] f[x] == (x < d.len() && !active(
                    d,
                    n,
                    d.len() as int,
                    x,
                )),
            count_true(f) == 2 * (d.len() - n),
            forall|x: int, y: int|
                x < y && active(d, n, d.len() as int, x) && active(d, n, d.len() as int, y)
                    ==> #[trigger] h.to_multiset().count(
                    ((u64::MAX - dist(x, y)) as u64, (x as usize, y as usize)),
                ) > 0,
        ensures
            d.len() == 2 * n - 1,
    {
        let t = d.len() as int;
        if t < 2 * n - 1 {
            lemma_count_prefix(f, t);
            let p = f.take(t);
            if forall|x: int| 0 <= x < t ==> #[trigger] p[x] {
                lemma_count_all_true(p, -1);
            } else {
                let z = choose|z: int| 0 <= z < t && !#[trigger] p[z];
                if forall|x: int| 0 <= x < t && x != z ==> #[trigger] p[x] {
                    lemma_count_all_but_one(p, z);
                } else {
                    let w = choose|w: int| 0 <= w < t && w != z && !#[trigger] p[w];
                    let x = if z < w {
                        z
                    } else {
                        w
                    };
                    let y = if z < w {
                        w
                    } else {
                        z
                    };
                    assert(!f[x] && !f[y]);
                    assert(active(d, n, t, x));
                    assert(active(d, n, t, y));
                    let g = ((u64::MAX - dist(x, y)) as u64, (x as usize, y as usize));
                    assert(h.to_multiset().count(g) > 0);
                    assert(h.contains(g));
                }
            }
        }
    }
}

} // verus!
