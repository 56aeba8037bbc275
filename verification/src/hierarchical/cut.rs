//! Cutting a dendrogram: the tree shape that clustering produces, the
//! leaves below a node, and the frontier that a partition keeps.
use crate::hierarchical::node::Node;
use vstd::prelude::*;
use vstd::multiset::Multiset;
use vstd::set_lib::*;

verus! {

broadcast use {vstd::seq_lib::group_to_multiset_ensures, vstd::multiset::group_multiset_axioms};

/// The node `x` lies in the subtree of the node `v` (`v` itself included),
/// following child links, which always point to lower indices.
pub open spec fn under(nodes: Seq<Node>, v: int, x: int) -> bool
    decreases v,
{
    if 0 <= x <= v < nodes.len() {
        if v == x {
            true
        } else {
            match (nodes[v].node1, nodes[v].node2) {
                (Some(a), Some(b)) => ((a as int) < v && under(nodes, a as int, x)) || ((b as int) < v
                    && under(nodes, b as int, x)),
                _ => false,
            }
        }
    } else {
        false
    }
}

/// The number of leaves of a dendrogram of `nodes.len()` nodes.
pub open spec fn leaf_count(nodes: Seq<Node>) -> int {
    ((nodes.len() + 1) / 2) as int
}

/// The shape that clustering gives a dendrogram of `L` leaves: `2L - 1`
/// nodes, each labelled by its index; the leaves come first, with no
/// children and distance 0; every later node joins two distinct earlier
/// nodes whose leaves are disjoint, at a positive distance no smaller than
/// theirs; and the last node is the root of every node.
pub open spec fn is_cluster_tree(nodes: Seq<Node>) -> bool {
    let l = leaf_count(nodes);
    &&& nodes.len() % 2 == 1
    &&& nodes.len() <= usize::MAX
    &&& forall|i: int| 0 <= i < nodes.len() ==> #[trigger] nodes[i].label == i
    &&& forall|i: int|
        0 <= i < l ==> (#[trigger] nodes[i]).node1 is None && nodes[i].node2 is None
            && nodes[i].distance == 0
    &&& forall|i: int|
        l <= i < nodes.len() ==> {
            &&& (#[trigger] nodes[i]).node1 is Some
            &&& nodes[i].node2 is Some
            &&& nodes[i].node1.unwrap() < i
            &&& nodes[i].node2.unwrap() < i
            &&& nodes[i].node1.unwrap() != nodes[i].node2.unwrap()
            &&& nodes[i].distance > 0
            &&& nodes[nodes[i].node1.unwrap() as int].distance <= nodes[i].distance
            &&& nodes[nodes[i].node2.unwrap() as int].distance <= nodes[i].distance
        }
    &&& forall|i: int, x: int|
        l <= i < nodes.len() && 0 <= x < l ==> !(under(nodes, nodes[i].node1.unwrap() as int, x)
            && #[trigger] under(nodes, nodes[i].node2.unwrap() as int, x))
    &&& forall|y: int| 0 <= y < nodes.len() ==> #[trigger] under(nodes, nodes.len() - 1, y)
}

/// `clusters` is a cut of the tree `nodes`: distinct nodes whose leaf sets
/// are disjoint and cover every leaf, every node above one of them at a
/// distance no smaller than that of any of them.
pub open spec fn is_cut(nodes: Seq<Node>, clusters: Seq<Node>) -> bool {
    &&& forall|k: int|
        0 <= k < clusters.len() ==> 0 <= (#[trigger] clusters[k]).label < nodes.len() && clusters[k]
            == nodes[clusters[k].label as int]
    &&& forall|j: int, k: int|
        0 <= j < k < clusters.len() ==> clusters[j].label != clusters[k].label
    &&& forall|x: int| 0 <= x < leaf_count(nodes) ==> #[trigger] cluster_covers(nodes, clusters, x)
    &&& forall|x: int, j: int, k: int|
        0 <= x < leaf_count(nodes) && 0 <= j < clusters.len() && 0 <= k < clusters.len() && under(
            nodes,
            clusters[j].label as int,
            x,
        ) && under(nodes, clusters[k].label as int, x) ==> j == k
    &&& forall|a: int, j: int, k: int|
        0 <= j < clusters.len() && 0 <= k < clusters.len() && #[trigger] under(
            nodes,
            a,
            clusters[k].label as int,
        ) && a != clusters[k].label ==> nodes[a].distance >= (#[trigger] clusters[j]).distance
}

/// Some cluster has the leaf `x` below it.
pub open spec fn cluster_covers(nodes: Seq<Node>, clusters: Seq<Node>, x: int) -> bool {
    exists|k: int| 0 <= k < clusters.len() && #[trigger] under(nodes, clusters[k].label as int, x)
}

/// Some node of the frontier `m` has the node `y` below it.
pub open spec fn frontier_covers(nodes: Seq<Node>, m: Multiset<(u64, usize)>, y: int) -> bool {
    exists|f: int| 0 <= f < nodes.len() && #[trigger] m.count(ent(nodes, f)) > 0 && under(nodes, f, y)
}

/// The heap entry of the node `v`.
pub open spec fn ent(nodes: Seq<Node>, v: int) -> (u64, usize) {
    (nodes[v].distance, v as usize)
}

/// The state of a partition of a cluster tree: the heap holds the frontier
/// of the `expanded` nodes, one entry per node, whose leaf sets partition
/// the leaves; every node is expanded or below the frontier, no expanded
/// node is below it, and expanded nodes lie at `floor` or above, frontier
/// nodes at `floor` or below.
pub open spec fn cut_state(nodes: Seq<Node>, heap: Seq<(u64, usize)>, expanded: Set<int>, floor: u64) -> bool {
    let m = heap.to_multiset();
    let l = leaf_count(nodes);
    &&& forall|e: (u64, usize)|
        #[trigger] m.count(e) > 0 ==> e.1 < nodes.len() && e == ent(nodes, e.1 as int)
    &&& forall|v: int| 0 <= v < nodes.len() ==> #[trigger] m.count(ent(nodes, v)) <= 1
    &&& forall|x: int| 0 <= x < l ==> #[trigger] frontier_covers(nodes, m, x)
    &&& forall|v: int, w: int, x: int|
        #![trigger under(nodes, v, x), under(nodes, w, x)]
        0 <= x < l && 0 <= v < nodes.len() && 0 <= w < nodes.len() && m.count(ent(nodes, v)) > 0
            && m.count(ent(nodes, w)) > 0 && under(nodes, v, x) && under(nodes, w, x) ==> v == w
    &&& expanded.finite()
    &&& expanded.len() + 1 == heap.len()
    &&& forall|w: int|
        #[trigger] expanded.contains(w) ==> l <= w < nodes.len() && nodes[w].distance >= floor
    &&& forall|e: (u64, usize)| #[trigger] m.count(e) > 0 ==> e.0 <= floor
    &&& forall|y: int|
        0 <= y < nodes.len() ==> #[trigger] expanded.contains(y) || frontier_covers(nodes, m, y)
    &&& forall|w: int, f: int|
        #[trigger] expanded.contains(w) && 0 <= f < nodes.len() && #[trigger] m.count(ent(nodes, f))
            > 0 ==> !under(nodes, f, w)
}

/// Subtrees nest: what lies below a node below `a` lies below `a`.
pub proof fn lemma_under_trans(nodes: Seq<Node>, a: int, b: int, c: int)
    requires
        under(nodes, a, b),
        under(nodes, b, c),
    ensures
        under(nodes, a, c),
    decreases a,
{
    if a != b {
        let n1 = nodes[a].node1.unwrap() as int;
        let n2 = nodes[a].node2.unwrap() as int;
        if n1 < a && under(nodes, n1, b) {
            lemma_under_trans(nodes, n1, b, c);
        } else {
            lemma_under_trans(nodes, n2, b, c);
        }
    }
}

/// Below every node of a cluster tree lies a leaf.
pub proof fn lemma_has_leaf(nodes: Seq<Node>, v: int)
    requires
        is_cluster_tree(nodes),
        0 <= v < nodes.len(),
    ensures
        exists|x: int| 0 <= x < leaf_count(nodes) && #[trigger] under(nodes, v, x),
    decreases v,
{
    if v < leaf_count(nodes) {
        assert(under(nodes, v, v));
    } else {
        let c = nodes[v].node1.unwrap() as int;
        lemma_has_leaf(nodes, c);
        let x = choose|x: int| 0 <= x < leaf_count(nodes) && #[trigger] under(nodes, c, x);
        assert(under(nodes, v, x));
    }
}

/// Only a leaf lies below a leaf: itself.
pub proof fn lemma_leaf_alone(nodes: Seq<Node>, f: int, y: int)
    requires
        is_cluster_tree(nodes),
        0 <= f < leaf_count(nodes),
        under(nodes, f, y),
    ensures
        f == y,
{
    assert(nodes[f].node1 is None);
}

/// The children of an inner node lie below it.
pub proof fn lemma_children_under(nodes: Seq<Node>, v: int)
    requires
        is_cluster_tree(nodes),
        leaf_count(nodes) <= v < nodes.len(),
    ensures
        under(nodes, v, nodes[v].node1.unwrap() as int),
        under(nodes, v, nodes[v].node2.unwrap() as int),
{
    let a = nodes[v].node1.unwrap() as int;
    let b = nodes[v].node2.unwrap() as int;
    assert(under(nodes, a, a));
    assert(under(nodes, b, b));
}

/// Two nodes of the frontier that share a leaf are the same node, and a
/// node strictly above a frontier node is expanded.
proof fn lemma_above_frontier_expanded(
    nodes: Seq<Node>,
    heap: Seq<(u64, usize)>,
    expanded: Set<int>,
    floor: u64,
    a: int,
    h: int,
)
    requires
        is_cluster_tree(nodes),
        cut_state(nodes, heap, expanded, floor),
        0 <= h < nodes.len(),
        heap.to_multiset().count(ent(nodes, h)) > 0,
        under(nodes, a, h),
        a != h,
    ensures
        expanded.contains(a),
{
    let m = heap.to_multiset();
    assert(0 <= a < nodes.len());
    if !expanded.contains(a) {
        let f = choose|f: int| 0 <= f < nodes.len() && #[trigger] m.count(ent(nodes, f)) > 0 && under(nodes, f, a);
        lemma_under_trans(nodes, f, a, h);
        lemma_has_leaf(nodes, h);
        let x = choose|x: int| 0 <= x < leaf_count(nodes) && #[trigger] under(nodes, h, x);
        lemma_under_trans(nodes, f, h, x);
        assert(f == h);
    }
}

/// A partition of a cluster tree never splits a leaf while it wants no
/// more clusters than there are leaves: if the largest entry is a leaf, the
/// heap already holds every leaf.
pub proof fn lemma_no_leaf_split(
    nodes: Seq<Node>,
    heap: Seq<(u64, usize)>,
    expanded: Set<int>,
    floor: u64,
    v: int,
)
    requires
        is_cluster_tree(nodes),
        cut_state(nodes, heap, expanded, floor),
        0 <= v < leaf_count(nodes),
        forall|i: int| 0 <= i < heap.len() ==> #[trigger] heap[i].0 <= nodes[v].distance,
    ensures
        heap.len() >= leaf_count(nodes),
{
    let m = heap.to_multiset();
    let l = leaf_count(nodes);
    let len = nodes.len() as int;
    assert forall|y: int| #[trigger] set_int_range(l, len).contains(y) implies expanded.contains(y) by {
        if !expanded.contains(y) {
            let f = choose|f: int| 0 <= f < len && #[trigger] m.count(ent(nodes, f)) > 0 && under(nodes, f, y);
            assert(heap.contains(ent(nodes, f)));
            let i = choose|i: int| 0 <= i < heap.len() && heap[i] == ent(nodes, f);
            assert(heap[i].0 <= nodes[v].distance);
            if f >= l {
                assert(nodes[f].distance > 0);
            }
            lemma_leaf_alone(nodes, f, y);
        }
    }
    lemma_int_range(l, len);
    lemma_len_subset(set_int_range(l, len), expanded);
}

/// The first state: only the root, nothing expanded.
pub proof fn lemma_cut_start(nodes: Seq<Node>, heap: Seq<(u64, usize)>)
    requires
        is_cluster_tree(nodes),
        heap == seq![ent(nodes, nodes.len() - 1)],
    ensures
        cut_state(nodes, heap, Set::empty(), u64::MAX),
{
    let r = nodes.len() - 1;
    let m = heap.to_multiset();
    assert(heap =~= Seq::<(u64, usize)>::empty().push(ent(nodes, r)));
    assert(m =~= Multiset::<(u64, usize)>::empty().insert(ent(nodes, r)));
    assert forall|x: int| 0 <= x < leaf_count(nodes) implies #[trigger] frontier_covers(nodes, m, x) by {
        assert(under(nodes, r, x));
        assert(m.count(ent(nodes, r)) > 0);
    }
    assert forall|v: int| 0 <= v < nodes.len() implies #[trigger] m.count(ent(nodes, v)) <= 1 by {
        if ent(nodes, v) == ent(nodes, r) {
            assert(v == r);
        }
    }
    assert forall|v: int, w: int, x: int|
        #![trigger under(nodes, v, x), under(nodes, w, x)]
        0 <= x < leaf_count(nodes) && 0 <= v < nodes.len() && 0 <= w < nodes.len() && m.count(
            ent(nodes, v),
        ) > 0 && m.count(ent(nodes, w)) > 0 && under(nodes, v, x) && under(nodes, w, x)
        implies v == w by {
        assert(ent(nodes, v) == ent(nodes, r));
        assert(ent(nodes, w) == ent(nodes, r));
    }
    assert forall|y: int| 0 <= y < nodes.len() implies #[trigger] Set::<int>::empty().contains(y)
        || frontier_covers(nodes, m, y) by {
        assert(m.count(ent(nodes, r)) > 0);
    }
}


/// Expanding the frontier node `v`, the largest in the heap, replacing it
/// by its two children keeps the state, with `v` expanded at its distance.
pub proof fn lemma_cut_step(
    nodes: Seq<Node>,
    h0: Seq<(u64, usize)>,
    h2: Seq<(u64, usize)>,
    expanded: Set<int>,
    floor: u64,
    v: int,
)
    requires
        is_cluster_tree(nodes),
        cut_state(nodes, h0, expanded, floor),
        leaf_count(nodes) <= v < nodes.len(),
        h0.to_multiset().count(ent(nodes, v)) > 0,
        forall|i: int| 0 <= i < h0.len() ==> #[trigger] h0[i].0 <= nodes[v].distance,
        h2.len() == h0.len() + 1,
        h2.to_multiset() == h0.to_multiset().remove(ent(nodes, v)).insert(
            ent(nodes, nodes[v].node1.unwrap() as int),
        ).insert(ent(nodes, nodes[v].node2.unwrap() as int)),
    ensures
        cut_state(nodes, h2, expanded.insert(v), nodes[v].distance),
{
    let m0 = h0.to_multiset();
    let m2 = h2.to_multiset();
    let l = leaf_count(nodes);
    let len = nodes.len() as int;
    let c1 = nodes[v].node1.unwrap() as int;
    let c2 = nodes[v].node2.unwrap() as int;
    let d = nodes[v].distance;
    let e2 = expanded.insert(v);
    lemma_children_under(nodes, v);
    assert(ent(nodes, c1) != ent(nodes, c2));
    assert(ent(nodes, c1) != ent(nodes, v));
    assert(ent(nodes, c2) != ent(nodes, v));
    // the children were not in the frontier
    assert forall|c: int| (c == c1 || c == c2) implies m0.count(ent(nodes, c)) == 0 by {
        if m0.count(ent(nodes, c)) > 0 {
            lemma_has_leaf(nodes, c);
            let x = choose|x: int| 0 <= x < l && #[trigger] under(nodes, c, x);
            lemma_under_trans(nodes, v, c, x);
            assert(under(nodes, c, x) && under(nodes, v, x));
        }
    }
    assert(m0.count(ent(nodes, v)) == 1);
    assert(m2.count(ent(nodes, v)) == 0);
    assert(m2.count(ent(nodes, c1)) == 1);
    assert(m2.count(ent(nodes, c2)) == 1);
    assert forall|e: (u64, usize)| e != ent(nodes, c1) && e != ent(nodes, c2) && e != ent(nodes, v)
        implies #[trigger] m2.count(e) == m0.count(e) by {}
    // entries
    assert forall|e: (u64, usize)| #[trigger] m2.count(e) > 0 implies e.1 < nodes.len() && e == ent(
        nodes,
        e.1 as int,
    ) && e.0 <= d by {
        if e != ent(nodes, c1) && e != ent(nodes, c2) {
            assert(m0.count(e) > 0);
            assert(h0.contains(e));
            let i = choose|i: int| 0 <= i < h0.len() && h0[i] == e;
            assert(h0[i].0 <= d);
        }
    }
    assert forall|w: int| 0 <= w < nodes.len() implies #[trigger] m2.count(ent(nodes, w)) <= 1 by {
        if ent(nodes, w) != ent(nodes, c1) && ent(nodes, w) != ent(nodes, c2) && ent(nodes, w) != ent(nodes, v) {
            assert(m0.count(ent(nodes, w)) <= 1);
        }
    }
    // covering
    assert forall|x: int| 0 <= x < l implies #[trigger] frontier_covers(nodes, m2, x) by {
        assert(frontier_covers(nodes, m0, x));
        let f = choose|f: int| 0 <= f < nodes.len() && #[trigger] m0.count(ent(nodes, f)) > 0 && under(nodes, f, x);
        if f == v {
            if under(nodes, c1, x) {
                assert(m2.count(ent(nodes, c1)) > 0);
            } else {
                assert(under(nodes, c2, x));
                assert(m2.count(ent(nodes, c2)) > 0);
            }
        } else {
            assert(ent(nodes, f) != ent(nodes, v));
            assert(m2.count(ent(nodes, f)) > 0);
        }
    }
    // no two frontier nodes share a leaf
    assert forall|a: int, b: int, x: int|
        #![trigger under(nodes, a, x), under(nodes, b, x)]
        0 <= x < l && 0 <= a < nodes.len() && 0 <= b < nodes.len() && m2.count(ent(nodes, a)) > 0
            && m2.count(ent(nodes, b)) > 0 && under(nodes, a, x) && under(nodes, b, x) implies a == b by {
        let a_new = a == c1 || a == c2;
        let b_new = b == c1 || b == c2;
        if a_new && b_new {
            if a != b {
                assert(!(under(nodes, c1, x) && under(nodes, c2, x)));
            }
        } else if a_new {
            lemma_under_trans(nodes, v, a, x);
            assert(ent(nodes, b) != ent(nodes, v));
            assert(m0.count(ent(nodes, b)) > 0);
            assert(under(nodes, v, x) && under(nodes, b, x));
        } else if b_new {
            lemma_under_trans(nodes, v, b, x);
            assert(ent(nodes, a) != ent(nodes, v));
            assert(m0.count(ent(nodes, a)) > 0);
            assert(under(nodes, v, x) && under(nodes, a, x));
        } else {
            assert(ent(nodes, a) != ent(nodes, v));
            assert(ent(nodes, b) != ent(nodes, v));
            assert(m0.count(ent(nodes, a)) > 0 && m0.count(ent(nodes, b)) > 0);
        }
    }
    // the expanded set
    assert(!expanded.contains(v)) by {
        assert(under(nodes, v, v));
    }
    assert forall|w: int| #[trigger] e2.contains(w) implies l <= w < nodes.len() && nodes[w].distance >= d by {
        if w != v {
            assert(expanded.contains(w));
            assert(m0.count(ent(nodes, v)) > 0);
        }
    }
    assert forall|y: int| 0 <= y < nodes.len() implies #[trigger] e2.contains(y) || frontier_covers(nodes, m2, y) by {
        if !expanded.contains(y) {
            let f = choose|f: int| 0 <= f < nodes.len() && #[trigger] m0.count(ent(nodes, f)) > 0 && under(nodes, f, y);
            if f == v {
                if y != v {
                    if c1 < v && under(nodes, c1, y) {
                        assert(m2.count(ent(nodes, c1)) > 0);
                    } else {
                        assert(m2.count(ent(nodes, c2)) > 0);
                    }
                }
            } else {
                assert(ent(nodes, f) != ent(nodes, v));
                assert(m2.count(ent(nodes, f)) > 0);
            }
        }
    }
    assert forall|w: int, f: int|
        #[trigger] e2.contains(w) && 0 <= f < nodes.len() && #[trigger] m2.count(ent(nodes, f)) > 0
            implies !under(nodes, f, w) by {
        if under(nodes, f, w) {
            if f == c1 || f == c2 {
                if w == v {
                } else {
                    lemma_under_trans(nodes, v, f, w);
                    assert(m0.count(ent(nodes, v)) > 0);
                }
            } else {
                assert(ent(nodes, f) != ent(nodes, v));
                assert(m0.count(ent(nodes, f)) > 0);
                if w == v {
                    lemma_has_leaf(nodes, v);
                    let x = choose|x: int| 0 <= x < l && #[trigger] under(nodes, v, x);
                    lemma_under_trans(nodes, f, v, x);
                    assert(under(nodes, f, x) && under(nodes, v, x));
                } else {
                    assert(expanded.contains(w));
                }
            }
        }
    }
}


/// The nodes of a partition's frontier form a cut of the tree.
pub proof fn lemma_cut_result(
    nodes: Seq<Node>,
    heap: Seq<(u64, usize)>,
    expanded: Set<int>,
    floor: u64,
    clusters: Seq<Node>,
)
    requires
        is_cluster_tree(nodes),
        cut_state(nodes, heap, expanded, floor),
        clusters == heap.map_values(|e: (u64, usize)| nodes[e.1 as int]),
    ensures
        is_cut(nodes, clusters),
{
    let m = heap.to_multiset();
    let l = leaf_count(nodes);
    assert forall|k: int| 0 <= k < heap.len() implies #[trigger] heap[k] == ent(nodes, heap[k].1 as int)
        && heap[k].1 < nodes.len() && clusters[k].label == heap[k].1 && m.count(heap[k]) > 0 by {
        assert(heap.contains(heap[k]));
        assert(m.count(heap[k]) > 0);
    }
    assert forall|e: (u64, usize)| m.contains(e) implies m.count(e) == 1 by {
        assert(m.count(ent(nodes, e.1 as int)) <= 1);
    }
    heap.lemma_multiset_has_no_duplicates_conv();
    assert forall|k: int| 0 <= k < clusters.len() implies 0 <= (#[trigger] clusters[k]).label
        < nodes.len() && clusters[k] == nodes[clusters[k].label as int] by {
        assert(heap[k] == ent(nodes, heap[k].1 as int));
    }
    assert forall|j: int, k: int| 0 <= j < k < clusters.len() implies clusters[j].label
        != clusters[k].label by {
        assert(heap[j] == ent(nodes, heap[j].1 as int));
        assert(heap[k] == ent(nodes, heap[k].1 as int));
    }
    assert forall|x: int| 0 <= x < l implies #[trigger] cluster_covers(nodes, clusters, x) by {
        assert(frontier_covers(nodes, m, x));
        let f = choose|f: int| 0 <= f < nodes.len() && #[trigger] m.count(ent(nodes, f)) > 0 && under(nodes, f, x);
        assert(heap.contains(ent(nodes, f)));
        let k = choose|k: int| 0 <= k < heap.len() && heap[k] == ent(nodes, f);
        assert(clusters[k].label == heap[k].1);
        assert(under(nodes, clusters[k].label as int, x));
    }
    assert forall|x: int, j: int, k: int|
        0 <= x < l && 0 <= j < clusters.len() && 0 <= k < clusters.len() && under(
            nodes,
            clusters[j].label as int,
            x,
        ) && under(nodes, clusters[k].label as int, x) implies j == k by {
        let a = heap[j].1 as int;
        let b = heap[k].1 as int;
        assert(heap[j] == ent(nodes, a) && heap[k] == ent(nodes, b));
        assert(m.count(ent(nodes, a)) > 0 && m.count(ent(nodes, b)) > 0);
        assert(under(nodes, a, x) && under(nodes, b, x));
        assert(a == b);
    }
    assert forall|a: int, j: int, k: int|
        0 <= j < clusters.len() && 0 <= k < clusters.len() && #[trigger] under(
            nodes,
            a,
            clusters[k].label as int,
        ) && a != clusters[k].label implies nodes[a].distance >= (#[trigger] clusters[j]).distance by {
        let h = heap[k].1 as int;
        assert(heap[k] == ent(nodes, h));
        lemma_above_frontier_expanded(nodes, heap, expanded, floor, a, h);
        assert(heap[j] == ent(nodes, heap[j].1 as int));
        assert(m.count(heap[j]) > 0);
        assert(heap[j].0 <= floor);
    }
}

} // verus!
