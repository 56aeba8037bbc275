//! The shape of an agglomeration: a forest of clusters that merges into a
//! single tree, which partitions can cut.
use crate::hierarchical::algorithm::{active, has_leaves, is_agglomeration, is_merge_step};
use crate::hierarchical::cut::{is_cluster_tree, leaf_count, under};
use crate::hierarchical::node::Node;
use vstd::prelude::*;
use vstd::set_lib::*;

verus! {

/// The clusters still unmerged before the node `t` is created.
pub open spec fn active_set(nodes: Seq<Node>, n: int, t: int) -> Set<int> {
    Set::new(|x: int| active(nodes, n, t, x))
}

/// Before the node `t` is created, some unmerged cluster has `y` below it.
pub open spec fn covered_at(nodes: Seq<Node>, n: int, t: int, y: int) -> bool {
    exists|v: int| #[trigger] active(nodes, n, t, v) && under(nodes, v, y)
}

/// Before the node `t` is created, the unmerged clusters form a forest:
/// every earlier node lies below one of them, no leaf lies below two, and
/// there are `2n - t` of them.
proof fn lemma_forest(nodes: Seq<Node>, n: int, dist: spec_fn(int, int) -> u64, t: int)
    requires
        is_agglomeration(nodes, n, dist),
        n >= 1,
        n <= t <= 2 * n - 1,
    ensures
        forall|y: int| 0 <= y < t ==> #[trigger] covered_at(nodes, n, t, y),
        forall|v: int, w: int, x: int|
            #![trigger under(nodes, v, x), under(nodes, w, x)]
            0 <= x < n && active(nodes, n, t, v) && active(nodes, n, t, w) && under(nodes, v, x)
                && under(nodes, w, x) ==> v == w,
        active_set(nodes, n, t).finite(),
        active_set(nodes, n, t).len() == 2 * n - t,
    decreases t - n,
{
    if t == n {
        assert forall|y: int| 0 <= y < t implies #[trigger] covered_at(nodes, n, t, y) by {
            assert(active(nodes, n, t, y));
            assert(under(nodes, y, y));
        }
        assert forall|v: int, w: int, x: int|
            #![trigger under(nodes, v, x), under(nodes, w, x)]
            0 <= x < n && active(nodes, n, t, v) && active(nodes, n, t, w) && under(nodes, v, x)
                && under(nodes, w, x) implies v == w by {
            assert(nodes[v].node1 is None);
            assert(nodes[w].node1 is None);
        }
        assert(active_set(nodes, n, t) =~= set_int_range(0, n));
        lemma_int_range(0, n);
    } else {
        let s = t - 1;
        lemma_forest(nodes, n, dist, s);
        assert(is_merge_step(nodes, n, s, dist));
        let a = nodes[s].node1->0 as int;
        let b = nodes[s].node2->0 as int;
        assert(active(nodes, n, s, a) && active(nodes, n, s, b));
        assert(under(nodes, a, a) && under(nodes, b, b));
        assert(under(nodes, s, a) && under(nodes, s, b));
        assert forall|x: int| 0 <= x < s && active(nodes, n, s, x) && x != a && x != b implies #[trigger] active(
            nodes,
            n,
            t,
            x,
        ) by {
            assert forall|r: int| n <= r < t implies !(#[trigger] nodes[r]).has_child(x) by {
                if r < s {
                    assert(!nodes[r].has_child(x));
                }
            }
        }
        assert(active(nodes, n, t, s)) by {
            assert forall|r: int| n <= r < t implies !(#[trigger] nodes[r]).has_child(s) by {
                if r < s {
                    assert(is_merge_step(nodes, n, r, dist));
                }
            }
        }
        assert forall|x: int| #[trigger] active(nodes, n, t, x) implies x == s || (active(nodes, n, s, x)
            && x != a && x != b) by {
            if x != s {
                assert(!nodes[s].has_child(x));
                assert forall|r: int| n <= r < s implies !(#[trigger] nodes[r]).has_child(x) by {
                    assert(n <= r < t);
                }
            }
        }
        assert forall|y: int| 0 <= y < t implies #[trigger] covered_at(nodes, n, t, y) by {
            if y == s {
                assert(under(nodes, s, s));
            } else {
                assert(covered_at(nodes, n, s, y));
                let v = choose|v: int| #[trigger] active(nodes, n, s, v) && under(nodes, v, y);
                if v == a || v == b {
                    crate::hierarchical::cut::lemma_under_trans(nodes, s, v, y);
                    assert(active(nodes, n, t, s));
                } else {
                    assert(active(nodes, n, t, v));
                }
            }
        }
        assert forall|v: int, w: int, x: int|
            #![trigger under(nodes, v, x), under(nodes, w, x)]
            0 <= x < n && active(nodes, n, t, v) && active(nodes, n, t, w) && under(nodes, v, x)
                && under(nodes, w, x) implies v == w by {
            if v == s && w != s {
                assert(under(nodes, a, x) || under(nodes, b, x));
                if under(nodes, a, x) {
                    assert(under(nodes, a, x) && under(nodes, w, x));
                } else {
                    assert(under(nodes, b, x) && under(nodes, w, x));
                }
            } else if w == s && v != s {
                if under(nodes, a, x) {
                    assert(under(nodes, a, x) && under(nodes, v, x));
                } else {
                    assert(under(nodes, b, x));
                    assert(under(nodes, b, x) && under(nodes, v, x));
                }
            }
        }
        let prev = active_set(nodes, n, s);
        assert(active_set(nodes, n, t) =~= prev.remove(a).remove(b).insert(s));
        assert(prev.contains(a) && prev.contains(b) && a != b);
        assert(!prev.contains(s));
    }
}

/// Heights rise along the merges.
proof fn lemma_heights_chain(nodes: Seq<Node>, n: int, c: int, i: int)
    requires
        forall|s: int| n <= s && s + 1 < 2 * n - 1 ==> #[trigger] nodes[s].distance <= nodes[s + 1].distance,
        n <= c <= i < 2 * n - 1,
    ensures
        nodes[c].distance <= nodes[i].distance,
    decreases i - c,
{
    if c < i {
        lemma_heights_chain(nodes, n, c, i - 1);
        assert(nodes[i - 1].distance <= nodes[i].distance);
    }
}

/// An agglomeration whose merges happen at positive, rising distances is a
/// cluster tree: the leaves first, each merge joining two earlier nodes
/// with disjoint leaves, and the last node above every node.
pub proof fn lemma_agglomeration_is_tree(nodes: Seq<Node>, n: int, dist: spec_fn(int, int) -> u64)
    requires
        is_agglomeration(nodes, n, dist),
        n >= 1,
        2 * n - 1 <= usize::MAX,
        forall|s: int| n <= s < 2 * n - 1 ==> #[trigger] nodes[s].distance > 0,
        forall|s: int| n <= s && s + 1 < 2 * n - 1 ==> #[trigger] nodes[s].distance <= nodes[s + 1].distance,
    ensures
        is_cluster_tree(nodes),
{
    assert(leaf_count(nodes) == n);
    assert forall|i: int| 0 <= i < nodes.len() implies #[trigger] nodes[i].label == i by {
        if i < n {
            assert(has_leaves(nodes, n));
        } else {
            assert(is_merge_step(nodes, n, i, dist));
        }
    }
    assert forall|i: int|
        0 <= i < n implies (#[trigger] nodes[i]).node1 is None && nodes[i].node2 is None
            && nodes[i].distance == 0 by {
        assert(has_leaves(nodes, n));
    }
    assert forall|i: int| n <= i < nodes.len() implies {
        &&& (#[trigger] nodes[i]).node1 is Some
        &&& nodes[i].node2 is Some
        &&& nodes[i].node1.unwrap() < i
        &&& nodes[i].node2.unwrap() < i
        &&& nodes[i].node1.unwrap() != nodes[i].node2.unwrap()
        &&& nodes[i].distance > 0
        &&& nodes[nodes[i].node1.unwrap() as int].distance <= nodes[i].distance
        &&& nodes[nodes[i].node2.unwrap() as int].distance <= nodes[i].distance
    } by {
        assert(is_merge_step(nodes, n, i, dist));
        let a = nodes[i].node1.unwrap() as int;
        let b = nodes[i].node2.unwrap() as int;
        if a < n {
            assert(has_leaves(nodes, n));
            assert(nodes[a].distance == 0);
        } else {
            lemma_heights_chain(nodes, n, a, i);
        }
        if b < n {
            assert(has_leaves(nodes, n));
            assert(nodes[b].distance == 0);
        } else {
            lemma_heights_chain(nodes, n, b, i);
        }
    }
    assert forall|i: int, x: int|
        n <= i < nodes.len() && 0 <= x < n implies !(under(nodes, nodes[i].node1.unwrap() as int, x)
        && #[trigger] under(nodes, nodes[i].node2.unwrap() as int, x)) by {
        assert(is_merge_step(nodes, n, i, dist));
        lemma_forest(nodes, n, dist, i);
        let a = nodes[i].node1.unwrap() as int;
        let b = nodes[i].node2.unwrap() as int;
        assert(active(nodes, n, i, a) && active(nodes, n, i, b));
        if under(nodes, a, x) && under(nodes, b, x) {
            assert(a == b);
        }
    }
    let last = 2 * n - 1;
    let root = last - 1;
    lemma_forest(nodes, n, dist, last);
    assert(active(nodes, n, last, root)) by {
        assert forall|r: int| n <= r < last implies !(#[trigger] nodes[r]).has_child(root) by {
            assert(is_merge_step(nodes, n, r, dist));
        }
    }
    assert forall|y: int| 0 <= y < nodes.len() implies #[trigger] under(nodes, nodes.len() - 1, y) by {
        assert(covered_at(nodes, n, last, y));
        let v = choose|v: int| #[trigger] active(nodes, n, last, v) && under(nodes, v, y);
        if v != root {
            let both = set![v, root];
            assert(both.subset_of(active_set(nodes, n, last)));
            lemma_len_subset(both, active_set(nodes, n, last));
            assert(both =~= set![v].insert(root));
            assert(both.len() == 2);
        }
    }
}

} // verus!
