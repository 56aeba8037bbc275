//! The labelling of the sampled core points in DBSCAN++, given the
//! neighbourhood of every core point among the others.
use crate::clustering::dbscan::{is_core, near_core, symmetric_neighborhoods, valid_neighborhoods};
use std::collections::VecDeque;
use vstd::prelude::*;

verus! {

/// The first cluster label.
pub const INITIAL_LABEL: i32 = 0;

/// The label of an outlier.
pub const OUTLIER: i32 = -1;

/// The label of a point queued for its cluster.
pub const MARKED: i32 = -2;

/// The label of a point that no step has classified.
pub const UNCLASSIFIED: i32 = -3;

/// Every neighbour of `p` is in a cluster or still waits in `queue`.
pub open spec fn settled_or_queued(
    nbrs: Seq<Seq<usize>>,
    labels: Seq<i32>,
    queue: Seq<usize>,
    p: int,
) -> bool {
    forall|k: int|
        0 <= k < nbrs[p].len() ==> labels[#[trigger] nbrs[p][k] as int] >= 0 || queue.contains(
            nbrs[p][k],
        )
}

/// Every neighbour of `p` is in a cluster.
pub open spec fn all_clustered(nbrs: Seq<Seq<usize>>, labels: Seq<i32>, p: int) -> bool {
    forall|k: int| 0 <= k < nbrs[p].len() ==> labels[#[trigger] nbrs[p][k] as int] >= 0
}

/// Two core points within reach of each other that are both in clusters
/// are in the same one.
pub open spec fn core_labels_agree(nbrs: Seq<Seq<usize>>, labels: Seq<i32>, min_points: int) -> bool {
    forall|p: int, k: int|
        0 <= p < nbrs.len() && 0 <= k < nbrs[p].len() && is_core(nbrs, p, min_points) && is_core(
            nbrs,
            #[trigger] nbrs[p][k] as int,
            min_points,
        ) && labels[p] >= 0 && labels[nbrs[p][k] as int] >= 0 ==> labels[p] == labels[nbrs[p][k] as int]
}

/// The number of points not yet in a cluster.
pub open spec fn count_open(labels: Seq<i32>) -> nat
    decreases labels.len(),
{
    if labels.len() == 0 {
        0
    } else {
        count_open(labels.drop_last()) + if labels.last() >= 0 {
            0nat
        } else {
            1nat
        }
    }
}

/// Changing one label changes the count by at most the change at that point.
proof fn lemma_count_open(labels: Seq<i32>, j: int, v: i32)
    requires
        0 <= j < labels.len(),
    ensures
        count_open(labels.update(j, v)) + (if labels[j] >= 0 {
            0int
        } else {
            1int
        }) == count_open(labels) + (if v >= 0 {
            0int
        } else {
            1int
        }),
    decreases labels.len(),
{
    let u = labels.update(j, v);
    if j == labels.len() - 1 {
        assert(u.drop_last() =~= labels.drop_last());
    } else {
        assert(u.drop_last() =~= labels.drop_last().update(j, v));
        lemma_count_open(labels.drop_last(), j, v);
    }
}

/// The invariant of core-point labelling between two steps, but for the
/// neighbourhood of the point `pending`, which is being queued: labels are
/// unclassified, outliers, marked or clusters below `next_label`; marked
/// points wait in `queue`, which holds no unclassified point; outliers are
/// not core points; clustered points are neighbours of core points; the
/// core points visited or clustered have their neighbourhood in clusters or
/// in `queue`, fully in clusters when their cluster is below `done_label`;
/// core points within reach of each other agree (for symmetric reach); and
/// the points before `visited` are classified unless they are core points.
pub open spec fn core_inv_except(
    nbrs: Seq<Seq<usize>>,
    min_points: int,
    labels: Seq<i32>,
    queue: Seq<usize>,
    next_label: int,
    done_label: int,
    visited: int,
    pending: int,
) -> bool {
    &&& labels.len() == nbrs.len()
    &&& forall|x: int|
        0 <= x < labels.len() ==> (#[trigger] labels[x] == UNCLASSIFIED || labels[x] == OUTLIER
            || labels[x] == MARKED || (0 <= labels[x] < next_label))
    &&& forall|x: int| 0 <= x < labels.len() && #[trigger] labels[x] == MARKED ==> queue.contains(x as usize)
    &&& forall|x: int|
        0 <= x < labels.len() && #[trigger] labels[x] == OUTLIER ==> !is_core(nbrs, x, min_points)
    &&& forall|x: int|
        0 <= x < labels.len() && #[trigger] labels[x] >= 0 ==> near_core(nbrs, x, min_points)
    &&& forall|p: int|
        0 <= p < nbrs.len() && p != pending && is_core(nbrs, p, min_points) && (p < visited
            || labels[p] >= 0) ==> #[trigger] settled_or_queued(nbrs, labels, queue, p)
    &&& forall|p: int|
        0 <= p < nbrs.len() && is_core(nbrs, p, min_points) && 0 <= labels[p] < done_label
            ==> #[trigger] all_clustered(nbrs, labels, p)
    &&& symmetric_neighborhoods(nbrs) ==> core_labels_agree(nbrs, labels, min_points)
    &&& forall|x: int|
        0 <= x < visited ==> #[trigger] labels[x] != UNCLASSIFIED || is_core(nbrs, x, min_points)
    &&& queue_inv(nbrs, min_points, labels, queue)
}

/// The queue holds classified neighbours of core points.
pub open spec fn queue_inv(nbrs: Seq<Seq<usize>>, min_points: int, labels: Seq<i32>, queue: Seq<usize>) -> bool {
    &&& forall|k: int| 0 <= k < queue.len() ==> near_core(nbrs, #[trigger] queue[k] as int, min_points)
    &&& forall|k: int| 0 <= k < queue.len() ==> #[trigger] queue[k] < nbrs.len()
    &&& forall|k: int| 0 <= k < queue.len() ==> labels[#[trigger] queue[k] as int] != UNCLASSIFIED
}

/// The clustered point `x` hangs on its parent: a dense point that reaches
/// `x` and is either the seed of the cluster of `x` or a member of that
/// cluster of lower rank.
pub open spec fn core_chained(
    nbrs: Seq<Seq<usize>>,
    labels: Seq<i32>,
    seeds: Seq<int>,
    parent: Seq<int>,
    rank: Seq<int>,
    m: int,
    x: int,
) -> bool {
    let p = parent[x];
    &&& 0 <= p < nbrs.len()
    &&& is_core(nbrs, p, m)
    &&& nbrs[p].contains(x as usize)
    &&& (p == seeds[labels[x] as int] || (labels[p] == labels[x] && rank[p] < rank[x]))
}

/// Each cluster `l` was grown from the dense point `seeds[l]`, the seeds
/// increasing with their labels: every clustered point is reached from the
/// seed of its cluster by a chain of dense points of that cluster, each
/// within reach of the next (following `parent`, which lowers `rank`).
pub open spec fn core_grown_from_seeds(
    nbrs: Seq<Seq<usize>>,
    labels: Seq<i32>,
    seeds: Seq<int>,
    parent: Seq<int>,
    rank: Seq<int>,
    m: int,
) -> bool {
    &&& parent.len() == labels.len()
    &&& rank.len() == labels.len()
    &&& forall|l: int|
        0 <= l < seeds.len() ==> 0 <= #[trigger] seeds[l] < labels.len() && is_core(nbrs, seeds[l], m)
    &&& forall|l1: int, l2: int| 0 <= l1 < l2 < seeds.len() ==> seeds[l1] < seeds[l2]
    &&& forall|x: int|
        0 <= x < labels.len() && #[trigger] labels[x] >= 0 ==> labels[x] < seeds.len()
            && core_chained(nbrs, labels, seeds, parent, rank, m, x)
}

/// Each seed is the first dense point that no earlier cluster took: a dense
/// point before `seeds[l]` is in a cluster below `l` or is an earlier seed.
pub open spec fn core_seeds_first(nbrs: Seq<Seq<usize>>, labels: Seq<i32>, seeds: Seq<int>, m: int) -> bool {
    forall|l: int, x: int|
        0 <= l < seeds.len() && 0 <= x < #[trigger] seeds[l] && #[trigger] is_core(nbrs, x, m) ==> (0
            <= labels[x] < l) || exists|l2: int| 0 <= l2 < l && seeds[l2] == x
}

/// The point `y` is reached by a dense point that is the seed or a member
/// of the cluster `label` ranked below `stamp`.
pub open spec fn reached_in_cluster(
    nbrs: Seq<Seq<usize>>,
    labels: Seq<i32>,
    rank: Seq<int>,
    seed: int,
    label: i32,
    stamp: int,
    m: int,
    y: usize,
) -> bool {
    exists|p: int|
        0 <= p < nbrs.len() && is_core(nbrs, p, m) && #[trigger] nbrs[p].contains(y) && (p == seed || (
        labels[p] == label && rank[p] < stamp))
}

/// Giving a point outside every cluster another such label keeps the chains
/// and every point reached.
proof fn lemma_core_relabel_outside(
    nbrs: Seq<Seq<usize>>,
    before: Seq<i32>,
    seeds: Seq<int>,
    parent: Seq<int>,
    rank: Seq<int>,
    m: int,
    y: int,
    v: i32,
    seed: int,
    label: i32,
    stamp: int,
)
    requires
        core_grown_from_seeds(nbrs, before, seeds, parent, rank, m),
        before.len() == nbrs.len(),
        0 <= y < before.len(),
        before[y] < 0,
        v < 0,
        label >= 0,
    ensures
        core_grown_from_seeds(nbrs, before.update(y, v), seeds, parent, rank, m),
        forall|z: usize|
            #[trigger] reached_in_cluster(nbrs, before, rank, seed, label, stamp, m, z)
                ==> reached_in_cluster(nbrs, before.update(y, v), rank, seed, label, stamp, m, z),
        forall|x: int|
            0 <= x < before.len() && #[trigger] before.update(y, v)[x] == label ==> before[x] == label,
{
    let after = before.update(y, v);
    assert forall|x: int| 0 <= x < after.len() && #[trigger] after[x] >= 0 implies after[x]
        < seeds.len() && core_chained(nbrs, after, seeds, parent, rank, m, x) by {
        assert(x != y);
        assert(core_chained(nbrs, before, seeds, parent, rank, m, x));
        let px = parent[x];
        if px != seeds[before[x] as int] {
            assert(before[px] == before[x]);
            assert(px != y);
        }
    }
    assert forall|z: usize|
        #[trigger] reached_in_cluster(nbrs, before, rank, seed, label, stamp, m, z)
            implies reached_in_cluster(nbrs, after, rank, seed, label, stamp, m, z) by {
        let p = choose|p: int|
            0 <= p < nbrs.len() && is_core(nbrs, p, m) && #[trigger] nbrs[p].contains(z) && (p == seed
                || (before[p] == label && rank[p] < stamp));
        if p != seed {
            assert(p != y);
        }
        assert(nbrs[p].contains(z));
    }
    assert forall|x: int| 0 <= x < before.len() && #[trigger] after[x] == label implies before[x]
        == label by {
        assert(x != y);
    }
}

/// Putting the point `q`, reached by the dense point `p`, into the cluster
/// `label` with parent `p` and rank `stamp` keeps the chains and every
/// point reached.
proof fn lemma_core_chain_step(
    nbrs: Seq<Seq<usize>>,
    before: Seq<i32>,
    seeds: Seq<int>,
    parent: Seq<int>,
    rank: Seq<int>,
    m: int,
    q: int,
    p: int,
    label: i32,
    stamp: int,
)
    requires
        core_grown_from_seeds(nbrs, before, seeds, parent, rank, m),
        before.len() == nbrs.len(),
        seeds.len() == label + 1,
        label >= 0,
        0 <= q < before.len(),
        before[q] < 0,
        0 <= p < nbrs.len(),
        is_core(nbrs, p, m),
        nbrs[p].contains(q as usize),
        p == seeds[label as int] || (before[p] == label && rank[p] < stamp),
        forall|x: int| 0 <= x < before.len() && #[trigger] before[x] == label ==> rank[x] < stamp,
    ensures
        core_grown_from_seeds(
            nbrs,
            before.update(q, label),
            seeds,
            parent.update(q, p),
            rank.update(q, stamp),
            m,
        ),
        forall|x: int|
            0 <= x < before.len() && #[trigger] before.update(q, label)[x] == label ==> rank.update(
                q,
                stamp,
            )[x] < stamp + 1,
        forall|z: usize|
            #[trigger] reached_in_cluster(nbrs, before, rank, seeds[label as int], label, stamp, m, z)
                ==> reached_in_cluster(
                nbrs,
                before.update(q, label),
                rank.update(q, stamp),
                seeds[label as int],
                label,
                stamp + 1,
                m,
                z,
            ),
        forall|z: usize|
            #[trigger] nbrs[q].contains(z) && is_core(nbrs, q, m) ==> reached_in_cluster(
                nbrs,
                before.update(q, label),
                rank.update(q, stamp),
                seeds[label as int],
                label,
                stamp + 1,
                m,
                z,
            ),
{
    let after = before.update(q, label);
    let pa = parent.update(q, p);
    let ra = rank.update(q, stamp);
    assert forall|x: int| 0 <= x < after.len() && #[trigger] after[x] >= 0 implies after[x]
        < seeds.len() && core_chained(nbrs, after, seeds, pa, ra, m, x) by {
        if x != q {
            assert(after[x] == before[x]);
            assert(core_chained(nbrs, before, seeds, parent, rank, m, x));
            let px = parent[x];
            assert(pa[x] == px && ra[x] == rank[x]);
            if px != seeds[before[x] as int] {
                assert(before[px] == before[x]);
                assert(px != q);
                assert(after[px] == before[px] && ra[px] == rank[px]);
            }
        } else {
            assert(pa[q] == p && ra[q] == stamp && after[q] == label);
            if p != seeds[label as int] {
                assert(before[p] == label);
                assert(p != q);
                assert(after[p] == label && ra[p] == rank[p]);
            }
        }
    }
    assert forall|z: usize|
        #[trigger] reached_in_cluster(nbrs, before, rank, seeds[label as int], label, stamp, m, z)
            implies reached_in_cluster(nbrs, after, ra, seeds[label as int], label, stamp + 1, m, z) by {
        let w = choose|w: int|
            0 <= w < nbrs.len() && is_core(nbrs, w, m) && #[trigger] nbrs[w].contains(z) && (w
                == seeds[label as int] || (before[w] == label && rank[w] < stamp));
        if w != seeds[label as int] {
            assert(w != q);
            assert(after[w] == label && ra[w] == rank[w]);
        }
        assert(nbrs[w].contains(z));
    }
    assert forall|z: usize| #[trigger] nbrs[q].contains(z) && is_core(nbrs, q, m) implies reached_in_cluster(
        nbrs,
        after,
        ra,
        seeds[label as int],
        label,
        stamp + 1,
        m,
        z,
    ) by {
        assert(after[q] == label && ra[q] == stamp);
        assert(nbrs[q].contains(z));
    }
}

/// Every dense point before `visited` is in a cluster or is a seed.
pub open spec fn dense_taken_before(
    nbrs: Seq<Seq<usize>>,
    labels: Seq<i32>,
    seeds: Seq<int>,
    visited: int,
    m: int,
) -> bool {
    forall|x: int|
        0 <= x < visited && #[trigger] is_core(nbrs, x, m) ==> labels[x] >= 0 || exists|l: int|
            0 <= l < seeds.len() && seeds[l] == x
}

/// Passing over the point `i`, already in a cluster or not dense, and
/// perhaps giving it a label outside every cluster, keeps the seeds first.
proof fn lemma_core_step_outside(
    nbrs: Seq<Seq<usize>>,
    before: Seq<i32>,
    after: Seq<i32>,
    seeds: Seq<int>,
    i: int,
    m: int,
)
    requires
        before.len() == after.len(),
        0 <= i < before.len(),
        forall|x: int| 0 <= x < before.len() && x != i ==> #[trigger] after[x] == before[x],
        after[i] == before[i] || (before[i] < 0 && after[i] < 0),
        is_core(nbrs, i, m) ==> after[i] >= 0,
        core_seeds_first(nbrs, before, seeds, m),
        dense_taken_before(nbrs, before, seeds, i, m),
        forall|l: int| 0 <= l < seeds.len() ==> #[trigger] seeds[l] < i,
    ensures
        core_seeds_first(nbrs, after, seeds, m),
        dense_taken_before(nbrs, after, seeds, i + 1, m),
{
    assert forall|l: int, x: int|
        0 <= l < seeds.len() && 0 <= x < #[trigger] seeds[l] && #[trigger] is_core(nbrs, x, m) implies (0
            <= after[x] < l) || exists|l2: int| 0 <= l2 < l && seeds[l2] == x by {
        assert(x != i);
        assert(after[x] == before[x]);
    }
    assert forall|x: int| 0 <= x < i + 1 && #[trigger] is_core(nbrs, x, m) implies after[x] >= 0
        || exists|l: int| 0 <= l < seeds.len() && seeds[l] == x by {
        if x != i {
            assert(after[x] == before[x]);
        }
    }
}

/// Growing the cluster of the seed `i` (its label `seeds.len()`), which
/// keeps every clustered point's label, keeps the seeds first in order.
proof fn lemma_core_after_expand(
    nbrs: Seq<Seq<usize>>,
    before: Seq<i32>,
    after: Seq<i32>,
    seeds: Seq<int>,
    i: int,
    m: int,
)
    requires
        before.len() == after.len(),
        0 <= i < before.len(),
        forall|x: int| 0 <= x < before.len() && #[trigger] before[x] >= 0 ==> after[x] == before[x],
        forall|x: int| 0 <= x < before.len() && #[trigger] before[x] >= 0 ==> before[x] < seeds.len(),
        core_seeds_first(nbrs, before, seeds, m),
        dense_taken_before(nbrs, before, seeds, i, m),
        forall|l: int| 0 <= l < seeds.len() ==> #[trigger] seeds[l] < i,
    ensures
        core_seeds_first(nbrs, after, seeds.push(i), m),
        dense_taken_before(nbrs, after, seeds.push(i), i + 1, m),
{
    let s2 = seeds.push(i);
    assert forall|l: int, x: int|
        0 <= l < s2.len() && 0 <= x < #[trigger] s2[l] && #[trigger] is_core(nbrs, x, m) implies (0
            <= after[x] < l) || exists|l2: int| 0 <= l2 < l && s2[l2] == x by {
        if l < seeds.len() {
            assert(s2[l] == seeds[l]);
            if 0 <= before[x] < l {
            } else {
                let l2 = choose|l2: int| 0 <= l2 < l && seeds[l2] == x;
                assert(s2[l2] == x);
            }
        } else {
            if before[x] >= 0 {
            } else {
                let l2 = choose|l2: int| 0 <= l2 < seeds.len() && seeds[l2] == x;
                assert(s2[l2] == x);
            }
        }
    }
    assert forall|x: int| 0 <= x < i + 1 && #[trigger] is_core(nbrs, x, m) implies after[x] >= 0
        || exists|l: int| 0 <= l < s2.len() && s2[l] == x by {
        if x == i {
            assert(s2[seeds.len() as int] == x);
        } else if before[x] >= 0 {
        } else {
            let l = choose|l: int| 0 <= l < seeds.len() && seeds[l] == x;
            assert(s2[l] == x);
        }
    }
}

/// The invariant of core-point labelling between two steps, with no
/// neighbourhood pending.
pub open spec fn core_labelling_inv(
    nbrs: Seq<Seq<usize>>,
    min_points: int,
    labels: Seq<i32>,
    queue: Seq<usize>,
    next_label: int,
    done_label: int,
    visited: int,
) -> bool {
    core_inv_except(nbrs, min_points, labels, queue, next_label, done_label, visited, -1)
}

/// Labels the sampled core points by DBSCAN, where `neighborhoods[p]` lists
/// the core points within reach of `p` and a point is dense when it has at
/// least `min_points` of them. Points are visited in order; an
/// unclassified dense point starts a new cluster, which grows breadth-first
/// through the neighbourhoods of its dense points, each point queued once
/// (outliers as often as they are reached), and takes in the outliers.
/// Clusters are numbered from 0 in the order of their seeds, each seed the
/// first dense point no earlier cluster took, and every point of a cluster
/// is reached from its seed through dense points of that cluster.
#[verifier::rlimit(60)]
pub fn label_core_points(neighborhoods: &Vec<Vec<usize>>, min_points: usize) -> (labels: Vec<i32>)
    requires
        valid_neighborhoods(neighborhoods.deep_view()),
        neighborhoods.len() <= i32::MAX,
    ensures
        labels@.len() == neighborhoods.len(),
        forall|i: int| 0 <= i < labels@.len() ==> #[trigger] labels@[i] != MARKED,
        forall|i: int|
            0 <= i < labels@.len() ==> (#[trigger] labels@[i] == OUTLIER <==> (!is_core(
                neighborhoods.deep_view(),
                i,
                min_points as int,
            ) && !near_core(neighborhoods.deep_view(), i, min_points as int))),
        forall|i: int|
            0 <= i < labels@.len() && #[trigger] labels@[i] >= 0 ==> labels@[i] < labels@.len()
                && near_core(neighborhoods.deep_view(), i, min_points as int),
        forall|p: int, k: int|
            0 <= p < labels@.len() && is_core(neighborhoods.deep_view(), p, min_points as int) && 0
                <= k < neighborhoods.deep_view()[p].len() ==> labels@[#[trigger] neighborhoods.deep_view()[p][k] as int]
                >= 0,
        forall|i: int|
            0 <= i < labels@.len() && #[trigger] labels@[i] == UNCLASSIFIED ==> is_core(
                neighborhoods.deep_view(),
                i,
                min_points as int,
            ) && !neighborhoods.deep_view()[i].contains(i as usize),
        symmetric_neighborhoods(neighborhoods.deep_view()) ==> core_labels_agree(
            neighborhoods.deep_view(),
            labels@,
            min_points as int,
        ),
        exists|seeds: Seq<int>, parent: Seq<int>, rank: Seq<int>|
            #[trigger] core_grown_from_seeds(
                neighborhoods.deep_view(),
                labels@,
                seeds,
                parent,
                rank,
                min_points as int,
            ) && core_seeds_first(neighborhoods.deep_view(), labels@, seeds, min_points as int),
{
    let ghost nbrs = neighborhoods.deep_view();
    let ghost m = min_points as int;
    let n = neighborhoods.len();
    let mut labels: Vec<i32> = Vec::with_capacity(n);
    let mut x: usize = 0;
    while x < n
        invariant
            x <= n,
            labels@ == Seq::new(x as nat, |_i: int| UNCLASSIFIED),
        decreases n - x,
    {
        labels.push(UNCLASSIFIED);
        x = x + 1;
    }
    let mut current: i32 = INITIAL_LABEL;
    let mut i: usize = 0;
    let ghost mut starts: Seq<int> = Seq::empty();
    let ghost mut parent: Seq<int> = Seq::new(n as nat, |_x: int| 0);
    let ghost mut rank: Seq<int> = Seq::new(n as nat, |_x: int| 0);
    while i < n
        invariant
            core_grown_from_seeds(nbrs, labels@, starts, parent, rank, m),
            starts.len() == current,
            forall|l: int| 0 <= l < starts.len() ==> #[trigger] starts[l] < i,
            core_seeds_first(nbrs, labels@, starts, m),
            dense_taken_before(nbrs, labels@, starts, i as int, m),
            nbrs == neighborhoods.deep_view(),
            valid_neighborhoods(nbrs),
            n == nbrs.len(),
            n <= i32::MAX,
            m == min_points,
            i <= n,
            0 <= current <= i,
            core_labelling_inv(nbrs, m, labels@, Seq::empty(), current as int, current as int, i as int),
        decreases n - i,
    {
        if labels[i] != UNCLASSIFIED {
            proof {
                lemma_core_skip(nbrs, m, labels@, current as int, i as int);
                if is_core(nbrs, i as int, m) {
                    assert(labels@[i as int] != OUTLIER);
                    if labels@[i as int] == MARKED {
                        assert(Seq::<usize>::empty().contains(i as usize));
                    }
                }
                lemma_core_step_outside(nbrs, labels@, labels@, starts, i as int, m);
            }
            i = i + 1;
            continue;
        }
        let seeds = &neighborhoods[i];
        proof {
            assert(seeds@ == nbrs[i as int]);
        }
        if seeds.len() < min_points {
            proof {
                lemma_core_outlier(nbrs, m, labels@, current as int, i as int);
                lemma_core_relabel_outside(
                    nbrs,
                    labels@,
                    starts,
                    parent,
                    rank,
                    m,
                    i as int,
                    OUTLIER,
                    i as int,
                    current,
                    0,
                );
                lemma_core_step_outside(
                    nbrs,
                    labels@,
                    labels@.update(i as int, OUTLIER),
                    starts,
                    i as int,
                    m,
                );
            }
            labels.set(i, OUTLIER);
            i = i + 1;
            continue;
        }
        let mut queue: VecDeque<usize> = VecDeque::new();
        let mut k: usize = 0;
        let ghost labels_start = labels@;
        while k < seeds.len()
            invariant
                nbrs == neighborhoods.deep_view(),
                valid_neighborhoods(nbrs),
                n == nbrs.len(),
                i < n,
                seeds@ == nbrs[i as int],
                k <= seeds@.len(),
                queue@ == seeds@.take(k as int),
                labels@.len() == n,
                core_labelling_inv(nbrs, m, labels@, queue@, current as int, current as int, i as int),
                is_core(nbrs, i as int, m),
                m == min_points,
                i <= n,
                0 <= current,
                starts.len() == current,
                labels_start.len() == n,
                forall|x: int|
                    0 <= x < n && #[trigger] labels_start[x] >= 0 ==> labels@[x] == labels_start[x],
                labels@[i as int] == UNCLASSIFIED || labels@[i as int] == MARKED,
                core_grown_from_seeds(nbrs, labels@, starts, parent, rank, m),
                forall|j: int|
                    0 <= j < queue@.len() ==> #[trigger] reached_in_cluster(
                        nbrs,
                        labels@,
                        rank,
                        i as int,
                        current,
                        0,
                        m,
                        queue@[j],
                    ),
            decreases seeds@.len() - k,
        {
            let y = seeds[k];
            let ghost before = labels@;
            let ghost q_before = queue@;
            proof {
                assert(nbrs[i as int].contains(y)) by {
                    assert(nbrs[i as int][k as int] == y);
                }
                assert(y < n);
            }
            if labels[y] == UNCLASSIFIED {
                labels.set(y, MARKED);
                proof {
                    lemma_core_relabel_outside(
                        nbrs,
                        before,
                        starts,
                        parent,
                        rank,
                        m,
                        y as int,
                        MARKED,
                        i as int,
                        current,
                        0,
                    );
                }
            }
            queue.push_back(y);
            proof {
                assert(queue@ =~= seeds@.take(k + 1));
                lemma_core_queue_one(nbrs, m, before, labels@, q_before, queue@, y, current as int, i as int);
                assert forall|j: int| 0 <= j < queue@.len() implies #[trigger] reached_in_cluster(
                    nbrs,
                    labels@,
                    rank,
                    i as int,
                    current,
                    0,
                    m,
                    queue@[j],
                ) by {
                    if j < q_before.len() {
                        assert(queue@[j] == q_before[j]);
                        assert(reached_in_cluster(nbrs, before, rank, i as int, current, 0, m, q_before[j]));
                    } else {
                        assert(queue@[j] == y);
                        assert(nbrs[i as int].contains(y));
                    }
                }
            }
            k = k + 1;
        }
        proof {
            assert(queue@ =~= seeds@);
            assert(settled_or_queued(nbrs, labels@, queue@, i as int)) by {
                assert forall|j: int| 0 <= j < nbrs[i as int].len() implies labels@[#[trigger] nbrs[i as int][j] as int]
                    >= 0 || queue@.contains(nbrs[i as int][j]) by {
                    assert(queue@[j] == nbrs[i as int][j]);
                }
            }
        }
        let ghost l_mid = labels@;
        let (Ghost(p2), Ghost(r2)) = expand_core_cluster(
            neighborhoods,
            min_points,
            &mut labels,
            queue,
            current,
            i,
            Ghost(starts),
            Ghost(parent),
            Ghost(rank),
        );
        proof {
            let s2 = starts.push(i as int);
            assert forall|x: int| 0 <= x < n && #[trigger] labels_start[x] >= 0 implies labels@[x]
                == labels_start[x] by {
                assert(l_mid[x] == labels_start[x]);
            }
            assert forall|x: int| 0 <= x < n && #[trigger] labels_start[x] >= 0 implies labels_start[x]
                < starts.len() by {}
            lemma_core_after_expand(nbrs, labels_start, labels@, starts, i as int, m);
            starts = s2;
            parent = p2;
            rank = r2;
        }
        current = current + 1;
        i = i + 1;
    }
    proof {
        assert forall|p: int, k: int|
            0 <= p < labels@.len() && is_core(nbrs, p, m) && 0 <= k < nbrs[p].len() implies labels@[#[trigger] nbrs[p][k] as int]
            >= 0 by {
            assert(settled_or_queued(nbrs, labels@, Seq::empty(), p));
        }
        assert forall|q: int| 0 <= q < labels@.len() && #[trigger] labels@[q] == OUTLIER implies !near_core(
            nbrs,
            q,
            m,
        ) by {
            if near_core(nbrs, q, m) {
                let (p, k) = choose|p: int, k: int|
                    0 <= p < nbrs.len() && is_core(nbrs, p, m) && 0 <= k < nbrs[p].len()
                        && #[trigger] nbrs[p][k] == q;
                assert(settled_or_queued(nbrs, labels@, Seq::empty(), p));
                assert(labels@[nbrs[p][k] as int] >= 0);
            }
        }
        assert forall|q: int| 0 <= q < labels@.len() && #[trigger] labels@[q] == UNCLASSIFIED implies !nbrs[q].contains(
            q as usize,
        ) by {
            if nbrs[q].contains(q as usize) {
                let k = choose|k: int| 0 <= k < nbrs[q].len() && nbrs[q][k] == q as usize;
                assert(settled_or_queued(nbrs, labels@, Seq::empty(), q));
                assert(labels@[nbrs[q][k] as int] >= 0);
            }
        }
        assert forall|q: int| 0 <= q < labels@.len() implies #[trigger] labels@[q] != MARKED by {
            if labels@[q] == MARKED {
                assert(Seq::<usize>::empty().contains(q as usize));
            }
        }
    }
    labels
}

/// Passing over a point that is already classified keeps the invariant.
proof fn lemma_core_skip(nbrs: Seq<Seq<usize>>, m: int, labels: Seq<i32>, next_label: int, i: int)
    requires
        valid_neighborhoods(nbrs),
        0 <= i < nbrs.len(),
        next_label <= nbrs.len(),
        core_labelling_inv(nbrs, m, labels, Seq::empty(), next_label, next_label, i),
        labels[i] != UNCLASSIFIED,
    ensures
        core_labelling_inv(nbrs, m, labels, Seq::empty(), next_label, next_label, i + 1),
{
    assert forall|p: int|
        0 <= p < nbrs.len() && is_core(nbrs, p, m) && (p < i + 1 || labels[p] >= 0)
        implies #[trigger] settled_or_queued(nbrs, labels, Seq::empty(), p) by {
        if p == i {
            assert(labels[i] != OUTLIER);
            assert(labels[i] != MARKED) by {
                if labels[i] == MARKED {
                    assert(Seq::<usize>::empty().contains(i as usize));
                }
            }
            assert(labels[i] >= 0);
        }
    }
}

/// Marking an unclassified point with too few neighbours as an outlier
/// keeps the invariant.
proof fn lemma_core_outlier(nbrs: Seq<Seq<usize>>, m: int, labels: Seq<i32>, next_label: int, i: int)
    requires
        valid_neighborhoods(nbrs),
        0 <= i < nbrs.len(),
        next_label <= nbrs.len(),
        core_labelling_inv(nbrs, m, labels, Seq::empty(), next_label, next_label, i),
        labels[i] == UNCLASSIFIED,
        !is_core(nbrs, i, m),
    ensures
        core_labelling_inv(nbrs, m, labels.update(i, OUTLIER), Seq::empty(), next_label, next_label, i + 1),
{
    let after = labels.update(i, OUTLIER);
    lemma_relabel_open(nbrs, m, labels, after, Seq::empty(), i, next_label, next_label, i, -1);
    assert forall|x: int| 0 <= x < i + 1 implies #[trigger] after[x] != UNCLASSIFIED || is_core(
        nbrs,
        x,
        m,
    ) by {
        if x != i {
            assert(after[x] == labels[x]);
        }
    }
}

/// Replacing the label of `j`, which is in no cluster, by another label
/// outside every cluster keeps every clause of the invariant but the ones on
/// `j`'s own label, marked points, the queue and visited points.
proof fn lemma_relabel_open(
    nbrs: Seq<Seq<usize>>,
    m: int,
    labels: Seq<i32>,
    after: Seq<i32>,
    queue: Seq<usize>,
    j: int,
    next_label: int,
    done_label: int,
    visited: int,
    pending: int,
)
    requires
        valid_neighborhoods(nbrs),
        0 <= j < nbrs.len(),
        visited <= nbrs.len(),
        labels.len() == nbrs.len(),
        forall|x: int|
            0 <= x < labels.len() ==> (#[trigger] labels[x] == UNCLASSIFIED || labels[x] == OUTLIER
                || labels[x] == MARKED || (0 <= labels[x] < next_label)),
        forall|x: int| 0 <= x < labels.len() && #[trigger] labels[x] == MARKED ==> queue.contains(x as usize),
        forall|x: int| 0 <= x < labels.len() && #[trigger] labels[x] == OUTLIER ==> !is_core(nbrs, x, m),
        forall|x: int| 0 <= x < labels.len() && #[trigger] labels[x] >= 0 ==> near_core(nbrs, x, m),
        forall|p: int|
            0 <= p < nbrs.len() && p != pending && is_core(nbrs, p, m) && (p < visited || labels[p]
                >= 0) ==> #[trigger] settled_or_queued(nbrs, labels, queue, p),
        forall|p: int|
            0 <= p < nbrs.len() && is_core(nbrs, p, m) && 0 <= labels[p] < done_label
                ==> #[trigger] all_clustered(nbrs, labels, p),
        symmetric_neighborhoods(nbrs) ==> core_labels_agree(nbrs, labels, m),
        forall|x: int|
            0 <= x < visited ==> #[trigger] labels[x] != UNCLASSIFIED || is_core(nbrs, x, m),
        labels[j] < 0,
        after.len() == labels.len(),
        after[j] < 0,
        after[j] == OUTLIER ==> !is_core(nbrs, j, m),
        after[j] == MARKED ==> queue.contains(j as usize),
        after[j] == UNCLASSIFIED || after[j] == OUTLIER || after[j] == MARKED,
        forall|x: int| 0 <= x < labels.len() && x != j ==> after[x] == labels[x],
    ensures
        forall|x: int|
            0 <= x < after.len() ==> (#[trigger] after[x] == UNCLASSIFIED || after[x] == OUTLIER
                || after[x] == MARKED || (0 <= after[x] < next_label)),
        forall|x: int| 0 <= x < after.len() && #[trigger] after[x] == MARKED ==> queue.contains(x as usize),
        forall|x: int| 0 <= x < after.len() && #[trigger] after[x] == OUTLIER ==> !is_core(nbrs, x, m),
        forall|x: int| 0 <= x < after.len() && #[trigger] after[x] >= 0 ==> near_core(nbrs, x, m),
        forall|p: int|
            0 <= p < nbrs.len() && p != pending && is_core(nbrs, p, m) && (p < visited || after[p]
                >= 0) ==> #[trigger] settled_or_queued(nbrs, after, queue, p),
        forall|p: int|
            0 <= p < nbrs.len() && is_core(nbrs, p, m) && 0 <= after[p] < done_label
                ==> #[trigger] all_clustered(nbrs, after, p),
        symmetric_neighborhoods(nbrs) ==> core_labels_agree(nbrs, after, m),
        forall|x: int|
            0 <= x < visited && x != j ==> #[trigger] after[x] != UNCLASSIFIED || is_core(nbrs, x, m),
{
    assert forall|x: int|
        0 <= x < after.len() implies (#[trigger] after[x] == UNCLASSIFIED || after[x] == OUTLIER
        || after[x] == MARKED || (0 <= after[x] < next_label)) by {
        if x != j {
            assert(after[x] == labels[x]);
        }
    }
    assert forall|x: int| 0 <= x < after.len() && #[trigger] after[x] == MARKED implies queue.contains(
        x as usize,
    ) by {
        if x != j {
            assert(after[x] == labels[x]);
        }
    }
    assert forall|x: int| 0 <= x < after.len() && #[trigger] after[x] == OUTLIER implies !is_core(
        nbrs,
        x,
        m,
    ) by {
        if x != j {
            assert(after[x] == labels[x]);
        }
    }
    assert forall|x: int| 0 <= x < after.len() && #[trigger] after[x] >= 0 implies near_core(nbrs, x, m) by {
        assert(x != j);
        assert(after[x] == labels[x]);
    }
    assert forall|p: int|
        0 <= p < nbrs.len() && p != pending && is_core(nbrs, p, m) && (p < visited || after[p] >= 0)
        implies #[trigger] settled_or_queued(nbrs, after, queue, p) by {
        if p != j {
            assert(after[p] == labels[p]);
        }
        assert(settled_or_queued(nbrs, labels, queue, p));
        assert forall|k: int| 0 <= k < nbrs[p].len() implies after[#[trigger] nbrs[p][k] as int] >= 0
            || queue.contains(nbrs[p][k]) by {
            let y = nbrs[p][k];
            if y as int != j {
                assert(after[y as int] == labels[y as int]);
            }
        }
    }
    assert forall|p: int|
        0 <= p < nbrs.len() && is_core(nbrs, p, m) && 0 <= after[p] < done_label
        implies #[trigger] all_clustered(nbrs, after, p) by {
        assert(p != j);
        assert(after[p] == labels[p]);
        assert(all_clustered(nbrs, labels, p));
        assert forall|k: int| 0 <= k < nbrs[p].len() implies after[#[trigger] nbrs[p][k] as int] >= 0 by {
            let y = nbrs[p][k];
            assert(labels[y as int] >= 0);
            assert(y as int != j);
            assert(after[y as int] == labels[y as int]);
        }
    }
    if symmetric_neighborhoods(nbrs) {
        assert forall|p: int, k: int|
            0 <= p < nbrs.len() && 0 <= k < nbrs[p].len() && is_core(nbrs, p, m) && is_core(
                nbrs,
                #[trigger] nbrs[p][k] as int,
                m,
            ) && after[p] >= 0 && after[nbrs[p][k] as int] >= 0 implies after[p] == after[nbrs[p][k] as int] by {
            let r = nbrs[p][k] as int;
            assert(p != j && r != j);
            assert(after[p] == labels[p]);
            assert(after[r] == labels[r]);
        }
    }
    assert forall|x: int| 0 <= x < visited && x != j implies #[trigger] after[x] != UNCLASSIFIED
        || is_core(nbrs, x, m) by {
        assert(after[x] == labels[x]);
    }
}

/// Appending `y` to the queue keeps every clause on what the queue holds
/// that it kept before, given that `y` is a neighbour of a core point,
/// classified.
proof fn lemma_queue_push(
    nbrs: Seq<Seq<usize>>,
    m: int,
    labels: Seq<i32>,
    q_before: Seq<usize>,
    q_after: Seq<usize>,
    y: usize,
)
    requires
        q_after == q_before.push(y),
        y < nbrs.len(),
        near_core(nbrs, y as int, m),
        labels[y as int] != UNCLASSIFIED,
        forall|k: int| 0 <= k < q_before.len() ==> near_core(nbrs, #[trigger] q_before[k] as int, m),
        forall|k: int| 0 <= k < q_before.len() ==> #[trigger] q_before[k] < nbrs.len(),
        forall|k: int| 0 <= k < q_before.len() ==> labels[#[trigger] q_before[k] as int] != UNCLASSIFIED,
    ensures
        forall|x: usize| q_before.contains(x) ==> #[trigger] q_after.contains(x),
        q_after.contains(y),
        forall|k: int| 0 <= k < q_after.len() ==> near_core(nbrs, #[trigger] q_after[k] as int, m),
        forall|k: int| 0 <= k < q_after.len() ==> #[trigger] q_after[k] < nbrs.len(),
        forall|k: int| 0 <= k < q_after.len() ==> labels[#[trigger] q_after[k] as int] != UNCLASSIFIED,
{
    assert forall|x: usize| q_before.contains(x) implies #[trigger] q_after.contains(x) by {
        let k = choose|k: int| 0 <= k < q_before.len() && q_before[k] == x;
        assert(q_after[k] == x);
    }
    assert(q_after[q_before.len() as int] == y);
    assert forall|k: int| 0 <= k < q_after.len() implies near_core(nbrs, #[trigger] q_after[k] as int, m)
        && q_after[k] < nbrs.len() && labels[q_after[k] as int] != UNCLASSIFIED by {
        if k < q_before.len() {
            assert(q_after[k] == q_before[k]);
        }
    }
}

/// Queuing the neighbour `y` of the core point `owner`, marking it when it
/// is unclassified, keeps the invariant but for `pending`.
proof fn lemma_queue_neighbor(
    nbrs: Seq<Seq<usize>>,
    m: int,
    before: Seq<i32>,
    after: Seq<i32>,
    q_before: Seq<usize>,
    q_after: Seq<usize>,
    owner: int,
    y: usize,
    next_label: int,
    done_label: int,
    visited: int,
    pending: int,
)
    requires
        valid_neighborhoods(nbrs),
        0 <= owner < nbrs.len(),
        is_core(nbrs, owner, m),
        nbrs[owner].contains(y),
        core_inv_except(nbrs, m, before, q_before, next_label, done_label, visited, pending),
        before[y as int] == UNCLASSIFIED ==> after == before.update(y as int, MARKED) && q_after
            == q_before.push(y),
        before[y as int] == OUTLIER ==> after == before && q_after == q_before.push(y),
        before[y as int] != UNCLASSIFIED && before[y as int] != OUTLIER ==> after == before && q_after
            == q_before,
        before[y as int] == UNCLASSIFIED ==> y as int >= visited || is_core(nbrs, y as int, m),
        visited <= nbrs.len(),
    ensures
        core_inv_except(nbrs, m, after, q_after, next_label, done_label, visited, pending),
        forall|x: usize| q_before.contains(x) ==> #[trigger] q_after.contains(x),
        after[y as int] >= 0 || q_after.contains(y),
{
    assert(y < nbrs.len());
    assert(near_core(nbrs, y as int, m)) by {
        let k = choose|k: int| 0 <= k < nbrs[owner].len() && nbrs[owner][k] == y;
        assert(nbrs[owner][k] == y);
    }
    if before[y as int] == UNCLASSIFIED || before[y as int] == OUTLIER {
        assert forall|k: int| 0 <= k < q_before.len() implies after[#[trigger] q_before[k] as int]
            != UNCLASSIFIED by {
            let z = q_before[k];
            if z != y {
                assert(after[z as int] == before[z as int]);
            }
        }
        lemma_queue_push(nbrs, m, after, q_before, q_after, y);
        assert forall|x: int| 0 <= x < before.len() && #[trigger] before[x] == MARKED implies q_after.contains(
            x as usize,
        ) by {
            assert(q_before.contains(x as usize));
        }
        assert forall|p: int|
            0 <= p < nbrs.len() && p != pending && is_core(nbrs, p, m) && (p < visited || before[p]
                >= 0) implies #[trigger] settled_or_queued(nbrs, before, q_after, p) by {
            assert(settled_or_queued(nbrs, before, q_before, p));
            assert forall|k: int| 0 <= k < nbrs[p].len() implies before[#[trigger] nbrs[p][k] as int]
                >= 0 || q_after.contains(nbrs[p][k]) by {
                if !(before[nbrs[p][k] as int] >= 0) {
                    assert(q_before.contains(nbrs[p][k]));
                }
            }
        }
        if before[y as int] == UNCLASSIFIED {
            lemma_relabel_open(nbrs, m, before, after, q_after, y as int, next_label, done_label, visited, pending);
            assert forall|x: int| 0 <= x < visited implies #[trigger] after[x] != UNCLASSIFIED || is_core(
                nbrs,
                x,
                m,
            ) by {
                if x != y {
                    assert(after[x] == before[x]);
                }
            }
        }
    }
}

/// Queuing one neighbour `y` of the seed (marking it when unclassified)
/// keeps the invariant.
proof fn lemma_core_queue_one(
    nbrs: Seq<Seq<usize>>,
    m: int,
    before: Seq<i32>,
    after: Seq<i32>,
    q_before: Seq<usize>,
    q_after: Seq<usize>,
    y: usize,
    next_label: int,
    seed: int,
)
    requires
        valid_neighborhoods(nbrs),
        0 <= seed < nbrs.len(),
        is_core(nbrs, seed, m),
        nbrs[seed].contains(y),
        core_labelling_inv(nbrs, m, before, q_before, next_label, next_label, seed),
        before[y as int] == UNCLASSIFIED ==> after == before.update(y as int, MARKED),
        before[y as int] != UNCLASSIFIED ==> after == before,
        q_after == q_before.push(y),
    ensures
        core_labelling_inv(nbrs, m, after, q_after, next_label, next_label, seed),
{
    assert(y < nbrs.len());
    assert(near_core(nbrs, y as int, m)) by {
        let k = choose|k: int| 0 <= k < nbrs[seed].len() && nbrs[seed][k] == y;
        assert(nbrs[seed][k] == y);
    }
    if before[y as int] == UNCLASSIFIED || before[y as int] == OUTLIER {
        assert(before[y as int] == UNCLASSIFIED ==> y as int >= seed || is_core(nbrs, y as int, m));
        lemma_queue_neighbor(nbrs, m, before, after, q_before, q_after, seed, y, next_label, next_label, seed, -1);
    } else {
        lemma_queue_push(nbrs, m, after, q_before, q_after, y);
        assert forall|x: int| 0 <= x < before.len() && #[trigger] before[x] == MARKED implies q_after.contains(
            x as usize,
        ) by {
            assert(q_before.contains(x as usize));
        }
        assert forall|p: int|
            0 <= p < nbrs.len() && p != -1 && is_core(nbrs, p, m) && (p < seed || before[p] >= 0)
            implies #[trigger] settled_or_queued(nbrs, before, q_after, p) by {
            assert(settled_or_queued(nbrs, before, q_before, p));
            assert forall|k: int| 0 <= k < nbrs[p].len() implies before[#[trigger] nbrs[p][k] as int]
                >= 0 || q_after.contains(nbrs[p][k]) by {
                if !(before[nbrs[p][k] as int] >= 0) {
                    assert(q_before.contains(nbrs[p][k]));
                }
            }
        }
    }
}

/// Grows the cluster `label` from the queued neighbours of the dense point
/// `seed`.
fn expand_core_cluster(
    neighborhoods: &Vec<Vec<usize>>,
    min_points: usize,
    labels: &mut Vec<i32>,
    queue: VecDeque<usize>,
    label: i32,
    seed: usize,
    Ghost(seeds): Ghost<Seq<int>>,
    Ghost(parent0): Ghost<Seq<int>>,
    Ghost(rank0): Ghost<Seq<int>>,
) -> (chains: (Ghost<Seq<int>>, Ghost<Seq<int>>))
    requires
        valid_neighborhoods(neighborhoods.deep_view()),
        neighborhoods.len() <= i32::MAX,
        seed < neighborhoods.len(),
        0 <= label <= seed,
        is_core(neighborhoods.deep_view(), seed as int, min_points as int),
        seeds.len() == label,
        forall|l: int| 0 <= l < seeds.len() ==> #[trigger] seeds[l] < seed,
        core_grown_from_seeds(
            neighborhoods.deep_view(),
            old(labels)@,
            seeds,
            parent0,
            rank0,
            min_points as int,
        ),
        forall|k: int|
            0 <= k < queue@.len() ==> #[trigger] reached_in_cluster(
                neighborhoods.deep_view(),
                old(labels)@,
                rank0,
                seed as int,
                label,
                0,
                min_points as int,
                queue@[k],
            ),
        core_labelling_inv(
            neighborhoods.deep_view(),
            min_points as int,
            old(labels)@,
            queue@,
            label as int,
            label as int,
            seed as int,
        ),
        settled_or_queued(neighborhoods.deep_view(), old(labels)@, queue@, seed as int),
    ensures
        core_labelling_inv(
            neighborhoods.deep_view(),
            min_points as int,
            final(labels)@,
            Seq::empty(),
            label + 1,
            label + 1,
            seed + 1,
        ),
        core_grown_from_seeds(
            neighborhoods.deep_view(),
            final(labels)@,
            seeds.push(seed as int),
            chains.0@,
            chains.1@,
            min_points as int,
        ),
        final(labels)@.len() == old(labels)@.len(),
        forall|x: int|
            0 <= x < old(labels)@.len() && #[trigger] old(labels)@[x] >= 0 ==> final(labels)@[x] == old(
                labels,
            )@[x],
{
    let ghost nbrs = neighborhoods.deep_view();
    let ghost m = min_points as int;
    let ghost n = nbrs.len();
    let ghost sx = seeds.push(seed as int);
    let ghost orig = labels@;
    let ghost mut parent = parent0;
    let ghost mut rank = rank0;
    let ghost mut stamp: int = 0;
    proof {
        assert forall|x: int| 0 <= x < labels@.len() && #[trigger] labels@[x] >= 0 implies labels@[x]
            < sx.len() && core_chained(nbrs, labels@, sx, parent, rank, m, x) by {
            assert(core_chained(nbrs, labels@, seeds, parent, rank, m, x));
            assert(sx[labels@[x] as int] == seeds[labels@[x] as int]);
        }
        assert forall|l1: int, l2: int| 0 <= l1 < l2 < sx.len() implies sx[l1] < sx[l2] by {
            if l2 == seeds.len() {
                assert(seeds[l1] < seed);
            }
        }
        assert(core_grown_from_seeds(nbrs, labels@, sx, parent, rank, m));
        assert forall|x: int| 0 <= x < labels@.len() && #[trigger] labels@[x] == label implies rank[x]
            < stamp by {
            assert(labels@[x] == UNCLASSIFIED || labels@[x] == OUTLIER || labels@[x] == MARKED || (0
                <= labels@[x] < label));
        }
    }
    let mut queue = queue;
    proof {
        assert(core_labelling_inv(nbrs, m, labels@, queue@, label + 1, label as int, seed + 1)) by {
            assert forall|p: int|
                0 <= p < nbrs.len() && p != -1 && is_core(nbrs, p, m) && (p < seed + 1 || labels@[p]
                    >= 0) implies #[trigger] settled_or_queued(nbrs, labels@, queue@, p) by {
                if p != seed {
                    assert(settled_or_queued(nbrs, old(labels)@, queue@, p));
                }
            }
            assert forall|x: int| 0 <= x < seed + 1 implies #[trigger] labels@[x] != UNCLASSIFIED
                || is_core(nbrs, x, m) by {}
        }
    }
    while queue.len() > 0
        invariant
            nbrs == neighborhoods.deep_view(),
            valid_neighborhoods(nbrs),
            n == nbrs.len(),
            n <= i32::MAX,
            m == min_points,
            0 <= label < n,
            seed < n,
            core_labelling_inv(nbrs, m, labels@, queue@, label + 1, label as int, seed + 1),
            sx == seeds.push(seed as int),
            seeds.len() == label,
            sx[label as int] == seed,
            orig.len() == n,
            forall|x: int| 0 <= x < n && #[trigger] orig[x] >= 0 ==> labels@[x] == orig[x],
            core_grown_from_seeds(nbrs, labels@, sx, parent, rank, m),
            forall|k: int|
                0 <= k < queue@.len() ==> #[trigger] reached_in_cluster(
                    nbrs,
                    labels@,
                    rank,
                    seed as int,
                    label,
                    stamp,
                    m,
                    queue@[k],
                ),
            forall|x: int| 0 <= x < labels@.len() && #[trigger] labels@[x] == label ==> rank[x] < stamp,
        decreases count_open(labels@), queue@.len(),
    {
        let ghost before = labels@;
        let ghost q_before = queue@;
        let popped = queue.pop_front();
        match popped {
            Some(q) => {
                proof {
                    assert(q == q_before[0]);
                    assert(queue@ =~= q_before.drop_first());
                    assert forall|k: int| 0 <= k < queue@.len() implies #[trigger] reached_in_cluster(
                        nbrs,
                        labels@,
                        rank,
                        seed as int,
                        label,
                        stamp,
                        m,
                        queue@[k],
                    ) by {
                        assert(queue@[k] == q_before[k + 1]);
                    }
                    assert(reached_in_cluster(nbrs, labels@, rank, seed as int, label, stamp, m, q_before[0]));
                }
                let ghost qp = choose|p: int|
                    0 <= p < nbrs.len() && is_core(nbrs, p, m) && #[trigger] nbrs[p].contains(q) && (p
                        == seed || (labels@[p] == label && rank[p] < stamp));
                if labels[q] >= INITIAL_LABEL {
                    proof {
                        lemma_core_pop(nbrs, m, before, labels@, q_before, queue@, q, label, seed);
                    }
                } else if labels[q] == OUTLIER {
                    labels.set(q, label);
                    proof {
                        lemma_count_open(before, q as int, label);
                        lemma_core_pop(nbrs, m, before, labels@, q_before, queue@, q, label, seed);
                        lemma_core_chain_step(nbrs, before, sx, parent, rank, m, q as int, qp, label, stamp);
                        let ghost r_old = rank;
                        let ghost s_old = stamp;
                        parent = parent.update(q as int, qp);
                        rank = rank.update(q as int, stamp);
                        stamp = stamp + 1;
                        assert forall|k: int| 0 <= k < queue@.len() implies #[trigger] reached_in_cluster(
                            nbrs,
                            labels@,
                            rank,
                            seed as int,
                            label,
                            stamp,
                            m,
                            queue@[k],
                        ) by {
                            assert(reached_in_cluster(nbrs, before, r_old, sx[label as int], label, s_old, m, queue@[k]));
                        }
                    }
                } else {
                    labels.set(q, label);
                    proof {
                        lemma_count_open(before, q as int, label);
                        lemma_core_chain_step(nbrs, before, sx, parent, rank, m, q as int, qp, label, stamp);
                        let ghost r_old = rank;
                        let ghost s_old = stamp;
                        parent = parent.update(q as int, qp);
                        rank = rank.update(q as int, stamp);
                        stamp = stamp + 1;
                        assert forall|k: int| 0 <= k < queue@.len() implies #[trigger] reached_in_cluster(
                            nbrs,
                            labels@,
                            rank,
                            seed as int,
                            label,
                            stamp,
                            m,
                            queue@[k],
                        ) by {
                            assert(reached_in_cluster(nbrs, before, r_old, sx[label as int], label, s_old, m, queue@[k]));
                        }
                    }
                    let next = &neighborhoods[q];
                    proof {
                        assert(next@ == nbrs[q as int]);
                    }
                    if next.len() < min_points {
                        proof {
                            lemma_core_pop(nbrs, m, before, labels@, q_before, queue@, q, label, seed);
                        }
                    } else {
                        proof {
                            lemma_core_pop_dense(nbrs, m, before, labels@, q_before, queue@, q, label, seed);
                        }
                        let ghost mid = labels@;
                        let mut k: usize = 0;
                        while k < next.len()
                            invariant
                                nbrs == neighborhoods.deep_view(),
                                valid_neighborhoods(nbrs),
                                n == nbrs.len(),
                                q < n,
                                0 <= label < n,
                                seed < n,
                                next@ == nbrs[q as int],
                                is_core(nbrs, q as int, m),
                                k <= next@.len(),
                                count_open(labels@) == count_open(mid),
                                count_open(mid) < count_open(before),
                                core_inv_except(nbrs, m, labels@, queue@, label + 1, label as int, seed + 1, q as int),
                                labels@[q as int] == label,
                                forall|j: int| 0 <= j < k ==> labels@[#[trigger] next@[j] as int] >= 0
                                    || queue@.contains(next@[j]),
                                m == min_points,
                                label < sx.len(),
                                sx[label as int] == seed,
                                labels@.len() == n,
                                orig.len() == n,
                                forall|x: int| 0 <= x < n && #[trigger] orig[x] >= 0 ==> labels@[x] == orig[x],
                                core_grown_from_seeds(nbrs, labels@, sx, parent, rank, m),
                                forall|j: int|
                                    0 <= j < queue@.len() ==> #[trigger] reached_in_cluster(
                                        nbrs,
                                        labels@,
                                        rank,
                                        seed as int,
                                        label,
                                        stamp,
                                        m,
                                        queue@[j],
                                    ),
                                forall|x: int| 0 <= x < labels@.len() && #[trigger] labels@[x] == label ==> rank[x] < stamp,
                                forall|z: usize| #[trigger] nbrs[q as int].contains(z) ==> reached_in_cluster(
                                    nbrs,
                                    labels@,
                                    rank,
                                    seed as int,
                                    label,
                                    stamp,
                                    m,
                                    z,
                                ),
                            decreases next@.len() - k,
                        {
                            let y = next[k];
                            let ghost l_before = labels@;
                            let ghost q_mid = queue@;
                            proof {
                                assert(nbrs[q as int].contains(y)) by {
                                    assert(nbrs[q as int][k as int] == y);
                                }
                                assert(y < n);
                                if l_before[y as int] == UNCLASSIFIED {
                                    assert(y as int >= seed + 1 || is_core(nbrs, y as int, m));
                                }
                            }
                            let ghost r_before = rank;
                            if labels[y] == UNCLASSIFIED {
                                labels.set(y, MARKED);
                                queue.push_back(y);
                                proof {
                                    lemma_count_open(l_before, y as int, MARKED);
                                    lemma_core_relabel_outside(
                                        nbrs,
                                        l_before,
                                        sx,
                                        parent,
                                        rank,
                                        m,
                                        y as int,
                                        MARKED,
                                        seed as int,
                                        label,
                                        stamp,
                                    );
                                }
                            } else if labels[y] == OUTLIER {
                                queue.push_back(y);
                            }
                            proof {
                                assert forall|j: int| 0 <= j < queue@.len() implies #[trigger] reached_in_cluster(
                                    nbrs,
                                    labels@,
                                    rank,
                                    seed as int,
                                    label,
                                    stamp,
                                    m,
                                    queue@[j],
                                ) by {
                                    if j < q_mid.len() {
                                        assert(queue@[j] == q_mid[j]);
                                        assert(reached_in_cluster(nbrs, l_before, rank, seed as int, label, stamp, m, q_mid[j]));
                                    } else {
                                        assert(queue@[j] == y);
                                        assert(reached_in_cluster(nbrs, l_before, rank, seed as int, label, stamp, m, y));
                                    }
                                }
                                assert forall|z: usize| #[trigger] nbrs[q as int].contains(z) implies reached_in_cluster(
                                    nbrs,
                                    labels@,
                                    rank,
                                    seed as int,
                                    label,
                                    stamp,
                                    m,
                                    z,
                                ) by {
                                    assert(reached_in_cluster(nbrs, l_before, rank, seed as int, label, stamp, m, z));
                                }
                                assert forall|x: int| 0 <= x < labels@.len() && #[trigger] labels@[x] == label implies rank[x] < stamp by {
                                    assert(l_before[x] == label);
                                }
                            }
                            proof {
                                lemma_queue_neighbor(
                                    nbrs,
                                    m,
                                    l_before,
                                    labels@,
                                    q_mid,
                                    queue@,
                                    q as int,
                                    y,
                                    label + 1,
                                    label as int,
                                    seed + 1,
                                    q as int,
                                );
                                assert forall|j: int| 0 <= j < k + 1 implies labels@[#[trigger] next@[j] as int]
                                    >= 0 || queue@.contains(next@[j]) by {
                                    if j < k {
                                        let z = next@[j];
                                        if z != y {
                                            assert(labels@[z as int] == l_before[z as int]);
                                        }
                                        if !(l_before[z as int] >= 0) && z != y {
                                            assert(q_mid.contains(z));
                                        }
                                    }
                                }
                            }
                            k = k + 1;
                        }
                        proof {
                            assert(settled_or_queued(nbrs, labels@, queue@, q as int)) by {
                                assert forall|j: int| 0 <= j < nbrs[q as int].len() implies labels@[#[trigger] nbrs[q as int][j] as int]
                                    >= 0 || queue@.contains(nbrs[q as int][j]) by {
                                    assert(next@[j] == nbrs[q as int][j]);
                                }
                            }
                            assert forall|p: int|
                                0 <= p < nbrs.len() && p != -1 && is_core(nbrs, p, m) && (p < seed + 1
                                    || labels@[p] >= 0) implies #[trigger] settled_or_queued(nbrs, labels@, queue@, p) by {
                                if p != q {
                                }
                            }
                        }
                    }
                }
            },
            None => {},
        }
    }
    proof {
        assert(queue@ =~= Seq::<usize>::empty());
        assert forall|p: int|
            0 <= p < nbrs.len() && is_core(nbrs, p, m) && 0 <= labels@[p] < label + 1
            implies #[trigger] all_clustered(nbrs, labels@, p) by {
            if labels@[p] == label {
                assert(settled_or_queued(nbrs, labels@, queue@, p));
            }
        }
    }
    (Ghost(parent), Ghost(rank))
}

/// Dropping the head `q` of the queue and putting it in the cluster `label`
/// (unless it is in a cluster already) keeps every clause of the invariant
/// that does not speak of `q`'s own neighbourhood.
proof fn lemma_pop_common(
    nbrs: Seq<Seq<usize>>,
    m: int,
    before: Seq<i32>,
    after: Seq<i32>,
    q_before: Seq<usize>,
    q_after: Seq<usize>,
    q: usize,
    label: i32,
    seed: usize,
)
    requires
        valid_neighborhoods(nbrs),
        0 <= label < nbrs.len() <= usize::MAX,
        seed < nbrs.len(),
        core_labelling_inv(nbrs, m, before, q_before, label + 1, label as int, seed + 1),
        q_before.len() > 0,
        q == q_before[0],
        q_after == q_before.drop_first(),
        before[q as int] >= 0 ==> after == before,
        before[q as int] < 0 ==> after == before.update(q as int, label),
    ensures
        q < nbrs.len(),
        near_core(nbrs, q as int, m),
        before[q as int] != UNCLASSIFIED,
        after[q as int] >= 0,
        core_inv_except(nbrs, m, after, q_after, label + 1, label as int, seed + 1, q as int),
        forall|x: usize| q_before.contains(x) && x != q ==> #[trigger] q_after.contains(x),
{
    assert(near_core(nbrs, q as int, m));
    assert(q < nbrs.len());
    assert(before[q as int] != UNCLASSIFIED);
    assert forall|x: usize| q_before.contains(x) && x != q implies #[trigger] q_after.contains(x) by {
        let j = choose|j: int| 0 <= j < q_before.len() && q_before[j] == x;
        assert(j != 0);
        assert(q_after[j - 1] == x);
    }
    assert forall|k: int| 0 <= k < q_after.len() implies near_core(nbrs, #[trigger] q_after[k] as int, m)
        && q_after[k] < nbrs.len() && after[q_after[k] as int] != UNCLASSIFIED by {
        assert(q_after[k] == q_before[k + 1]);
        let z = q_after[k];
        if z != q {
            assert(after[z as int] == before[z as int]);
        }
    }
    assert forall|x: int|
        0 <= x < after.len() implies (#[trigger] after[x] == UNCLASSIFIED || after[x] == OUTLIER
        || after[x] == MARKED || (0 <= after[x] < label + 1)) by {
        if x != q {
            assert(after[x] == before[x]);
        }
    }
    assert forall|x: int| 0 <= x < after.len() && #[trigger] after[x] == MARKED implies q_after.contains(
        x as usize,
    ) by {
        assert(x != q);
        assert(after[x] == before[x]);
        assert(q_before.contains(x as usize));
        let j = choose|j: int| 0 <= j < q_before.len() && q_before[j] == x as usize;
        assert(j != 0);
        assert(q_after[j - 1] == x as usize);
    }
    assert forall|x: int| 0 <= x < after.len() && #[trigger] after[x] == OUTLIER implies !is_core(
        nbrs,
        x,
        m,
    ) by {
        assert(x != q);
        assert(after[x] == before[x]);
    }
    assert forall|x: int| 0 <= x < after.len() && #[trigger] after[x] >= 0 implies near_core(nbrs, x, m) by {
        if x != q {
            assert(after[x] == before[x]);
        }
    }
    assert forall|x: int| 0 <= x < seed + 1 implies #[trigger] after[x] != UNCLASSIFIED || is_core(
        nbrs,
        x,
        m,
    ) by {
        if x != q {
            assert(after[x] == before[x]);
        }
    }
    assert forall|p: int|
        0 <= p < nbrs.len() && is_core(nbrs, p, m) && 0 <= after[p] < label
        implies #[trigger] all_clustered(nbrs, after, p) by {
        if p != q {
            assert(after[p] == before[p]);
        }
        assert(all_clustered(nbrs, before, p));
        assert forall|k: int| 0 <= k < nbrs[p].len() implies after[#[trigger] nbrs[p][k] as int] >= 0 by {
            let y = nbrs[p][k];
            assert(before[y as int] >= 0);
            if y != q {
                assert(after[y as int] == before[y as int]);
            }
        }
    }
    assert forall|p: int|
        0 <= p < nbrs.len() && p != q && is_core(nbrs, p, m) && (p < seed + 1 || after[p] >= 0)
        implies #[trigger] settled_or_queued(nbrs, after, q_after, p) by {
        assert(after[p] == before[p]);
        assert(settled_or_queued(nbrs, before, q_before, p));
        assert forall|k: int| 0 <= k < nbrs[p].len() implies after[#[trigger] nbrs[p][k] as int] >= 0
            || q_after.contains(nbrs[p][k]) by {
            let y = nbrs[p][k];
            if y != q {
                assert(after[y as int] == before[y as int]);
                if !(before[y as int] >= 0) {
                    assert(q_before.contains(y));
                }
            }
        }
    }
    if symmetric_neighborhoods(nbrs) {
        assert forall|p: int, k: int|
            0 <= p < nbrs.len() && 0 <= k < nbrs[p].len() && is_core(nbrs, p, m) && is_core(
                nbrs,
                #[trigger] nbrs[p][k] as int,
                m,
            ) && after[p] >= 0 && after[nbrs[p][k] as int] >= 0 implies after[p] == after[nbrs[p][k] as int] by {
            let r = nbrs[p][k] as int;
            if p == q && r == q {
            } else if p == q {
                assert(after[r] == before[r]);
                if before[q as int] < 0 {
                    assert(before[q as int] != OUTLIER);
                    assert(nbrs[r].contains(q));
                    if before[r] < label {
                        assert(all_clustered(nbrs, before, r));
                        let j = choose|j: int| 0 <= j < nbrs[r].len() && nbrs[r][j] == q;
                        assert(before[nbrs[r][j] as int] >= 0);
                    }
                }
            } else if r == q {
                assert(after[p] == before[p]);
                if before[q as int] < 0 {
                    assert(before[q as int] != OUTLIER);
                    if before[p] < label {
                        assert(all_clustered(nbrs, before, p));
                        assert(before[nbrs[p][k] as int] >= 0);
                    }
                }
            } else {
                assert(after[p] == before[p]);
                assert(after[r] == before[r]);
            }
        }
    }
}

/// After the head `q` of the queue is found in a cluster already, or is put
/// in the cluster `label` without queuing neighbours (it was an outlier, or
/// a marked point that is not dense), the invariant holds again.
proof fn lemma_core_pop(
    nbrs: Seq<Seq<usize>>,
    m: int,
    before: Seq<i32>,
    after: Seq<i32>,
    q_before: Seq<usize>,
    q_after: Seq<usize>,
    q: usize,
    label: i32,
    seed: usize,
)
    requires
        valid_neighborhoods(nbrs),
        0 <= label < nbrs.len() <= usize::MAX,
        seed < nbrs.len(),
        core_labelling_inv(nbrs, m, before, q_before, label + 1, label as int, seed + 1),
        q_before.len() > 0,
        q == q_before[0],
        q_after == q_before.drop_first(),
        before[q as int] >= 0 ==> after == before,
        before[q as int] < 0 ==> after == before.update(q as int, label),
        before[q as int] == MARKED ==> !is_core(nbrs, q as int, m),
    ensures
        core_labelling_inv(nbrs, m, after, q_after, label + 1, label as int, seed + 1),
{
    lemma_pop_common(nbrs, m, before, after, q_before, q_after, q, label, seed);
    assert forall|p: int|
        0 <= p < nbrs.len() && p != -1 && is_core(nbrs, p, m) && (p < seed + 1 || after[p] >= 0)
        implies #[trigger] settled_or_queued(nbrs, after, q_after, p) by {
        if p == q {
            assert(before[q as int] != OUTLIER);
            assert(before[q as int] != MARKED);
            assert(before[q as int] >= 0);
            assert(after == before);
            assert(settled_or_queued(nbrs, before, q_before, p));
            assert forall|k: int| 0 <= k < nbrs[p].len() implies after[#[trigger] nbrs[p][k] as int]
                >= 0 || q_after.contains(nbrs[p][k]) by {
                let y = nbrs[p][k];
                if y != q && !(before[y as int] >= 0) {
                    assert(q_before.contains(y));
                }
            }
        }
    }
}

/// After the marked dense point `q` at the head of the queue is put in the
/// cluster `label`, the invariant holds but for `q`'s own neighbourhood.
proof fn lemma_core_pop_dense(
    nbrs: Seq<Seq<usize>>,
    m: int,
    before: Seq<i32>,
    after: Seq<i32>,
    q_before: Seq<usize>,
    q_after: Seq<usize>,
    q: usize,
    label: i32,
    seed: usize,
)
    requires
        valid_neighborhoods(nbrs),
        0 <= label < nbrs.len() <= usize::MAX,
        seed < nbrs.len(),
        core_labelling_inv(nbrs, m, before, q_before, label + 1, label as int, seed + 1),
        q_before.len() > 0,
        q == q_before[0],
        q_after == q_before.drop_first(),
        before[q as int] < 0,
        before[q as int] != OUTLIER,
        after == before.update(q as int, label),
    ensures
        core_inv_except(nbrs, m, after, q_after, label + 1, label as int, seed + 1, q as int),
        after[q as int] == label,
{
    lemma_pop_common(nbrs, m, before, after, q_before, q_after, q, label, seed);
}


/// The label a point joins: that of the core point it was assigned to, or
/// `OUTLIER` when it was assigned to none.
pub open spec fn joined_labels(assigned: Seq<Option<usize>>, core_labels: Seq<i32>) -> Seq<i32> {
    Seq::new(
        assigned.len(),
        |i: int|
            match assigned[i] {
                Some(c) => core_labels[c as int],
                None => OUTLIER,
            },
    )
}

/// The label shared by the members of the group `g`: that of its first member.
pub open spec fn group_label(labels: Seq<i32>, groups: Seq<Vec<usize>>, g: int) -> i32 {
    labels[groups[g]@[0] as int]
}

/// `members` lists, in increasing order, exactly the points labelled `l`.
pub open spec fn is_label_class(labels: Seq<i32>, l: i32, members: Seq<usize>) -> bool {
    &&& forall|k: int|
        0 <= k < members.len() ==> #[trigger] members[k] < labels.len() && labels[members[k] as int]
            == l
    &&& forall|j: int, k: int| 0 <= j < k < members.len() ==> members[j] < members[k]
    &&& forall|i: int|
        0 <= i < labels.len() && #[trigger] labels[i] == l ==> members.contains(i as usize)
}

/// `groups` holds one group for each cluster label that some point carries,
/// in increasing order of label, each group the points with that label in
/// increasing order.
pub open spec fn grouped_by_label(labels: Seq<i32>, groups: Seq<Vec<usize>>) -> bool {
    &&& forall|g: int|
        0 <= g < groups.len() ==> {
            &&& (#[trigger] groups[g])@.len() > 0
            &&& group_label(labels, groups, g) >= INITIAL_LABEL
            &&& is_label_class(labels, group_label(labels, groups, g), groups[g]@)
        }
    &&& forall|g1: int, g2: int|
        0 <= g1 < g2 < groups.len() ==> group_label(labels, groups, g1) < group_label(
            labels,
            groups,
            g2,
        )
    &&& forall|i: int|
        0 <= i < labels.len() && #[trigger] labels[i] >= INITIAL_LABEL ==> exists|g: int|
            0 <= g < groups.len() && group_label(labels, groups, g) == labels[i]
}

/// Groups the points into clusters by the label of the core point each was
/// assigned to (`None` for a point with no core point within reach): one
/// cluster for each label of a cluster, in increasing order of label, its
/// members in increasing order. Outliers and unassigned points join none.
pub fn build_clusters(assigned: &Vec<Option<usize>>, core_labels: &Vec<i32>) -> (clusters: Vec<
    Vec<usize>,
>)
    requires
        forall|i: int|
            0 <= i < assigned@.len() ==> (#[trigger] assigned@[i] matches Some(c) ==> c
                < core_labels@.len()),
    ensures
        grouped_by_label(joined_labels(assigned@, core_labels@), clusters@),
{
    let n = assigned.len();
    let ghost target = joined_labels(assigned@, core_labels@);
    let mut labels: Vec<i32> = Vec::with_capacity(n);
    let mut i: usize = 0;
    while i < n
        invariant
            n == assigned@.len(),
            i <= n,
            target == joined_labels(assigned@, core_labels@),
            forall|i: int|
                0 <= i < assigned@.len() ==> (#[trigger] assigned@[i] matches Some(c) ==> c
                    < core_labels@.len()),
            labels@ == target.take(i as int),
        decreases n - i,
    {
        let label = match assigned[i] {
            Some(c) => core_labels[c],
            None => OUTLIER,
        };
        labels.push(label);
        proof {
            assert(labels@ =~= target.take(i + 1));
        }
        i = i + 1;
    }
    proof {
        assert(labels@ =~= target);
    }
    let mut clusters: Vec<Vec<usize>> = Vec::new();
    let mut current: i32 = OUTLIER;
    loop
        invariant
            labels@ == target,
            n == labels@.len(),
            current >= OUTLIER,
            forall|g: int|
                0 <= g < clusters@.len() ==> {
                    &&& (#[trigger] clusters@[g])@.len() > 0
                    &&& INITIAL_LABEL <= group_label(target, clusters@, g) <= current
                    &&& is_label_class(target, group_label(target, clusters@, g), clusters@[g]@)
                },
            forall|g1: int, g2: int|
                0 <= g1 < g2 < clusters@.len() ==> group_label(target, clusters@, g1) < group_label(
                    target,
                    clusters@,
                    g2,
                ),
            forall|i: int|
                0 <= i < n && INITIAL_LABEL <= #[trigger] target[i] <= current ==> exists|g: int|
                    0 <= g < clusters@.len() && group_label(target, clusters@, g) == target[i],
        ensures
            grouped_by_label(target, clusters@),
        decreases i32::MAX - current,
    {
        let mut found = false;
        let mut next: i32 = current;
        let mut j: usize = 0;
        while j < n
            invariant
                n == labels@.len(),
                j <= n,
                found ==> next > current && exists|k: int| 0 <= k < j && labels@[k] == next,
                found ==> forall|k: int| 0 <= k < j && labels@[k] > current ==> labels@[k] >= next,
                !found ==> forall|k: int| 0 <= k < j ==> labels@[k] <= current,
            decreases n - j,
        {
            let l = labels[j];
            if l > current && (!found || l < next) {
                next = l;
                found = true;
            }
            j = j + 1;
        }
        if !found {
            proof {
                assert forall|i: int|
                    0 <= i < labels@.len() && #[trigger] target[i] >= INITIAL_LABEL implies exists|
                    g: int,
                |
                    0 <= g < clusters@.len() && group_label(target, clusters@, g) == target[i] by {
                    assert(labels@[i] <= current);
                }
            }
            break;
        }
        let mut members: Vec<usize> = Vec::new();
        let mut j: usize = 0;
        while j < n
            invariant
                n == labels@.len(),
                j <= n,
                forall|k: int|
                    0 <= k < members@.len() ==> #[trigger] members@[k] < j && labels@[members@[k] as int]
                        == next,
                forall|a: int, b: int| 0 <= a < b < members@.len() ==> members@[a] < members@[b],
                forall|k: int|
                    0 <= k < j && #[trigger] labels@[k] == next ==> members@.contains(k as usize),
            decreases n - j,
        {
            if labels[j] == next {
                let ghost old_members = members@;
                members.push(j);
                proof {
                    assert forall|k: int|
                        0 <= k < j + 1 && #[trigger] labels@[k] == next implies members@.contains(
                        k as usize,
                    ) by {
                        if k < j {
                            let w = choose|w: int| 0 <= w < old_members.len() && old_members[w] == k as usize;
                            assert(members@[w] == k as usize);
                        } else {
                            assert(members@[old_members.len() as int] == j);
                        }
                    }
                }
            }
            j = j + 1;
        }
        proof {
            let w = choose|k: int| 0 <= k < n && labels@[k] == next;
            assert(members@.contains(w as usize));
            assert(members@.len() > 0);
        }
        let ghost old_clusters = clusters@;
        clusters.push(members);
        proof {
            let last = old_clusters.len() as int;
            assert(clusters@[last]@ == members@);
            assert(group_label(target, clusters@, last) == next);
            assert forall|g: int| 0 <= g < last implies group_label(target, clusters@, g)
                == group_label(target, old_clusters, g) by {
                assert(clusters@[g] == old_clusters[g]);
            }
            assert forall|i: int|
                0 <= i < n && INITIAL_LABEL <= #[trigger] target[i] <= next implies exists|g: int|
                0 <= g < clusters@.len() && group_label(target, clusters@, g) == target[i] by {
                if target[i] <= current {
                    let g = choose|g: int|
                        0 <= g < old_clusters.len() && group_label(target, old_clusters, g)
                            == target[i];
                    assert(group_label(target, clusters@, g) == target[i]);
                } else {
                    assert(labels@[i] > current);
                    assert(target[i] == next);
                    assert(group_label(target, clusters@, last) == target[i]);
                }
            }
        }
        current = next;
    }
    clusters
}

} // verus!
