//! The labelling of DBSCAN, given the neighbourhood of every point.
use std::collections::VecDeque;
use vstd::prelude::*;

verus! {

/// The first cluster label.
pub const LABEL_INITIAL: usize = 0;

/// The label of a noise point.
pub const LABEL_NOISE: usize = usize::MAX - 1;

/// The label of a point that no step has classified.
pub const LABEL_UNCLASSIFIED: usize = usize::MAX;

/// The label names a cluster.
pub open spec fn is_cluster_label(x: usize) -> bool {
    x < LABEL_NOISE
}

/// Every neighbour is the index of a point.
pub open spec fn valid_neighborhoods(nbrs: Seq<Seq<usize>>) -> bool {
    forall|p: int, k: int|
        0 <= p < nbrs.len() && 0 <= k < nbrs[p].len() ==> #[trigger] nbrs[p][k] < nbrs.len()
}

/// The point `p` has at least `min_points` neighbours.
pub open spec fn is_core(nbrs: Seq<Seq<usize>>, p: int, min_points: int) -> bool {
    nbrs[p].len() >= min_points
}

/// The point `q` is a neighbour of a core point.
pub open spec fn near_core(nbrs: Seq<Seq<usize>>, q: int, min_points: int) -> bool {
    exists|p: int, k: int|
        0 <= p < nbrs.len() && is_core(nbrs, p, min_points) && 0 <= k < nbrs[p].len() && #[trigger] nbrs[p][k]
            == q
}

/// Every neighbour of `p` is in a cluster or still waits in `queue`.
pub open spec fn neighbors_settled(
    nbrs: Seq<Seq<usize>>,
    labels: Seq<usize>,
    queue: Seq<usize>,
    p: int,
) -> bool {
    forall|k: int|
        0 <= k < nbrs[p].len() ==> is_cluster_label(labels[#[trigger] nbrs[p][k] as int])
            || queue.contains(nbrs[p][k])
}

/// Every neighbour of `p` is in a cluster.
pub open spec fn neighbors_clustered(nbrs: Seq<Seq<usize>>, labels: Seq<usize>, p: int) -> bool {
    forall|k: int| 0 <= k < nbrs[p].len() ==> is_cluster_label(labels[#[trigger] nbrs[p][k] as int])
}

/// Reach is symmetric: `p` is a neighbour of each of its neighbours.
pub open spec fn symmetric_neighborhoods(nbrs: Seq<Seq<usize>>) -> bool {
    forall|p: int, k: int|
        0 <= p < nbrs.len() && 0 <= k < nbrs[p].len() ==> nbrs[#[trigger] nbrs[p][k] as int].contains(
            p as usize,
        )
}

/// Two core points within reach of each other that are both in clusters
/// are in the same one.
pub open spec fn core_pairs_agree(nbrs: Seq<Seq<usize>>, labels: Seq<usize>, min_points: int) -> bool {
    forall|p: int, k: int|
        0 <= p < nbrs.len() && 0 <= k < nbrs[p].len() && is_core(nbrs, p, min_points) && is_core(
            nbrs,
            #[trigger] nbrs[p][k] as int,
            min_points,
        ) && is_cluster_label(labels[p]) && is_cluster_label(labels[nbrs[p][k] as int])
            ==> labels[p] == labels[nbrs[p][k] as int]
}

/// The number of points not yet in a cluster.
pub open spec fn count_unsettled(labels: Seq<usize>) -> nat
    decreases labels.len(),
{
    if labels.len() == 0 {
        0
    } else {
        count_unsettled(labels.drop_last()) + if is_cluster_label(labels.last()) {
            0nat
        } else {
            1nat
        }
    }
}

/// Putting a point into a cluster lowers the count of the others by one.
proof fn lemma_settle(labels: Seq<usize>, j: int, v: usize)
    requires
        0 <= j < labels.len(),
        !is_cluster_label(labels[j]),
        is_cluster_label(v),
    ensures
        count_unsettled(labels.update(j, v)) + 1 == count_unsettled(labels),
    decreases labels.len(),
{
    let u = labels.update(j, v);
    if j == labels.len() - 1 {
        assert(u.drop_last() =~= labels.drop_last());
    } else {
        assert(u.drop_last() =~= labels.drop_last().update(j, v));
        lemma_settle(labels.drop_last(), j, v);
    }
}

/// The clustered point `x` hangs on its parent: a core point that reaches
/// `x` and is either the seed of the cluster of `x` or a member of that
/// cluster of lower rank.
pub open spec fn chained(
    nbrs: Seq<Seq<usize>>,
    labels: Seq<usize>,
    seeds: Seq<int>,
    parent: Seq<int>,
    rank: Seq<int>,
    m: int,
    x: int,
) -> bool {
    let p = parent[x];
    &&& 0 <= p < nbrs.len()
    &&& is_core(nbrs, p, m)
    &&& nbrs[p].contains(x as usize)
    &&& (p == seeds[labels[x] as int] || (labels[p] == labels[x] && rank[p] < rank[x]))
}

/// Each cluster `l` was grown from the core point `seeds[l]`, the seeds
/// increasing with their labels: every clustered point is reached from the
/// seed of its cluster by a chain of core points of that cluster, each
/// within reach of the next (following `parent`, which lowers `rank`).
pub open spec fn grown_from_seeds(
    nbrs: Seq<Seq<usize>>,
    labels: Seq<usize>,
    seeds: Seq<int>,
    parent: Seq<int>,
    rank: Seq<int>,
    m: int,
) -> bool {
    &&& parent.len() == labels.len()
    &&& rank.len() == labels.len()
    &&& forall|l: int|
        0 <= l < seeds.len() ==> 0 <= #[trigger] seeds[l] < labels.len() && is_core(nbrs, seeds[l], m)
    &&& forall|l1: int, l2: int| 0 <= l1 < l2 < seeds.len() ==> seeds[l1] < seeds[l2]
    &&& forall|x: int|
        0 <= x < labels.len() && is_cluster_label(#[trigger] labels[x]) ==> labels[x] < seeds.len()
            && chained(nbrs, labels, seeds, parent, rank, m, x)
}

/// Each seed is the first core point that no earlier cluster took: a core
/// point before `seeds[l]` is in a cluster below `l` or is an earlier seed.
pub open spec fn seeds_first(nbrs: Seq<Seq<usize>>, labels: Seq<usize>, seeds: Seq<int>, m: int) -> bool {
    forall|l: int, x: int|
        0 <= l < seeds.len() && 0 <= x < #[trigger] seeds[l] && #[trigger] is_core(nbrs, x, m) ==> (
        is_cluster_label(labels[x]) && labels[x] < l) || exists|l2: int|
            0 <= l2 < l && seeds[l2] == x
}

/// Every queued point is reached by its recorded core point, the seed or a
/// member of the cluster `label` ranked below `stamp`.
pub open spec fn queue_parents(
    nbrs: Seq<Seq<usize>>,
    labels: Seq<usize>,
    queue: Seq<usize>,
    qparent: Seq<int>,
    rank: Seq<int>,
    seed: int,
    label: usize,
    stamp: int,
    m: int,
) -> bool {
    &&& qparent.len() == queue.len()
    &&& forall|k: int|
        0 <= k < queue.len() ==> {
            let p = #[trigger] qparent[k];
            &&& 0 <= p < nbrs.len()
            &&& is_core(nbrs, p, m)
            &&& nbrs[p].contains(queue[k])
            &&& (p == seed || (labels[p] == label && rank[p] < stamp))
        }
}

/// Putting the queued point `q`, reached by the core point `p`, into the
/// cluster `label` with parent `p` and rank `stamp` keeps the chains.
proof fn lemma_chain_step(
    nbrs: Seq<Seq<usize>>,
    before: Seq<usize>,
    seeds: Seq<int>,
    parent: Seq<int>,
    rank: Seq<int>,
    m: int,
    q: int,
    p: int,
    label: usize,
    stamp: int,
    q_rest: Seq<usize>,
    qp_rest: Seq<int>,
)
    requires
        grown_from_seeds(nbrs, before, seeds, parent, rank, m),
        before.len() == nbrs.len(),
        seeds.len() == label + 1,
        0 <= q < before.len(),
        !is_cluster_label(before[q]),
        is_cluster_label(label),
        0 <= p < nbrs.len(),
        is_core(nbrs, p, m),
        nbrs[p].contains(q as usize),
        p == seeds[label as int] || (before[p] == label && rank[p] < stamp),
        forall|x: int| 0 <= x < before.len() && #[trigger] before[x] == label ==> rank[x] < stamp,
        queue_parents(nbrs, before, q_rest, qp_rest, rank, seeds[label as int], label, stamp, m),
    ensures
        grown_from_seeds(
            nbrs,
            before.update(q, label),
            seeds,
            parent.update(q, p),
            rank.update(q, stamp),
            m,
        ),
        forall|x: int|
            0 <= x < before.len() && #[trigger] before.update(q, label)[x] == label ==> rank.update(
                q,
                stamp,
            )[x] < stamp + 1,
        queue_parents(
            nbrs,
            before.update(q, label),
            q_rest,
            qp_rest,
            rank.update(q, stamp),
            seeds[label as int],
            label,
            stamp + 1,
            m,
        ),
{
    let after = before.update(q, label);
    let pa = parent.update(q, p);
    let ra = rank.update(q, stamp);
    assert forall|x: int| 0 <= x < after.len() && is_cluster_label(#[trigger] after[x]) implies after[x]
        < seeds.len() && chained(nbrs, after, seeds, pa, ra, m, x) by {
        if x != q {
            assert(after[x] == before[x]);
            assert(chained(nbrs, before, seeds, parent, rank, m, x));
            let px = parent[x];
            assert(pa[x] == px && ra[x] == rank[x]);
            if px != seeds[before[x] as int] {
                assert(before[px] == before[x]);
                assert(px != q);
                assert(after[px] == before[px] && ra[px] == rank[px]);
            }
        } else {
            assert(pa[q] == p && ra[q] == stamp && after[q] == label);
            if p != seeds[label as int] {
                assert(before[p] == label);
                assert(p != q);
                assert(after[p] == label && ra[p] == rank[p]);
            }
        }
    }
    assert forall|k: int| 0 <= k < q_rest.len() implies {
        let pk = #[trigger] qp_rest[k];
        &&& 0 <= pk < nbrs.len()
        &&& is_core(nbrs, pk, m)
        &&& nbrs[pk].contains(q_rest[k])
        &&& (pk == seeds[label as int] || (after[pk] == label && ra[pk] < stamp + 1))
    } by {
        let pk = qp_rest[k];
        if pk != seeds[label as int] {
            assert(before[pk] == label && rank[pk] < stamp);
            assert(pk != q);
            assert(after[pk] == label && ra[pk] == rank[pk]);
        }
    }
}

/// A point within reach of a clustered core point below `done_label` is in
/// a cluster no later than that point's: the first cluster to reach a point
/// keeps it.
#[verifier::opaque]
pub open spec fn reached_first(nbrs: Seq<Seq<usize>>, labels: Seq<usize>, done_label: int, m: int) -> bool {
    forall|p: int, k: int|
        0 <= p < nbrs.len() && is_core(nbrs, p, m) && labels[p] < done_label && 0 <= k < nbrs[p].len()
            ==> labels[#[trigger] nbrs[p][k] as int] <= labels[p]
}

/// The invariant of the labelling between two steps: every label is
/// unclassified, noise or a cluster below `next_label`; noise points are not
/// core points; clustered points are neighbours of core points; the core
/// points visited or clustered have their neighbourhood in clusters or in
/// `queue`; and the points before `visited` are classified unless they are
/// core points.
pub open spec fn labelling_inv(
    nbrs: Seq<Seq<usize>>,
    min_points: int,
    labels: Seq<usize>,
    queue: Seq<usize>,
    next_label: int,
    done_label: int,
    visited: int,
) -> bool {
    &&& labels.len() == nbrs.len()
    &&& forall|p: int|
        0 <= p < nbrs.len() && is_core(nbrs, p, min_points) && labels[p] < done_label
            ==> #[trigger] neighbors_clustered(nbrs, labels, p)
    &&& symmetric_neighborhoods(nbrs) ==> core_pairs_agree(nbrs, labels, min_points)
    &&& forall|x: int|
        0 <= x < labels.len() ==> (#[trigger] labels[x] == LABEL_UNCLASSIFIED || labels[x]
            == LABEL_NOISE || labels[x] < next_label)
    &&& forall|x: int|
        0 <= x < labels.len() && #[trigger] labels[x] == LABEL_NOISE ==> !is_core(
            nbrs,
            x,
            min_points,
        )
    &&& forall|x: int|
        0 <= x < labels.len() && is_cluster_label(#[trigger] labels[x]) ==> near_core(
            nbrs,
            x,
            min_points,
        )
    &&& forall|p: int|
        0 <= p < nbrs.len() && is_core(nbrs, p, min_points) && (p < visited || is_cluster_label(
            labels[p],
        )) ==> #[trigger] neighbors_settled(nbrs, labels, queue, p)
    &&& forall|x: int|
        0 <= x < visited ==> #[trigger] labels[x] != LABEL_UNCLASSIFIED || is_core(
            nbrs,
            x,
            min_points,
        )
    &&& forall|k: int| 0 <= k < queue.len() ==> near_core(nbrs, #[trigger] queue[k] as int, min_points)
    &&& forall|k: int| 0 <= k < queue.len() ==> #[trigger] queue[k] < nbrs.len()
}

/// Labels the points by DBSCAN, where `neighborhoods[p]` lists the points
/// within reach of `p` and a core point has at least `min_points` of them.
/// Points are visited in order; an unclassified core point starts a new
/// cluster, which grows breadth-first through the neighbourhoods of its core
/// points and takes in the border points, noise points included. Clusters
/// are numbered from 0 in the order of their seeds, each seed the first core
/// point no earlier cluster took, and every point of a cluster is reached
/// from its seed through core points of that cluster. A point within reach
/// of clustered core points joins the first of their clusters.
pub fn label_points(neighborhoods: &Vec<Vec<usize>>, min_points: usize) -> (labels: Vec<usize>)
    requires
        valid_neighborhoods(neighborhoods.deep_view()),
        neighborhoods.len() < LABEL_NOISE,
    ensures
        labels@.len() == neighborhoods.len(),
        forall|i: int|
            0 <= i < labels@.len() ==> (#[trigger] labels@[i] == LABEL_NOISE <==> (!is_core(
                neighborhoods.deep_view(),
                i,
                min_points as int,
            ) && !near_core(neighborhoods.deep_view(), i, min_points as int))),
        forall|i: int|
            0 <= i < labels@.len() && is_cluster_label(#[trigger] labels@[i]) ==> labels@[i]
                < labels@.len() && near_core(neighborhoods.deep_view(), i, min_points as int),
        forall|p: int, k: int|
            0 <= p < labels@.len() && is_core(neighborhoods.deep_view(), p, min_points as int) && 0
                <= k < neighborhoods.deep_view()[p].len() ==> is_cluster_label(
                labels@[#[trigger] neighborhoods.deep_view()[p][k] as int],
            ),
        forall|i: int|
            0 <= i < labels@.len() && #[trigger] labels@[i] == LABEL_UNCLASSIFIED ==> is_core(
                neighborhoods.deep_view(),
                i,
                min_points as int,
            ) && !neighborhoods.deep_view()[i].contains(i as usize),
        symmetric_neighborhoods(neighborhoods.deep_view()) ==> core_pairs_agree(
            neighborhoods.deep_view(),
            labels@,
            min_points as int,
        ),
        forall|p: int, k: int|
            0 <= p < labels@.len() && is_core(neighborhoods.deep_view(), p, min_points as int)
                && is_cluster_label(labels@[p]) && 0 <= k < neighborhoods.deep_view()[p].len()
                ==> labels@[#[trigger] neighborhoods.deep_view()[p][k] as int] <= labels@[p],
        exists|seeds: Seq<int>, parent: Seq<int>, rank: Seq<int>|
            #[trigger] grown_from_seeds(
                neighborhoods.deep_view(),
                labels@,
                seeds,
                parent,
                rank,
                min_points as int,
            ) && seeds_first(neighborhoods.deep_view(), labels@, seeds, min_points as int),
{
    let ghost nbrs = neighborhoods.deep_view();
    let ghost m = min_points as int;
    let n = neighborhoods.len();
    let mut labels: Vec<usize> = Vec::with_capacity(n);
    let mut x: usize = 0;
    while x < n
        invariant
            x <= n,
            labels@ == Seq::new(x as nat, |_i: int| LABEL_UNCLASSIFIED),
        decreases n - x,
    {
        labels.push(LABEL_UNCLASSIFIED);
        x = x + 1;
    }
    let mut current: usize = LABEL_INITIAL;
    let mut i: usize = 0;
    let ghost mut starts: Seq<int> = Seq::empty();
    assert(reached_first(nbrs, labels@, 0, m)) by {
        reveal(reached_first);
    }
    let ghost mut parent: Seq<int> = Seq::new(n as nat, |_x: int| 0);
    let ghost mut rank: Seq<int> = Seq::new(n as nat, |_x: int| 0);
    while i < n
        invariant
            grown_from_seeds(nbrs, labels@, starts, parent, rank, m),
            reached_first(nbrs, labels@, current as int, m),
            starts.len() == current,
            forall|l: int| 0 <= l < starts.len() ==> #[trigger] starts[l] < i,
            seeds_first(nbrs, labels@, starts, m),
            forall|x: int|
                0 <= x < i && #[trigger] is_core(nbrs, x, m) ==> is_cluster_label(labels@[x])
                    || exists|l: int| 0 <= l < starts.len() && starts[l] == x,
            nbrs == neighborhoods.deep_view(),
            valid_neighborhoods(nbrs),
            n == nbrs.len(),
            n < LABEL_NOISE,
            m == min_points,
            i <= n,
            current <= i,
            labelling_inv(nbrs, m, labels@, Seq::empty(), current as int, current as int, i as int),
        decreases n - i,
    {
        if labels[i] != LABEL_UNCLASSIFIED {
            proof {
                lemma_skip_classified(nbrs, m, labels@, current as int, i as int);
            }
            i = i + 1;
            continue;
        }
        let seeds = &neighborhoods[i];
        proof {
            assert(seeds@ == nbrs[i as int]);
        }
        if seeds.len() < min_points {
            proof {
                lemma_reached_first_noise(nbrs, m, labels@, current as int, i as int);
                lemma_mark_noise(nbrs, m, labels@, current as int, i as int);
                let after = labels@.update(i as int, LABEL_NOISE);
                assert forall|x: int|
                    0 <= x < after.len() && is_cluster_label(#[trigger] after[x]) implies after[x]
                    < starts.len() && chained(nbrs, after, starts, parent, rank, m, x) by {
                    assert(x != i);
                    assert(chained(nbrs, labels@, starts, parent, rank, m, x));
                    let px = parent[x];
                    if px != starts[labels@[x] as int] {
                        assert(labels@[px] == labels@[x]);
                        assert(px != i);
                    }
                }
            }
            labels.set(i, LABEL_NOISE);
            i = i + 1;
            continue;
        }
        let mut queue: VecDeque<usize> = VecDeque::new();
        let mut k: usize = 0;
        while k < seeds.len()
            invariant
                nbrs == neighborhoods.deep_view(),
                valid_neighborhoods(nbrs),
                n == nbrs.len(),
                i < n,
                seeds@ == nbrs[i as int],
                k <= seeds@.len(),
                queue@ == seeds@.take(k as int),
            decreases seeds@.len() - k,
        {
            queue.push_back(seeds[k]);
            proof {
                assert(queue@ =~= seeds@.take(k + 1));
            }
            k = k + 1;
        }
        proof {
            assert(queue@ =~= seeds@);
            assert forall|j: int| 0 <= j < queue@.len() implies near_core(
                nbrs,
                #[trigger] queue@[j] as int,
                m,
            ) by {
                assert(nbrs[i as int][j] == queue@[j]);
            }
            assert forall|j: int| 0 <= j < queue@.len() implies #[trigger] queue@[j] < n by {
                assert(nbrs[i as int][j] == queue@[j]);
            }
            assert forall|p: int|
                0 <= p < nbrs.len() && is_core(nbrs, p, m) && (p < i || is_cluster_label(
                    labels@[p],
                )) implies #[trigger] neighbors_settled(nbrs, labels@, queue@, p) by {
                assert(neighbors_settled(nbrs, labels@, Seq::empty(), p));
            }
            assert(labelling_inv(nbrs, m, labels@, queue@, current as int, current as int, i as int));
            assert(neighbors_settled(nbrs, labels@, queue@, i as int)) by {
                assert forall|j: int| 0 <= j < nbrs[i as int].len() implies is_cluster_label(
                    labels@[#[trigger] nbrs[i as int][j] as int],
                ) || queue@.contains(nbrs[i as int][j]) by {
                    assert(queue@[j] == nbrs[i as int][j]);
                }
            }
        }
        let ghost labels_before = labels@;
        let (Ghost(p2), Ghost(r2)) = expand_cluster(
            neighborhoods,
            min_points,
            &mut labels,
            queue,
            current,
            i,
            Ghost(starts),
            Ghost(parent),
            Ghost(rank),
        );
        proof {
            let l0 = labels_before;
            let s2 = starts.push(i as int);
            assert forall|l: int, x: int|
                0 <= l < s2.len() && 0 <= x < #[trigger] s2[l] && #[trigger] is_core(nbrs, x, m)
                    implies (is_cluster_label(labels@[x]) && labels@[x] < l) || exists|l2: int|
                0 <= l2 < l && s2[l2] == x by {
                if l < starts.len() {
                    assert(s2[l] == starts[l]);
                    if is_cluster_label(l0[x]) && l0[x] < l {
                        assert(labels@[x] == l0[x]);
                    } else {
                        let l2 = choose|l2: int| 0 <= l2 < l && starts[l2] == x;
                        assert(s2[l2] == x);
                    }
                } else {
                    assert(x < i);
                    if is_cluster_label(l0[x]) {
                        assert(labels@[x] == l0[x]);
                        assert(l0[x] < current);
                    } else {
                        let l2 = choose|l2: int| 0 <= l2 < starts.len() && starts[l2] == x;
                        assert(s2[l2] == x);
                    }
                }
            }
            assert forall|x: int|
                0 <= x < i + 1 && #[trigger] is_core(nbrs, x, m) implies is_cluster_label(labels@[x])
                || exists|l: int| 0 <= l < s2.len() && s2[l] == x by {
                if x == i {
                    assert(s2[current as int] == x);
                } else if is_cluster_label(l0[x]) {
                    assert(labels@[x] == l0[x]);
                } else {
                    let l = choose|l: int| 0 <= l < starts.len() && starts[l] == x;
                    assert(s2[l] == x);
                }
            }
            starts = s2;
            parent = p2;
            rank = r2;
        }
        current = current + 1;
        i = i + 1;
    }
    proof {
        assert forall|p: int, k: int|
            0 <= p < labels@.len() && is_core(nbrs, p, m) && 0 <= k < nbrs[p].len() implies is_cluster_label(
            labels@[#[trigger] nbrs[p][k] as int],
        ) by {
            assert(neighbors_settled(nbrs, labels@, Seq::empty(), p));
        }
        assert forall|q: int| 0 <= q < labels@.len() && #[trigger] labels@[q] == LABEL_NOISE implies !near_core(
            nbrs,
            q,
            m,
        ) by {
            if near_core(nbrs, q, m) {
                let (p, k) = choose|p: int, k: int|
                    0 <= p < nbrs.len() && is_core(nbrs, p, m) && 0 <= k < nbrs[p].len()
                        && #[trigger] nbrs[p][k] == q;
                assert(neighbors_settled(nbrs, labels@, Seq::empty(), p));
                assert(is_cluster_label(labels@[nbrs[p][k] as int]));
            }
        }
        assert forall|q: int| 0 <= q < labels@.len() && #[trigger] labels@[q] == LABEL_UNCLASSIFIED implies !nbrs[q].contains(
            q as usize,
        ) by {
            if nbrs[q].contains(q as usize) {
                let k = choose|k: int| 0 <= k < nbrs[q].len() && nbrs[q][k] == q as usize;
                assert(neighbors_settled(nbrs, labels@, Seq::empty(), q));
                assert(is_cluster_label(labels@[nbrs[q][k] as int]));
            }
        }
        reveal(reached_first);
        assert forall|p: int, k: int|
            0 <= p < labels@.len() && is_core(nbrs, p, m) && is_cluster_label(labels@[p]) && 0 <= k
                < nbrs[p].len() implies labels@[#[trigger] nbrs[p][k] as int] <= labels@[p] by {
            assert(labels@[p] < current);
        }
    }
    labels
}

/// Marking an unclassified point as noise keeps the first reach.
proof fn lemma_reached_first_noise(nbrs: Seq<Seq<usize>>, m: int, labels: Seq<usize>, next_label: int, i: int)
    requires
        valid_neighborhoods(nbrs),
        0 <= i < nbrs.len(),
        next_label <= nbrs.len() < LABEL_NOISE,
        labelling_inv(nbrs, m, labels, Seq::empty(), next_label, next_label, i),
        reached_first(nbrs, labels, next_label, m),
        labels[i] == LABEL_UNCLASSIFIED,
    ensures
        reached_first(nbrs, labels.update(i, LABEL_NOISE), next_label, m),
{
    reveal(reached_first);
    let after = labels.update(i, LABEL_NOISE);
    assert forall|p: int, k: int|
        0 <= p < nbrs.len() && is_core(nbrs, p, m) && after[p] < next_label && 0 <= k < nbrs[p].len()
            implies after[#[trigger] nbrs[p][k] as int] <= after[p] by {
        assert(p != i);
        assert(neighbors_clustered(nbrs, labels, p));
        let y = nbrs[p][k] as int;
        assert(is_cluster_label(labels[y]));
        assert(y != i);
    }
}

/// Passing over a point that is already classified keeps the invariant.
proof fn lemma_skip_classified(nbrs: Seq<Seq<usize>>, m: int, labels: Seq<usize>, next_label: int, i: int)
    requires
        valid_neighborhoods(nbrs),
        0 <= i < nbrs.len(),
        next_label <= nbrs.len() < LABEL_NOISE,
        labelling_inv(nbrs, m, labels, Seq::empty(), next_label, next_label, i),
        labels[i] != LABEL_UNCLASSIFIED,
    ensures
        labelling_inv(nbrs, m, labels, Seq::empty(), next_label, next_label, i + 1),
{
    assert forall|p: int|
        0 <= p < nbrs.len() && is_core(nbrs, p, m) && (p < i + 1 || is_cluster_label(labels[p]))
        implies #[trigger] neighbors_settled(nbrs, labels, Seq::empty(), p) by {
        if p == i {
            assert(labels[i] != LABEL_NOISE);
            assert(is_cluster_label(labels[i]));
        }
    }
}

/// Marking an unclassified point with too few neighbours as noise keeps the
/// invariant.
proof fn lemma_mark_noise(nbrs: Seq<Seq<usize>>, m: int, labels: Seq<usize>, next_label: int, i: int)
    requires
        valid_neighborhoods(nbrs),
        0 <= i < nbrs.len(),
        next_label <= nbrs.len() < LABEL_NOISE,
        labelling_inv(nbrs, m, labels, Seq::empty(), next_label, next_label, i),
        labels[i] == LABEL_UNCLASSIFIED,
        !is_core(nbrs, i, m),
    ensures
        labelling_inv(nbrs, m, labels.update(i, LABEL_NOISE), Seq::empty(), next_label, next_label, i + 1),
{
    let after = labels.update(i, LABEL_NOISE);
    assert forall|p: int|
        0 <= p < nbrs.len() && is_core(nbrs, p, m) && after[p] < next_label
        implies #[trigger] neighbors_clustered(nbrs, after, p) by {
        if p != i {
            assert(after[p] == labels[p]);
        }
        assert(neighbors_clustered(nbrs, labels, p));
        assert forall|k: int| 0 <= k < nbrs[p].len() implies is_cluster_label(
            after[#[trigger] nbrs[p][k] as int],
        ) by {
            let y = nbrs[p][k];
            assert(is_cluster_label(labels[y as int]));
            if y as int != i {
                assert(after[y as int] == labels[y as int]);
            }
        }
    }
    assert forall|x: int| 0 <= x < after.len() implies (#[trigger] after[x] == LABEL_UNCLASSIFIED
        || after[x] == LABEL_NOISE || after[x] < next_label) by {
        if x != i {
            assert(after[x] == labels[x]);
        }
    }
    assert forall|x: int| 0 <= x < after.len() && #[trigger] after[x] == LABEL_NOISE implies !is_core(
        nbrs,
        x,
        m,
    ) by {
        if x != i {
            assert(after[x] == labels[x]);
        }
    }
    assert forall|x: int| 0 <= x < after.len() && is_cluster_label(#[trigger] after[x]) implies near_core(
        nbrs,
        x,
        m,
    ) by {
        assert(x != i);
        assert(after[x] == labels[x]);
    }
    assert forall|x: int| 0 <= x < i + 1 implies #[trigger] after[x] != LABEL_UNCLASSIFIED || is_core(
        nbrs,
        x,
        m,
    ) by {
        if x != i {
            assert(after[x] == labels[x]);
        }
    }
    assert forall|p: int|
        0 <= p < nbrs.len() && is_core(nbrs, p, m) && (p < i + 1 || is_cluster_label(after[p]))
        implies #[trigger] neighbors_settled(nbrs, after, Seq::empty(), p) by {
        assert(p != i);
        assert(after[p] == labels[p]);
        assert(neighbors_settled(nbrs, labels, Seq::empty(), p));
        assert forall|k: int| 0 <= k < nbrs[p].len() implies is_cluster_label(
            after[#[trigger] nbrs[p][k] as int],
        ) || Seq::<usize>::empty().contains(nbrs[p][k]) by {
            let y = nbrs[p][k];
            assert(is_cluster_label(labels[y as int]) || Seq::<usize>::empty().contains(y));
            if y as int == i {
                assert(!Seq::<usize>::empty().contains(y));
            }
        }
    }
}

/// Grows the cluster `label` from the points in `queue`, the neighbours of
/// the core point `seed`.
fn expand_cluster(
    neighborhoods: &Vec<Vec<usize>>,
    min_points: usize,
    labels: &mut Vec<usize>,
    queue: VecDeque<usize>,
    label: usize,
    seed: usize,
    Ghost(seeds): Ghost<Seq<int>>,
    Ghost(parent0): Ghost<Seq<int>>,
    Ghost(rank0): Ghost<Seq<int>>,
) -> (chains: (Ghost<Seq<int>>, Ghost<Seq<int>>))
    requires
        valid_neighborhoods(neighborhoods.deep_view()),
        neighborhoods.len() < LABEL_NOISE,
        seed < neighborhoods.len(),
        label <= seed,
        is_core(neighborhoods.deep_view(), seed as int, min_points as int),
        old(labels)@[seed as int] == LABEL_UNCLASSIFIED,
        queue@ == neighborhoods.deep_view()[seed as int],
        seeds.len() == label,
        forall|l: int| 0 <= l < seeds.len() ==> #[trigger] seeds[l] < seed,
        grown_from_seeds(
            neighborhoods.deep_view(),
            old(labels)@,
            seeds,
            parent0,
            rank0,
            min_points as int,
        ),
        reached_first(neighborhoods.deep_view(), old(labels)@, label as int, min_points as int),
        labelling_inv(
            neighborhoods.deep_view(),
            min_points as int,
            old(labels)@,
            queue@,
            label as int,
            label as int,
            seed as int,
        ),
        neighbors_settled(neighborhoods.deep_view(), old(labels)@, queue@, seed as int),
    ensures
        labelling_inv(
            neighborhoods.deep_view(),
            min_points as int,
            final(labels)@,
            Seq::empty(),
            label + 1,
            label + 1,
            seed + 1,
        ),
        grown_from_seeds(
            neighborhoods.deep_view(),
            final(labels)@,
            seeds.push(seed as int),
            chains.0@,
            chains.1@,
            min_points as int,
        ),
        final(labels)@.len() == old(labels)@.len(),
        forall|x: int|
            0 <= x < old(labels)@.len() && is_cluster_label(#[trigger] old(labels)@[x])
                ==> final(labels)@[x] == old(labels)@[x],
        reached_first(neighborhoods.deep_view(), final(labels)@, label + 1, min_points as int),
{
    let ghost nbrs = neighborhoods.deep_view();
    let ghost m = min_points as int;
    let ghost n = nbrs.len();
    let ghost sx = seeds.push(seed as int);
    let ghost orig = labels@;
    let ghost orig_queue = queue@;
    let ghost mut parent = parent0;
    let ghost mut rank = rank0;
    let ghost mut stamp: int = 0;
    let ghost mut qparent: Seq<int> = Seq::new(queue@.len(), |_k: int| seed as int);
    proof {
        assert forall|x: int|
            0 <= x < labels@.len() && is_cluster_label(#[trigger] labels@[x]) implies labels@[x]
            < sx.len() && chained(nbrs, labels@, sx, parent, rank, m, x) by {
            assert(chained(nbrs, labels@, seeds, parent, rank, m, x));
            assert(sx[labels@[x] as int] == seeds[labels@[x] as int]);
        }
        assert forall|l1: int, l2: int| 0 <= l1 < l2 < sx.len() implies sx[l1] < sx[l2] by {
            if l2 == seeds.len() {
                assert(seeds[l1] < seed);
            }
        }
        assert(grown_from_seeds(nbrs, labels@, sx, parent, rank, m));
        assert forall|k: int| 0 <= k < queue@.len() implies {
            let p = #[trigger] qparent[k];
            &&& 0 <= p < nbrs.len()
            &&& is_core(nbrs, p, m)
            &&& nbrs[p].contains(queue@[k])
            &&& (p == seed || (labels@[p] == label && rank[p] < stamp))
        } by {
            assert(queue@[k] == nbrs[seed as int][k]);
        }
        assert forall|x: int| 0 <= x < labels@.len() && #[trigger] labels@[x] == label implies rank[x]
            < stamp by {
            assert(labels@[x] == LABEL_UNCLASSIFIED || labels@[x] == LABEL_NOISE || labels@[x] < label);
        }
    }
    let mut queue = queue;
    proof {
        assert(labelling_inv(nbrs, m, labels@, queue@, label + 1, label as int, seed + 1)) by {
            assert forall|p: int|
                0 <= p < nbrs.len() && is_core(nbrs, p, m) && (p < seed + 1 || is_cluster_label(
                    labels@[p],
                )) implies #[trigger] neighbors_settled(nbrs, labels@, queue@, p) by {
                if p != seed {
                    assert(neighbors_settled(nbrs, old(labels)@, queue@, p));
                }
            }
        }
    }
    while queue.len() > 0
        invariant
            nbrs == neighborhoods.deep_view(),
            valid_neighborhoods(nbrs),
            n == nbrs.len(),
            n < LABEL_NOISE,
            m == min_points,
            label < n,
            seed < n,
            labelling_inv(nbrs, m, labels@, queue@, label + 1, label as int, seed + 1),
            sx == seeds.push(seed as int),
            seeds.len() == label,
            orig.len() == n,
            forall|x: int|
                0 <= x < n && is_cluster_label(#[trigger] orig[x]) ==> labels@[x] == orig[x],
            forall|x: int| 0 <= x < n && #[trigger] labels@[x] != orig[x] ==> labels@[x] == label,
            labelling_inv(nbrs, m, orig, orig_queue, label as int, label as int, seed as int),
            reached_first(nbrs, orig, label as int, m),
            sx[label as int] == seed,
            labels@.len() == n,
            grown_from_seeds(nbrs, labels@, sx, parent, rank, m),
            queue_parents(nbrs, labels@, queue@, qparent, rank, seed as int, label, stamp, m),
            forall|x: int| 0 <= x < labels@.len() && #[trigger] labels@[x] == label ==> rank[x] < stamp,
        decreases count_unsettled(labels@), queue@.len(),
    {
        let ghost before = labels@;
        let ghost q_before = queue@;
        let popped = queue.pop_front();
        match popped {
            Some(q) => {
                let ghost qp = qparent[0];
                proof {
                    assert(q == q_before[0]);
                    assert(queue@ =~= q_before.drop_first());
                    assert(near_core(nbrs, q as int, m));
                    let qp_rest = qparent.drop_first();
                    assert forall|k: int| 0 <= k < queue@.len() implies {
                        let p = #[trigger] qp_rest[k];
                        &&& 0 <= p < nbrs.len()
                        &&& is_core(nbrs, p, m)
                        &&& nbrs[p].contains(queue@[k])
                        &&& (p == seed || (labels@[p] == label && rank[p] < stamp))
                    } by {
                        assert(qp_rest[k] == qparent[k + 1]);
                        assert(queue@[k] == q_before[k + 1]);
                    }
                    qparent = qp_rest;
                }
                if labels[q] == LABEL_NOISE {
                    labels.set(q, label);
                    proof {
                        lemma_settle(before, q as int, label);
                        lemma_after_pop(nbrs, m, before, labels@, q_before, queue@, q, label, seed);
                        lemma_chain_step(nbrs, before, sx, parent, rank, m, q as int, qp, label, stamp, queue@, qparent);
                        parent = parent.update(q as int, qp);
                        rank = rank.update(q as int, stamp);
                        stamp = stamp + 1;
                    }
                } else if labels[q] != LABEL_UNCLASSIFIED {
                    proof {
                        lemma_after_pop(nbrs, m, before, labels@, q_before, queue@, q, label, seed);
                    }
                } else {
                    labels.set(q, label);
                    proof {
                        lemma_settle(before, q as int, label);
                        lemma_chain_step(nbrs, before, sx, parent, rank, m, q as int, qp, label, stamp, queue@, qparent);
                        parent = parent.update(q as int, qp);
                        rank = rank.update(q as int, stamp);
                        stamp = stamp + 1;
                    }
                    let next = &neighborhoods[q];
                    proof {
                        assert(next@ == nbrs[q as int]);
                    }
                    if next.len() >= min_points {
                        let ghost q_mid = queue@;
                        let mut k: usize = 0;
                        while k < next.len()
                            invariant
                                nbrs == neighborhoods.deep_view(),
                                valid_neighborhoods(nbrs),
                                n == nbrs.len(),
                                q < n,
                                next@ == nbrs[q as int],
                                k <= next@.len(),
                                queue@ == q_mid + next@.take(k as int),
                            decreases next@.len() - k,
                        {
                            queue.push_back(next[k]);
                            proof {
                                assert(queue@ =~= q_mid + next@.take(k + 1));
                            }
                            k = k + 1;
                        }
                        proof {
                            assert(queue@ =~= q_mid + next@);
                            lemma_after_core(nbrs, m, before, labels@, q_before, q_mid, queue@, q, label, seed);
                            let qp_new = qparent + Seq::new(next@.len(), |_k: int| q as int);
                            assert forall|k: int| 0 <= k < queue@.len() implies {
                                let p = #[trigger] qp_new[k];
                                &&& 0 <= p < nbrs.len()
                                &&& is_core(nbrs, p, m)
                                &&& nbrs[p].contains(queue@[k])
                                &&& (p == seed || (labels@[p] == label && rank[p] < stamp))
                            } by {
                                if k < q_mid.len() {
                                    assert(qp_new[k] == qparent[k]);
                                    assert(queue@[k] == q_mid[k]);
                                } else {
                                    let j = k - q_mid.len();
                                    assert(qp_new[k] == q);
                                    assert(queue@[k] == nbrs[q as int][j]);
                                    assert(nbrs[q as int].contains(queue@[k]));
                                }
                            }
                            qparent = qp_new;
                        }
                    } else {
                        proof {
                            lemma_after_pop(nbrs, m, before, labels@, q_before, queue@, q, label, seed);
                        }
                    }
                }
            },
            None => {},
        }
    }
    proof {
        assert(queue@ =~= Seq::<usize>::empty());
        assert forall|p: int|
            0 <= p < nbrs.len() && is_core(nbrs, p, m) && labels@[p] < label + 1
            implies #[trigger] neighbors_clustered(nbrs, labels@, p) by {
            if labels@[p] == label {
                assert(neighbors_settled(nbrs, labels@, queue@, p));
            }
        }
        reveal(reached_first);
        assert forall|p: int, k: int|
            0 <= p < nbrs.len() && is_core(nbrs, p, m) && labels@[p] < label + 1 && 0 <= k
                < nbrs[p].len() implies labels@[#[trigger] nbrs[p][k] as int] <= labels@[p] by {
            assert(neighbors_clustered(nbrs, labels@, p));
            let y = nbrs[p][k] as int;
            assert(is_cluster_label(labels@[y]));
            assert(labels@[y] == LABEL_UNCLASSIFIED || labels@[y] == LABEL_NOISE || labels@[y]
                < label + 1);
            if labels@[p] < label {
                assert(labels@[p] == LABEL_UNCLASSIFIED || labels@[p] == LABEL_NOISE || labels@[p]
                    < label + 1);
                assert(orig[p] == labels@[p]);
                assert(neighbors_clustered(nbrs, orig, p));
                assert(is_cluster_label(orig[y]));
                assert(orig[y] <= orig[p]);
                assert(labels@[y] == orig[y]);
            }
        }
    }
    (Ghost(parent), Ghost(rank))
}

/// After the point `q` at the head of the queue is put in the cluster
/// `label` (or found in a cluster already), without adding neighbours, the
/// invariant holds again; `q` must be a border point if it was unclassified.
proof fn lemma_after_pop(
    nbrs: Seq<Seq<usize>>,
    m: int,
    before: Seq<usize>,
    after: Seq<usize>,
    q_before: Seq<usize>,
    q_after: Seq<usize>,
    q: usize,
    label: usize,
    seed: usize,
)
    requires
        valid_neighborhoods(nbrs),
        label < nbrs.len() < LABEL_NOISE,
        seed < nbrs.len(),
        labelling_inv(nbrs, m, before, q_before, label + 1, label as int, seed + 1),
        q_before.len() > 0,
        q == q_before[0],
        q_after == q_before.drop_first(),
        is_cluster_label(before[q as int]) ==> after == before,
        !is_cluster_label(before[q as int]) ==> after == before.update(q as int, label),
        before[q as int] == LABEL_UNCLASSIFIED ==> !is_core(nbrs, q as int, m),
    ensures
        labelling_inv(nbrs, m, after, q_after, label + 1, label as int, seed + 1),
{
    assert(near_core(nbrs, q as int, m));
    assert forall|p: int|
        0 <= p < nbrs.len() && is_core(nbrs, p, m) && after[p] < label
        implies #[trigger] neighbors_clustered(nbrs, after, p) by {
        if p != q {
            assert(after[p] == before[p]);
        }
        assert(neighbors_clustered(nbrs, before, p));
        assert forall|k: int| 0 <= k < nbrs[p].len() implies is_cluster_label(
            after[#[trigger] nbrs[p][k] as int],
        ) by {
            let y = nbrs[p][k];
            assert(is_cluster_label(before[y as int]));
            if y as int != q {
                assert(after[y as int] == before[y as int]);
            }
        }
    }
    assert forall|x: int| 0 <= x < after.len() implies (#[trigger] after[x] == LABEL_UNCLASSIFIED
        || after[x] == LABEL_NOISE || after[x] < label + 1) by {
        if x != q {
            assert(after[x] == before[x]);
        }
    }
    assert forall|x: int| 0 <= x < after.len() && #[trigger] after[x] == LABEL_NOISE implies !is_core(
        nbrs,
        x,
        m,
    ) by {
        if x != q {
            assert(after[x] == before[x]);
        }
    }
    assert forall|x: int| 0 <= x < seed + 1 implies #[trigger] after[x] != LABEL_UNCLASSIFIED
        || is_core(nbrs, x, m) by {
        if x != q {
            assert(after[x] == before[x]);
        }
    }
    assert forall|k: int| 0 <= k < q_after.len() implies near_core(nbrs, #[trigger] q_after[k] as int, m)
        && q_after[k] < nbrs.len() by {
        assert(q_after[k] == q_before[k + 1]);
    }
    assert forall|x: int|
        0 <= x < after.len() && is_cluster_label(#[trigger] after[x]) implies near_core(nbrs, x, m) by {
        if x != q {
            assert(after[x] == before[x]);
        }
    }
    assert forall|p: int|
        0 <= p < nbrs.len() && is_core(nbrs, p, m) && (p < seed + 1 || is_cluster_label(after[p]))
        implies #[trigger] neighbors_settled(nbrs, after, q_after, p) by {
        if p != q {
            assert(after[p] == before[p]);
        } else {
            assert(before[q as int] != LABEL_NOISE);
        }
        assert(neighbors_settled(nbrs, before, q_before, p));
        assert forall|k: int| 0 <= k < nbrs[p].len() implies is_cluster_label(
            after[#[trigger] nbrs[p][k] as int],
        ) || q_after.contains(nbrs[p][k]) by {
            let y = nbrs[p][k];
            if y == q {
            } else {
                assert(after[y as int] == before[y as int]);
                if q_before.contains(y) {
                    let j = choose|j: int| 0 <= j < q_before.len() && q_before[j] == y;
                    assert(q_after[j - 1] == y);
                }
            }
        }
    }
}

/// After the unclassified core point `q` at the head of the queue is put in
/// the cluster `label` and its neighbours are queued, the invariant holds
/// again.
proof fn lemma_after_core(
    nbrs: Seq<Seq<usize>>,
    m: int,
    before: Seq<usize>,
    after: Seq<usize>,
    q_before: Seq<usize>,
    q_mid: Seq<usize>,
    q_after: Seq<usize>,
    q: usize,
    label: usize,
    seed: usize,
)
    requires
        valid_neighborhoods(nbrs),
        label < nbrs.len() < LABEL_NOISE,
        seed < nbrs.len(),
        labelling_inv(nbrs, m, before, q_before, label + 1, label as int, seed + 1),
        q_before.len() > 0,
        q == q_before[0],
        q_mid == q_before.drop_first(),
        before[q as int] == LABEL_UNCLASSIFIED,
        after == before.update(q as int, label),
        is_core(nbrs, q as int, m),
        q_after == q_mid + nbrs[q as int],
    ensures
        labelling_inv(nbrs, m, after, q_after, label + 1, label as int, seed + 1),
{
    if symmetric_neighborhoods(nbrs) {
        assert forall|p: int, k: int|
            0 <= p < nbrs.len() && 0 <= k < nbrs[p].len() && is_core(nbrs, p, m) && is_core(
                nbrs,
                #[trigger] nbrs[p][k] as int,
                m,
            ) && is_cluster_label(after[p]) && is_cluster_label(after[nbrs[p][k] as int])
            implies after[p] == after[nbrs[p][k] as int] by {
            let r = nbrs[p][k] as int;
            if p == q && r == q {
            } else if p == q {
                assert(after[r] == before[r]);
                assert(nbrs[r].contains(q));
                if before[r] < label {
                    assert(neighbors_clustered(nbrs, before, r));
                    let j = choose|j: int| 0 <= j < nbrs[r].len() && nbrs[r][j] == q;
                    assert(is_cluster_label(before[nbrs[r][j] as int]));
                }
            } else if r == q {
                assert(after[p] == before[p]);
                if before[p] < label {
                    assert(neighbors_clustered(nbrs, before, p));
                    assert(is_cluster_label(before[nbrs[p][k] as int]));
                }
            } else {
                assert(after[p] == before[p]);
                assert(after[r] == before[r]);
            }
        }
    }
    assert(near_core(nbrs, q as int, m));
    assert forall|p: int|
        0 <= p < nbrs.len() && is_core(nbrs, p, m) && after[p] < label
        implies #[trigger] neighbors_clustered(nbrs, after, p) by {
        if p != q {
            assert(after[p] == before[p]);
        }
        assert(neighbors_clustered(nbrs, before, p));
        assert forall|k: int| 0 <= k < nbrs[p].len() implies is_cluster_label(
            after[#[trigger] nbrs[p][k] as int],
        ) by {
            let y = nbrs[p][k];
            assert(is_cluster_label(before[y as int]));
            if y as int != q {
                assert(after[y as int] == before[y as int]);
            }
        }
    }
    assert forall|x: int| 0 <= x < after.len() implies (#[trigger] after[x] == LABEL_UNCLASSIFIED
        || after[x] == LABEL_NOISE || after[x] < label + 1) by {
        if x != q {
            assert(after[x] == before[x]);
        }
    }
    assert forall|x: int| 0 <= x < after.len() && #[trigger] after[x] == LABEL_NOISE implies !is_core(
        nbrs,
        x,
        m,
    ) by {
        if x != q {
            assert(after[x] == before[x]);
        }
    }
    assert forall|x: int| 0 <= x < seed + 1 implies #[trigger] after[x] != LABEL_UNCLASSIFIED
        || is_core(nbrs, x, m) by {
        if x != q {
            assert(after[x] == before[x]);
        }
    }
    assert forall|k: int| 0 <= k < q_after.len() implies near_core(nbrs, #[trigger] q_after[k] as int, m)
        && q_after[k] < nbrs.len() by {
        if k < q_mid.len() {
            assert(q_after[k] == q_before[k + 1]);
        } else {
            let j = k - q_mid.len();
            assert(q_after[k] == nbrs[q as int][j]);
        }
    }
    assert forall|x: int|
        0 <= x < after.len() && is_cluster_label(#[trigger] after[x]) implies near_core(nbrs, x, m) by {
        if x != q {
            assert(after[x] == before[x]);
        }
    }
    assert forall|p: int|
        0 <= p < nbrs.len() && is_core(nbrs, p, m) && (p < seed + 1 || is_cluster_label(after[p]))
        implies #[trigger] neighbors_settled(nbrs, after, q_after, p) by {
        if p == q {
            assert forall|k: int| 0 <= k < nbrs[p].len() implies is_cluster_label(
                after[#[trigger] nbrs[p][k] as int],
            ) || q_after.contains(nbrs[p][k]) by {
                assert(q_after[q_mid.len() + k] == nbrs[p][k]);
            }
        } else {
            assert(after[p] == before[p]);
            assert(neighbors_settled(nbrs, before, q_before, p));
            assert forall|k: int| 0 <= k < nbrs[p].len() implies is_cluster_label(
                after[#[trigger] nbrs[p][k] as int],
            ) || q_after.contains(nbrs[p][k]) by {
                let y = nbrs[p][k];
                if y == q {
                } else {
                    assert(after[y as int] == before[y as int]);
                    if q_before.contains(y) {
                        let j = choose|j: int| 0 <= j < q_before.len() && q_before[j] == y;
                        assert(q_after[j - 1] == y);
                    }
                }
            }
        }
    }
}

} // verus!
