//! The labelling step of DBSCAN segmentation: pixels grouped by reach in
//! colour and position, masked pixels left out, segments capped in size.
use crate::clustering::initializer::{is_rounded_sqrt_ratio, rounded_sqrt_ratio};
use std::collections::VecDeque;
use vstd::prelude::*;

verus! {

/// The label of a pixel that no step has labelled.
pub const LABEL_UNLABELLED: usize = usize::MAX;

/// The label of a pixel outside the mask.
pub const LABEL_IGNORED: usize = usize::MAX - 1;

/// The label of a pixel with too few neighbours that joined no segment.
pub const LABEL_NOISE: usize = usize::MAX - 2;

/// The label names a segment.
pub open spec fn is_segment_label(x: usize) -> bool {
    x < LABEL_NOISE
}

/// The distance `|a - b|` between two integers.
pub open spec fn abs_diff(a: int, b: int) -> int {
    if a >= b {
        a - b
    } else {
        b - a
    }
}

/// The pixels `a` and `b` of an image `width` wide lie within `radius` of
/// each other in Manhattan distance.
pub open spec fn within_spatial_radius(a: int, b: int, width: int, radius: int) -> bool {
    abs_diff(a % width, b % width) + abs_diff(a / width, b / width) <= radius
}

/// Returns the 1-based column and row of the pixel `index` in an image
/// `width` wide.
pub fn index_to_coords(index: usize, width: usize) -> (c: (usize, usize))
    requires
        width > 0,
        index / width < usize::MAX,
    ensures
        c.0 == index % width + 1,
        c.1 == index / width + 1,
{
    proof {
        assert(index % width < width) by (nonlinear_arith)
            requires
                width > 0,
        ;
    }
    (index % width + 1, index / width + 1)
}

/// Keeps, in order, the candidates within `radius` of the pixel `seed` in
/// Manhattan distance.
pub fn spatial_neighbors(seed: usize, width: usize, radius: usize, candidates: &[usize]) -> (r: Vec<
    usize,
>)
    requires
        width > 0,
        seed / width < usize::MAX,
        forall|k: int| 0 <= k < candidates@.len() ==> #[trigger] candidates@[k] / width < usize::MAX,
    ensures
        r@ == candidates@.filter(
            |c: usize| within_spatial_radius(seed as int, c as int, width as int, radius as int),
        ),
{
    let ghost pred = |c: usize| within_spatial_radius(seed as int, c as int, width as int, radius as int);
    let (sx, sy) = index_to_coords(seed, width);
    let mut kept: Vec<usize> = Vec::new();
    let mut k: usize = 0;
    while k < candidates.len()
        invariant
            width > 0,
            seed / width < usize::MAX,
            forall|j: int| 0 <= j < candidates@.len() ==> #[trigger] candidates@[j] / width < usize::MAX,
            sx == seed % width + 1,
            sy == seed / width + 1,
            k <= candidates@.len(),
            pred == (|c: usize| within_spatial_radius(seed as int, c as int, width as int, radius as int)),
            kept@ == candidates@.take(k as int).filter(pred),
        decreases candidates@.len() - k,
    {
        let c = candidates[k];
        let (nx, ny) = index_to_coords(c, width);
        let dx: u128 = if nx >= sx {
            (nx - sx) as u128
        } else {
            (sx - nx) as u128
        };
        let dy: u128 = if ny >= sy {
            (ny - sy) as u128
        } else {
            (sy - ny) as u128
        };
        let keep = dx + dy <= radius as u128;
        proof {
            assert(candidates@.take(k + 1).drop_last() =~= candidates@.take(k as int));
            assert(candidates@.take(k + 1).last() == c);
            assert(keep == pred(c));
            reveal(Seq::filter);
            let t = candidates@.take(k + 1);
            assert(t.filter(pred) == if pred(c) {
                t.drop_last().filter(pred).push(c)
            } else {
                t.drop_last().filter(pred)
            });
        }
        if keep {
            kept.push(c);
        }
        k = k + 1;
    }
    proof {
        assert(candidates@.take(candidates@.len() as int) =~= candidates@);
    }
    kept
}

/// Returns the Manhattan radius within which pixels may join one segment:
/// `sqrt(len / segments)` rounded, at least 1.
pub fn spatial_radius(len: usize, segments: usize) -> (r: usize)
    requires
        segments >= 1,
    ensures
        exists|m: int|
            is_rounded_sqrt_ratio(m, len as int, segments as int) && r == if m >= 1 {
                m
            } else {
                1
            },
{
    let m = rounded_sqrt_ratio(len, segments);
    if m >= 1 {
        m
    } else {
        1
    }
}

/// Returns the number of pixels at which a segment stops growing: the
/// pixels shared out evenly among the segments.
pub fn segment_capacity(len: usize, segments: usize) -> (c: usize)
    requires
        segments >= 1,
    ensures
        c == len / segments,
{
    len / segments
}

/// Returns the size below which a segment is merged into a neighbour or
/// dropped: half of an even share of the pixels, at least 1.
pub fn min_segment_size(len: usize, segments: usize) -> (s: usize)
    requires
        segments >= 1,
    ensures
        s == if (len as int) / (2 * segments as int) >= 1 {
            (len as int) / (2 * segments as int)
        } else {
            1
        },
{
    let half = len / segments / 2;
    proof {
        assert(len / segments / 2 == (len as int) / (2 * segments as int)) by (nonlinear_arith)
            requires
                segments >= 1,
        ;
    }
    if half >= 1 {
        half
    } else {
        1
    }
}

/// Every neighbour is the index of a pixel.
pub open spec fn valid_pixel_neighborhoods(nbrs: Seq<Seq<usize>>) -> bool {
    forall|p: int, k: int|
        0 <= p < nbrs.len() && 0 <= k < nbrs[p].len() ==> #[trigger] nbrs[p][k] < nbrs.len()
}

/// The pixel `p` has at least `min_pixels` neighbours.
pub open spec fn is_dense(nbrs: Seq<Seq<usize>>, p: int, min_pixels: int) -> bool {
    nbrs[p].len() >= min_pixels
}

/// The pixel `q` is a neighbour of a dense pixel inside the mask.
pub open spec fn near_dense(nbrs: Seq<Seq<usize>>, mask: Seq<bool>, q: int, min_pixels: int) -> bool {
    exists|p: int, k: int|
        0 <= p < nbrs.len() && mask[p] && is_dense(nbrs, p, min_pixels) && 0 <= k < nbrs[p].len()
            && #[trigger] nbrs[p][k] == q
}

/// The number of pixels labelled `c`.
pub open spec fn count_label(labels: Seq<usize>, c: usize) -> nat
    decreases labels.len(),
{
    if labels.len() == 0 {
        0
    } else {
        count_label(labels.drop_last(), c) + if labels.last() == c {
            1nat
        } else {
            0nat
        }
    }
}

/// The number of pixels in no segment.
pub open spec fn count_outside(labels: Seq<usize>) -> nat
    decreases labels.len(),
{
    if labels.len() == 0 {
        0
    } else {
        count_outside(labels.drop_last()) + if is_segment_label(labels.last()) {
            0nat
        } else {
            1nat
        }
    }
}

/// Relabelling one pixel moves it from one count to another.
proof fn lemma_relabel(labels: Seq<usize>, j: int, v: usize, c: usize)
    requires
        0 <= j < labels.len(),
    ensures
        count_label(labels.update(j, v), c) + (if labels[j] == c {
            1int
        } else {
            0int
        }) == count_label(labels, c) + (if v == c {
            1int
        } else {
            0int
        }),
        count_outside(labels.update(j, v)) + (if is_segment_label(labels[j]) {
            0int
        } else {
            1int
        }) == count_outside(labels) + (if is_segment_label(v) {
            0int
        } else {
            1int
        }),
    decreases labels.len(),
{
    let u = labels.update(j, v);
    if j == labels.len() - 1 {
        assert(u.drop_last() =~= labels.drop_last());
    } else {
        assert(u.drop_last() =~= labels.drop_last().update(j, v));
        lemma_relabel(labels.drop_last(), j, v, c);
    }
}

/// No pixel carries a label that no pixel before `len` carries.
proof fn lemma_count_absent(labels: Seq<usize>, c: usize)
    requires
        forall|x: int| 0 <= x < labels.len() ==> labels[x] != c,
    ensures
        count_label(labels, c) == 0,
    decreases labels.len(),
{
    if labels.len() > 0 {
        lemma_count_absent(labels.drop_last(), c);
    }
}

/// Relabelling that keeps who carries the label `c` keeps its count.
proof fn lemma_count_same(before: Seq<usize>, after: Seq<usize>, c: usize)
    requires
        before.len() == after.len(),
        forall|x: int| 0 <= x < before.len() ==> (#[trigger] before[x] == c) == (after[x] == c),
    ensures
        count_label(after, c) == count_label(before, c),
    decreases before.len(),
{
    if before.len() > 0 {
        let b = before.drop_last();
        let a = after.drop_last();
        assert forall|x: int| 0 <= x < b.len() implies (#[trigger] b[x] == c) == (a[x] == c) by {
            assert(b[x] == before[x] && a[x] == after[x]);
        }
        lemma_count_same(b, a, c);
        assert(before.last() == before[before.len() - 1]);
    }
}

/// Every segment below `current` either holds `capacity` pixels or is closed.
pub open spec fn segments_full_or_closed(
    nbrs: Seq<Seq<usize>>,
    labels: Seq<usize>,
    current: int,
    capacity: int,
    m: int,
) -> bool {
    forall|c: usize|
        c < current ==> #[trigger] count_label(labels, c) >= capacity || (segment_closed(
            nbrs,
            labels,
            c,
            m,
        ) && segment_bounded(nbrs, labels, c, m))
}

/// Every neighbour of a dense pixel of the segment `c` is in `c` or an
/// earlier segment, or is ignored: the segment took in every neighbour that
/// no earlier segment had.
pub open spec fn segment_bounded(nbrs: Seq<Seq<usize>>, labels: Seq<usize>, c: usize, m: int) -> bool {
    forall|x: int, k: int|
        0 <= x < labels.len() && labels[x] == c && is_dense(nbrs, x, m) && 0 <= k < nbrs[x].len()
            ==> labels[#[trigger] nbrs[x][k] as int] <= c || labels[nbrs[x][k] as int]
            == LABEL_IGNORED
}

/// A relabelling that touches no pixel of a segment below `current` and
/// unsettles no settled pixel keeps every such segment full or closed.
proof fn lemma_closure_kept(
    nbrs: Seq<Seq<usize>>,
    before: Seq<usize>,
    after: Seq<usize>,
    current: int,
    capacity: int,
    m: int,
)
    requires
        valid_pixel_neighborhoods(nbrs),
        nbrs.len() == before.len(),
        before.len() == after.len(),
        segments_full_or_closed(nbrs, before, current, capacity, m),
        forall|x: int|
            0 <= x < before.len() && #[trigger] after[x] != before[x] ==> !(before[x] < current)
                && !(after[x] < current) && (is_settled(after, x) || !is_settled(before, x))
                && before[x] != LABEL_IGNORED,
    ensures
        segments_full_or_closed(nbrs, after, current, capacity, m),
{
    assert forall|c: usize| c < current implies #[trigger] count_label(after, c) >= capacity
        || (segment_closed(nbrs, after, c, m) && segment_bounded(nbrs, after, c, m)) by {
        assert forall|x: int| 0 <= x < before.len() implies (#[trigger] before[x] == c) == (after[x]
            == c) by {
            if after[x] != before[x] {
            }
        }
        lemma_count_same(before, after, c);
        if count_label(before, c) < capacity {
            assert forall|x: int, k: int|
                0 <= x < after.len() && after[x] == c && is_dense(nbrs, x, m) && 0 <= k
                    < nbrs[x].len() implies is_settled(after, #[trigger] nbrs[x][k] as int)
                || Seq::<usize>::empty().contains(nbrs[x][k]) by {
                assert(before[x] == c);
                let y = nbrs[x][k] as int;
                assert(is_settled(before, y) || Seq::<usize>::empty().contains(nbrs[x][k]));
                if after[y] != before[y] {
                }
            }
            assert forall|x: int, k: int|
                0 <= x < after.len() && after[x] == c && is_dense(nbrs, x, m) && 0 <= k
                    < nbrs[x].len() implies after[#[trigger] nbrs[x][k] as int] <= c || after[nbrs[x][k] as int]
                == LABEL_IGNORED by {
                assert(before[x] == c);
                let y = nbrs[x][k] as int;
                assert(before[y] <= c || before[y] == LABEL_IGNORED);
                if after[y] != before[y] {
                }
            }
        }
    }
}

/// Some dense pixel at or before `bound` carries the label `c`: the seed of
/// the segment `c` comes no later than `bound`.
pub open spec fn segment_started_by(
    nbrs: Seq<Seq<usize>>,
    labels: Seq<usize>,
    c: usize,
    m: int,
    bound: int,
) -> bool {
    exists|x: int| 0 <= x < labels.len() && x <= bound && labels[x] == c && is_dense(nbrs, x, m)
}

/// `starts[c]` is the seed of the segment `c`: a dense pixel labelled `c`
/// before `visited`; seeds increase with their labels, and no dense pixel of
/// a segment comes before its seed.
pub open spec fn seeds_in_order(
    nbrs: Seq<Seq<usize>>,
    labels: Seq<usize>,
    starts: Seq<int>,
    current: int,
    visited: int,
    m: int,
) -> bool {
    &&& starts.len() == current
    &&& forall|c: int|
        0 <= c < current ==> 0 <= #[trigger] starts[c] < visited && starts[c] < labels.len()
            && labels[starts[c]] == c && is_dense(nbrs, starts[c], m)
    &&& forall|c1: int, c2: int| 0 <= c1 < c2 < current ==> starts[c1] < starts[c2]
    &&& forall|y: int|
        0 <= y < labels.len() && is_segment_label(#[trigger] labels[y]) && is_dense(nbrs, y, m)
            ==> starts[labels[y] as int] <= y
}

/// Setting pixels outside every segment keeps the seeds in order.
proof fn lemma_seeds_outside(
    nbrs: Seq<Seq<usize>>,
    before: Seq<usize>,
    after: Seq<usize>,
    starts: Seq<int>,
    current: int,
    visited: int,
    m: int,
)
    requires
        before.len() == after.len(),
        seeds_in_order(nbrs, before, starts, current, visited, m),
        current < LABEL_NOISE,
        forall|x: int|
            0 <= x < before.len() && #[trigger] after[x] != before[x] ==> !is_segment_label(before[x])
                && !is_segment_label(after[x]),
    ensures
        seeds_in_order(nbrs, after, starts, current, visited + 1, m),
{
    assert forall|c: int| 0 <= c < current implies 0 <= #[trigger] starts[c] < visited + 1 && starts[c]
        < after.len() && after[starts[c]] == c && is_dense(nbrs, starts[c], m) by {
        if after[starts[c]] != before[starts[c]] {
        }
    }
    assert forall|y: int|
        0 <= y < after.len() && is_segment_label(#[trigger] after[y]) && is_dense(nbrs, y, m)
            implies starts[after[y] as int] <= y by {
        if after[y] != before[y] {
        }
    }
}

/// The invariant of segment labelling between two steps.
pub open spec fn segment_inv(
    nbrs: Seq<Seq<usize>>,
    mask: Seq<bool>,
    min_pixels: int,
    cap: int,
    labels: Seq<usize>,
    queue: Seq<usize>,
    next_label: int,
    visited: int,
) -> bool {
    &&& labels.len() == nbrs.len()
    &&& forall|x: int|
        0 <= x < labels.len() ==> (#[trigger] labels[x] == LABEL_UNLABELLED || labels[x]
            == LABEL_IGNORED || labels[x] == LABEL_NOISE || labels[x] < next_label)
    &&& forall|x: int| 0 <= x < labels.len() && #[trigger] labels[x] == LABEL_IGNORED ==> !mask[x]
    &&& forall|x: int|
        0 <= x < labels.len() && #[trigger] labels[x] == LABEL_NOISE ==> mask[x] && !is_dense(
            nbrs,
            x,
            min_pixels,
        )
    &&& forall|x: int|
        0 <= x < labels.len() && is_segment_label(#[trigger] labels[x]) ==> mask[x] && (is_dense(
            nbrs,
            x,
            min_pixels,
        ) || near_dense(nbrs, mask, x, min_pixels))
    &&& forall|x: int|
        0 <= x < visited ==> #[trigger] labels[x] != LABEL_UNLABELLED && (!mask[x] ==> labels[x]
            == LABEL_IGNORED) && (mask[x] && is_dense(nbrs, x, min_pixels) ==> is_segment_label(
            labels[x],
        ))
    &&& forall|c: usize| c < next_label ==> #[trigger] count_label(labels, c) <= cap
    &&& forall|k: int| 0 <= k < queue.len() ==> #[trigger] queue[k] < nbrs.len() && near_dense(
        nbrs,
        mask,
        queue[k] as int,
        min_pixels,
    )
}

/// Labels the pixels of an image for DBSCAN segmentation, where
/// `neighborhoods[p]` lists the pixels within reach of `p` and a pixel is
/// dense when it has at least `min_pixels` of them. Pixels are taken in
/// order as seeds: one outside the mask is ignored, one that is not dense is
/// noise, and a dense one starts a segment that grows breadth-first through
/// the neighbourhoods of its dense pixels, taking in noise, until it holds
/// `capacity` pixels (the seed always joins). Segments are numbered from 0
/// in the order of their seeds, and a segment below capacity is closed:
/// every neighbour of its dense pixels is in it or an earlier segment, or is
/// ignored.
pub fn label_segments(
    neighborhoods: &Vec<Vec<usize>>,
    mask: &[bool],
    min_pixels: usize,
    capacity: usize,
) -> (labels: Vec<usize>)
    requires
        valid_pixel_neighborhoods(neighborhoods.deep_view()),
        mask@.len() == neighborhoods.len(),
        neighborhoods.len() < LABEL_NOISE,
    ensures
        labels@.len() == neighborhoods.len(),
        forall|i: int| 0 <= i < labels@.len() ==> #[trigger] labels@[i] != LABEL_UNLABELLED,
        forall|i: int| 0 <= i < labels@.len() ==> (#[trigger] labels@[i] == LABEL_IGNORED <==> !mask@[i]),
        forall|i: int|
            0 <= i < labels@.len() && #[trigger] labels@[i] == LABEL_NOISE ==> mask@[i] && !is_dense(
                neighborhoods.deep_view(),
                i,
                min_pixels as int,
            ),
        forall|i: int|
            0 <= i < labels@.len() && is_segment_label(#[trigger] labels@[i]) ==> labels@[i]
                < labels@.len() && mask@[i] && (is_dense(
                neighborhoods.deep_view(),
                i,
                min_pixels as int,
            ) || near_dense(neighborhoods.deep_view(), mask@, i, min_pixels as int)),
        forall|i: int|
            0 <= i < labels@.len() && mask@[i] && is_dense(
                neighborhoods.deep_view(),
                i,
                min_pixels as int,
            ) ==> is_segment_label(#[trigger] labels@[i]),
        forall|c: usize|
            is_segment_label(c) && #[trigger] count_label(labels@, c) > 1 ==> count_label(labels@, c)
                <= capacity,
        forall|c: usize|
            is_segment_label(c) && #[trigger] count_label(labels@, c) < capacity ==> segment_closed(
                neighborhoods.deep_view(),
                labels@,
                c,
                min_pixels as int,
            ) && segment_bounded(neighborhoods.deep_view(), labels@, c, min_pixels as int),
        forall|y: int, c: usize|
            0 <= y < labels@.len() && is_segment_label(#[trigger] labels@[y]) && c <= labels@[y]
                ==> #[trigger] segment_started_by(
                neighborhoods.deep_view(),
                labels@,
                c,
                min_pixels as int,
                labels@.len() as int,
            ),
        forall|y: int, c: usize|
            0 <= y < labels@.len() && is_segment_label(#[trigger] labels@[y]) && is_dense(
                neighborhoods.deep_view(),
                y,
                min_pixels as int,
            ) && c <= labels@[y] ==> #[trigger] segment_started_by(
                neighborhoods.deep_view(),
                labels@,
                c,
                min_pixels as int,
                y,
            ),
{
    let ghost nbrs = neighborhoods.deep_view();
    let ghost m = min_pixels as int;
    let ghost cap: int = if capacity >= 1 {
        capacity as int
    } else {
        1
    };
    let n = neighborhoods.len();
    let mut labels: Vec<usize> = Vec::with_capacity(n);
    let mut x: usize = 0;
    while x < n
        invariant
            x <= n,
            labels@ == Seq::new(x as nat, |_i: int| LABEL_UNLABELLED),
        decreases n - x,
    {
        labels.push(LABEL_UNLABELLED);
        x = x + 1;
    }
    proof {
        assert forall|c: usize| c < 0 implies #[trigger] count_label(labels@, c) <= cap by {}
    }
    let mut current: usize = 0;
    let mut seed: usize = 0;
    let ghost mut starts: Seq<int> = Seq::empty();
    while seed < n
        invariant
            seeds_in_order(nbrs, labels@, starts, current as int, seed as int, m),
            nbrs == neighborhoods.deep_view(),
            valid_pixel_neighborhoods(nbrs),
            n == nbrs.len(),
            mask@.len() == n,
            n < LABEL_NOISE,
            m == min_pixels,
            cap == if capacity >= 1 {
                capacity as int
            } else {
                1
            },
            seed <= n,
            current <= seed,
            segment_inv(nbrs, mask@, m, cap, labels@, Seq::empty(), current as int, seed as int),
            segments_full_or_closed(nbrs, labels@, current as int, capacity as int, m),
        decreases n - seed,
    {
        if labels[seed] < LABEL_NOISE {
            proof {
                lemma_seeds_outside(nbrs, labels@, labels@, starts, current as int, seed as int, m);
            }
            seed = seed + 1;
            continue;
        }
        if !mask[seed] {
            proof {
                lemma_set_outside(nbrs, mask@, m, cap, labels@, seed as int, LABEL_IGNORED, current as int);
            }
            proof {
                lemma_seeds_outside(
                    nbrs,
                    labels@,
                    labels@.update(seed as int, LABEL_IGNORED),
                    starts,
                    current as int,
                    seed as int,
                    m,
                );
                lemma_closure_kept(
                    nbrs,
                    labels@,
                    labels@.update(seed as int, LABEL_IGNORED),
                    current as int,
                    capacity as int,
                    m,
                );
            }
            labels.set(seed, LABEL_IGNORED);
            seed = seed + 1;
            continue;
        }
        let seeds = &neighborhoods[seed];
        proof {
            assert(seeds@ == nbrs[seed as int]);
        }
        if seeds.len() < min_pixels {
            proof {
                lemma_set_outside(nbrs, mask@, m, cap, labels@, seed as int, LABEL_NOISE, current as int);
            }
            proof {
                assert(labels@[seed as int] != LABEL_IGNORED);
                lemma_seeds_outside(
                    nbrs,
                    labels@,
                    labels@.update(seed as int, LABEL_NOISE),
                    starts,
                    current as int,
                    seed as int,
                    m,
                );
                lemma_closure_kept(
                    nbrs,
                    labels@,
                    labels@.update(seed as int, LABEL_NOISE),
                    current as int,
                    capacity as int,
                    m,
                );
            }
            labels.set(seed, LABEL_NOISE);
            seed = seed + 1;
            continue;
        }
        let mut queue: VecDeque<usize> = VecDeque::new();
        let mut k: usize = 0;
        while k < seeds.len()
            invariant
                nbrs == neighborhoods.deep_view(),
                valid_pixel_neighborhoods(nbrs),
                n == nbrs.len(),
                seed < n,
                seeds@ == nbrs[seed as int],
                k <= seeds@.len(),
                queue@ == seeds@.take(k as int),
            decreases seeds@.len() - k,
        {
            queue.push_back(seeds[k]);
            proof {
                assert(queue@ =~= seeds@.take(k + 1));
            }
            k = k + 1;
        }
        proof {
            assert(queue@ =~= seeds@);
            lemma_start_segment(nbrs, mask@, m, cap, labels@, queue@, seed as int, current);
        }
        let ghost l0 = labels@;
        labels.set(seed, current);
        let ghost l1 = labels@;
        proof {
            lemma_closure_kept(nbrs, l0, l1, current as int, capacity as int, m);
        }
        grow_segment(neighborhoods, mask, min_pixels, capacity, &mut labels, queue, current, seed);
        proof {
            assert forall|x: int|
                0 <= x < l1.len() && #[trigger] labels@[x] != l1[x] implies !(l1[x] < current)
                    && !(labels@[x] < current) && (is_settled(labels@, x) || !is_settled(l1, x)) by {
                if l1[x] < current {
                    assert(is_segment_label(l1[x]));
                    assert(mask@[x]);
                }
            }
            lemma_closure_kept(nbrs, l1, labels@, current as int, capacity as int, m);
            assert forall|c: usize| c < current + 1 implies #[trigger] count_label(labels@, c)
                >= capacity || segment_closed(nbrs, labels@, c, m) by {
                if c < current {
                }
            }
            let l2 = labels@;
            assert forall|x: int| 0 <= x < l0.len() && #[trigger] l2[x] != l0[x] implies !is_segment_label(
                l0[x],
            ) && (l2[x] == current || !is_segment_label(l2[x])) by {
                if x != seed {
                    assert(l1[x] == l0[x]);
                    if l1[x] < current {
                        assert(is_segment_label(l1[x]));
                        assert(mask@[x]);
                    }
                } else {
                    assert(l1[x] == current);
                }
            }
            assert(l2[seed as int] == current) by {
                assert(l1[seed as int] == current);
                assert(mask@[seed as int]);
            }
            let s2 = starts.push(seed as int);
            assert forall|c: int| 0 <= c < current + 1 implies 0 <= #[trigger] s2[c] < seed + 1
                && s2[c] < l2.len() && l2[s2[c]] == c && is_dense(nbrs, s2[c], m) by {
                if c < current {
                    assert(s2[c] == starts[c]);
                    assert(l0[starts[c]] == c);
                    if l2[starts[c]] != l0[starts[c]] {
                    }
                }
            }
            assert forall|y: int|
                0 <= y < l2.len() && is_segment_label(#[trigger] l2[y]) && is_dense(nbrs, y, m)
                    implies s2[l2[y] as int] <= y by {
                if l2[y] != l0[y] {
                    assert(l2[y] == current);
                    if y < seed {
                        assert(mask@[y]);
                        assert(is_segment_label(l0[y]));
                    }
                } else if l0[y] < current {
                    assert(s2[l0[y] as int] == starts[l0[y] as int]);
                } else {
                    assert(l0[y] == LABEL_UNLABELLED || l0[y] == LABEL_IGNORED || l0[y] == LABEL_NOISE
                        || l0[y] < current);
                }
            }
            assert(seeds_in_order(nbrs, l2, s2, current + 1, seed + 1, m));
            starts = s2;
        }
        current = current + 1;
        seed = seed + 1;
    }
    proof {
        assert forall|c: usize| is_segment_label(c) && #[trigger] count_label(labels@, c) > 1 implies count_label(
            labels@,
            c,
        ) <= capacity by {
            if c >= current {
                lemma_count_absent(labels@, c);
            }
        }
        assert forall|y: int, c: usize|
            0 <= y < labels@.len() && is_segment_label(#[trigger] labels@[y]) && c <= labels@[y]
                implies #[trigger] segment_started_by(nbrs, labels@, c, m, labels@.len() as int) by {
            assert(labels@[y] < current);
            let x = starts[c as int];
            assert(labels@[x] == c && is_dense(nbrs, x, m));
        }
        assert forall|y: int, c: usize|
            0 <= y < labels@.len() && is_segment_label(#[trigger] labels@[y]) && is_dense(nbrs, y, m)
                && c <= labels@[y] implies #[trigger] segment_started_by(nbrs, labels@, c, m, y) by {
            assert(labels@[y] < current);
            let x = starts[c as int];
            assert(labels@[x] == c && is_dense(nbrs, x, m));
            assert(starts[labels@[y] as int] <= y);
            if (c as int) < (labels@[y] as int) {
                assert(starts[c as int] < starts[labels@[y] as int]);
            }
        }
        assert forall|c: usize|
            is_segment_label(c) && #[trigger] count_label(labels@, c) < capacity implies segment_closed(
            nbrs,
            labels@,
            c,
            m,
        ) && segment_bounded(nbrs, labels@, c, m) by {
            if c >= current {
                assert forall|x: int, k: int|
                    0 <= x < labels@.len() && labels@[x] == c && is_dense(nbrs, x, m) && 0 <= k
                        < nbrs[x].len() implies is_settled(labels@, #[trigger] nbrs[x][k] as int)
                    || Seq::<usize>::empty().contains(nbrs[x][k]) by {
                    assert(labels@[x] == LABEL_UNLABELLED || labels@[x] == LABEL_IGNORED
                        || labels@[x] == LABEL_NOISE || labels@[x] < current);
                }
            }
        }
    }
    labels
}

/// Labelling an unlabelled or ignored seed as outside every segment (ignored
/// when it is outside the mask, noise when it is not dense) keeps the
/// invariant and visits the seed.
proof fn lemma_set_outside(
    nbrs: Seq<Seq<usize>>,
    mask: Seq<bool>,
    m: int,
    cap: int,
    labels: Seq<usize>,
    seed: int,
    v: usize,
    next_label: int,
)
    requires
        valid_pixel_neighborhoods(nbrs),
        mask.len() == nbrs.len(),
        0 <= seed < nbrs.len(),
        next_label <= nbrs.len() < LABEL_NOISE,
        segment_inv(nbrs, mask, m, cap, labels, Seq::empty(), next_label, seed),
        !is_segment_label(labels[seed]),
        v == LABEL_IGNORED ==> !mask[seed],
        v == LABEL_NOISE ==> mask[seed] && !is_dense(nbrs, seed, m),
        v == LABEL_IGNORED || v == LABEL_NOISE,
    ensures
        segment_inv(nbrs, mask, m, cap, labels.update(seed, v), Seq::empty(), next_label, seed + 1),
{
    let after = labels.update(seed, v);
    assert forall|x: int| 0 <= x < after.len() implies (#[trigger] after[x] == LABEL_UNLABELLED
        || after[x] == LABEL_IGNORED || after[x] == LABEL_NOISE || after[x] < next_label) by {
        if x != seed {
            assert(after[x] == labels[x]);
        }
    }
    assert forall|x: int| 0 <= x < after.len() && #[trigger] after[x] == LABEL_IGNORED implies !mask[x] by {
        if x != seed {
            assert(after[x] == labels[x]);
        }
    }
    assert forall|x: int| 0 <= x < after.len() && #[trigger] after[x] == LABEL_NOISE implies mask[x]
        && !is_dense(nbrs, x, m) by {
        if x != seed {
            assert(after[x] == labels[x]);
        }
    }
    assert forall|x: int| 0 <= x < after.len() && is_segment_label(#[trigger] after[x]) implies mask[x]
        && (is_dense(nbrs, x, m) || near_dense(nbrs, mask, x, m)) by {
        assert(x != seed);
        assert(after[x] == labels[x]);
    }
    assert forall|x: int| 0 <= x < seed + 1 implies #[trigger] after[x] != LABEL_UNLABELLED && (
    !mask[x] ==> after[x] == LABEL_IGNORED) && (mask[x] && is_dense(nbrs, x, m) ==> is_segment_label(
        after[x],
    )) by {
        if x != seed {
            assert(after[x] == labels[x]);
        } else {
            if v == LABEL_NOISE {
                assert(mask[seed]);
            }
        }
    }
    assert forall|c: usize| c < next_label implies #[trigger] count_label(after, c) <= cap by {
        lemma_relabel(labels, seed, v, c);
        assert(count_label(labels, c) <= cap);
    }
}

/// Labelling a dense seed inside the mask with the new segment's label
/// keeps the invariant for that label, with the seed's neighbours queued.
proof fn lemma_start_segment(
    nbrs: Seq<Seq<usize>>,
    mask: Seq<bool>,
    m: int,
    cap: int,
    labels: Seq<usize>,
    queue: Seq<usize>,
    seed: int,
    label: usize,
)
    requires
        valid_pixel_neighborhoods(nbrs),
        mask.len() == nbrs.len(),
        0 <= seed < nbrs.len(),
        label <= seed,
        nbrs.len() < LABEL_NOISE,
        cap >= 1,
        segment_inv(nbrs, mask, m, cap, labels, Seq::empty(), label as int, seed),
        !is_segment_label(labels[seed]),
        mask[seed],
        is_dense(nbrs, seed, m),
        queue == nbrs[seed],
    ensures
        segment_inv(nbrs, mask, m, cap, labels.update(seed, label), queue, label + 1, seed + 1),
        count_label(labels.update(seed, label), label) == 1,
        count_outside(labels.update(seed, label)) < count_outside(labels),
        forall|x: int|
            0 <= x < labels.len() && #[trigger] labels.update(seed, label)[x] == label ==> x == seed,
{
    let after = labels.update(seed, label);
    assert forall|x: int| 0 <= x < labels.len() implies #[trigger] labels[x] != label by {
        assert(labels[x] == LABEL_UNLABELLED || labels[x] == LABEL_IGNORED || labels[x] == LABEL_NOISE
            || labels[x] < label);
    }
    lemma_count_absent(labels, label);
    lemma_relabel(labels, seed, label, label);
    assert forall|x: int| 0 <= x < after.len() implies (#[trigger] after[x] == LABEL_UNLABELLED
        || after[x] == LABEL_IGNORED || after[x] == LABEL_NOISE || after[x] < label + 1) by {
        if x != seed {
            assert(after[x] == labels[x]);
        }
    }
    assert forall|x: int| 0 <= x < after.len() && #[trigger] after[x] == LABEL_IGNORED implies !mask[x] by {
        if x != seed {
            assert(after[x] == labels[x]);
        }
    }
    assert forall|x: int| 0 <= x < after.len() && #[trigger] after[x] == LABEL_NOISE implies mask[x]
        && !is_dense(nbrs, x, m) by {
        if x != seed {
            assert(after[x] == labels[x]);
        }
    }
    assert forall|x: int| 0 <= x < after.len() && is_segment_label(#[trigger] after[x]) implies mask[x]
        && (is_dense(nbrs, x, m) || near_dense(nbrs, mask, x, m)) by {
        if x != seed {
            assert(after[x] == labels[x]);
        }
    }
    assert forall|x: int| 0 <= x < seed + 1 implies #[trigger] after[x] != LABEL_UNLABELLED && (
    !mask[x] ==> after[x] == LABEL_IGNORED) && (mask[x] && is_dense(nbrs, x, m) ==> is_segment_label(
        after[x],
    )) by {
        if x != seed {
            assert(after[x] == labels[x]);
        }
    }
    assert forall|c: usize| c < label + 1 implies #[trigger] count_label(after, c) <= cap by {
        lemma_relabel(labels, seed, label, c);
        if c != label {
            assert(count_label(labels, c) <= cap);
        }
    }
    assert forall|k: int| 0 <= k < queue.len() implies #[trigger] queue[k] < nbrs.len() && near_dense(
        nbrs,
        mask,
        queue[k] as int,
        m,
    ) by {
        assert(nbrs[seed][k] == queue[k]);
    }
}

/// The pixel `y` has been settled: it is neither unlabelled nor noise.
pub open spec fn is_settled(labels: Seq<usize>, y: int) -> bool {
    labels[y] != LABEL_UNLABELLED && labels[y] != LABEL_NOISE
}

/// Every neighbour of a dense pixel of the segment `label` is settled or
/// still waits in `queue`.
pub open spec fn segment_pending(
    nbrs: Seq<Seq<usize>>,
    labels: Seq<usize>,
    queue: Seq<usize>,
    label: usize,
    m: int,
) -> bool {
    forall|x: int, k: int|
        0 <= x < labels.len() && labels[x] == label && is_dense(nbrs, x, m) && 0 <= k < nbrs[x].len()
            ==> is_settled(labels, #[trigger] nbrs[x][k] as int) || queue.contains(nbrs[x][k])
}

/// The segment `label` is closed: every neighbour of its dense pixels is
/// settled (in a segment, or ignored outside the mask).
pub open spec fn segment_closed(nbrs: Seq<Seq<usize>>, labels: Seq<usize>, label: usize, m: int) -> bool {
    segment_pending(nbrs, labels, Seq::empty(), label, m)
}

/// Labels change only by a pixel joining the segment `label` from being
/// unlabelled or noise, or by a pixel outside the mask becoming ignored.
pub open spec fn grown_from(
    before: Seq<usize>,
    after: Seq<usize>,
    mask: Seq<bool>,
    label: usize,
) -> bool {
    &&& after.len() == before.len()
    &&& forall|x: int|
        0 <= x < after.len() && #[trigger] after[x] != before[x] ==> (after[x] == label && (before[x]
            == LABEL_UNLABELLED || before[x] == LABEL_NOISE)) || (after[x] == LABEL_IGNORED
            && !mask[x])
}

/// Grows the segment `label` from the queued neighbours of `seed` until the
/// queue empties or the segment holds `capacity` pixels.
/// Either the segment reaches `capacity` pixels or it is closed.
fn grow_segment(
    neighborhoods: &Vec<Vec<usize>>,
    mask: &[bool],
    min_pixels: usize,
    capacity: usize,
    labels: &mut Vec<usize>,
    queue: VecDeque<usize>,
    label: usize,
    seed: usize,
)
    requires
        valid_pixel_neighborhoods(neighborhoods.deep_view()),
        mask@.len() == neighborhoods.len(),
        neighborhoods.len() < LABEL_NOISE,
        seed < neighborhoods.len(),
        label <= seed,
        segment_inv(
            neighborhoods.deep_view(),
            mask@,
            min_pixels as int,
            if capacity >= 1 {
                capacity as int
            } else {
                1
            },
            old(labels)@,
            queue@,
            label + 1,
            seed + 1,
        ),
        count_label(old(labels)@, label) == 1,
        queue@ == neighborhoods.deep_view()[seed as int],
        forall|x: int|
            0 <= x < old(labels)@.len() && #[trigger] old(labels)@[x] == label ==> x == seed,
    ensures
        grown_from(old(labels)@, final(labels)@, mask@, label),
        count_label(final(labels)@, label) >= capacity || segment_closed(
            neighborhoods.deep_view(),
            final(labels)@,
            label,
            min_pixels as int,
        ),
        segment_inv(
            neighborhoods.deep_view(),
            mask@,
            min_pixels as int,
            if capacity >= 1 {
                capacity as int
            } else {
                1
            },
            final(labels)@,
            Seq::empty(),
            label + 1,
            seed + 1,
        ),
{
    let ghost nbrs = neighborhoods.deep_view();
    let ghost m = min_pixels as int;
    let ghost cap: int = if capacity >= 1 {
        capacity as int
    } else {
        1
    };
    let ghost n = nbrs.len();
    let ghost orig = labels@;
    proof {
        assert forall|x: int, k: int|
            0 <= x < orig.len() && orig[x] == label && is_dense(nbrs, x, m) && 0 <= k < nbrs[x].len()
                implies is_settled(orig, #[trigger] nbrs[x][k] as int) || queue@.contains(
            nbrs[x][k],
        ) by {
            assert(x == seed);
            assert(queue@[k] == nbrs[x][k]);
        }
    }
    let mut queue = queue;
    let mut count: usize = 1;
    while count < capacity && queue.len() > 0
        invariant
            grown_from(orig, labels@, mask@, label),
            segment_pending(nbrs, labels@, queue@, label, m),
            nbrs == neighborhoods.deep_view(),
            valid_pixel_neighborhoods(nbrs),
            n == nbrs.len(),
            mask@.len() == n,
            n < LABEL_NOISE,
            m == min_pixels,
            cap == if capacity >= 1 {
                capacity as int
            } else {
                1
            },
            label < n,
            seed < n,
            count == count_label(labels@, label),
            segment_inv(nbrs, mask@, m, cap, labels@, queue@, label + 1, seed + 1),
        decreases count_outside(labels@), queue@.len(),
    {
        let ghost before = labels@;
        let ghost q_before = queue@;
        let popped = queue.pop_front();
        match popped {
            Some(q) => {
                proof {
                    assert(q == q_before[0]);
                    assert(queue@ =~= q_before.drop_first());
                    lemma_pop_queue(nbrs, mask@, m, cap, before, q_before, label, seed);
                    assert forall|k: int| 1 <= k < q_before.len() implies queue@.contains(
                        #[trigger] q_before[k],
                    ) by {
                        assert(queue@[k - 1] == q_before[k]);
                    }
                }
                if !mask[q] {
                    proof {
                        lemma_relabel(before, q as int, LABEL_IGNORED, label);
                        lemma_put(nbrs, mask@, m, cap, before, queue@, q, LABEL_IGNORED, label, seed);
                        lemma_grown_step(orig, before, mask@, q as int, LABEL_IGNORED, label);
                        lemma_pending_pop(
                            nbrs,
                            before,
                            before.update(q as int, LABEL_IGNORED),
                            q_before,
                            queue@,
                            label,
                            m,
                        );
                    }
                    labels.set(q, LABEL_IGNORED);
                } else if labels[q] == LABEL_NOISE {
                    proof {
                        lemma_relabel(before, q as int, label, label);
                        lemma_put(nbrs, mask@, m, cap, before, queue@, q, label, label, seed);
                        lemma_grown_step(orig, before, mask@, q as int, label, label);
                        lemma_pending_pop(
                            nbrs,
                            before,
                            before.update(q as int, label),
                            q_before,
                            queue@,
                            label,
                            m,
                        );
                    }
                    labels.set(q, label);
                    count = count + 1;
                } else if labels[q] == LABEL_UNLABELLED {
                    proof {
                        lemma_relabel(before, q as int, label, label);
                        lemma_put(nbrs, mask@, m, cap, before, queue@, q, label, label, seed);
                        lemma_grown_step(orig, before, mask@, q as int, label, label);
                    }
                    labels.set(q, label);
                    count = count + 1;
                    let next = &neighborhoods[q];
                    proof {
                        assert(next@ == nbrs[q as int]);
                        if next@.len() < min_pixels {
                            lemma_pending_pop(nbrs, before, labels@, q_before, queue@, label, m);
                        }
                    }
                    if next.len() >= min_pixels {
                        let ghost q_mid = queue@;
                        let mut k: usize = 0;
                        while k < next.len()
                            invariant
                                nbrs == neighborhoods.deep_view(),
                                valid_pixel_neighborhoods(nbrs),
                                n == nbrs.len(),
                                q < n,
                                next@ == nbrs[q as int],
                                k <= next@.len(),
                                queue@ == q_mid + next@.take(k as int),
                            decreases next@.len() - k,
                        {
                            queue.push_back(next[k]);
                            proof {
                                assert(queue@ =~= q_mid + next@.take(k + 1));
                            }
                            k = k + 1;
                        }
                        proof {
                            assert(queue@ =~= q_mid + next@);
                            lemma_queue_dense(nbrs, mask@, m, cap, labels@, q_mid, queue@, q, label, seed);
                            assert forall|k: int| 0 <= k < q_mid.len() implies queue@.contains(
                                #[trigger] q_mid[k],
                            ) by {
                                assert(queue@[k] == q_mid[k]);
                            }
                            assert forall|k: int| 0 <= k < nbrs[q as int].len() implies queue@.contains(
                                #[trigger] nbrs[q as int][k],
                            ) by {
                                assert(queue@[q_mid.len() + k] == nbrs[q as int][k]);
                            }
                            lemma_pending_pop(nbrs, before, labels@, q_before, queue@, label, m);
                        }
                    }
                } else {
                    proof {
                        lemma_pending_pop(nbrs, before, before, q_before, queue@, label, m);
                    }
                }
            },
            None => {},
        }
    }
    proof {
        if queue@.len() == 0 {
            assert(queue@ =~= Seq::<usize>::empty());
        }
    }
}

/// Popping the head `q` of the queue and settling it, relabelling nothing
/// else, keeps every neighbour of a dense pixel of the segment settled or
/// queued, when the rest of the queue stays queued and the neighbours of
/// `q`, if it newly joins the segment and is dense, are queued too.
proof fn lemma_pending_pop(
    nbrs: Seq<Seq<usize>>,
    before: Seq<usize>,
    after: Seq<usize>,
    q_before: Seq<usize>,
    q_after: Seq<usize>,
    label: usize,
    m: int,
)
    requires
        valid_pixel_neighborhoods(nbrs),
        before.len() == nbrs.len(),
        after.len() == before.len(),
        segment_pending(nbrs, before, q_before, label, m),
        q_before.len() > 0,
        q_before[0] < before.len(),
        is_settled(after, q_before[0] as int),
        forall|y: int| 0 <= y < after.len() && y != q_before[0] ==> #[trigger] after[y] == before[y],
        forall|k: int| 1 <= k < q_before.len() ==> q_after.contains(#[trigger] q_before[k]),
        after[q_before[0] as int] == label && before[q_before[0] as int] != label && is_dense(
            nbrs,
            q_before[0] as int,
            m,
        ) ==> forall|k: int|
            0 <= k < nbrs[q_before[0] as int].len() ==> q_after.contains(
                #[trigger] nbrs[q_before[0] as int][k],
            ),
    ensures
        segment_pending(nbrs, after, q_after, label, m),
{
    let q = q_before[0] as int;
    assert forall|x: int, k: int|
        0 <= x < after.len() && after[x] == label && is_dense(nbrs, x, m) && 0 <= k < nbrs[x].len()
            implies is_settled(after, #[trigger] nbrs[x][k] as int) || q_after.contains(nbrs[x][k]) by {
        let y = nbrs[x][k] as int;
        assert(0 <= y < nbrs.len());
        if x == q && before[q] != label {
        } else {
            assert(before[x] == label);
            if y == q {
            } else {
                assert(after[y] == before[y]);
                if !is_settled(before, y) {
                    assert(q_before.contains(nbrs[x][k]));
                    let j = choose|j: int| 0 <= j < q_before.len() && q_before[j] == nbrs[x][k];
                    assert(j != 0);
                    assert(q_after.contains(q_before[j]));
                }
            }
        }
    }
}

/// Setting the pixel `q` to `v` (the segment `label` from unlabelled or
/// noise, or ignored outside the mask) keeps the labels grown from `orig`.
proof fn lemma_grown_step(
    orig: Seq<usize>,
    before: Seq<usize>,
    mask: Seq<bool>,
    q: int,
    v: usize,
    label: usize,
)
    requires
        grown_from(orig, before, mask, label),
        0 <= q < before.len(),
        (v == LABEL_IGNORED && !mask[q]) || (v == label && (before[q] == LABEL_UNLABELLED || before[q]
            == LABEL_NOISE)),
        label < LABEL_NOISE,
    ensures
        grown_from(orig, before.update(q, v), mask, label),
{
    let after = before.update(q, v);
    assert forall|x: int| 0 <= x < after.len() && #[trigger] after[x] != orig[x] implies (after[x]
        == label && (orig[x] == LABEL_UNLABELLED || orig[x] == LABEL_NOISE)) || (after[x]
        == LABEL_IGNORED && !mask[x]) by {
        if x != q {
            assert(after[x] == before[x]);
        } else if v != LABEL_IGNORED {
            if before[q] != orig[q] {
                assert(before[q] == label || before[q] == LABEL_IGNORED);
            }
        }
    }
}

/// Dropping the head of the queue keeps the invariant.
proof fn lemma_pop_queue(
    nbrs: Seq<Seq<usize>>,
    mask: Seq<bool>,
    m: int,
    cap: int,
    labels: Seq<usize>,
    q_before: Seq<usize>,
    label: usize,
    seed: usize,
)
    requires
        segment_inv(nbrs, mask, m, cap, labels, q_before, label + 1, seed + 1),
        q_before.len() > 0,
    ensures
        segment_inv(nbrs, mask, m, cap, labels, q_before.drop_first(), label + 1, seed + 1),
        q_before[0] < nbrs.len(),
        near_dense(nbrs, mask, q_before[0] as int, m),
{
    let q_after = q_before.drop_first();
    assert forall|k: int| 0 <= k < q_after.len() implies #[trigger] q_after[k] < nbrs.len() && near_dense(
        nbrs,
        mask,
        q_after[k] as int,
        m,
    ) by {
        assert(q_after[k] == q_before[k + 1]);
    }
}

/// Labelling the popped pixel `q` (ignored when outside the mask, in the
/// segment otherwise) keeps the invariant when the segment has room.
proof fn lemma_put(
    nbrs: Seq<Seq<usize>>,
    mask: Seq<bool>,
    m: int,
    cap: int,
    labels: Seq<usize>,
    queue: Seq<usize>,
    q: usize,
    v: usize,
    label: usize,
    seed: usize,
)
    requires
        valid_pixel_neighborhoods(nbrs),
        mask.len() == nbrs.len(),
        label < nbrs.len() < LABEL_NOISE,
        seed < nbrs.len(),
        q < nbrs.len(),
        segment_inv(nbrs, mask, m, cap, labels, queue, label + 1, seed + 1),
        near_dense(nbrs, mask, q as int, m),
        v == LABEL_IGNORED ==> !mask[q as int],
        v != LABEL_IGNORED ==> v == label && mask[q as int] && !is_segment_label(labels[q as int])
            && count_label(labels, label) < cap,
    ensures
        segment_inv(nbrs, mask, m, cap, labels.update(q as int, v), queue, label + 1, seed + 1),
{
    let after = labels.update(q as int, v);
    assert forall|x: int| 0 <= x < after.len() implies (#[trigger] after[x] == LABEL_UNLABELLED
        || after[x] == LABEL_IGNORED || after[x] == LABEL_NOISE || after[x] < label + 1) by {
        if x != q {
            assert(after[x] == labels[x]);
        }
    }
    assert forall|x: int| 0 <= x < after.len() && #[trigger] after[x] == LABEL_IGNORED implies !mask[x] by {
        if x != q {
            assert(after[x] == labels[x]);
        }
    }
    assert forall|x: int| 0 <= x < after.len() && #[trigger] after[x] == LABEL_NOISE implies mask[x]
        && !is_dense(nbrs, x, m) by {
        if x != q {
            assert(after[x] == labels[x]);
        }
    }
    assert forall|x: int| 0 <= x < after.len() && is_segment_label(#[trigger] after[x]) implies mask[x]
        && (is_dense(nbrs, x, m) || near_dense(nbrs, mask, x, m)) by {
        if x != q {
            assert(after[x] == labels[x]);
        }
    }
    assert forall|x: int| 0 <= x < seed + 1 implies #[trigger] after[x] != LABEL_UNLABELLED && (
    !mask[x] ==> after[x] == LABEL_IGNORED) && (mask[x] && is_dense(nbrs, x, m) ==> is_segment_label(
        after[x],
    )) by {
        if x != q {
            assert(after[x] == labels[x]);
        } else {
            assert(labels[x] != LABEL_UNLABELLED);
            if !mask[x] {
                assert(labels[x] == LABEL_IGNORED);
            }
            if mask[x] && is_dense(nbrs, x, m) {
                assert(is_segment_label(labels[x]));
            }
        }
    }
    assert forall|c: usize| c < label + 1 implies #[trigger] count_label(after, c) <= cap by {
        lemma_relabel(labels, q as int, v, c);
        assert(count_label(labels, c) <= cap);
        if v == LABEL_IGNORED {
            assert(!is_segment_label(labels[q as int]));
        }
    }
}

/// Queuing the neighbours of the dense pixel `q`, now in the segment, keeps
/// the invariant.
proof fn lemma_queue_dense(
    nbrs: Seq<Seq<usize>>,
    mask: Seq<bool>,
    m: int,
    cap: int,
    labels: Seq<usize>,
    q_mid: Seq<usize>,
    q_after: Seq<usize>,
    q: usize,
    label: usize,
    seed: usize,
)
    requires
        valid_pixel_neighborhoods(nbrs),
        mask.len() == nbrs.len(),
        q < nbrs.len(),
        mask[q as int],
        is_dense(nbrs, q as int, m),
        segment_inv(nbrs, mask, m, cap, labels, q_mid, label + 1, seed + 1),
        q_after == q_mid + nbrs[q as int],
    ensures
        segment_inv(nbrs, mask, m, cap, labels, q_after, label + 1, seed + 1),
{
    assert forall|k: int| 0 <= k < q_after.len() implies #[trigger] q_after[k] < nbrs.len() && near_dense(
        nbrs,
        mask,
        q_after[k] as int,
        m,
    ) by {
        if k < q_mid.len() {
            assert(q_after[k] == q_mid[k]);
        } else {
            assert(q_after[k] == nbrs[q as int][k - q_mid.len()]);
        }
    }
}

} // verus!
