//! Farthest-point sampling over distances given as order keys: the point
//! chosen at each step is the one whose distance to the chosen points is
//! largest.
pub mod ranked;

use crate::metrics::DistanceMetric;
use crate::point::Point;
use std::marker::PhantomData;
use std::collections::HashSet;
use vstd::prelude::*;
use vstd::std_specs::hash::*;

verus! {

broadcast use {vstd::std_specs::hash::group_hash_axioms, vstd::seq_lib::group_seq_lib_default};

/// Errors of sampling.
#[derive(Debug, Clone, Copy, PartialEq, Eq, Structural)]
pub enum SamplingError {
    /// There is no point to sample from.
    EmptyPoints,
    /// There is no weight.
    EmptyWeights,
    /// The diversity factor is outside `[0, 1]`.
    DiversityOutOfRange,
    /// The points and the weights differ in number.
    LengthMismatch { points_len: usize, weights_len: usize },
}

/// A sampling algorithm over points of coordinates of the type `T`; how an
/// algorithm measures its points decides what it samples, so each one adds
/// its own `sample`.
pub trait SamplingAlgorithm<T> {
    /// Chooses the index of the first sample, an index of `points`. By
    /// default: the first point, or `EmptyPoints` when there is none.
    fn select_initial_index<const N: usize>(&self, points: &[Point<T, N>]) -> (r: Result<
        usize,
        SamplingError,
    >)
        ensures
            r matches Ok(i) ==> i < points@.len(),
        default_ensures
            points@.len() == 0 ==> r == Err::<usize, SamplingError>(SamplingError::EmptyPoints),
            points@.len() > 0 ==> r == Ok::<usize, SamplingError>(0),
    {
        first_index(points.len())
    }
}

/// Farthest-point sampling under a metric, over points of coordinates of
/// the type `T`, from the first point.
#[derive(Debug, PartialEq)]
pub struct FarthestSampling<T> {
    metric: DistanceMetric,
    _marker: PhantomData<T>,
}

impl<T> FarthestSampling<T> {
    /// The metric between points.
    pub closed spec fn metric_view(&self) -> DistanceMetric {
        self.metric
    }

    /// Creates farthest-point sampling under `metric`.
    pub fn new(metric: DistanceMetric) -> (s: Self)
        ensures
            s.metric_view() == metric,
    {
        FarthestSampling { metric, _marker: PhantomData }
    }

    /// Returns the metric.
    pub fn metric(&self) -> (m: DistanceMetric)
        ensures
            m == self.metric_view(),
    {
        self.metric
    }
}

impl<T> Default for FarthestSampling<T> {
    fn default() -> (s: Self)
        ensures
            s.metric_view() == DistanceMetric::Euclidean,
    {
        FarthestSampling::new(DistanceMetric::Euclidean)
    }
}

impl<T> SamplingAlgorithm<T> for FarthestSampling<T> {

}

/// The index of the first point, or `EmptyPoints` when there is none.
pub fn first_index(len: usize) -> (r: Result<usize, SamplingError>)
    ensures
        len == 0 ==> r == Err::<usize, SamplingError>(SamplingError::EmptyPoints),
        len > 0 ==> r == Ok::<usize, SamplingError>(0),
{
    if len == 0 {
        Err(SamplingError::EmptyPoints)
    } else {
        Ok(0)
    }
}

/// `i` holds the largest key, and no later index holds as large a one.
pub open spec fn is_last_max(keys: Seq<u64>, i: int) -> bool {
    &&& 0 <= i < keys.len()
    &&& forall|j: int| 0 <= j < keys.len() ==> #[trigger] keys[j] <= keys[i]
    &&& forall|j: int| i < j < keys.len() ==> #[trigger] keys[j] < keys[i]
}

/// Returns the last index of the largest key, or `None` when there is no
/// key.
pub fn last_max_index(keys: &[u64]) -> (r: Option<usize>)
    ensures
        keys@.len() == 0 <==> r is None,
        r matches Some(i) ==> is_last_max(keys@, i as int),
{
    let mut best: Option<usize> = None;
    let mut i: usize = 0;
    while i < keys.len()
        invariant
            i <= keys@.len(),
            i == 0 <==> best is None,
            best matches Some(b) ==> b < i && forall|j: int| 0 <= j < i ==> #[trigger] keys@[j]
                <= keys@[b as int],
            best matches Some(b) ==> forall|j: int| b < j < i ==> #[trigger] keys@[j] < keys@[b as int],
        decreases keys@.len() - i,
    {
        match best {
            Some(b) => {
                if keys[i] >= keys[b] {
                    best = Some(i);
                }
            },
            None => {
                best = Some(i);
            },
        }
        i = i + 1;
    }
    best
}

/// Chooses the first sample of a weighted sampling: the last point of the
/// largest weight, where `weight_keys` order the weights.
pub fn weighted_initial_index(points_len: usize, weight_keys: &[u64]) -> (r: Result<
    usize,
    SamplingError,
>)
    ensures
        points_len == 0 ==> r == Err::<usize, SamplingError>(SamplingError::EmptyPoints),
        points_len != 0 && points_len != weight_keys@.len() ==> r == Err::<usize, SamplingError>(
            SamplingError::LengthMismatch { points_len, weights_len: weight_keys@.len() as usize },
        ),
        points_len != 0 && points_len == weight_keys@.len() ==> (r matches Ok(i) && is_last_max(
            weight_keys@,
            i as int,
        )),
{
    if points_len == 0 {
        return Err(SamplingError::EmptyPoints);
    }
    if points_len != weight_keys.len() {
        return Err(SamplingError::LengthMismatch { points_len, weights_len: weight_keys.len() });
    }
    match last_max_index(weight_keys) {
        Some(i) => Ok(i),
        None => Err(SamplingError::EmptyWeights),
    }
}

/// The distance function `f` accepts every pair of indices below `len`.
pub open spec fn accepts_pairs<F: Fn(usize, usize) -> u64>(f: F, len: int) -> bool {
    forall|a: usize, b: usize| a < len && b < len ==> #[trigger] f.requires((a, b))
}

/// The distance function `f` gives one key for each pair of indices.
pub open spec fn is_deterministic<F: Fn(usize, usize) -> u64>(f: F) -> bool {
    forall|a: usize, b: usize, x: u64, y: u64|
        #[trigger] f.ensures((a, b), x) && #[trigger] f.ensures((a, b), y) ==> x == y
}

/// The key that `f` gives for the selected point `a` and the point `b`.
pub open spec fn key_of<F: Fn(usize, usize) -> u64>(f: F, a: int, b: int) -> u64 {
    choose|x: u64| #[trigger] f.ensures((a as usize, b as usize), x)
}

/// The smallest key between the chosen points and the point `i`; `u64::MAX`
/// when nothing is chosen.
pub open spec fn min_key<F: Fn(usize, usize) -> u64>(f: F, chosen: Seq<usize>, i: int) -> u64
    decreases chosen.len(),
{
    if chosen.len() == 0 {
        u64::MAX
    } else {
        let rest = min_key(f, chosen.drop_last(), i);
        let last = key_of(f, chosen.last() as int, i);
        if last < rest {
            last
        } else {
            rest
        }
    }
}

/// `next` is the point not yet chosen that lies farthest from the chosen
/// ones, the last such when several tie.
pub open spec fn is_farthest_step<F: Fn(usize, usize) -> u64>(
    f: F,
    len: int,
    chosen: Seq<usize>,
    next: int,
) -> bool {
    &&& 0 <= next < len
    &&& !chosen.contains(next as usize)
    &&& forall|j: int|
        0 <= j < len && !chosen.contains(j as usize) ==> #[trigger] min_key(f, chosen, j) <= min_key(
            f,
            chosen,
            next,
        )
    &&& forall|j: int|
        next < j < len && !chosen.contains(j as usize) ==> #[trigger] min_key(f, chosen, j) < min_key(
            f,
            chosen,
            next,
        )
}

/// `order` starts at `initial` and takes the farthest point at each step.
pub open spec fn is_farthest_order<F: Fn(usize, usize) -> u64>(
    f: F,
    len: int,
    initial: int,
    order: Seq<usize>,
) -> bool {
    &&& order.len() >= 1
    &&& order[0] == initial
    &&& 0 <= initial < len
    &&& forall|t: int| 1 <= t < order.len() ==> #[trigger] is_farthest_step(f, len, order.take(t), order[t] as int)
}

/// Farthest-point sampling from `initial_index` over `len` points:
/// `distance_fn(s, i)` orders the distance from the chosen point `s` to the
/// point `i`. Points are added one by one, each the farthest from those
/// chosen, until `num_samples` are chosen or none is left.
pub fn sample_with_distance_fn<F: Fn(usize, usize) -> u64>(
    len: usize,
    num_samples: usize,
    initial_index: usize,
    distance_fn: F,
) -> (selected: HashSet<usize>)
    requires
        initial_index < len,
        accepts_pairs(distance_fn, len as int),
        is_deterministic(distance_fn),
    ensures
        exists|order: Seq<usize>|
            {
                &&& is_farthest_order(distance_fn, len as int, initial_index as int, order)
                &&& order.len() == if num_samples <= 1 {
                    1
                } else if num_samples < len {
                    num_samples as int
                } else {
                    len as int
                }
                &&& selected@ == order.to_set()
            },
{
    proof {
        assert(obeys_key_model::<usize>());
        assert(builds_valid_hashers::<std::hash::RandomState>());
    }
    let mut selected: HashSet<usize> = HashSet::with_capacity(num_samples);
    selected.insert(initial_index);
    let ghost mut order: Seq<usize> = seq![initial_index];
    let mut distances: Vec<u64> = Vec::with_capacity(len);
    let mut i: usize = 0;
    while i < len
        invariant
            i <= len,
            distances@ == Seq::new(i as nat, |_j: int| u64::MAX),
        decreases len - i,
    {
        distances.push(u64::MAX);
        i = i + 1;
    }
    proof {
        assert(selected@ =~= order.to_set()) by {
            assert(order.to_set() =~= Seq::<usize>::empty().to_set().insert(initial_index)) by {
                Seq::<usize>::empty().lemma_push_to_set_commute(initial_index);
                assert(Seq::<usize>::empty().push(initial_index) =~= order);
            }
        }
        assert forall|j: int| 0 <= j < len implies #[trigger] distances@[j] == min_key(
            distance_fn,
            Seq::empty(),
            j,
        ) by {}
        assert(order.no_duplicates());
        assert(is_farthest_order(distance_fn, len as int, initial_index as int, order));
    }
    update_distances(&mut distances, &selected, initial_index, &distance_fn, Ghost(Seq::empty()));
    proof {
        order.unique_seq_to_set();
    }
    let mut exhausted = false;
    while !exhausted && selected.len() < num_samples
        invariant
            obeys_key_model::<usize>(),
            builds_valid_hashers::<std::hash::RandomState>(),
            initial_index < len,
            accepts_pairs(distance_fn, len as int),
            is_deterministic(distance_fn),
            distances@.len() == len,
            selected@ == order.to_set(),
            order.no_duplicates(),
            order.len() == selected@.len(),
            1 <= order.len() <= len,
            is_farthest_order(distance_fn, len as int, initial_index as int, order),
            forall|j: int|
                0 <= j < len ==> #[trigger] distances@[j] == if order.contains(j as usize) {
                    0
                } else {
                    min_key(distance_fn, order, j)
                },
            num_samples <= 1 ==> order.len() == 1,
            num_samples > 1 ==> order.len() <= num_samples,
            exhausted ==> order.len() == len,
            forall|k: int| 0 <= k < order.len() ==> #[trigger] order[k] < len,
        decreases (if exhausted {
            0
        } else {
            len - order.len() + 1
        }),
    {
        match find_farthest_index::<F>(&distances, &selected, Ghost(distance_fn), Ghost(order)) {
            Some(next) => {
                selected.insert(next);
                proof {
                    let old_order = order;
                    order = order.push(next);
                    old_order.lemma_push_to_set_commute(next);
                    assert(order.take(old_order.len() as int) =~= old_order);
                    assert forall|t: int| 1 <= t < order.len() implies #[trigger] is_farthest_step(
                        distance_fn,
                        len as int,
                        order.take(t),
                        order[t] as int,
                    ) by {
                        if t < old_order.len() {
                            assert(order.take(t) =~= old_order.take(t));
                            assert(is_farthest_step(
                                distance_fn,
                                len as int,
                                old_order.take(t),
                                old_order[t] as int,
                            ));
                        }
                    }
                    order.unique_seq_to_set();
                    lemma_order_bound(order, len);
                }
                update_distances(&mut distances, &selected, next, &distance_fn, Ghost(order.drop_last()));
                proof {
                    assert(order.drop_last().push(next) =~= order);
                }
            },
            None => {
                proof {
                    lemma_all_chosen(order, len);
                }
                exhausted = true;
            },
        }
    }
    selected
}

/// An order without repeats of points below `len` holds at most `len`.
proof fn lemma_order_bound(order: Seq<usize>, len: usize)
    requires
        order.no_duplicates(),
        forall|k: int| 0 <= k < order.len() ==> #[trigger] order[k] < len,
    ensures
        order.len() <= len,
{
    broadcast use vstd::set_lib::range_set_properties;

    order.unique_seq_to_set();
    let r = Set::<usize>::range(0, len);
    assert(order.to_set().subset_of(r));
    vstd::set_lib::lemma_len_subset(order.to_set(), r);
}

/// When no point is left, the order holds every point.
proof fn lemma_all_chosen(order: Seq<usize>, len: usize)
    requires
        order.no_duplicates(),
        forall|k: int| 0 <= k < order.len() ==> #[trigger] order[k] < len,
        forall|j: usize| j < len ==> #[trigger] order.contains(j),
    ensures
        order.len() == len,
{
    broadcast use vstd::set_lib::range_set_properties;

    order.unique_seq_to_set();
    let r = Set::<usize>::range(0, len);
    assert(r.len() == len);
    assert(order.to_set() =~= r) by {
        assert forall|x: usize| r.contains(x) implies order.to_set().contains(x) by {
            assert(order.contains(x));
        }
    }
}

/// One step of farthest-point sampling has one outcome.
pub proof fn lemma_farthest_step_unique<F: Fn(usize, usize) -> u64>(
    f: F,
    len: int,
    chosen: Seq<usize>,
    a: int,
    b: int,
)
    requires
        is_farthest_step(f, len, chosen, a),
        is_farthest_step(f, len, chosen, b),
    ensures
        a == b,
{
    if a < b {
        assert(min_key(f, chosen, b) < min_key(f, chosen, a));
        assert(min_key(f, chosen, a) <= min_key(f, chosen, b));
    } else if b < a {
        assert(min_key(f, chosen, a) < min_key(f, chosen, b));
        assert(min_key(f, chosen, b) <= min_key(f, chosen, a));
    }
}

/// Farthest-point sampling is deterministic: two orders from the same
/// first point agree on their common length.
pub proof fn lemma_farthest_order_unique<F: Fn(usize, usize) -> u64>(
    f: F,
    len: int,
    initial: int,
    o1: Seq<usize>,
    o2: Seq<usize>,
)
    requires
        is_farthest_order(f, len, initial, o1),
        is_farthest_order(f, len, initial, o2),
        o1.len() == o2.len(),
    ensures
        o1 == o2,
    decreases o1.len(),
{
    if o1.len() > 1 {
        let t = o1.len() - 1;
        let p1 = o1.drop_last();
        let p2 = o2.drop_last();
        assert forall|u: int| 1 <= u < p1.len() implies #[trigger] is_farthest_step(
            f,
            len,
            p1.take(u),
            p1[u] as int,
        ) by {
            assert(p1.take(u) =~= o1.take(u));
            assert(is_farthest_step(f, len, o1.take(u), o1[u] as int));
        }
        assert forall|u: int| 1 <= u < p2.len() implies #[trigger] is_farthest_step(
            f,
            len,
            p2.take(u),
            p2[u] as int,
        ) by {
            assert(p2.take(u) =~= o2.take(u));
            assert(is_farthest_step(f, len, o2.take(u), o2[u] as int));
        }
        lemma_farthest_order_unique(f, len, initial, p1, p2);
        assert(o1.take(t) =~= p1);
        assert(o2.take(t) =~= p2);
        assert(is_farthest_step(f, len, o1.take(t), o1[t] as int));
        assert(is_farthest_step(f, len, o2.take(t), o2[t] as int));
        lemma_farthest_step_unique(f, len, p1, o1[t] as int, o2[t] as int);
        assert(o1 =~= p1.push(o1[t]));
        assert(o2 =~= p2.push(o2[t]));
    } else {
        assert(o1 =~= o2);
    }
}

/// A farthest-point sample holds as many points as were asked for, all
/// distinct, the first point among them.
pub proof fn lemma_farthest_sample_size<F: Fn(usize, usize) -> u64>(
    f: F,
    len: int,
    initial: int,
    num_samples: int,
    selected: Set<usize>,
)
    requires
        is_farthest_sample(f, len, initial, num_samples, selected),
    ensures
        selected.len() == num_samples,
        selected.contains(initial as usize),
        forall|x: usize| #[trigger] selected.contains(x) ==> x < len,
{
    let order = choose|order: Seq<usize>|
        {
            &&& is_farthest_order(f, len, initial, order)
            &&& order.len() == num_samples
            &&& selected == order.to_set()
        };
    assert(order.no_duplicates()) by {
        assert forall|i: int, j: int| 0 <= i < j < order.len() implies order[i] != order[j] by {
            assert(is_farthest_step(f, len, order.take(j), order[j] as int));
            assert(order.take(j)[i] == order[i]);
        }
    }
    order.unique_seq_to_set();
    assert(order.to_set().contains(order[0]));
    assert forall|x: usize| #[trigger] selected.contains(x) implies x < len by {
        let k = choose|k: int| 0 <= k < order.len() && order[k] == x;
        if k > 0 {
            assert(is_farthest_step(f, len, order.take(k), order[k] as int));
        }
    }
}

/// Every index below `len`.
pub open spec fn all_indices(len: int) -> Set<usize> {
    Set::new(|x: usize| x < len)
}

/// Returns every index below `len`.
fn collect_all(len: usize) -> (s: HashSet<usize>)
    ensures
        s@ == all_indices(len as int),
{
    proof {
        assert(obeys_key_model::<usize>());
        assert(builds_valid_hashers::<std::hash::RandomState>());
    }
    let mut all: HashSet<usize> = HashSet::with_capacity(len);
    let mut i: usize = 0;
    while i < len
        invariant
            obeys_key_model::<usize>(),
            builds_valid_hashers::<std::hash::RandomState>(),
            i <= len,
            all@ == all_indices(i as int),
        decreases len - i,
    {
        all.insert(i);
        proof {
            assert(all@ =~= all_indices(i + 1));
        }
        i = i + 1;
    }
    all
}

/// `selected` is what farthest-point sampling from `initial` over `len`
/// points gives for `num_samples` samples, where `1 <= num_samples < len`.
pub open spec fn is_farthest_sample<F: Fn(usize, usize) -> u64>(
    f: F,
    len: int,
    initial: int,
    num_samples: int,
    selected: Set<usize>,
) -> bool {
    exists|order: Seq<usize>|
        {
            &&& is_farthest_order(f, len, initial, order)
            &&& order.len() == num_samples
            &&& selected == order.to_set()
        }
}

/// Samples `num_samples` of `len` points by farthest-point sampling from
/// the first point: none for `num_samples == 0`, all of them when there are
/// no more than `num_samples`.
pub fn sample_farthest<F: Fn(usize, usize) -> u64>(
    len: usize,
    num_samples: usize,
    distance_fn: F,
) -> (r: Result<HashSet<usize>, SamplingError>)
    requires
        accepts_pairs(distance_fn, len as int),
        is_deterministic(distance_fn),
    ensures
        len == 0 ==> r == Err::<HashSet<usize>, SamplingError>(SamplingError::EmptyPoints),
        len > 0 ==> r is Ok,
        r matches Ok(s) ==> {
            &&& num_samples == 0 ==> s@ == Set::<usize>::empty()
            &&& 0 < len <= num_samples ==> s@ == all_indices(len as int)
            &&& 0 < num_samples < len ==> is_farthest_sample(
                distance_fn,
                len as int,
                0,
                num_samples as int,
                s@,
            )
        },
{
    let initial = match first_index(len) {
        Ok(i) => i,
        Err(e) => {
            return Err(e);
        },
    };
    if num_samples == 0 {
        return Ok(HashSet::new());
    }
    if len <= num_samples {
        return Ok(collect_all(len));
    }
    let s = sample_with_distance_fn(len, num_samples, initial, distance_fn);
    Ok(s)
}

/// Samples `num_samples` of `len` points by farthest-point sampling from
/// the point of the largest weight (the last of them), where `weight_keys`
/// order the weights: none for `num_samples == 0`, all of them when there
/// are no more than `num_samples`.
pub fn sample_weighted_farthest<F: Fn(usize, usize) -> u64>(
    len: usize,
    weight_keys: &[u64],
    num_samples: usize,
    distance_fn: F,
) -> (r: Result<HashSet<usize>, SamplingError>)
    requires
        accepts_pairs(distance_fn, len as int),
        is_deterministic(distance_fn),
    ensures
        len == 0 ==> r == Err::<HashSet<usize>, SamplingError>(SamplingError::EmptyPoints),
        len != 0 && len != weight_keys@.len() ==> r == Err::<HashSet<usize>, SamplingError>(
            SamplingError::LengthMismatch { points_len: len, weights_len: weight_keys@.len() as usize },
        ),
        len != 0 && len == weight_keys@.len() ==> r is Ok,
        r matches Ok(s) ==> {
            &&& num_samples == 0 ==> s@ == Set::<usize>::empty()
            &&& 0 < len <= num_samples ==> s@ == all_indices(len as int)
            &&& 0 < num_samples < len ==> exists|initial: int|
                is_last_max(weight_keys@, initial) && is_farthest_sample(
                    distance_fn,
                    len as int,
                    initial,
                    num_samples as int,
                    s@,
                )
        },
{
    let initial = match weighted_initial_index(len, weight_keys) {
        Ok(i) => i,
        Err(e) => {
            return Err(e);
        },
    };
    if num_samples == 0 {
        return Ok(HashSet::new());
    }
    if len <= num_samples {
        return Ok(collect_all(len));
    }
    let s = sample_with_distance_fn(len, num_samples, initial, distance_fn);
    proof {
        assert(is_last_max(weight_keys@, initial as int));
    }
    Ok(s)
}

/// Lowers the keys of the points not chosen to their key from the newly
/// chosen point `s`, and sets the keys of the chosen points to zero.
fn update_distances<F: Fn(usize, usize) -> u64>(
    distances: &mut Vec<u64>,
    selected: &HashSet<usize>,
    s: usize,
    distance_fn: &F,
    Ghost(before): Ghost<Seq<usize>>,
)
    requires
        obeys_key_model::<usize>(),
        builds_valid_hashers::<std::hash::RandomState>(),
        s < old(distances)@.len(),
        accepts_pairs(*distance_fn, old(distances)@.len() as int),
        is_deterministic(*distance_fn),
        selected@ == before.push(s).to_set(),
        forall|j: int|
            0 <= j < old(distances)@.len() && !before.contains(j as usize) ==> #[trigger] old(
                distances,
            )@[j] == min_key(*distance_fn, before, j),
    ensures
        final(distances)@.len() == old(distances)@.len(),
        forall|j: int|
            0 <= j < final(distances)@.len() ==> #[trigger] final(distances)@[j] == if before.push(
                s,
            ).contains(j as usize) {
                0
            } else {
                min_key(*distance_fn, before.push(s), j)
            },
{
    let ghost chosen = before.push(s);
    let n = distances.len();
    let mut i: usize = 0;
    while i < n
        invariant
            obeys_key_model::<usize>(),
            builds_valid_hashers::<std::hash::RandomState>(),
            n == distances@.len(),
            n == old(distances)@.len(),
            i <= n,
            s < n,
            accepts_pairs(*distance_fn, n as int),
            is_deterministic(*distance_fn),
            selected@ == chosen.to_set(),
            chosen == before.push(s),
            forall|j: int|
                i <= j < n ==> #[trigger] distances@[j] == old(distances)@[j],
            forall|j: int|
                0 <= j < n && !before.contains(j as usize) ==> #[trigger] old(distances)@[j]
                    == min_key(*distance_fn, before, j),
            forall|j: int|
                0 <= j < i ==> #[trigger] distances@[j] == if chosen.contains(j as usize) {
                    0
                } else {
                    min_key(*distance_fn, chosen, j)
                },
        decreases n - i,
    {
        if selected.contains(&i) {
            distances.set(i, 0);
        } else {
            let d = distance_fn(s, i);
            proof {
                assert(chosen.drop_last() =~= before);
                assert(!before.contains(i));
                assert(distance_fn.ensures((s, i), key_of(*distance_fn, s as int, i as int)));
            }
            let current = distances[i];
            if d < current {
                distances.set(i, d);
            }
        }
        i = i + 1;
    }
}

/// Returns the point not yet chosen with the largest key, the last such
/// when several tie, or `None` when every point is chosen.
fn find_farthest_index<F: Fn(usize, usize) -> u64>(
    distances: &Vec<u64>,
    selected: &HashSet<usize>,
    Ghost(f): Ghost<F>,
    Ghost(order): Ghost<Seq<usize>>,
) -> (r: Option<usize>)
    requires
        obeys_key_model::<usize>(),
        builds_valid_hashers::<std::hash::RandomState>(),
        selected@ == order.to_set(),
        forall|j: int|
            0 <= j < distances@.len() && !order.contains(j as usize) ==> #[trigger] distances@[j]
                == min_key(f, order, j),
    ensures
        r matches Some(i) ==> is_farthest_step(f, distances@.len() as int, order, i as int),
        r is None ==> forall|j: usize| j < distances@.len() ==> #[trigger] order.contains(j),
{
    let n = distances.len();
    let mut best: Option<usize> = None;
    let mut i: usize = 0;
    while i < n
        invariant
            obeys_key_model::<usize>(),
            builds_valid_hashers::<std::hash::RandomState>(),
            n == distances@.len(),
            i <= n,
            selected@ == order.to_set(),
            forall|j: int|
                0 <= j < n && !order.contains(j as usize) ==> #[trigger] distances@[j] == min_key(
                    f,
                    order,
                    j,
                ),
            best is None ==> forall|j: usize| j < i ==> #[trigger] order.contains(j),
            best matches Some(b) ==> {
                &&& b < i
                &&& !order.contains(b)
                &&& forall|j: int|
                    0 <= j < i && !order.contains(j as usize) ==> #[trigger] min_key(f, order, j)
                        <= min_key(f, order, b as int)
                &&& forall|j: int|
                    b < j < i && !order.contains(j as usize) ==> #[trigger] min_key(f, order, j)
                        < min_key(f, order, b as int)
            },
        decreases n - i,
    {
        if !selected.contains(&i) {
            match best {
                Some(b) => {
                    if distances[i] >= distances[b] {
                        best = Some(i);
                    }
                },
                None => {
                    best = Some(i);
                },
            }
        }
        i = i + 1;
    }
    best
}

} // verus!
