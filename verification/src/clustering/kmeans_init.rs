use crate::point::Point;
use vstd::prelude::*;

verus! {

/// Strategies for choosing the initial centroids of k-means.
#[derive(Debug, Clone, Copy, PartialEq, Eq, Structural)]
pub enum CentroidInit {
    /// Points at a regular interval through the slice.
    RegularInterval,
}

/// The points chosen by `CentroidInit::initialize`: none for `k == 0`, all of
/// them when there are fewer than `k`, otherwise the points at the indices
/// `step / 2 + i * step` for `i < k`, where `step = max(len / k, 1)`.
pub open spec fn regular_interval_points<T, const N: usize>(points: Seq<Point<T, N>>, k: nat) -> Seq<
    Point<T, N>,
> {
    if k == 0 {
        Seq::empty()
    } else if points.len() < k {
        points
    } else {
        let step = if points.len() / k >= 1 {
            points.len() / k
        } else {
            1
        };
        Seq::new(k, |i: int| points[step / 2 + i * step])
    }
}

impl CentroidInit {
    /// Chooses `k` initial centroids among `points`.
    pub fn initialize<T: Copy, const N: usize>(&self, points: &[Point<T, N>], k: usize) -> (c: Vec<
        Point<T, N>,
    >)
        ensures
            c@ == regular_interval_points(points@, k as nat),
            k == 0 ==> c@.len() == 0,
            points@.len() < k ==> c@ == points@,
            1 <= k <= points@.len() ==> c@.len() == k && forall|i: int|
                0 <= i < k ==> #[trigger] c@[i] == points@[(points@.len() as int / k as int) / 2 + i * (
                points@.len() as int / k as int)],
    {
        if k == 0 {
            return Vec::new();
        }
        if points.len() < k {
            let mut all: Vec<Point<T, N>> = Vec::with_capacity(points.len());
            let mut i: usize = 0;
            while i < points.len()
                invariant
                    i <= points@.len(),
                    all@ == points@.take(i as int),
                decreases points@.len() - i,
            {
                all.push(points[i]);
                proof {
                    assert(points@.take(i + 1) =~= points@.take(i as int).push(points@[i as int]));
                }
                i = i + 1;
            }
            proof {
                assert(points@.take(points@.len() as int) =~= points@);
            }
            return all;
        }
        match self {
            CentroidInit::RegularInterval => regular_interval(points, k),
        }
    }
}

/// `step / 2 + i * step` stays below `len` for `i < k` when `step * k <= len`.
proof fn lemma_interval_in_bounds(step: int, k: int, len: int, i: int)
    requires
        1 <= step,
        step * k <= len,
        0 <= i < k,
    ensures
        0 <= step / 2 + i * step < len,
{
    assert(0 <= step / 2 + i * step < len) by (nonlinear_arith)
        requires
            1 <= step,
            step * k <= len,
            0 <= i < k,
    ;
}

fn regular_interval<T: Copy, const N: usize>(points: &[Point<T, N>], k: usize) -> (c: Vec<
    Point<T, N>,
>)
    requires
        1 <= k <= points@.len(),
    ensures
        c@ == regular_interval_points(points@, k as nat),
        k == 0 ==> c@.len() == 0,
        points@.len() < k ==> c@ == points@,
        1 <= k <= points@.len() ==> c@.len() == k && forall|i: int|
            0 <= i < k ==> #[trigger] c@[i] == points@[(points@.len() as int / k as int) / 2 + i * (
            points@.len() as int / k as int)],
{
    let len = points.len();
    let step = if len / k >= 1 {
        len / k
    } else {
        1
    };
    let half = step / 2;
    proof {
        assert(len / k >= 1) by (nonlinear_arith)
            requires
                1 <= k <= len,
        ;
        assert(step * k <= len) by (nonlinear_arith)
            requires
                step == len / k,
                k >= 1,
        ;
    }
    let ghost expected = regular_interval_points(points@, k as nat);
    let mut chosen: Vec<Point<T, N>> = Vec::with_capacity(k);
    let mut i: usize = 0;
    let mut index: usize = half;
    while i < k
        invariant
            1 <= k <= len,
            len == points@.len(),
            step == len / k,
            1 <= step,
            step * k <= len,
            half == step / 2,
            i <= k,
            i < k ==> index == half + i * step,
            expected == regular_interval_points(points@, k as nat),
            chosen@ == expected.take(i as int),
        decreases k - i,
    {
        proof {
            lemma_interval_in_bounds(step as int, k as int, len as int, i as int);
        }
        chosen.push(points[index]);
        proof {
            assert(expected[i as int] == points@[half + i * step]);
            assert(chosen@ =~= expected.take(i + 1));
        }
        i = i + 1;
        if i < k {
            proof {
                lemma_interval_in_bounds(step as int, k as int, len as int, i as int);
                assert(half + i * step == index + step) by (nonlinear_arith)
                    requires
                        index == half + (i - 1) * step,
                ;
            }
            index = index + step;
        }
    }
    proof {
        assert(expected.take(k as int) =~= expected);
    }
    chosen
}

} // verus!
