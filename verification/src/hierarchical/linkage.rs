use vstd::prelude::*;

verus! {

/// The triangular number `0 + 1 + ... + m`.
pub open spec fn tri(m: nat) -> nat
    decreases m,
{
    if m == 0 {
        0
    } else {
        tri((m - 1) as nat) + m
    }
}

/// The slot that holds the distance between `i` and `j` in a packed upper
/// triangle (diagonal included) of a `size` x `size` matrix.
pub open spec fn slot(size: nat, i: int, j: int) -> int {
    let lo = if i <= j {
        i
    } else {
        j
    };
    let hi = if i <= j {
        j
    } else {
        i
    };
    tri(size) - tri((size - lo) as nat) + hi - lo
}

/// Whether `{i, j}` and `{a, b}` are the same unordered pair.
pub open spec fn same_pair(i: int, j: int, a: int, b: int) -> bool {
    (i == a && j == b) || (i == b && j == a)
}

proof fn lemma_tri_formula(m: nat)
    ensures
        2 * tri(m) == (m as int) * (m as int + 1),
    decreases m,
{
    if m > 0 {
        let k = (m - 1) as nat;
        lemma_tri_formula(k);
        assert(tri(m) == tri(k) + m);
        assert(2 * tri(k) == (k as int) * (k as int + 1));
        assert((m as int) * (m as int + 1) == (k as int) * (k as int + 1) + 2 * m) by (nonlinear_arith)
            requires
                k + 1 == m,
        ;
        assert(2 * tri(m) == 2 * tri(k) + 2 * m);
    } else {
        assert(tri(0) == 0);
        assert((m as int) * (m as int + 1) == 0) by (nonlinear_arith)
            requires
                m == 0,
        ;
    }
}

proof fn lemma_tri_monotone(a: nat, b: nat)
    requires
        a <= b,
    ensures
        tri(a) + (b - a) <= tri(b),
    decreases b,
{
    if a < b {
        lemma_tri_monotone(a, (b - 1) as nat);
    }
}

/// The row of `lo` occupies the slots `[offset(lo), offset(lo) + size - lo)`.
proof fn lemma_slot_bounds(size: nat, lo: int, hi: int)
    requires
        0 <= lo <= hi < size,
    ensures
        tri(size) - tri((size - lo) as nat) <= slot(size, lo, hi) < tri(size) - tri(
            (size - lo - 1) as nat,
        ),
        slot(size, lo, hi) == slot(size, hi, lo),
        0 <= slot(size, lo, hi) < tri(size),
{
    lemma_tri_monotone((size - lo) as nat, size);
    lemma_tri_monotone(0, (size - lo - 1) as nat);
}

/// Distinct unordered pairs live in distinct slots.
proof fn lemma_slot_injective(size: nat, i: int, j: int, a: int, b: int)
    requires
        0 <= i < size,
        0 <= j < size,
        0 <= a < size,
        0 <= b < size,
        !same_pair(i, j, a, b),
    ensures
        slot(size, i, j) != slot(size, a, b),
{
    let lo1 = if i <= j {
        i
    } else {
        j
    };
    let hi1 = if i <= j {
        j
    } else {
        i
    };
    let lo2 = if a <= b {
        a
    } else {
        b
    };
    let hi2 = if a <= b {
        b
    } else {
        a
    };
    lemma_slot_bounds(size, lo1, hi1);
    lemma_slot_bounds(size, lo2, hi2);
    if lo1 < lo2 {
        lemma_tri_monotone((size - lo2) as nat, (size - lo1 - 1) as nat);
    } else if lo2 < lo1 {
        lemma_tri_monotone((size - lo1) as nat, (size - lo2 - 1) as nat);
    }
}

/// The exact value, and the size, of the product computed for the row of `lo`.
proof fn lemma_row_offset(size: nat, lo: nat)
    requires
        lo <= size,
    ensures
        (size - lo + 1) * (size - lo) <= size * (size + 1),
        (size - lo + 1) * (size - lo) / 2 == tri((size - lo) as nat),
        tri((size - lo) as nat) <= tri(size),
        size * (size + 1) / 2 == tri(size),
{
    let m = (size - lo) as nat;
    assert((m + 1) * m <= size * (size + 1)) by (nonlinear_arith)
        requires
            m <= size,
    ;
    lemma_tri_formula(m);
    lemma_tri_formula(size);
    assert((m + 1) * m == m * (m + 1)) by (nonlinear_arith);
    lemma_tri_monotone(m, size);
}

/// Some pair `i <= j` below `size` has the slot `p`.
pub open spec fn slot_taken(size: nat, p: int) -> bool {
    exists|i: int, j: int| 0 <= i <= j < size && #[trigger] slot(size, i, j) == p
}

/// Searching the rows from `lo` on finds the pair whose slot is `p`.
proof fn lemma_slot_search(size: nat, lo: int, p: int)
    requires
        0 <= lo < size,
        tri(size) - tri((size - lo) as nat) <= p < tri(size),
    ensures
        exists|i: int, j: int| lo <= i <= j < size && #[trigger] slot(size, i, j) == p,
    decreases size - lo,
{
    let row_end = tri(size) - tri((size - lo - 1) as nat);
    assert(tri((size - lo) as nat) == tri((size - lo - 1) as nat) + (size - lo));
    if p < row_end {
        let j = p - (tri(size) - tri((size - lo) as nat)) + lo;
        assert(slot(size, lo, j) == p);
    } else {
        if lo + 1 == size {
            assert(tri((size - lo - 1) as nat) == 0);
        }
        lemma_slot_search(size, lo + 1, p);
    }
}

/// The packed upper triangle wastes no slot: each unordered pair has its
/// own slot (the same in both orders), and every slot below `tri(size)`
/// belongs to a pair.
pub proof fn lemma_slots_onto(size: nat)
    ensures
        forall|i: int, j: int| 0 <= i < size && 0 <= j < size ==> #[trigger] slot(size, i, j) == slot(size, j, i)
            && 0 <= slot(size, i, j) < tri(size),
        forall|i: int, j: int, a: int, b: int|
            0 <= i < size && 0 <= j < size && 0 <= a < size && 0 <= b < size && !same_pair(i, j, a, b)
                ==> #[trigger] slot(size, i, j) != #[trigger] slot(size, a, b),
        forall|p: int| 0 <= p < tri(size) ==> #[trigger] slot_taken(size, p),
{
    assert forall|i: int, j: int| 0 <= i < size && 0 <= j < size implies #[trigger] slot(size, i, j)
        == slot(size, j, i) && 0 <= slot(size, i, j) < tri(size) by {
        if i <= j {
            lemma_slot_bounds(size, i, j);
        } else {
            lemma_slot_bounds(size, j, i);
        }
    }
    assert forall|i: int, j: int, a: int, b: int|
        0 <= i < size && 0 <= j < size && 0 <= a < size && 0 <= b < size && !same_pair(i, j, a, b)
            implies #[trigger] slot(size, i, j) != #[trigger] slot(size, a, b) by {
        lemma_slot_injective(size, i, j, a, b);
    }
    assert forall|p: int| 0 <= p < tri(size) implies #[trigger] slot_taken(size, p) by {
        assert(size > 0) by {
            if size == 0 {
                assert(tri(0) == 0);
            }
        }
        assert(tri(size) - tri(size) == 0);
        lemma_slot_search(size, 0, p);
    }
}

/// A symmetric matrix of pairwise distances between the labels
/// `0 .. size`, stored as a packed upper triangle.
#[derive(Debug)]
pub struct DistanceMatrix {
    distances: Vec<u64>,
    size: usize,
}

impl DistanceMatrix {
    /// The number of labels.
    pub closed spec fn matrix_size(&self) -> nat {
        self.size as nat
    }

    /// The storage has one slot per unordered pair and the sizes fit in memory.
    pub closed spec fn wf(&self) -> bool {
        &&& self.size >= 1
        &&& self.size * (self.size + 1) <= usize::MAX
        &&& self.distances@.len() == tri(self.size as nat)
    }

    /// The distance between the labels `i` and `j`.
    pub closed spec fn dist(&self, i: int, j: int) -> u64 {
        self.distances@[slot(self.size as nat, i, j)]
    }

    /// The distance is the same in both directions.
    pub proof fn lemma_symmetric(&self, i: int, j: int)
        ensures
            self.dist(i, j) == self.dist(j, i),
    {
    }

    /// Creates the distance matrix of `points`: room for `2n - 1` labels, the
    /// distances between the `n` points measured by `distance_fn`, and
    /// `u64::MAX` for every other pair (a point with itself, or any label
    /// that does not exist yet).
    pub fn new<T, F: Fn(&T, &T) -> u64>(points: &[T], distance_fn: &F) -> (m: Self)
        requires
            points@.len() >= 1,
            (2 * points@.len() - 1) * (2 * points@.len()) <= usize::MAX,
            forall|i: int, j: int|
                0 <= i < j < points@.len() ==> distance_fn.requires((&points@[i], &points@[j])),
        ensures
            m.wf(),
            m.matrix_size() == 2 * points@.len() - 1,
            forall|i: int, j: int|
                0 <= i < j < points@.len() ==> distance_fn.ensures(
                    (&points@[i], &points@[j]),
                    #[trigger] m.dist(i, j),
                ),
            forall|i: int, j: int|
                0 <= i <= j < m.matrix_size() && !(i < j < points@.len()) ==> #[trigger] m.dist(
                    i,
                    j,
                ) == u64::MAX,
    {
        let n_points = points.len();
        proof {
            let n = n_points as int;
            assert(2 * n <= (2 * n - 1) * (2 * n)) by (nonlinear_arith)
                requires
                    n >= 1,
            ;
        }
        let size = n_points * 2 - 1;
        proof {
            lemma_row_offset(size as nat, 0);
        }
        let capacity = size * (size + 1) / 2;
        let mut distances = vec![u64::MAX; capacity];
        let ghost sz = size as nat;
        proof {
            assert forall|a: int, b: int| 0 <= a <= b < sz implies #[trigger] distances@[slot(
                sz,
                a,
                b,
            )] == u64::MAX by {
                lemma_slot_bounds(sz, a, b);
            }
        }
        let mut i: usize = 0;
        while i < n_points
            invariant
                n_points == points@.len(),
                size == 2 * n_points - 1,
                size * (size + 1) <= usize::MAX,
                capacity == tri(sz),
                sz == size,
                i <= n_points,
                distances@.len() == tri(sz),
                forall|a: int, b: int|
                    0 <= a < b < points@.len() ==> distance_fn.requires((&points@[a], &points@[b])),
                forall|a: int, b: int|
                    0 <= a < b < n_points && a < i ==> distance_fn.ensures(
                        (&points@[a], &points@[b]),
                        #[trigger] distances@[slot(sz, a, b)],
                    ),
                forall|a: int, b: int|
                    0 <= a <= b < sz && !(a < b < n_points && a < i) ==> #[trigger] distances@[slot(
                        sz,
                        a,
                        b,
                    )] == u64::MAX,
            decreases n_points - i,
        {
            let mut j: usize = i + 1;
            while j < n_points
                invariant
                    n_points == points@.len(),
                    size == 2 * n_points - 1,
                    size * (size + 1) <= usize::MAX,
                    capacity == tri(sz),
                    sz == size,
                    i < n_points,
                    i + 1 <= j <= n_points,
                    distances@.len() == tri(sz),
                    forall|a: int, b: int|
                        0 <= a < b < points@.len() ==> distance_fn.requires(
                            (&points@[a], &points@[b]),
                        ),
                    forall|a: int, b: int|
                        0 <= a < b < n_points && (a < i || (a == i && b < j)) ==> distance_fn.ensures(
                            (&points@[a], &points@[b]),
                            #[trigger] distances@[slot(sz, a, b)],
                        ),
                    forall|a: int, b: int|
                        0 <= a <= b < sz && !(a < b < n_points && (a < i || (a == i && b < j)))
                            ==> #[trigger] distances@[slot(sz, a, b)] == u64::MAX,
                decreases n_points - j,
            {
                proof {
                    lemma_slot_bounds(sz, i as int, j as int);
                    lemma_row_offset(sz, i as nat);
                }
                let index = capacity - (size + 1 - i) * (size - i) / 2 + j - i;
                let distance = distance_fn(&points[i], &points[j]);
                let ghost before = distances@;
                proof {
                    assert((size + 1 - i) * (size - i) == (sz - i + 1) * (sz - i));
                    assert(index == slot(sz, i as int, j as int));
                    assert(distance_fn.ensures((&points@[i as int], &points@[j as int]), distance));
                }
                distances.set(index, distance);
                proof {
                    assert forall|a: int, b: int|
                        0 <= a < b < n_points && (a < i || (a == i && b < j + 1)) implies distance_fn.ensures(
                        (&points@[a], &points@[b]),
                        #[trigger] distances@[slot(sz, a, b)],
                    ) by {
                        lemma_slot_bounds(sz, a, b);
                        if !(a == i && b == j) {
                            lemma_slot_injective(sz, a, b, i as int, j as int);
                            assert(before[slot(sz, a, b)] == distances@[slot(sz, a, b)]);
                        }
                    }
                    assert forall|a: int, b: int|
                        0 <= a <= b < sz && !(a < b < n_points && (a < i || (a == i && b < j + 1)))
                            implies #[trigger] distances@[slot(sz, a, b)] == u64::MAX by {
                        lemma_slot_bounds(sz, a, b);
                        lemma_slot_injective(sz, a, b, i as int, j as int);
                        assert(before[slot(sz, a, b)] == u64::MAX);
                    }
                }
                j = j + 1;
            }
            i = i + 1;
        }
        DistanceMatrix { distances, size }
    }

    /// Returns the number of labels of this distance matrix.
    pub fn size(&self) -> (n: usize)
        ensures
            n == self.matrix_size(),
    {
        self.size
    }

    /// Returns the slot of the distance between `i` and `j` in the packed
    /// upper triangle: the same for `(i, j)` and `(j, i)`, and, over the
    /// pairs `i <= j`, one slot each (see `lemma_slots_onto`).
    pub fn index(&self, i: usize, j: usize) -> (index: usize)
        requires
            self.wf(),
            i < self.matrix_size(),
            j < self.matrix_size(),
        ensures
            index == slot(self.matrix_size(), i as int, j as int),
            index < tri(self.matrix_size()),
    {
        let min_index = if i <= j {
            i
        } else {
            j
        };
        let max_index = if i <= j {
            j
        } else {
            i
        };
        proof {
            let sz = self.size as nat;
            lemma_slot_bounds(sz, min_index as int, max_index as int);
            lemma_row_offset(sz, min_index as nat);
        }
        self.distances.len() - (self.size - min_index + 1) * (self.size - min_index) / 2 + max_index
            - min_index
    }

    /// Returns the distance between `i` and `j`.
    pub fn get(&self, i: usize, j: usize) -> (d: u64)
        requires
            self.wf(),
            i < self.matrix_size(),
            j < self.matrix_size(),
        ensures
            d == self.dist(i as int, j as int),
    {
        let index = self.index(i, j);
        self.distances[index]
    }

    /// Sets the distance between `i` and `j` to `value`.
    pub fn set(&mut self, i: usize, j: usize, value: u64)
        requires
            old(self).wf(),
            i < old(self).matrix_size(),
            j < old(self).matrix_size(),
        ensures
            final(self).wf(),
            final(self).matrix_size() == old(self).matrix_size(),
            forall|a: int, b: int|
                0 <= a < old(self).matrix_size() && 0 <= b < old(self).matrix_size() ==> #[trigger] final(self).dist(a, b) == if same_pair(a, b, i as int, j as int) {
                    value
                } else {
                    old(self).dist(a, b)
                },
    {
        let index = self.index(i, j);
        self.distances.set(index, value);
        proof {
            let sz = self.size as nat;
            assert forall|a: int, b: int|
                0 <= a < sz && 0 <= b < sz implies #[trigger] self.dist(a, b) == if same_pair(a, b, i as int, j as int) {
                    value
                } else {
                    old(self).dist(a, b)
                } by {
                lemma_slot_bounds(sz, if a <= b { a } else { b }, if a <= b { b } else { a });
                lemma_slot_bounds(sz, if i <= j { i as int } else { j as int }, if i <= j { j as int } else { i as int });
                if !same_pair(a, b, i as int, j as int) {
                    lemma_slot_injective(sz, a, b, i as int, j as int);
                } else {
                    assert(slot(sz, a, b) == slot(sz, i as int, j as int));
                }
            }
        }
    }
}

/// The smaller of two distances.
pub open spec fn min_u64(a: u64, b: u64) -> u64 {
    if a <= b {
        a
    } else {
        b
    }
}

/// The larger of two distances.
pub open spec fn max_u64(a: u64, b: u64) -> u64 {
    if a >= b {
        a
    } else {
        b
    }
}

/// A linkage: the distances between clusters, and the rule by which the
/// distances of a merged cluster follow from those of its two parts.
///
/// Labels `0 .. next_label()` exist; merging two of them creates the label
/// `next_label()`. A merge sets only the distances between the new label
/// and the existing ones, leaves every other distance unchanged and never puts the merged cluster closer to a cluster than the
/// closer of its two parts was.
pub trait Linkage {
    /// The number of labels this linkage has room for.
    spec fn capacity(&self) -> nat;

    /// The label the next merge creates.
    spec fn next_label(&self) -> nat;

    /// The distance between the labels `i` and `j`.
    spec fn dist(&self, i: int, j: int) -> u64;

    /// Internal consistency.
    spec fn inv(&self) -> bool;

    /// The distance between the label `k` and the merge of `i` and `j`,
    /// given the distances `d_ik` and `d_jk` of `k` to `i` and to `j`.
    spec fn merged_distance(d_ik: u64, d_jk: u64, i: int, j: int, k: int) -> u64;

    /// Distances do not depend on the order of the two labels.
    proof fn lemma_dist_symmetric(&self, i: int, j: int)
        ensures
            self.dist(i, j) == self.dist(j, i),
    ;

    /// Returns the distance between the clusters with the given labels.
    fn distance(&self, i: usize, j: usize) -> (d: u64)
        requires
            self.inv(),
            i < self.capacity(),
            j < self.capacity(),
        ensures
            d == self.dist(i as int, j as int),
    ;

    /// Merges the clusters `i` and `j` into a new cluster and returns its label.
    fn merge(&mut self, i: usize, j: usize) -> (label: usize)
        requires
            old(self).inv(),
            i < j < old(self).next_label(),
            old(self).next_label() < old(self).capacity(),
        ensures
            final(self).inv(),
            label == old(self).next_label(),
            final(self).next_label() == old(self).next_label() + 1,
            final(self).capacity() == old(self).capacity(),
            forall|a: int, b: int|
                0 <= a < label && 0 <= b < label ==> #[trigger] final(self).dist(a, b) == old(
                    self,
                ).dist(a, b),
            forall|a: int, b: int|
                0 <= a < old(self).capacity() && 0 <= b < old(self).capacity() && !(a == label && b
                    < label) && !(b == label && a < label) ==> #[trigger] final(self).dist(a, b)
                    == old(self).dist(a, b),
            forall|k: int|
                0 <= k < label ==> #[trigger] final(self).dist(k, label as int) == Self::merged_distance(
                    old(self).dist(i as int, k),
                    old(self).dist(j as int, k),
                    i as int,
                    j as int,
                    k,
                ),
            forall|k: int|
                0 <= k < label ==> #[trigger] final(self).dist(k, label as int) >= min_u64(
                    old(self).dist(i as int, k),
                    old(self).dist(j as int, k),
                ),
            final(self).dist(i as int, label as int) == old(self).dist(i as int, j as int),
            final(self).dist(j as int, label as int) == old(self).dist(i as int, j as int),
    ;
}

/// Single linkage: a merged cluster is as close to another cluster as the
/// closer of its two parts.
#[derive(Debug)]
pub struct SingleLinkage {
    matrix: DistanceMatrix,
    next_index: usize,
}

impl SingleLinkage {
    /// Creates a new `SingleLinkage` over the distances between `points`.
    pub fn new<T, F: Fn(&T, &T) -> u64>(points: &[T], distance_fn: &F) -> (l: Self)
        requires
            points@.len() >= 1,
            (2 * points@.len() - 1) * (2 * points@.len()) <= usize::MAX,
            forall|i: int, j: int|
                0 <= i < j < points@.len() ==> distance_fn.requires((&points@[i], &points@[j])),
        ensures
            l.inv(),
            l.capacity() == 2 * points@.len() - 1,
            l.next_label() == points@.len(),
            forall|i: int, j: int|
                0 <= i < j < points@.len() ==> distance_fn.ensures(
                    (&points@[i], &points@[j]),
                    #[trigger] l.dist(i, j),
                ),
            forall|i: int, j: int|
                0 <= i <= j < l.capacity() && !(i < j < points@.len()) ==> #[trigger] l.dist(i, j)
                    == u64::MAX,
    {
        SingleLinkage { matrix: DistanceMatrix::new(points, distance_fn), next_index: points.len() }
    }
}

impl Linkage for SingleLinkage {
    closed spec fn capacity(&self) -> nat {
        self.matrix.matrix_size()
    }

    closed spec fn next_label(&self) -> nat {
        self.next_index as nat
    }

    closed spec fn dist(&self, i: int, j: int) -> u64 {
        self.matrix.dist(i, j)
    }

    closed spec fn inv(&self) -> bool {
        &&& self.matrix.wf()
        &&& self.next_index <= self.matrix.matrix_size()
        &&& forall|a: int| 0 <= a < self.matrix.matrix_size() ==> #[trigger] self.matrix.dist(a, a) == u64::MAX
    }

    open spec fn merged_distance(d_ik: u64, d_jk: u64, i: int, j: int, k: int) -> u64 {
        min_u64(d_ik, d_jk)
    }

    proof fn lemma_dist_symmetric(&self, i: int, j: int) {
        self.matrix.lemma_symmetric(i, j);
    }

    fn distance(&self, i: usize, j: usize) -> (d: u64) {
        self.matrix.get(i, j)
    }

    fn merge(&mut self, i: usize, j: usize) -> (label: usize)
        ensures
            forall|k: int|
                0 <= k < label ==> #[trigger] final(self).dist(k, label as int) == min_u64(
                    old(self).dist(i as int, k),
                    old(self).dist(j as int, k),
                ),
    {
        let label = self.next_index;
        let mut k: usize = 0;
        while k < label
            invariant
                label == old(self).next_index,
                label < self.matrix.matrix_size(),
                i < j < label,
                self.matrix.wf(),
                self.next_index == old(self).next_index,
                self.matrix.matrix_size() == old(self).matrix.matrix_size(),
                k <= label,
                forall|a: int, b: int|
                    0 <= a < self.matrix.matrix_size() && 0 <= b < self.matrix.matrix_size() && !(a
                        == label && b < k) && !(b == label && a < k) ==> #[trigger] self.matrix.dist(
                        a,
                        b,
                    ) == old(self).matrix.dist(a, b),
                forall|c: int|
                    0 <= c < k ==> #[trigger] self.matrix.dist(c, label as int) == min_u64(
                        old(self).matrix.dist(i as int, c),
                        old(self).matrix.dist(j as int, c),
                    ),
            decreases label - k,
        {
            let distance1 = self.matrix.get(i, k);
            let distance2 = self.matrix.get(j, k);
            let merged = if distance1 <= distance2 {
                distance1
            } else {
                distance2
            };
            self.matrix.set(k, label, merged);
            k = k + 1;
        }
        self.next_index = self.next_index + 1;
        label
    }
}

/// Complete linkage: a merged cluster is as far from another cluster as the
/// farther of its two parts.
#[derive(Debug)]
pub struct CompleteLinkage {
    matrix: DistanceMatrix,
    next_index: usize,
}

impl CompleteLinkage {
    /// Creates a new `CompleteLinkage` over the distances between `points`.
    pub fn new<T, F: Fn(&T, &T) -> u64>(points: &[T], distance_fn: &F) -> (l: Self)
        requires
            points@.len() >= 1,
            (2 * points@.len() - 1) * (2 * points@.len()) <= usize::MAX,
            forall|i: int, j: int|
                0 <= i < j < points@.len() ==> distance_fn.requires((&points@[i], &points@[j])),
        ensures
            l.inv(),
            l.capacity() == 2 * points@.len() - 1,
            l.next_label() == points@.len(),
            forall|i: int, j: int|
                0 <= i < j < points@.len() ==> distance_fn.ensures(
                    (&points@[i], &points@[j]),
                    #[trigger] l.dist(i, j),
                ),
            forall|i: int, j: int|
                0 <= i <= j < l.capacity() && !(i < j < points@.len()) ==> #[trigger] l.dist(i, j)
                    == u64::MAX,
    {
        CompleteLinkage {
            matrix: DistanceMatrix::new(points, distance_fn),
            next_index: points.len(),
        }
    }
}

impl Linkage for CompleteLinkage {
    closed spec fn capacity(&self) -> nat {
        self.matrix.matrix_size()
    }

    closed spec fn next_label(&self) -> nat {
        self.next_index as nat
    }

    closed spec fn dist(&self, i: int, j: int) -> u64 {
        self.matrix.dist(i, j)
    }

    closed spec fn inv(&self) -> bool {
        self.matrix.wf() && self.next_index <= self.matrix.matrix_size()
    }

    open spec fn merged_distance(d_ik: u64, d_jk: u64, i: int, j: int, k: int) -> u64 {
        if k == i {
            d_jk
        } else if k == j {
            d_ik
        } else {
            max_u64(d_ik, d_jk)
        }
    }

    proof fn lemma_dist_symmetric(&self, i: int, j: int) {
        self.matrix.lemma_symmetric(i, j);
    }

    fn distance(&self, i: usize, j: usize) -> (d: u64) {
        self.matrix.get(i, j)
    }

    fn merge(&mut self, i: usize, j: usize) -> (label: usize)
        ensures
            forall|k: int|
                0 <= k < label ==> #[trigger] final(self).dist(k, label as int) == if k == i {
                    old(self).dist(j as int, k)
                } else if k == j {
                    old(self).dist(i as int, k)
                } else {
                    max_u64(old(self).dist(i as int, k), old(self).dist(j as int, k))
                },
    {
        let label = self.next_index;
        let mut k: usize = 0;
        while k < label
            invariant
                label == old(self).next_index,
                label < self.matrix.matrix_size(),
                i < j < label,
                self.matrix.wf(),
                self.next_index == old(self).next_index,
                self.matrix.matrix_size() == old(self).matrix.matrix_size(),
                k <= label,
                forall|a: int, b: int|
                    0 <= a < self.matrix.matrix_size() && 0 <= b < self.matrix.matrix_size() && !(a
                        == label && b < k) && !(b == label && a < k) ==> #[trigger] self.matrix.dist(
                        a,
                        b,
                    ) == old(self).matrix.dist(a, b),
                forall|c: int|
                    0 <= c < k ==> #[trigger] self.matrix.dist(c, label as int) == if c == i {
                        old(self).matrix.dist(j as int, c)
                    } else if c == j {
                        old(self).matrix.dist(i as int, c)
                    } else {
                        max_u64(old(self).matrix.dist(i as int, c), old(self).matrix.dist(j as int, c))
                    },
            decreases label - k,
        {
            let distance1 = self.matrix.get(i, k);
            let distance2 = self.matrix.get(j, k);
            if i == k {
                self.matrix.set(k, label, distance2);
            } else if j == k {
                self.matrix.set(k, label, distance1);
            } else {
                let merged = if distance1 >= distance2 {
                    distance1
                } else {
                    distance2
                };
                self.matrix.set(k, label, merged);
            }
            k = k + 1;
        }
        self.next_index = self.next_index + 1;
        proof {
            assert forall|c: int| 0 <= c < label implies #[trigger] self.dist(c, label as int)
                >= min_u64(old(self).dist(i as int, c), old(self).dist(j as int, c)) by {
                if c == i {
                    self.matrix.lemma_symmetric(j as int, c);
                } else if c == j {
                    self.matrix.lemma_symmetric(i as int, c);
                }
            }
        }
        label
    }
}

} // verus!
