//! Scores ranked from the highest down, ties kept in index order.
use vstd::prelude::*;

verus! {

/// `a` ranks before `b`: a higher key, or the same key and a lower index.
pub open spec fn ranks_before(keys: Seq<u64>, a: int, b: int) -> bool {
    keys[a] > keys[b] || (keys[a] == keys[b] && a < b)
}

/// `order` lists indices below `keys.len()`, each ranking before the next.
pub open spec fn is_ranked_order(keys: Seq<u64>, order: Seq<usize>) -> bool {
    &&& forall|k: int| 0 <= k < order.len() ==> #[trigger] order[k] < keys.len()
    &&& forall|a: int, b: int|
        0 <= a < b < order.len() ==> ranks_before(keys, #[trigger] order[a] as int, #[trigger] order[b] as int)
}

/// Scores, by their order keys, with the indices sorted from the highest
/// score down (ties in index order) and the rank of each index.
#[derive(Debug)]
pub struct RankedScores {
    keys: Vec<u64>,
    ranks: Vec<usize>,
    sorted_indices: Vec<usize>,
}

impl RankedScores {
    /// The order keys of the scores.
    pub closed spec fn keys_view(&self) -> Seq<u64> {
        self.keys@
    }

    /// The indices from the highest score down.
    pub closed spec fn sorted_view(&self) -> Seq<usize> {
        self.sorted_indices@
    }

    /// The rank of each index.
    pub closed spec fn ranks_view(&self) -> Seq<usize> {
        self.ranks@
    }

    /// The sorted indices are every index once, in rank order, and the
    /// ranks are their positions.
    pub closed spec fn wf(&self) -> bool {
        let n = self.keys@.len();
        &&& self.sorted_indices@.len() == n
        &&& self.ranks@.len() == n
        &&& is_ranked_order(self.keys@, self.sorted_indices@)
        &&& forall|r: int| 0 <= r < n ==> self.ranks@[#[trigger] self.sorted_indices@[r] as int] == r
        &&& forall|i: int| 0 <= i < n ==> #[trigger] self.ranks@[i] < n && self.sorted_indices@[self.ranks@[i] as int] == i
    }

    /// A well-formed value lists every index once, in rank order, and the
    /// rank of an index is its position in that list.
    pub proof fn lemma_wf(&self)
        requires
            self.wf(),
        ensures
            self.sorted_view().len() == self.keys_view().len(),
            self.ranks_view().len() == self.keys_view().len(),
            is_ranked_order(self.keys_view(), self.sorted_view()),
            forall|r: int|
                0 <= r < self.keys_view().len() ==> self.ranks_view()[#[trigger] self.sorted_view()[r] as int]
                    == r,
            forall|i: int|
                0 <= i < self.keys_view().len() ==> #[trigger] self.ranks_view()[i] < self.keys_view().len()
                    && self.sorted_view()[self.ranks_view()[i] as int] == i,
    {
    }

    /// Ranks the scores whose order keys are `keys`: a higher key ranks
    /// first, and equal keys keep the order of their indices.
    pub fn new(keys: Vec<u64>) -> (r: Self)
        ensures
            r.wf(),
            r.keys_view() == keys@,
            r.sorted_view().len() == keys@.len(),
            r.ranks_view().len() == keys@.len(),
            is_ranked_order(keys@, r.sorted_view()),
            forall|i: int|
                0 <= i < keys@.len() ==> #[trigger] r.ranks_view()[i] < keys@.len()
                    && r.sorted_view()[r.ranks_view()[i] as int] == i,
    {
        let n = keys.len();
        let mut sorted: Vec<usize> = Vec::with_capacity(n);
        let mut i: usize = 0;
        while i < n
            invariant
                n == keys@.len(),
                i <= n,
                sorted@.len() == i,
                is_ranked_order(keys@, sorted@),
                forall|k: int| 0 <= k < sorted@.len() ==> #[trigger] sorted@[k] < i,
            decreases n - i,
        {
            let mut p: usize = 0;
            while p < sorted.len() && keys[sorted[p]] >= keys[i]
                invariant
                    n == keys@.len(),
                    i < n,
                    p <= sorted@.len(),
                    forall|k: int| 0 <= k < sorted@.len() ==> #[trigger] sorted@[k] < i,
                    forall|k: int| 0 <= k < p ==> keys@[#[trigger] sorted@[k] as int] >= keys@[i as int],
                decreases sorted@.len() - p,
            {
                p = p + 1;
            }
            let ghost before = sorted@;
            proof {
                if p < before.len() {
                    assert(keys@[before[p as int] as int] < keys@[i as int]);
                }
            }
            sorted.insert(p, i);
            proof {
                assert(sorted@ == before.insert(p as int, i));
                assert forall|a: int, b: int| 0 <= a < b < sorted@.len() implies ranks_before(
                    keys@,
                    #[trigger] sorted@[a] as int,
                    #[trigger] sorted@[b] as int,
                ) by {
                    if b < p {
                        assert(sorted@[a] == before[a] && sorted@[b] == before[b]);
                    } else if b == p {
                        assert(sorted@[a] == before[a]);
                    } else if a < p {
                        assert(sorted@[a] == before[a] && sorted@[b] == before[b - 1]);
                        if p < before.len() {
                            assert(ranks_before(keys@, before[p as int] as int, before[b - 1] as int)
                                || p == b - 1);
                        }
                    } else if a == p {
                        assert(sorted@[b] == before[b - 1]);
                        assert(ranks_before(keys@, before[p as int] as int, before[b - 1] as int)
                            || p == b - 1);
                    } else {
                        assert(sorted@[a] == before[a - 1] && sorted@[b] == before[b - 1]);
                    }
                }
                assert forall|k: int| 0 <= k < sorted@.len() implies #[trigger] sorted@[k] < i + 1 by {
                    if k < p {
                        assert(sorted@[k] == before[k]);
                    } else if k > p {
                        assert(sorted@[k] == before[k - 1]);
                    }
                }
            }
            i = i + 1;
        }
        let mut ranks: Vec<usize> = Vec::with_capacity(n);
        let mut x: usize = 0;
        while x < n
            invariant
                x <= n,
                ranks@ == Seq::new(x as nat, |_j: int| 0usize),
            decreases n - x,
        {
            ranks.push(0);
            x = x + 1;
        }
        let mut r: usize = 0;
        while r < n
            invariant
                n == keys@.len(),
                sorted@.len() == n,
                ranks@.len() == n,
                r <= n,
                is_ranked_order(keys@, sorted@),
                forall|q: int| 0 <= q < r ==> ranks@[#[trigger] sorted@[q] as int] == q,
            decreases n - r,
        {
            let index = sorted[r];
            ranks.set(index, r);
            proof {
                assert forall|q: int| 0 <= q < r + 1 implies ranks@[#[trigger] sorted@[q] as int] == q by {
                    if q < r {
                        assert(ranks_before(keys@, sorted@[q] as int, sorted@[r as int] as int));
                        assert(sorted@[q] != sorted@[r as int]);
                    }
                }
            }
            r = r + 1;
        }
        proof {
            lemma_ranked_order_covers(keys@, sorted@, n);
            assert forall|i: int| 0 <= i < n implies #[trigger] ranks@[i] < n && sorted@[ranks@[i] as int] == i by {
                assert(sorted@.contains(i as usize));
                let q = choose|q: int| 0 <= q < n && sorted@[q] == i as usize;
                assert(ranks@[sorted@[q] as int] == q);
            }
        }
        RankedScores { keys, ranks, sorted_indices: sorted }
    }

    /// Returns the number of scores.
    pub fn len(&self) -> (n: usize)
        ensures
            n == self.keys_view().len(),
    {
        self.keys.len()
    }

    /// Returns the rank of each index.
    pub fn ranks(&self) -> (r: &Vec<usize>)
        ensures
            r@ == self.ranks_view(),
    {
        &self.ranks
    }

    /// Returns the indices from the highest score down.
    pub fn sorted_indices(&self) -> (s: &Vec<usize>)
        ensures
            s@ == self.sorted_view(),
    {
        &self.sorted_indices
    }
}

/// A ranked order as long as the keys lists every index.
proof fn lemma_ranked_order_covers(keys: Seq<u64>, order: Seq<usize>, n: usize)
    requires
        is_ranked_order(keys, order),
        order.len() == keys.len(),
        n == keys.len(),
    ensures
        forall|i: int| 0 <= i < keys.len() ==> #[trigger] order.contains(i as usize),
{
    broadcast use vstd::set_lib::range_set_properties;

    assert(order.no_duplicates()) by {
        assert forall|a: int, b: int| 0 <= a < b < order.len() implies order[a] != order[b] by {
            assert(ranks_before(keys, order[a] as int, order[b] as int));
        }
    }
    order.unique_seq_to_set();
    let r = Set::<usize>::range(0, n);
    assert(order.to_set().subset_of(r));
    vstd::set_lib::lemma_subset_equality(order.to_set(), r);
    assert forall|i: int| 0 <= i < keys.len() implies #[trigger] order.contains(i as usize) by {
        assert(r.contains(i as usize));
    }
}

} // verus!
