//! A binary max-heap of keyed entries laid out in a vector.
//!
//! Entries are ordered by their `u64` key only; the sifting steps follow the
//! classic array layout (parent of `i` is `(i - 1) / 2`), and ties between
//! equal keys are resolved by that layout. A min-heap is obtained by storing
//! `u64::MAX - key`.
use vstd::prelude::*;

verus! {

broadcast use vstd::seq_lib::group_to_multiset_ensures;

/// Index of the parent of the slot `i` (for `i > 0`).
pub open spec fn parent(i: int) -> int {
    (i - 1) / 2
}

/// Every entry's key is at most its parent's key.
pub open spec fn heap_ok<T>(s: Seq<(u64, T)>) -> bool {
    forall|k: int| 0 < k < s.len() ==> #[trigger] s[k].0 <= s[parent(k)].0
}

/// The heap property everywhere except at the slot `pos`, which may be
/// larger than its parent but is still no smaller than its own children,
/// and whose parent dominates those children.
pub open spec fn heap_ok_except_up<T>(s: Seq<(u64, T)>, pos: int) -> bool {
    &&& forall|k: int| 0 < k < s.len() && k != pos ==> #[trigger] s[k].0 <= s[parent(k)].0
    &&& forall|k: int|
        0 < k < s.len() && parent(k) == pos && pos > 0 ==> #[trigger] s[k].0 <= s[parent(pos)].0
}

/// The heap property on every parent/child pair that does not touch the
/// slot `h`, and the parent of `h` dominates the children of `h`.
pub open spec fn heap_ok_except_down<T>(s: Seq<(u64, T)>, h: int) -> bool {
    &&& forall|k: int|
        0 < k < s.len() && k != h && parent(k) != h ==> #[trigger] s[k].0 <= s[parent(k)].0
    &&& forall|k: int|
        0 < k < s.len() && parent(k) == h && h > 0 ==> #[trigger] s[k].0 <= s[parent(h)].0
}

/// In a heap, the root carries the largest key.
pub proof fn lemma_root_is_max<T>(s: Seq<(u64, T)>, i: int)
    requires
        heap_ok(s),
        0 <= i < s.len(),
    ensures
        s[i].0 <= s[0].0,
    decreases i,
{
    if i > 0 {
        assert(s[i].0 <= s[parent(i)].0);
        lemma_root_is_max(s, parent(i));
    }
}

/// Swapping two slots keeps the multiset of entries.
pub proof fn lemma_swap_multiset<A>(s: Seq<A>, i: int, j: int)
    requires
        0 <= i < s.len(),
        0 <= j < s.len(),
    ensures
        s.update(i, s[j]).update(j, s[i]).to_multiset() == s.to_multiset(),
{
    broadcast use vstd::multiset::group_multiset_axioms;

    let s1 = s.update(i, s[j]);
    assert(s1.to_multiset() == s.to_multiset().insert(s[j]).remove(s[i]));
    assert(s1.update(j, s[i]).to_multiset() == s1.to_multiset().insert(s[i]).remove(s1[j]));
    if i == j {
        assert(s.update(i, s[j]).update(j, s[i]) =~= s);
    } else {
        assert(s1[j] == s[j]);
        assert(s.to_multiset().count(s[i]) > 0);
        assert(s.to_multiset().insert(s[j]).remove(s[i]).insert(s[i]).remove(s[j])
            =~= s.to_multiset());
    }
}

/// One step of moving the slot `h` down to its larger child `c`.
proof fn lemma_down_step<T>(s: Seq<(u64, T)>, h: int, c: int)
    requires
        0 <= h < c < s.len(),
        parent(c) == h,
        heap_ok_except_down(s, h),
        forall|k: int| 0 < k < s.len() && parent(k) == h ==> #[trigger] s[k].0 <= s[c].0,
    ensures
        heap_ok_except_down(s.update(h, s[c]).update(c, s[h]), c),
{
    let s2 = s.update(h, s[c]).update(c, s[h]);
    assert forall|k: int|
        0 < k < s2.len() && k != c && parent(k) != c implies #[trigger] s2[k].0
        <= s2[parent(k)].0 by {
        if k == h {
            assert(s[c].0 <= s[parent(h)].0);
        } else if parent(k) == h {
            assert(s[k].0 <= s[c].0);
        } else {
            assert(s[k].0 <= s[parent(k)].0);
        }
    }
    assert forall|k: int|
        0 < k < s2.len() && parent(k) == c && c > 0 implies #[trigger] s2[k].0
        <= s2[parent(c)].0 by {
        assert(s[k].0 <= s[parent(k)].0);
    }
}

/// Once the slot `h` has no children, only its link to its parent may be broken.
proof fn lemma_down_at_leaf<T>(s: Seq<(u64, T)>, h: int)
    requires
        0 <= h < s.len(),
        2 * h + 1 >= s.len(),
        heap_ok_except_down(s, h),
    ensures
        heap_ok_except_up(s, h),
{
    assert forall|k: int| 0 < k < s.len() && k != h implies #[trigger] s[k].0
        <= s[parent(k)].0 by {
        assert(parent(k) != h);
    }
}

/// A max-heap of `(key, item)` entries.
pub struct MaxHeap<T> {
    data: Vec<(u64, T)>,
}

impl<T> View for MaxHeap<T> {
    type V = Seq<(u64, T)>;

    /// The entries in their storage order.
    closed spec fn view(&self) -> Seq<(u64, T)> {
        self.data@
    }
}

impl<T: Copy> MaxHeap<T> {
    /// Well-formedness: the stored entries form a heap.
    pub open spec fn wf(&self) -> bool {
        heap_ok(self@)
    }

    /// Creates an empty heap with room for `capacity` entries.
    pub fn with_capacity(capacity: usize) -> (heap: Self)
        ensures
            heap.wf(),
            heap@ == Seq::<(u64, T)>::empty(),
    {
        MaxHeap { data: Vec::with_capacity(capacity) }
    }

    /// Number of entries.
    pub fn len(&self) -> (n: usize)
        ensures
            n == self@.len(),
    {
        self.data.len()
    }

    /// The entries in storage order.
    pub fn as_slice(&self) -> (s: &[(u64, T)])
        ensures
            s@ == self@,
    {
        self.data.as_slice()
    }

    fn swap_slots(&mut self, i: usize, j: usize)
        requires
            i < old(self)@.len(),
            j < old(self)@.len(),
        ensures
            final(self)@ == old(self)@.update(i as int, old(self)@[j as int]).update(
                j as int,
                old(self)@[i as int],
            ),
    {
        let a = self.data[i];
        let b = self.data[j];
        self.data.set(i, b);
        self.data.set(j, a);
    }

    /// Moves the entry at `pos` towards the root while it is larger than its parent.
    fn sift_up(&mut self, pos: usize)
        requires
            pos < old(self)@.len(),
            heap_ok_except_up(old(self)@, pos as int),
        ensures
            heap_ok(final(self)@),
            final(self)@.to_multiset() == old(self)@.to_multiset(),
            final(self)@.len() == old(self)@.len(),
    {
        let mut pos = pos;
        while pos > 0
            invariant
                pos < self@.len(),
                self@.len() == old(self)@.len(),
                heap_ok_except_up(self@, pos as int),
                self@.to_multiset() == old(self)@.to_multiset(),
            decreases pos,
        {
            let p = (pos - 1) / 2;
            if self.data[pos].0 <= self.data[p].0 {
                assert(heap_ok(self@));
                return;
            }
            let ghost s = self@;
            self.swap_slots(pos, p);
            proof {
                lemma_swap_multiset(s, pos as int, p as int);
                let s2 = self@;
                assert forall|k: int| 0 < k < s2.len() && k != p implies #[trigger] s2[k].0
                    <= s2[parent(k)].0 by {
                    if k == pos {
                    } else if parent(k) == pos {
                        assert(s[k].0 <= s[parent(pos as int)].0);
                    } else if parent(k) == p {
                        assert(s[k].0 <= s[p as int].0);
                    } else {
                        assert(s[k].0 <= s[parent(k)].0);
                    }
                }
                assert forall|k: int|
                    0 < k < s2.len() && parent(k) == p && p > 0 implies #[trigger] s2[k].0
                    <= s2[parent(p as int)].0 by {
                    assert(s[p as int].0 <= s[parent(p as int)].0);
                    if k != pos {
                        assert(s[k].0 <= s[p as int].0);
                    }
                }
            }
            pos = p;
        }
    }

    /// Moves the entry at the root down to a leaf, always towards the larger
    /// child, then sifts it back up.
    #[verifier::spinoff_prover]
    fn sift_down_to_bottom(&mut self)
        requires
            old(self)@.len() > 0,
            heap_ok_except_down(old(self)@, 0),
        ensures
            heap_ok(final(self)@),
            final(self)@.to_multiset() == old(self)@.to_multiset(),
            final(self)@.len() == old(self)@.len(),
    {
        let end = self.data.len();
        let mut hole: usize = 0;
        while end >= 3 && hole <= (end - 3) / 2
            invariant
                end == self@.len(),
                end == old(self)@.len(),
                hole < end,
                heap_ok_except_down(self@, hole as int),
                self@.to_multiset() == old(self)@.to_multiset(),
            decreases end - hole,
        {
            let mut child = 2 * hole + 1;
            if self.data[child].0 <= self.data[child + 1].0 {
                child = child + 1;
            }
            let ghost s = self@;
            self.swap_slots(hole, child);
            proof {
                lemma_swap_multiset(s, hole as int, child as int);
                lemma_down_step(s, hole as int, child as int);
            }
            hole = child;
        }
        if end % 2 == 0 && hole == end / 2 - 1 {
            let child = end - 1;
            let ghost s = self@;
            self.swap_slots(hole, child);
            proof {
                lemma_swap_multiset(s, hole as int, child as int);
                lemma_down_step(s, hole as int, child as int);
            }
            hole = child;
        }
        proof {
            lemma_down_at_leaf(self@, hole as int);
        }
        self.sift_up(hole);
    }

    /// Adds an entry.
    pub fn push(&mut self, key: u64, item: T)
        requires
            old(self).wf(),
        ensures
            final(self).wf(),
            final(self)@.len() == old(self)@.len() + 1,
            final(self)@.to_multiset() == old(self)@.to_multiset().insert((key, item)),
    {
        let old_len = self.data.len();
        self.data.push((key, item));
        proof {
            let s = self@;
            assert forall|k: int|
                0 < k < s.len() && parent(k) == old_len && old_len > 0 implies #[trigger] s[k].0
                <= s[parent(old_len as int)].0 by {}
        }
        self.sift_up(old_len);
    }

    /// Removes and returns an entry with the largest key, if any.
    pub fn pop(&mut self) -> (top: Option<(u64, T)>)
        requires
            old(self).wf(),
        ensures
            final(self).wf(),
            top is None <==> old(self)@.len() == 0,
            top is None ==> final(self)@ == old(self)@,
            top matches Some(e) ==> {
                &&& old(self)@.contains(e)
                &&& e == old(self)@[0]
                &&& final(self)@.len() + 1 == old(self)@.len()
                &&& final(self)@.to_multiset() == old(self)@.to_multiset().remove(e)
                &&& forall|i: int| 0 <= i < old(self)@.len() ==> #[trigger] old(self)@[i].0 <= e.0
            },
    {
        let ghost s0 = self@;
        if self.data.len() == 0 {
            return None;
        }
        proof {
            assert forall|i: int| 0 <= i < s0.len() implies #[trigger] s0[i].0 <= s0[0].0 by {
                lemma_root_is_max(s0, i);
            }
            assert(s0.contains(s0[0]));
        }
        let last = self.data.pop().unwrap();
        if self.data.len() == 0 {
            proof {
                assert(s0 =~= seq![last]);
                assert(s0.drop_last() =~= Seq::<(u64, T)>::empty());
                assert(s0 =~= s0.drop_last().push(last));
            }
            return Some(last);
        }
        let top = self.data[0];
        self.data.set(0, last);
        proof {
            let rest = s0.drop_last();
            assert(s0 =~= rest.push(last));
            assert(rest.to_multiset().insert(last) == s0.to_multiset());
            assert(self@ == rest.update(0, last));
            assert(self@.to_multiset() == rest.to_multiset().insert(last).remove(rest[0]));
            let s2 = self@;
            assert forall|k: int|
                0 < k < s2.len() && k != 0 && parent(k) != 0 implies #[trigger] s2[k].0
                <= s2[parent(k)].0 by {
                assert(s0[k].0 <= s0[parent(k)].0);
            }
        }
        self.sift_down_to_bottom();
        Some(top)
    }
}

} // verus!
