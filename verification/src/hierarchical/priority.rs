use std::cmp::Ordering;
use vstd::prelude::*;

verus! {

/// An item paired with a priority; two values compare by their priorities only.
#[derive(Debug)]
pub struct Priority<T>(pub T, pub u64);

impl<T> Priority<T> {
    /// Creates a new `Priority` instance.
    pub fn new(item: T, priority: u64) -> (p: Self)
        ensures
            p.0 == item,
            p.1 == priority,
    {
        Priority(item, priority)
    }

    /// Compares the priorities of `self` and `other`.
    pub fn cmp(&self, other: &Self) -> (o: Ordering)
        ensures
            o == (if self.1 < other.1 {
                Ordering::Less
            } else if self.1 > other.1 {
                Ordering::Greater
            } else {
                Ordering::Equal
            }),
    {
        if self.1 < other.1 {
            Ordering::Less
        } else if self.1 > other.1 {
            Ordering::Greater
        } else {
            Ordering::Equal
        }
    }
}

impl<T> PartialEq for Priority<T> {
    fn eq(&self, other: &Self) -> (r: bool) {
        self.1 == other.1
    }
}

impl<T> vstd::std_specs::cmp::PartialEqSpecImpl for Priority<T> {
    open spec fn obeys_eq_spec() -> bool {
        true
    }

    open spec fn eq_spec(&self, other: &Self) -> bool {
        self.1 == other.1
    }
}

} // verus!
