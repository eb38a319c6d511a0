//! Priority keys of the open queue.

use crate::open_queue::key_lt;
use core::cmp::Ordering;
use vstd::prelude::*;
use vstd::std_specs::cmp::PartialOrdSpecImpl;

verus! {

/// A priority key `(k1, k2)`; keys are ordered lexicographically.
#[derive(Clone, Copy, Debug, PartialEq, Eq, Structural)]
pub struct Priority(pub u64, pub u64);

impl Priority {
    /// The key as a pair.
    pub open spec fn pair(self) -> (u64, u64) {
        (self.0, self.1)
    }

    /// Whether `self` comes strictly before `other`.
    pub fn less_than(&self, other: &Priority) -> (b: bool)
        ensures
            b == key_lt(self.pair(), other.pair()),
    {
        self.0 < other.0 || (self.0 == other.0 && self.1 < other.1)
    }
}

impl PartialOrd for Priority {
    /// Compares first by `k1`, then by `k2`; never `None`.
    fn partial_cmp(&self, other: &Self) -> (r: Option<Ordering>) {
        if self.0 < other.0 {
            Some(Ordering::Less)
        } else if self.0 > other.0 {
            Some(Ordering::Greater)
        } else if self.1 < other.1 {
            Some(Ordering::Less)
        } else if self.1 > other.1 {
            Some(Ordering::Greater)
        } else {
            Some(Ordering::Equal)
        }
    }
}

impl PartialOrdSpecImpl for Priority {
    open spec fn obeys_partial_cmp_spec() -> bool {
        true
    }

    open spec fn partial_cmp_spec(&self, other: &Self) -> Option<Ordering> {
        if key_lt(self.pair(), other.pair()) {
            Some(Ordering::Less)
        } else if key_lt(other.pair(), self.pair()) {
            Some(Ordering::Greater)
        } else {
            Some(Ordering::Equal)
        }
    }
}

} // verus!
