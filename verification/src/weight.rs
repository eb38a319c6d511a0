//! Edge and path costs: unsigned integers whose greatest value stands for
//! "no path", with an addition that never leaves that value again.

use vstd::prelude::*;

verus! {

/// The cost that stands for "unreachable".
pub open spec fn infinity() -> u64 {
    u64::MAX
}

/// Sum of two costs: the exact sum while it stays below `infinity()`, and
/// `infinity()` from there on. In particular infinity plus anything is
/// infinity.
pub open spec fn plus(a: u64, b: u64) -> u64 {
    if a + b >= u64::MAX {
        u64::MAX
    } else {
        (a + b) as u64
    }
}

/// `num_traits::Bounded::max_value` at `u64`, which num-traits defines as
/// `u64::MAX`.
#[verifier::external_body]
pub(crate) fn max_weight() -> (w: u64)
    ensures
        w == infinity(),
{
    num_traits::Bounded::max_value()
}

/// Adds two costs as `plus` says.
pub fn add_weights(a: u64, b: u64) -> (w: u64)
    ensures
        w == plus(a, b),
{
    a.saturating_add(b)
}

} // verus!
