//! Guarded subtraction of bit counts.

use vstd::prelude::*;

verus! {

/// Subtracts `b` from `a`. The caller shows that `b` does not exceed `a`, so
/// the difference never wraps.
pub fn safe_sub(a: usize, b: usize) -> (d: usize)
    requires
        b <= a,
    ensures
        d == a - b,
{
    a - b
}

} // verus!
