//! The code a failing fixture check tests.

use vstd::prelude::*;

verus! {

/// Returns the sum exercised by the intentional failure fixture.
pub fn add(left: u32, right: u32) -> (r: u32)
    requires
        left + right <= u32::MAX,
    ensures
        r == left + right,
{
    left + right
}

} // verus!
