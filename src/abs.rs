//! Integer absolute value.

use vstd::prelude::*;

verus! {

/// The absolute value of `i`, as C's `abs`.
///
/// `abs(i32::MIN)` has no representable result, so it is excluded.
pub fn abs(i: i32) -> (r: i32)
    requires
        i != i32::MIN,
    ensures
        r as int == if i < 0 { -(i as int) } else { i as int },
{
    if i < 0 {
        -i
    } else {
        i
    }
}

} // verus!
