//! Error numbers.

use vstd::prelude::*;

verus! {

/// An error number, as C's `errno` holds it.
pub struct Errno {
    pub errno: i32,
}

/// Wraps an error number.
pub fn errno(code: i32) -> (r: Errno)
    ensures
        r.errno == code,
{
    Errno { errno: code }
}

/// Records an error number. This library keeps no global error state, so the
/// value is dropped.
pub fn set_errno(_errno: Errno) {
}

} // verus!
