//! A tiny C library, with a verified in-place sorting engine at its core.
//!
//! The `qsort` family sorts a buffer of `count` opaque elements of `width`
//! bytes each, in place, with an introsort: quicksort with a three-way
//! partition, insertion sort on small ranges and a heapsort fallback once the
//! depth budget runs out.

mod abs;
mod ctype;
pub mod elements;
mod errno;
pub mod order;
pub mod perm;
pub mod qsort;
pub mod qsort_r;

pub use crate::abs::abs;
pub use crate::ctype::{isalpha, isdigit, isspace, isupper, CStringIter};
pub use crate::errno::{errno, set_errno, Errno};
pub use crate::qsort::{heapsort, qsort};
pub use crate::qsort_r::qsort_r;
