//! Positions in the array that stores the heap: a node at `i` has its parent
//! at `(i - 1) / 2` and its children at `2 * i + 1` and `2 * i + 2`.

use vstd::prelude::*;

verus! {

/// A machine index as a mathematical integer.
pub open spec fn ix(i: usize) -> int {
    i as int
}

/// The position of the parent of the node at `i`, for `i > 0`.
pub open spec fn parent(i: int) -> int {
    (i - 1) / 2
}

} // verus!
