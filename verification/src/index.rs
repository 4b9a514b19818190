//! Node addressing: pure index arithmetic that maps the backing array onto an
//! implicit binary tree of two-slot nodes.
//!
//! Slot `2k` holds node `k`'s low value and slot `2k + 1` its high value; the
//! root node is the pair of slots `0` and `1`.  Node `k`'s parent is node
//! `(k - 1) / 2`.

use vstd::prelude::*;

verus! {

/// The low-slot index of the node holding array slot `i`.
pub open spec fn spec_left(i: int) -> int {
    2 * (i / 2)
}

/// The low-slot index of the parent of the node holding array slot `i`
/// (meaningful for `i >= 2` only).
pub open spec fn spec_parent_left(i: int) -> int {
    spec_left((i - 2) / 2)
}

/// True iff array slot `i` lies in the root node.
pub fn is_root(x: usize) -> (r: bool)
    ensures
        r <==> x < 2,
{
    x < 2
}

/// Clears the least bit: maps either slot of a node to its low slot.
pub fn left(x: usize) -> (r: usize)
    ensures
        r == spec_left(x as int),
{
    proof {
        assert(x & !1 == 2 * (x / 2)) by (bit_vector);
    }
    x & !1
}

/// The low-slot index of the parent node of the node holding slot `x`.
pub fn parent_left(x: usize) -> (r: usize)
    requires
        x >= 2,
    ensures
        r == spec_parent_left(x as int),
{
    left((x - 2) / 2)
}

} // verus!
