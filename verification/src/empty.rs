//! The hitable with no extent: it bounds nothing and intersects nothing.
//!
//! It stands wherever a slot needs a primitive and there is none, the
//! by-value counterpart of the empty-leaf pointer. Its geometry is
//! trivial — every intersection query on it misses and its bounding box
//! is the empty box — so the intersection side lives with the rest of
//! the box arithmetic in the caller.

use vstd::prelude::*;

verus! {

/// The primitive that is never hit.
#[derive(Clone, Copy, PartialEq, Eq, Structural, Debug)]
pub struct Empty;

impl Empty {
    pub fn new() -> (r: Self)
        ensures
            r == Empty,
    {
        Empty {}
    }
}

} // verus!
