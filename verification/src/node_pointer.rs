//! Tagged 32-bit references into the flat node arrays of a tree.
//!
//! The top bit distinguishes a leaf (1) from an inner node (0); the low
//! 31 bits are the index into the leaf or inner array. The all-ones value
//! is the reserved empty-leaf sentinel, produced wherever a node slot has
//! no primitives; it is a leaf and must never be indexed.

use vstd::prelude::*;

verus! {

/// A "pointer" to a node: one tag bit plus a 31-bit array index.
#[derive(Clone, Copy, PartialEq, Eq, Structural, Debug)]
pub struct NodePointer {
    info: u32,
}

/// The tag bit that marks a leaf.
pub const LEAF_TAG: u32 = 0x8000_0000;

/// Largest index a `NodePointer` can carry, exclusive: indices must fit
/// in 31 bits, and the all-ones leaf encoding is reserved for the
/// empty-leaf sentinel.
pub const MAX_INDEX: u32 = 0x7FFF_FFFF;

impl NodePointer {
    /// The raw 32-bit encoding.
    pub closed spec fn bits(self) -> u32 {
        self.info
    }

    /// The pointer refers to a leaf (possibly the empty-leaf sentinel).
    pub open spec fn is_leaf_ptr(self) -> bool {
        self.bits() & LEAF_TAG != 0u32
    }

    /// The pointer is the reserved empty-leaf sentinel.
    pub open spec fn is_empty_leaf_ptr(self) -> bool {
        self.bits() == 0xFFFF_FFFFu32
    }

    /// The pointer refers to an inner node.
    pub open spec fn is_inner_ptr(self) -> bool {
        !self.is_leaf_ptr()
    }

    /// The 31-bit index carried by the pointer.
    pub open spec fn target_index(self) -> nat {
        (self.bits() & MAX_INDEX) as nat
    }

    /// The root of a tree: inner node number 0.
    pub fn root() -> (r: Self)
        ensures
            r.is_inner_ptr(),
            !r.is_empty_leaf_ptr(),
            r.target_index() == 0,
    {
        let r = NodePointer { info: 0 };
        proof {
            assert(0u32 & 0x8000_0000u32 == 0u32) by (bit_vector);
            assert(0u32 & 0x7FFF_FFFFu32 == 0u32) by (bit_vector);
        }
        r
    }

    /// The index into the leaf or inner array, depending on the tag.
    /// The empty-leaf sentinel carries no index and must be tested first.
    pub fn index(&self) -> (r: usize)
        requires
            !self.is_empty_leaf_ptr(),
        ensures
            r == self.target_index(),
            self.is_leaf_ptr() ==> r < MAX_INDEX,
    {
        proof {
            let i = self.info;
            assert(i != 0xFFFF_FFFFu32 ==> (i & 0x7FFF_FFFFu32 < 0x7FFF_FFFFu32
                || i & 0x8000_0000u32 == 0u32)) by (bit_vector);
        }
        (self.info & MAX_INDEX) as usize
    }

    pub fn is_leaf(&self) -> (r: bool)
        ensures
            r == self.is_leaf_ptr(),
    {
        self.info & LEAF_TAG != 0u32
    }

    pub fn is_empty_leaf(&self) -> (r: bool)
        ensures
            r == self.is_empty_leaf_ptr(),
    {
        self.info == u32::MAX
    }

    pub fn is_inner(&self) -> (r: bool)
        ensures
            r == self.is_inner_ptr(),
    {
        self.info & LEAF_TAG == 0u32
    }

    /// Packs a tag and an index. Indices must fit in 31 bits with the
    /// all-ones leaf pattern left free for the empty-leaf sentinel.
    pub fn new(is_leaf: bool, index: usize) -> (r: Self)
        requires
            index < MAX_INDEX,
        ensures
            r.is_leaf_ptr() == is_leaf,
            r.target_index() == index,
            !r.is_empty_leaf_ptr(),
    {
        let mut info = index as u32;
        if is_leaf {
            info = info | LEAF_TAG;
        }
        let r = NodePointer { info };
        proof {
            let i = index as u32;
            assert(i < 0x7FFF_FFFFu32 ==> (i | 0x8000_0000u32) & 0x8000_0000u32 != 0u32
                && (i | 0x8000_0000u32) & 0x7FFF_FFFFu32 == i
                && (i | 0x8000_0000u32) != 0xFFFF_FFFFu32) by (bit_vector);
            assert(i < 0x7FFF_FFFFu32 ==> i & 0x8000_0000u32 == 0u32 && i & 0x7FFF_FFFFu32 == i
                && i != 0xFFFF_FFFFu32) by (bit_vector);
        }
        r
    }

    /// The reserved sentinel for an absent child.
    pub fn empty_leaf() -> (r: Self)
        ensures
            r.is_empty_leaf_ptr(),
            r.is_leaf_ptr(),
    {
        let r = NodePointer { info: u32::MAX };
        proof {
            assert(0xFFFF_FFFFu32 & 0x8000_0000u32 != 0u32) by (bit_vector);
        }
        r
    }

    pub fn new_leaf(index: usize) -> (r: Self)
        requires
            index < MAX_INDEX,
        ensures
            r.is_leaf_ptr(),
            !r.is_empty_leaf_ptr(),
            r.target_index() == index,
    {
        Self::new(true, index)
    }

    pub fn new_inner(index: usize) -> (r: Self)
        requires
            index < MAX_INDEX,
        ensures
            r.is_inner_ptr(),
            !r.is_empty_leaf_ptr(),
            r.target_index() == index,
    {
        Self::new(false, index)
    }
}

/// Two inner pointers with the same index are the same pointer: the
/// encoding has no spare bits.
pub proof fn lemma_inner_ptr_eq(p: NodePointer, q: NodePointer)
    requires
        p.is_inner_ptr(),
        q.is_inner_ptr(),
        p.target_index() == q.target_index(),
    ensures
        p == q,
{
    let a = p.bits();
    let b = q.bits();
    assert(a & 0x8000_0000u32 == 0u32 && b & 0x8000_0000u32 == 0u32 && a & 0x7FFF_FFFFu32 == b
        & 0x7FFF_FFFFu32 ==> a == b) by (bit_vector);
}

/// There is a pointer to the root: the all-zero encoding.
pub proof fn lemma_root_ptr_exists()
    ensures
        exists|p: NodePointer| p.is_inner_ptr() && p.target_index() == 0,
{
    let p = NodePointer { info: 0 };
    assert(0u32 & 0x8000_0000u32 == 0u32) by (bit_vector);
    assert(0u32 & 0x7FFF_FFFFu32 == 0u32) by (bit_vector);
    assert(p.is_inner_ptr() && p.target_index() == 0);
}

/// Law: the empty-leaf sentinel is itself a leaf. Any pointer that tests
/// as the empty leaf also tests as a leaf, so leaf handling subsumes the
/// sentinel case and inner-node handling never sees it.
pub proof fn lemma_empty_leaf_is_leaf(p: NodePointer)
    ensures
        p.is_empty_leaf_ptr() ==> p.is_leaf_ptr(),
{
    let i = p.bits();
    assert(i == 0xFFFF_FFFFu32 ==> i & 0x8000_0000u32 != 0u32) by (bit_vector);
}

} // verus!
