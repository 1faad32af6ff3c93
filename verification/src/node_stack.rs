//! The bounded stack of pending node pointers used by tree traversal.
//!
//! Traversal never recurses: it pops a pointer, and for an inner node
//! pushes the hit children back in reverse visiting order. The stack
//! capacity is a fixed bound that every push must respect, so traversal
//! allocates nothing and can never overflow it.

use vstd::prelude::*;

use crate::node_pointer::NodePointer;

verus! {

/// Capacity of the traversal stack: enough for the eight-wide tree,
/// whose traversal pushes at most eight children per popped node.
pub const NODE_STACK_UPPER_BOUND: usize = 64;

/// A fixed-capacity last-in-first-out store of node pointers.
pub struct NodeStack {
    data: Vec<NodePointer>,
}

impl View for NodeStack {
    type V = Seq<NodePointer>;

    closed spec fn view(&self) -> Seq<NodePointer> {
        self.data@
    }
}

impl NodeStack {
    /// The stack never outgrows its fixed capacity.
    pub open spec fn wf(self) -> bool {
        self@.len() <= NODE_STACK_UPPER_BOUND
    }

    pub fn empty() -> (r: Self)
        ensures
            r@.len() == 0,
            r.wf(),
    {
        NodeStack { data: Vec::new() }
    }

    pub fn is_empty(&self) -> (r: bool)
        ensures
            r == (self@.len() == 0),
    {
        self.data.len() == 0
    }

    pub fn len(&self) -> (r: usize)
        ensures
            r == self@.len(),
    {
        self.data.len()
    }

    /// Pushes one pending pointer. Callers must leave room: the capacity
    /// bound is the traversal invariant, not a runtime check.
    pub fn push(&mut self, elem: NodePointer)
        requires
            old(self)@.len() < NODE_STACK_UPPER_BOUND,
        ensures
            final(self)@ == old(self)@.push(elem),
            final(self).wf(),
    {
        self.data.push(elem);
    }

    /// Pops the most recently pushed pointer.
    pub fn pop(&mut self) -> (r: NodePointer)
        requires
            old(self)@.len() > 0,
        ensures
            r == old(self)@.last(),
            final(self)@ == old(self)@.drop_last(),
            old(self).wf() ==> final(self).wf(),
    {
        let r = self.data.pop().unwrap();
        r
    }
}

} // verus!
