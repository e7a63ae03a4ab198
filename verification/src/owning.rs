//! Ownership-reference strategies.
//!
//! A list stores nodes, but which discipline governs a node's ownership
//! while it travels into and out of a list is the caller's choice.  The
//! [`OwningRef`] capability names that choice: handing a reference to a
//! list surrenders the node through [`OwningRef::into_node`], and a list
//! hands the node back out through [`OwningRef::from_node`], restoring
//! the same discipline.
//!
//! Two strategies implement the capability:
//!
//! - `Box<N>`, the exclusive owner: at most one live owner per node, and
//!   moving it into or out of a list transfers that ownership.
//! - [`UnsafeRef`], a handle for nodes whose storage the caller manages.
//!   To keep every access checkable, the handle here carries its node by
//!   value in storage of its own rather than as a raw borrowed address,
//!   so it cannot dangle; callers that share a node's storage outside
//!   the list must copy the payload back out themselves.

use vstd::prelude::*;

verus! {

/// A reference discipline under which nodes enter and leave a list.
///
/// `node_of` is the node the reference currently stands for; the two
/// conversions move that node out of, and back into, the discipline.
pub trait OwningRef<N>: Sized {
    /// The node this reference stands for.
    spec fn node_of(self) -> N;

    /// Surrender the node to the caller.
    fn into_node(self) -> (n: N)
        ensures
            n == self.node_of(),
    ;

    /// Take charge of `node`.
    fn from_node(node: N) -> (r: Self)
        ensures
            r.node_of() == node,
    ;
}

/// The exclusive-owner strategy: sole heap ownership of the node.
impl<N> OwningRef<N> for Box<N> {
    open spec fn node_of(self) -> N {
        *self
    }

    fn into_node(self) -> (n: N) {
        *self
    }

    fn from_node(node: N) -> (r: Self) {
        Box::new(node)
    }
}

/// A handle for a node whose storage is the caller's business.
///
/// The handle keeps the node in heap storage of its own, so no use of it
/// can reach freed memory; the cost is that a node inside an `UnsafeRef`
/// is reachable only through that handle.
pub struct UnsafeRef<N> {
    node: Box<N>,
}

impl<N> UnsafeRef<N> {
    /// Allocate fresh storage holding `node` and hand back a handle to it.
    pub fn boxed(node: N) -> (r: Self)
        ensures
            r.node_of() == node,
    {
        UnsafeRef { node: Box::new(node) }
    }

    /// The node behind the handle.
    pub fn node(&self) -> (n: &N)
        ensures
            *n == self.node_of(),
    {
        &*self.node
    }
}

impl<N> OwningRef<N> for UnsafeRef<N> {
    closed spec fn node_of(self) -> N {
        *self.node
    }

    fn into_node(self) -> (n: N) {
        *self.node
    }

    fn from_node(node: N) -> (r: Self) {
        UnsafeRef { node: Box::new(node) }
    }
}

} // verus!
