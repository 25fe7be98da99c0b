//! Handles to nodes that a `Dom` stores. A strong handle names a node that exists; a weak
//! handle is resolved through the `Dom` before use.
use vstd::prelude::*;

verus! {

/// Duplicates a handle: the copy names the same node.
pub trait SharedClone: Sized {
    fn shared_clone(&self) -> (r: Self)
        ensures
            r == *self,
    ;
}

/// A strong handle: the index of a node in its `Dom`.
#[derive(Clone, Copy, PartialEq, Eq, Structural, Debug)]
pub struct SharedNode(pub usize);

/// A weak handle, as a child holds it for its parent.
#[derive(Clone, Copy, PartialEq, Eq, Structural, Debug)]
pub struct WeakNode(pub usize);

impl SharedClone for SharedNode {
    fn shared_clone(&self) -> (r: Self) {
        SharedNode(self.0)
    }
}

impl SharedClone for WeakNode {
    fn shared_clone(&self) -> (r: Self) {
        WeakNode(self.0)
    }
}

impl From<SharedNode> for WeakNode {
    fn from(node: SharedNode) -> (r: Self) {
        WeakNode(node.0)
    }
}

impl vstd::std_specs::convert::FromSpecImpl<SharedNode> for WeakNode {
    open spec fn obeys_from_spec() -> bool {
        true
    }

    open spec fn from_spec(node: SharedNode) -> Self {
        WeakNode(node.0)
    }
}

} // verus!
