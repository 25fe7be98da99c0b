//! A markup reader that builds a mutable tree of element and text nodes, with an id/class
//! cache on each element kept equal to its attributes.
use vstd::prelude::*;

pub mod css;
pub mod dom;
pub mod elements;
pub mod errors;
pub mod grammar;
pub mod node;
pub mod parse;
pub mod shared;
pub mod text;

verus! {

/// A tree read from markup, as a host holds it.
pub struct BreezeInstance {
    pub dom: dom::Dom,
}

} // verus!
