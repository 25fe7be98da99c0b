//! Errors of the tree and of the markup reader.
use vstd::prelude::*;

verus! {

/// Why an attach was refused.
#[derive(Clone, Copy, PartialEq, Eq, Structural, Debug)]
pub enum DomPushError {
    /// The would-be parent is a text node, which cannot have children.
    NotAttachable,
    /// The node already has a parent.
    AlreadyHasParent,
}

impl DomPushError {
    pub fn message(&self) -> (r: String)
        ensures
            r@ == match self {
                DomPushError::NotAttachable => "text nodes can't have children"@,
                DomPushError::AlreadyHasParent => "node already has parent"@,
            },
    {
        match self {
            DomPushError::NotAttachable => String::from_str("text nodes can't have children"),
            DomPushError::AlreadyHasParent => String::from_str("node already has parent"),
        }
    }
}

/// The markup does not follow the grammar.
#[derive(Clone, Copy, PartialEq, Eq, Structural, Debug)]
pub enum DomParseError {
    /// At this character offset the input stops following the grammar.
    ParseError(usize),
}

impl DomParseError {
    pub fn message(&self) -> (r: String)
        ensures
            r@ == "failed to parse html"@,
    {
        String::from_str("failed to parse html")
    }
}

} // verus!
