//! The data model of a CSS selector; nothing matches selectors against a tree yet.
use vstd::prelude::*;

verus! {

/// A selector: its parts in order.
pub struct CssSelector {
    pub parts: Vec<CssSelectorPart>,
}

/// One part of a selector.
pub enum CssSelectorPart {
    /// `#id`
    Id(String),
    /// `.class`
    Class(String),
    /// A tag name.
    Element(String),
    /// A pseudo-class wrapping another part.
    PseudoClass(Box<CssSelectorPart>),
}

} // verus!
