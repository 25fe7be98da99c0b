//! Per-tag behaviour: every tag currently resolves to the default behaviour.
use vstd::prelude::*;

verus! {

/// The behaviour of an element whose tag selects nothing special.
pub struct DefaultNode;

} // verus!
