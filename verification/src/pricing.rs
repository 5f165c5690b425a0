//! Option kinds used by the pricing engine.

use vstd::prelude::*;

verus! {

/// Kind of a European option.
#[derive(Debug, Clone, Copy, PartialEq, Eq, Structural)]
pub enum OptionKind {
    Call,
    Put,
}

} // verus!
