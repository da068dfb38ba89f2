//! The ways in which a classification can fail.

use vstd::prelude::*;

verus! {

/// What can go wrong when a query is measured against reference examples.
#[derive(Clone, Copy, Debug, PartialEq, Eq, Structural)]
pub enum ClassifyError {
    /// There is no reference example, so no nearest neighbour exists.
    EmptyReferenceSet,
    /// Two vectors that were to be compared differ in length.
    DimensionMismatch,
}

} // verus!
