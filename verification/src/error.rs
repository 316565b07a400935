//! The ways in which a solve can fail.

use vstd::prelude::*;

verus! {

/// Why a solve stopped without a grid. Every error ends the solve: none is retried.
#[derive(Debug, Clone, Copy, PartialEq, Eq, Structural)]
pub enum SolveError {
    /// A matrix has no rows, or its rows differ in length, so it has no transpose.
    ShapeError,
    /// A pattern was asked of a line that has no possibility left.
    ReductionError,
    /// The rows prove a cell empty and the columns prove it filled, or the reverse.
    MergeConflict,
}

} // verus!
