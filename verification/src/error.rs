//! The ways in which a search can fail.

use vstd::prelude::*;

verus! {

/// Why the scan of the candidates was abandoned.
#[derive(Debug, Clone, Copy, PartialEq, Eq, Structural)]
pub enum SearchError {
    /// A candidate's vector has another length than the probe: `expected` is the length of the
    /// probe, `got` that of the candidate.
    DimensionMismatch { expected: usize, got: usize },
    /// A similarity came out as an infinity or as a NaN.
    NumericalInstability,
}

} // verus!
