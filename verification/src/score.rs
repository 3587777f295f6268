//! Similarity scores, carried as IEEE-754 single-precision bit patterns.
//!
//! A score is never computed here: it is handed in as the 32 bits of a binary32 number, and this
//! module tells which patterns are finite numbers and how two of them compare.

use vstd::prelude::*;
use crate::error::SearchError;

verus! {

/// The pattern with its sign bit cleared.
pub open spec fn magnitude(bits: u32) -> u32 {
    if bits >= 0x8000_0000u32 {
        (bits - 0x8000_0000u32) as u32
    } else {
        bits
    }
}

/// Whether the pattern encodes a finite number: its exponent field is not all ones, so it is
/// neither an infinity nor a NaN.
pub open spec fn is_finite(bits: u32) -> bool {
    magnitude(bits) < 0x7f80_0000u32
}

/// The place of a pattern in the numeric order: of two finite patterns, the one that encodes the
/// greater number has the greater ordinal, and both zeros have ordinal 0.
pub open spec fn ordinal(bits: u32) -> int {
    if bits >= 0x8000_0000u32 {
        -(magnitude(bits) as int)
    } else {
        magnitude(bits) as int
    }
}

/// What becomes of one comparison: the candidate's length must be that of the probe, and the
/// similarity must be a finite number; then the similarity is the score.
pub open spec fn verdict(expected: usize, got: usize, similarity: u32) -> Result<u32, SearchError> {
    if expected != got {
        Err(SearchError::DimensionMismatch { expected, got })
    } else if !is_finite(similarity) {
        Err(SearchError::NumericalInstability)
    } else {
        Ok(similarity)
    }
}

/// Tells whether `bits` encodes a finite number.
pub fn is_finite_score(bits: u32) -> (out: bool)
    ensures
        out == is_finite(bits),
{
    let magnitude: u32 = if bits >= 0x8000_0000u32 {
        bits - 0x8000_0000u32
    } else {
        bits
    };
    magnitude < 0x7f80_0000u32
}

/// Computes the ordinal of `bits`.
pub fn ordinal_of(bits: u32) -> (out: i64)
    ensures
        out == ordinal(bits),
{
    if bits >= 0x8000_0000u32 {
        -((bits - 0x8000_0000u32) as i64)
    } else {
        bits as i64
    }
}

/// Tells whether `left` stands below `right` in the numeric order.
pub fn scores_lower(left: u32, right: u32) -> (out: bool)
    ensures
        out == (ordinal(left) < ordinal(right)),
{
    ordinal_of(left) < ordinal_of(right)
}

/// Judges one comparison of a probe of length `expected` with a candidate of length `got`, for
/// which `similarity` was computed.
pub fn judge(expected: usize, got: usize, similarity: u32) -> (out: Result<u32, SearchError>)
    ensures
        out == verdict(expected, got, similarity),
{
    if expected != got {
        Err(SearchError::DimensionMismatch { expected, got })
    } else if !is_finite_score(similarity) {
        Err(SearchError::NumericalInstability)
    } else {
        Ok(similarity)
    }
}

} // verus!
