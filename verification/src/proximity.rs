//! The distance between two words of a document, as the index counts it.

use vstd::prelude::*;

verus! {

/// The distance from which on two words count as far apart: every larger
/// distance is told as this one.
pub const MAX_DISTANCE: u32 = 8;

/// The distance between a word at position `lhs` and a word at position
/// `rhs`: their difference when the second word follows the first, one more
/// when the words are swapped, and never more than `MAX_DISTANCE`.
pub open spec fn spec_index_proximity(lhs: u32, rhs: u32) -> int {
    if lhs <= rhs {
        if rhs - lhs < MAX_DISTANCE {
            rhs - lhs
        } else {
            MAX_DISTANCE as int
        }
    } else {
        if lhs - rhs + 1 < MAX_DISTANCE {
            lhs - rhs + 1
        } else {
            MAX_DISTANCE as int
        }
    }
}

/// Computes the distance between two word positions.
pub fn index_proximity(lhs: u32, rhs: u32) -> (prox: u32)
    ensures
        prox == spec_index_proximity(lhs, rhs),
        prox <= MAX_DISTANCE,
{
    if lhs <= rhs {
        let d: u32 = rhs - lhs;
        if d < MAX_DISTANCE {
            d
        } else {
            MAX_DISTANCE
        }
    } else {
        let d: u32 = lhs - rhs;
        if d < MAX_DISTANCE - 1 {
            d + 1
        } else {
            MAX_DISTANCE
        }
    }
}

/// The distance of a word to itself is zero, and two different positions
/// are at least one apart.
pub proof fn lemma_proximity_zero(lhs: u32, rhs: u32)
    ensures
        spec_index_proximity(lhs, rhs) == 0 <==> lhs == rhs,
        0 <= spec_index_proximity(lhs, rhs) <= MAX_DISTANCE,
{
}

} // verus!
