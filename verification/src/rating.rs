//! Ratings as opaque bit patterns, their ordering, and match outcomes.

use vstd::prelude::*;

verus! {

/// Win/draw/loss of the first side of a pairwise comparison, derived from
/// comparing two scores in the same metric.
#[derive(Clone, Copy, PartialEq, Eq, Structural, Debug)]
pub enum Outcome {
    Win,
    Draw,
    Loss,
}

/// The outcome for the side that scored `a` against the side that scored `b`.
pub open spec fn spec_outcome(a: int, b: int) -> Outcome {
    if a > b {
        Outcome::Win
    } else if a == b {
        Outcome::Draw
    } else {
        Outcome::Loss
    }
}

/// Derives the first side's outcome from the two scores.
pub fn outcome_of(a: i16, b: i16) -> (o: Outcome)
    ensures
        o == spec_outcome(a as int, b as int),
{
    if a > b {
        Outcome::Win
    } else if a == b {
        Outcome::Draw
    } else {
        Outcome::Loss
    }
}

/// Order key of a rating bit pattern. On bit patterns of IEEE-754 single
/// precision values that are not NaN, this map is strictly monotone in the
/// numeric order, so comparing keys compares ratings. All ordering the
/// library does (ranking, the pairing floor, priority sorting) goes through
/// this key.
pub open spec fn spec_order_key(bits: u32) -> u32 {
    if bits < 0x8000_0000 {
        bits | 0x8000_0000u32
    } else {
        !bits
    }
}

/// Computes the order key of a rating bit pattern.
pub fn order_key(bits: u32) -> (k: u32)
    ensures
        k == spec_order_key(bits),
{
    if bits < 0x8000_0000 {
        bits | 0x8000_0000
    } else {
        !bits
    }
}

} // verus!
