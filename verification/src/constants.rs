//! Fixed configuration of the engine.

use vstd::prelude::*;

verus! {

/// Capacity budget: the platform should never hold more than this many
/// matches that are judging or queued at once.
pub const MAX_MATCHES: usize = 210;

/// A match whose id lies within this distance of the newest id counts as
/// recent when the report annotates agents.
pub const RECENT_THRESHOLD: u32 = 5000;

/// Bit pattern (IEEE-754 single precision) of the base rating, one
/// thousand five hundred. Every agent starts both of its ratings here.
pub const ELO_BASE_BITS: u32 = 0x44BB_8000;

/// Bit pattern of the pairing floor: the base rating minus two thirds of
/// the rating step (four hundred). Agents whose rating does not exceed
/// this value are not worth scheduling.
pub const ELO_FLOOR_BITS: u32 = 0x449A_2AAB;

/// Window of most recent matches inspected for the reliability annotation
/// of the report.
pub const RECENT_MATCH_COUNT: usize = 100;

} // verus!
