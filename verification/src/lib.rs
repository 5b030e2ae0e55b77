//! Rating and matchmaking engine for a two-role competitive game.
//!
//! The library keeps a ledger of finalized matches, maintains one skill
//! rating per agent and per role, decides which agents are reliable enough
//! to schedule, and selects the next batch of (rollman, ghost) pairs under
//! a capacity budget.
//!
//! Ratings are carried as the raw bit patterns of IEEE-754 single-precision
//! numbers (`u32`). The library never performs rating arithmetic itself:
//! every function that updates ratings takes the update rule as a closure,
//! so the numeric model lives with the embedding while all bookkeeping,
//! indices, eligibility and selection logic is verified here.

pub mod agent;
pub mod constants;
pub mod fetch;
pub mod laws;
pub mod pairing;
pub mod rating;
pub mod reload;
pub mod report;
pub mod stats;
