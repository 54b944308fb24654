//! Common types and data structures used throughout the library.

use vstd::prelude::*;

verus! {

/// Unique identifier for participants.
pub type ParticipantId = u64;

/// Voting power amount.
pub type VotingPower = u128;

/// Timestamp (seconds since epoch).
pub type Timestamp = u64;

/// Fair division result.
#[derive(Debug, Clone)]
pub struct FairDivisionResult {
    /// Allocation for each participant.
    pub allocations: &'static [i128],
    /// Total value being divided.
    pub total_value: i128,
    /// Whether the division is fair (the allocations sum to zero).
    pub is_fair: bool,
}

/// Random selection result.
#[derive(Debug, Clone)]
pub struct RandomSelectionResult {
    /// Selected participant indices.
    pub selected_indices: &'static [usize],
    /// Number of participants.
    pub total_participants: usize,
    /// Number of selections made.
    pub selections_made: usize,
    /// Whether all selections are unique.
    pub is_unique: bool,
}

} // verus!
