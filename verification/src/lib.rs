//! Deterministic, consensus-friendly numeric algorithms: zero-sum fair
//! division among (optionally weighted) bidders, and decentralized random
//! selection of unique indices derived from XOR-aggregated contributions.
//!
//! Every operation is a pure function over caller-supplied buffers, uses
//! wide (128-bit) integer arithmetic with explicit overflow detection, and
//! is bit-for-bit reproducible across independent re-execution.

use vstd::prelude::*;

pub mod fair_division;
pub mod selection;
pub mod types;

pub use fair_division::calculate_fair_division_equal_weights;
pub use fair_division::calculate_fair_division_weighted;
pub use selection::get_one_dd_rand_num;
pub use selection::get_one_dd_3d_rand_num;
pub use selection::get_k_dd_rand_num;
pub use selection::get_k_dd_rand_num_with_whitelist;
pub use types::FairDivisionResult;
pub use types::RandomSelectionResult;

verus! {

/// Error taxonomy shared by all operations.
#[derive(Debug, Clone, Copy, PartialEq, Eq, Structural)]
pub enum Error {
    /// A structural precondition was violated: empty or mismatched-length
    /// buffers, a non-positive weight, `n`/`k` out of bounds, `k > n`,
    /// a population that is not a power of two, or a whitelist index out
    /// of range.
    InvalidInput,
    /// Arithmetic overflow during fair division, or probe-cycle exhaustion
    /// during whitelist-aware selection.
    CalculationFailed,
    /// Fair division was invoked with fewer than two participants.
    NotEnoughParticipants,
}

} // verus!
