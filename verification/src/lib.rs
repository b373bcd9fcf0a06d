//! A token-staking ledger: stakers lock tokens for a minimum duration, an
//! operator funds a shared reward pool, and periodic distributions split a
//! released amount over the eligible stake records in proportion to their
//! time-weighted score.
//!
//! The ledger decides how much is owed and when it may move; moving the
//! tokens is left to the host. Every operation is given the calling account
//! and the time as plain arguments, answers with the amount to transfer, and
//! either commits all its changes or none.

use vstd::prelude::*;

pub mod arith;
pub mod contract;
pub mod distribution;
pub mod laws;
pub mod ledger;
pub mod model;
pub mod queries;
pub mod records;
pub mod sums;
pub mod weights;

pub use contract::StakingContract;
pub use distribution::DistributionOutcome;
pub use queries::UserRewards;
pub use records::FundingRecord;
pub use records::RewardDistribution;
pub use records::StakerEntry;
pub use records::StakerInfo;
pub use records::StakingError;
pub use records::StakingRecord;
pub use weights::WeightTable;
pub use weights::WeightTier;

verus! {

/// Seconds in a day.
pub const DAY: u64 = 86400;

/// Seconds in a month of thirty days.
pub const MONTH: u64 = 30 * DAY;

} // verus!
