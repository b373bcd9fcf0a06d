//! The records that the ledger keeps: stake records, funding records, the
//! per-account staker entry, and the errors an operation can end in.

use vstd::prelude::*;
use crate::DAY;
use crate::arith::mul_div;
use crate::weights::WeightTable;
use crate::weights::WeightTableView;

verus! {

/// The least duration, in seconds, that a stake must have been held to take
/// part in a distribution.
pub const ELIGIBILITY_FLOOR: u64 = 30 * DAY;

/// The lockup, in days, of a stake that arrives by a transfer notification.
pub const DEFAULT_LOCKUP_DAYS: u64 = 30;

/// Why an operation was rejected. A rejected operation changes nothing.
#[derive(Clone, Copy, Debug, PartialEq, Eq)]
pub enum StakingError {
    /// The caller may not perform this operation.
    Unauthorized,
    /// An amount of zero was given where tokens must move.
    NonPositiveAmount,
    /// The account has never staked.
    StakerNotFound,
    /// The account has no stake record at this index.
    InvalidRecordIndex,
    /// The record's lockup period has not passed yet.
    LockupNotElapsed,
    /// The record has no credited rewards.
    NothingToClaim,
    /// The reward pool holds less than the amount to release.
    InsufficientPool,
    /// A quantity would leave the range of its type.
    ArithmeticOverflow,
}

/// One deposit. Deposits are never merged: each has its own start time,
/// lockup and credited rewards.
#[derive(Clone, Copy, Debug, PartialEq, Eq)]
pub struct StakingRecord {
    /// The principal that is locked; positive as long as the record lives.
    pub staked_tokens: u128,
    /// When the deposit was made, in seconds.
    pub start_timestamp: u64,
    /// How long the principal stays locked, in seconds.
    pub lockup_period: u64,
    /// Rewards credited by distributions and not yet paid out.
    pub claimed_rewards: u128,
}

/// One contribution of the operator to the reward pool.
#[derive(Clone, Copy, Debug, PartialEq, Eq)]
pub struct FundingRecord {
    pub amount: u128,
    pub timestamp: u64,
}

/// What the ledger holds of one staker.
#[derive(Clone, Debug, PartialEq, Eq)]
pub struct StakerInfo {
    /// The staker's records, in the order that indices refer to.
    pub stakes: Vec<StakingRecord>,
    /// All rewards ever paid out to the staker.
    pub total_rewards_claimed: u128,
}

/// A staker's account together with what the ledger holds of it.
#[derive(Clone, Debug, PartialEq, Eq)]
pub struct StakerEntry {
    pub account: String,
    pub info: StakerInfo,
}

/// The reward pool and the log of its fundings.
#[derive(Clone, Debug, PartialEq, Eq)]
pub struct RewardDistribution {
    /// The spendable balance of the pool.
    pub total_reward_pool: u128,
    /// When rewards were last distributed, in seconds.
    pub last_distributed: u64,
    /// Every funding, oldest first.
    pub funding_records: Vec<FundingRecord>,
}

/// The mathematical content of a [`StakerEntry`].
#[verifier::ext_equal]
pub struct StakerView {
    pub account: Seq<char>,
    pub stakes: Seq<StakingRecord>,
    pub total_rewards_claimed: u128,
}

impl View for StakerEntry {
    type V = StakerView;

    open spec fn view(&self) -> StakerView {
        StakerView {
            account: self.account@,
            stakes: self.info.stakes@,
            total_rewards_claimed: self.info.total_rewards_claimed,
        }
    }
}

/// The mathematical content of each entry.
pub open spec fn staker_views(entries: Seq<StakerEntry>) -> Seq<StakerView> {
    Seq::new(entries.len(), |i: int| entries[i]@)
}

impl StakingRecord {
    /// Seconds from the deposit to `now`; negative if `now` lies before it.
    pub open spec fn elapsed(self, now: u64) -> int {
        now - self.start_timestamp
    }

    /// Whether the principal may be withdrawn at `now`.
    pub open spec fn lockup_elapsed(self, now: u64) -> bool {
        self.elapsed(now) >= self.lockup_period
    }

    /// Whether the record takes part in a distribution at `now`.
    pub open spec fn eligible(self, now: u64) -> bool {
        self.elapsed(now) >= ELIGIBILITY_FLOOR
    }

    /// The record's weighted points at `now`: multiplier times principal for
    /// an eligible record, zero otherwise.
    pub open spec fn points(self, weights: WeightTableView, now: u64) -> nat {
        if self.eligible(now) {
            (weights.weight_for(self.elapsed(now)) * self.staked_tokens) as nat
        } else {
            0
        }
    }

    /// The record's part of `release` when all records together have
    /// `total_points`: `release * points / total_points`, rounded down.
    pub open spec fn share(
        self,
        weights: WeightTableView,
        now: u64,
        release: u128,
        total_points: nat,
    ) -> nat {
        mul_div(release as int, self.points(weights, now) as int, total_points as int) as nat
    }

    /// The record with `amount` added to its credited rewards.
    pub open spec fn credited(self, amount: nat) -> StakingRecord {
        StakingRecord { claimed_rewards: (self.claimed_rewards + amount) as u128, ..self }
    }

    /// The record with its credited rewards paid out.
    pub open spec fn settled(self) -> StakingRecord {
        StakingRecord { claimed_rewards: 0, ..self }
    }

    /// Whether the principal may be withdrawn at `now`.
    pub fn is_unlocked(&self, now: u64) -> (unlocked: bool)
        ensures
            unlocked == self.lockup_elapsed(now),
    {
        now >= self.start_timestamp && now - self.start_timestamp >= self.lockup_period
    }

    /// Whether the record takes part in a distribution at `now`.
    pub fn is_eligible(&self, now: u64) -> (eligible: bool)
        ensures
            eligible == self.eligible(now),
    {
        now >= self.start_timestamp && now - self.start_timestamp >= ELIGIBILITY_FLOOR
    }

    /// The record's weighted points at `now`, or `None` where they exceed
    /// `u128::MAX`.
    pub fn weighted_points(&self, weights: &WeightTable, now: u64) -> (points: Option<u128>)
        ensures
            match points {
                Some(p) => p == self.points(weights@, now),
                None => self.points(weights@, now) > u128::MAX,
            },
    {
        if !self.is_eligible(now) {
            return Some(0);
        }
        let multiplier: u64 = weights.weight_for(now - self.start_timestamp);
        (multiplier as u128).checked_mul(self.staked_tokens)
    }
}

} // verus!
