//! The ledger as a mathematical state, and each operation as a pair of
//! functions on it: what the operation answers, and the state it leaves.
//!
//! An operation that is rejected leaves the state as it was.

use vstd::prelude::*;
use crate::DAY;
use crate::records::FundingRecord;
use crate::records::StakerView;
use crate::records::StakingError;
use crate::records::StakingRecord;
use crate::records::DEFAULT_LOCKUP_DAYS;
use crate::sums::sum;
use crate::weights::WeightTableView;

verus! {

/// The principal of each record.
pub open spec fn stake_amounts(stakes: Seq<StakingRecord>) -> Seq<nat> {
    Seq::new(stakes.len(), |j: int| stakes[j].staked_tokens as nat)
}

/// The rewards of each record that are credited and not yet paid out.
pub open spec fn stake_rewards(stakes: Seq<StakingRecord>) -> Seq<nat> {
    Seq::new(stakes.len(), |j: int| stakes[j].claimed_rewards as nat)
}

/// The weighted points of each record at `now`.
pub open spec fn stake_points(
    stakes: Seq<StakingRecord>,
    weights: WeightTableView,
    now: u64,
) -> Seq<nat> {
    Seq::new(stakes.len(), |j: int| stakes[j].points(weights, now))
}

/// Each record's share of `release`.
pub open spec fn stake_shares(
    stakes: Seq<StakingRecord>,
    weights: WeightTableView,
    now: u64,
    release: u128,
    total_points: nat,
) -> Seq<nat> {
    Seq::new(stakes.len(), |j: int| stakes[j].share(weights, now, release, total_points))
}

/// The records, each with its share of `release` credited.
pub open spec fn credit_stakes(
    stakes: Seq<StakingRecord>,
    weights: WeightTableView,
    now: u64,
    release: u128,
    total_points: nat,
) -> Seq<StakingRecord> {
    Seq::new(
        stakes.len(),
        |j: int| stakes[j].credited(stakes[j].share(weights, now, release, total_points)),
    )
}

/// The records without the one at `index`: the last record takes its place.
pub open spec fn swap_remove(stakes: Seq<StakingRecord>, index: int) -> Seq<StakingRecord> {
    stakes.update(index, stakes.last()).drop_last()
}

impl StakerView {
    /// The staker's locked principal.
    pub open spec fn staked(self) -> nat {
        sum(stake_amounts(self.stakes))
    }

    /// The staker's weighted points at `now`.
    pub open spec fn points(self, weights: WeightTableView, now: u64) -> nat {
        sum(stake_points(self.stakes, weights, now))
    }

    /// What a distribution of `release` credits to the staker.
    pub open spec fn shares(
        self,
        weights: WeightTableView,
        now: u64,
        release: u128,
        total_points: nat,
    ) -> nat {
        sum(stake_shares(self.stakes, weights, now, release, total_points))
    }

    /// The staker's rewards that are credited and not yet paid out.
    pub open spec fn unclaimed(self) -> nat {
        sum(stake_rewards(self.stakes))
    }

    /// The staker after a distribution of `release`.
    pub open spec fn credited(
        self,
        weights: WeightTableView,
        now: u64,
        release: u128,
        total_points: nat,
    ) -> StakerView {
        StakerView {
            stakes: credit_stakes(self.stakes, weights, now, release, total_points),
            ..self
        }
    }
}

/// The whole state of the ledger.
#[verifier::ext_equal]
pub struct ContractView {
    /// The operator: funds the pool and triggers distributions.
    pub owner: Seq<char>,
    /// The token ledger whose transfers are accepted.
    pub sin_token: Seq<char>,
    /// The stakers in the order of their first stake.
    pub stakers: Seq<StakerView>,
    /// The principal locked over all stakers.
    pub total_staked: u128,
    /// The spendable balance of the reward pool.
    pub total_reward_pool: u128,
    /// When rewards were last distributed.
    pub last_distributed: u64,
    /// Every funding, oldest first.
    pub funding_records: Seq<FundingRecord>,
    /// The weight table.
    pub weights: WeightTableView,
}

impl ContractView {
    /// The locked principal of each staker.
    pub open spec fn staker_amounts(self) -> Seq<nat> {
        Seq::new(self.stakers.len(), |i: int| self.stakers[i].staked())
    }

    /// The sum of the principal over all surviving records.
    pub open spec fn staked_sum(self) -> nat {
        sum(self.staker_amounts())
    }

    /// The weighted points of each staker at `now`.
    pub open spec fn staker_points(self, now: u64) -> Seq<nat> {
        Seq::new(self.stakers.len(), |i: int| self.stakers[i].points(self.weights, now))
    }

    /// The weighted points of all records at `now`.
    pub open spec fn total_points(self, now: u64) -> nat {
        sum(self.staker_points(now))
    }

    /// What a distribution of `release` at `now` credits to each staker.
    pub open spec fn staker_shares(self, now: u64, release: u128) -> Seq<nat> {
        Seq::new(
            self.stakers.len(),
            |i: int| self.stakers[i].shares(self.weights, now, release, self.total_points(now)),
        )
    }

    /// What a distribution of `release` at `now` credits in all.
    pub open spec fn total_shares(self, now: u64, release: u128) -> nat {
        sum(self.staker_shares(now, release))
    }

    /// The rewards of each staker that are credited and not yet paid out.
    pub open spec fn staker_unclaimed(self) -> Seq<nat> {
        Seq::new(self.stakers.len(), |i: int| self.stakers[i].unclaimed())
    }

    /// All rewards that are credited and not yet paid out.
    pub open spec fn unclaimed_sum(self) -> nat {
        sum(self.staker_unclaimed())
    }

    /// Whether some record is eligible at `now`.
    pub open spec fn some_eligible(self, now: u64) -> bool {
        exists|i: int, j: int|
            0 <= i < self.stakers.len() && 0 <= j < self.stakers[i].stakes.len()
                && #[trigger] self.stakers[i].stakes[j].eligible(now)
    }

    /// Whether crediting some record its share of `release` would overflow.
    pub open spec fn credit_overflows(self, now: u64, release: u128) -> bool {
        exists|i: int, j: int|
            0 <= i < self.stakers.len() && 0 <= j < self.stakers[i].stakes.len()
                && self.stakers[i].stakes[j].claimed_rewards + #[trigger] self.stakers[i].stakes[j].share(
                self.weights,
                now,
                release,
                self.total_points(now),
            ) > u128::MAX
    }

    /// The invariant of the ledger: the weight table is well formed, no
    /// account occurs twice, every record holds a positive principal, and
    /// `total_staked` is the sum of the principal over all records.
    pub open spec fn wf(self) -> bool {
        &&& self.weights.wf()
        &&& forall|i: int, j: int|
            0 <= i < j < self.stakers.len() ==> self.stakers[i].account != self.stakers[j].account
        &&& forall|i: int, j: int|
            0 <= i < self.stakers.len() && 0 <= j < self.stakers[i].stakes.len()
                ==> #[trigger] self.stakers[i].stakes[j].staked_tokens > 0
        &&& self.total_staked == self.staked_sum()
    }

    /// Whether `account` has ever staked.
    pub open spec fn has_staker(self, account: Seq<char>) -> bool {
        exists|i: int| 0 <= i < self.stakers.len() && #[trigger] self.stakers[i].account == account
    }

    /// Where `account` stands among the stakers.
    pub open spec fn position(self, account: Seq<char>) -> int {
        choose|i: int| 0 <= i < self.stakers.len() && #[trigger] self.stakers[i].account == account
    }

    /// The records of `account`; none if it has never staked.
    pub open spec fn stakes_of(self, account: Seq<char>) -> Seq<StakingRecord> {
        if self.has_staker(account) {
            self.stakers[self.position(account)].stakes
        } else {
            Seq::empty()
        }
    }

    /// The state with the staker at `at` holding `stakes`.
    pub open spec fn with_stakes(self, at: int, stakes: Seq<StakingRecord>) -> Seq<StakerView> {
        self.stakers.update(at, StakerView { stakes, ..self.stakers[at] })
    }

    // ---- funding ----

    /// What funding the pool answers. Only the operator funds, and only
    /// through the accepted token ledger.
    pub open spec fn fund_result(
        self,
        caller: Seq<char>,
        sender: Seq<char>,
        amount: u128,
    ) -> Result<(), StakingError> {
        if sender != self.owner || caller != self.sin_token {
            Err(StakingError::Unauthorized)
        } else if amount == 0 {
            Err(StakingError::NonPositiveAmount)
        } else if self.total_reward_pool + amount > u128::MAX {
            Err(StakingError::ArithmeticOverflow)
        } else {
            Ok(())
        }
    }

    /// The state after funding the pool.
    pub open spec fn fund(
        self,
        caller: Seq<char>,
        sender: Seq<char>,
        amount: u128,
        now: u64,
    ) -> ContractView {
        if self.fund_result(caller, sender, amount) is Ok {
            ContractView {
                total_reward_pool: (self.total_reward_pool + amount) as u128,
                funding_records: self.funding_records.push(
                    FundingRecord { amount, timestamp: now },
                ),
                ..self
            }
        } else {
            self
        }
    }

    // ---- staking ----

    /// What staking answers: the index of the new record among the
    /// sender's records.
    pub open spec fn stake_result(
        self,
        caller: Seq<char>,
        sender: Seq<char>,
        amount: u128,
        lockup_days: u64,
    ) -> Result<u64, StakingError> {
        if caller != self.sin_token {
            Err(StakingError::Unauthorized)
        } else if amount == 0 {
            Err(StakingError::NonPositiveAmount)
        } else if lockup_days * DAY > u64::MAX {
            Err(StakingError::ArithmeticOverflow)
        } else if self.total_staked + amount > u128::MAX {
            Err(StakingError::ArithmeticOverflow)
        } else {
            Ok(self.stakes_of(sender).len() as u64)
        }
    }

    /// The state after staking: a new record at the end of the sender's
    /// records, and `total_staked` raised by `amount`.
    pub open spec fn stake(
        self,
        caller: Seq<char>,
        sender: Seq<char>,
        amount: u128,
        lockup_days: u64,
        now: u64,
    ) -> ContractView {
        if self.stake_result(caller, sender, amount, lockup_days) is Ok {
            let record = StakingRecord {
                staked_tokens: amount,
                start_timestamp: now,
                lockup_period: (lockup_days * DAY) as u64,
                claimed_rewards: 0,
            };
            ContractView {
                stakers: if self.has_staker(sender) {
                    let at = self.position(sender);
                    self.with_stakes(at, self.stakers[at].stakes.push(record))
                } else {
                    self.stakers.push(
                        StakerView {
                            account: sender,
                            stakes: seq![record],
                            total_rewards_claimed: 0,
                        },
                    )
                },
                total_staked: (self.total_staked + amount) as u128,
                ..self
            }
        } else {
            self
        }
    }

    // ---- transfer notifications ----

    /// What a transfer notification answers: the amount that is handed
    /// back, which is zero whenever the transfer is accepted.
    pub open spec fn transfer_result(
        self,
        caller: Seq<char>,
        sender: Seq<char>,
        amount: u128,
    ) -> Result<u128, StakingError> {
        if sender == self.owner {
            match self.fund_result(caller, sender, amount) {
                Ok(_) => Ok(0u128),
                Err(e) => Err(e),
            }
        } else {
            match self.stake_result(caller, sender, amount, DEFAULT_LOCKUP_DAYS) {
                Ok(_) => Ok(0u128),
                Err(e) => Err(e),
            }
        }
    }

    /// The state after a transfer notification: a transfer from the operator
    /// funds the pool, any other is staked with the default lockup.
    pub open spec fn on_transfer(
        self,
        caller: Seq<char>,
        sender: Seq<char>,
        amount: u128,
        now: u64,
    ) -> ContractView {
        if sender == self.owner {
            self.fund(caller, sender, amount, now)
        } else {
            self.stake(caller, sender, amount, DEFAULT_LOCKUP_DAYS, now)
        }
    }

    // ---- claiming ----

    /// What claiming answers: the rewards to pay out to the caller.
    pub open spec fn claim_result(self, caller: Seq<char>, index: u64) -> Result<
        u128,
        StakingError,
    > {
        let stakes = self.stakes_of(caller);
        if !self.has_staker(caller) {
            Err(StakingError::StakerNotFound)
        } else if index >= stakes.len() {
            Err(StakingError::InvalidRecordIndex)
        } else if stakes[index as int].claimed_rewards == 0 {
            Err(StakingError::NothingToClaim)
        } else if self.stakers[self.position(caller)].total_rewards_claimed
            + stakes[index as int].claimed_rewards > u128::MAX {
            Err(StakingError::ArithmeticOverflow)
        } else {
            Ok(stakes[index as int].claimed_rewards)
        }
    }

    /// The state after claiming: the record's credited rewards are zero and
    /// the staker's claimed total has grown by them. The record stays.
    pub open spec fn claim(self, caller: Seq<char>, index: u64) -> ContractView {
        if self.claim_result(caller, index) is Ok {
            let at = self.position(caller);
            let staker = self.stakers[at];
            ContractView {
                stakers: self.stakers.update(
                    at,
                    StakerView {
                        stakes: staker.stakes.update(
                            index as int,
                            staker.stakes[index as int].settled(),
                        ),
                        total_rewards_claimed: (staker.total_rewards_claimed
                            + staker.stakes[index as int].claimed_rewards) as u128,
                        ..staker
                    },
                ),
                ..self
            }
        } else {
            self
        }
    }

    // ---- unstaking ----

    /// What unstaking answers: the principal to pay back to the caller.
    pub open spec fn unstake_result(self, caller: Seq<char>, index: u64, now: u64) -> Result<
        u128,
        StakingError,
    > {
        let stakes = self.stakes_of(caller);
        if !self.has_staker(caller) {
            Err(StakingError::StakerNotFound)
        } else if index >= stakes.len() {
            Err(StakingError::InvalidRecordIndex)
        } else if !stakes[index as int].lockup_elapsed(now) {
            Err(StakingError::LockupNotElapsed)
        } else {
            Ok(stakes[index as int].staked_tokens)
        }
    }

    /// The state after unstaking: the record is gone, the caller's last
    /// record stands in its place, and `total_staked` has dropped by the
    /// record's principal.
    pub open spec fn unstake(self, caller: Seq<char>, index: u64, now: u64) -> ContractView {
        if self.unstake_result(caller, index, now) is Ok {
            let at = self.position(caller);
            let stakes = self.stakers[at].stakes;
            ContractView {
                stakers: self.with_stakes(at, swap_remove(stakes, index as int)),
                total_staked: (self.total_staked - stakes[index as int].staked_tokens) as u128,
                ..self
            }
        } else {
            self
        }
    }

    // ---- distribution ----

    /// What a distribution answers: `Ok(true)` if rewards were credited,
    /// `Ok(false)` if no record has points, so that nothing was done.
    pub open spec fn distribute_result(self, caller: Seq<char>, release: u128, now: u64) -> Result<
        bool,
        StakingError,
    > {
        if caller != self.owner {
            Err(StakingError::Unauthorized)
        } else if release > self.total_reward_pool {
            Err(StakingError::InsufficientPool)
        } else if self.total_points(now) > u128::MAX {
            Err(StakingError::ArithmeticOverflow)
        } else if self.total_points(now) == 0 {
            Ok(false)
        } else if self.credit_overflows(now, release) {
            Err(StakingError::ArithmeticOverflow)
        } else {
            Ok(true)
        }
    }

    /// The state after a distribution: every record has its share credited,
    /// the pool has dropped by `release`, and the time is noted.
    pub open spec fn distribute(self, caller: Seq<char>, release: u128, now: u64) -> ContractView {
        if self.distribute_result(caller, release, now) == Ok::<bool, StakingError>(true) {
            ContractView {
                stakers: Seq::new(
                    self.stakers.len(),
                    |i: int|
                        self.stakers[i].credited(
                            self.weights,
                            now,
                            release,
                            self.total_points(now),
                        ),
                ),
                total_reward_pool: (self.total_reward_pool - release) as u128,
                last_distributed: now,
                ..self
            }
        } else {
            self
        }
    }
}

} // verus!
