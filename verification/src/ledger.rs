//! The stake ledger and the funding log: staking, claiming, unstaking,
//! funding, and the routing of transfer notifications.
//!
//! Claiming does not depend on the lockup: rewards that a distribution has
//! credited can be claimed at once. Unstaking pays back the principal only;
//! rewards still credited to the record go with the record, so a staker
//! claims before unstaking.

use vstd::prelude::*;
use crate::DAY;
use crate::contract::StakingContract;
use crate::laws::lemma_claim_preserves_wf;
use crate::laws::lemma_fund_preserves_wf;
use crate::laws::lemma_stake_preserves_wf;
use crate::laws::lemma_unstake_preserves_wf;
use crate::records::FundingRecord;
use crate::records::StakerEntry;
use crate::records::StakerInfo;
use crate::records::StakingError;
use crate::records::StakingRecord;
use crate::records::DEFAULT_LOCKUP_DAYS;

verus! {

impl StakingContract {
    /// Adds `amount` to the reward pool and notes it in the funding log.
    ///
    /// `sender` is the account whose tokens arrived, `caller` the token
    /// ledger that reports them. Only the operator funds the pool, and only
    /// with the accepted token.
    pub fn fund(&mut self, caller: &str, sender: &str, amount: u128, now: u64) -> (result: Result<
        (),
        StakingError,
    >)
        requires
            old(self)@.wf(),
        ensures
            final(self)@.wf(),
            final(self)@ == old(self)@.fund(caller@, sender@, amount, now),
            result == old(self)@.fund_result(caller@, sender@, amount),
    {
        let ghost before = self@;
        let caller: String = caller.to_owned();
        let sender: String = sender.to_owned();
        if sender != self.owner || caller != self.sin_token {
            return Err(StakingError::Unauthorized);
        }
        if amount == 0 {
            return Err(StakingError::NonPositiveAmount);
        }
        let pool: u128 = match self.reward_distribution.total_reward_pool.checked_add(amount) {
            Some(p) => p,
            None => {
                return Err(StakingError::ArithmeticOverflow);
            },
        };
        self.reward_distribution.total_reward_pool = pool;
        self.reward_distribution.funding_records.push(FundingRecord { amount, timestamp: now });
        proof {
            lemma_fund_preserves_wf(before, caller@, sender@, amount, now);
            assert(self@ =~= before.fund(caller@, sender@, amount, now));
        }
        Ok(())
    }

    /// Locks `amount` tokens of `sender_id` for `lockup_days` days in a new
    /// record, and answers with the record's index among the sender's
    /// records. A stake is never merged with an earlier one.
    ///
    /// `caller` is the token ledger that reports the tokens; only the
    /// accepted token is staked.
    pub fn stake_tokens(
        &mut self,
        caller: &str,
        sender_id: &str,
        amount: u128,
        lockup_days: u64,
        now: u64,
    ) -> (result: Result<u64, StakingError>)
        requires
            old(self)@.wf(),
        ensures
            final(self)@.wf(),
            final(self)@ == old(self)@.stake(caller@, sender_id@, amount, lockup_days, now),
            result == old(self)@.stake_result(caller@, sender_id@, amount, lockup_days),
    {
        let ghost before = self@;
        let caller: String = caller.to_owned();
        if caller != self.sin_token {
            return Err(StakingError::Unauthorized);
        }
        if amount == 0 {
            return Err(StakingError::NonPositiveAmount);
        }
        let lockup_period: u64 = match lockup_days.checked_mul(DAY) {
            Some(p) => p,
            None => {
                return Err(StakingError::ArithmeticOverflow);
            },
        };
        let total: u128 = match self.total_staked.checked_add(amount) {
            Some(t) => t,
            None => {
                return Err(StakingError::ArithmeticOverflow);
            },
        };
        let record = StakingRecord {
            staked_tokens: amount,
            start_timestamp: now,
            lockup_period,
            claimed_rewards: 0,
        };
        let sender: String = sender_id.to_owned();
        let index: u64 = match self.find_staker(&sender) {
            Some(at) => {
                let index: u64 = self.stakers[at].info.stakes.len() as u64;
                self.stakers[at].info.stakes.push(record);
                index
            },
            None => {
                let mut stakes: Vec<StakingRecord> = Vec::new();
                stakes.push(record);
                self.stakers.push(
                    StakerEntry {
                        account: sender,
                        info: StakerInfo { stakes, total_rewards_claimed: 0 },
                    },
                );
                0
            },
        };
        self.total_staked = total;
        proof {
            lemma_stake_preserves_wf(before, caller@, sender_id@, amount, lockup_days, now);
            assert(self@ =~= before.stake(caller@, sender_id@, amount, lockup_days, now));
        }
        Ok(index)
    }

    /// Takes note of a transfer of `amount` tokens from `sender_id` that the
    /// token ledger `caller` reports: a transfer from the operator funds the
    /// reward pool, any other is staked with the default lockup.
    ///
    /// Answers with the amount to hand back to the sender, which is zero:
    /// a transfer is accepted whole or rejected.
    pub fn ft_on_transfer(
        &mut self,
        caller: &str,
        sender_id: &str,
        amount: u128,
        msg: &str,
        now: u64,
    ) -> (result: Result<u128, StakingError>)
        requires
            old(self)@.wf(),
        ensures
            final(self)@.wf(),
            final(self)@ == old(self)@.on_transfer(caller@, sender_id@, amount, now),
            result == old(self)@.transfer_result(caller@, sender_id@, amount),
    {
        let sender: String = sender_id.to_owned();
        if sender == self.owner {
            match self.fund(caller, sender_id, amount, now) {
                Ok(_) => Ok(0),
                Err(e) => Err(e),
            }
        } else {
            match self.stake_tokens(caller, sender_id, amount, DEFAULT_LOCKUP_DAYS, now) {
                Ok(_) => Ok(0),
                Err(e) => Err(e),
            }
        }
    }

    /// Pays out the rewards credited to the caller's record at
    /// `stake_index`: answers with the amount to transfer to the caller,
    /// sets the record's credited rewards to zero and adds the amount to the
    /// caller's claimed total. The record stays.
    pub fn claim_reward(&mut self, caller: &str, stake_index: u64) -> (result: Result<
        u128,
        StakingError,
    >)
        requires
            old(self)@.wf(),
        ensures
            final(self)@.wf(),
            final(self)@ == old(self)@.claim(caller@, stake_index),
            result == old(self)@.claim_result(caller@, stake_index),
    {
        let ghost before = self@;
        let caller: String = caller.to_owned();
        let at: usize = match self.find_staker(&caller) {
            Some(at) => at,
            None => {
                return Err(StakingError::StakerNotFound);
            },
        };
        if stake_index >= self.stakers[at].info.stakes.len() as u64 {
            return Err(StakingError::InvalidRecordIndex);
        }
        let index: usize = stake_index as usize;
        let rewards: u128 = self.stakers[at].info.stakes[index].claimed_rewards;
        if rewards == 0 {
            return Err(StakingError::NothingToClaim);
        }
        let claimed: u128 = match self.stakers[at].info.total_rewards_claimed.checked_add(rewards) {
            Some(c) => c,
            None => {
                return Err(StakingError::ArithmeticOverflow);
            },
        };
        self.stakers[at].info.stakes[index].claimed_rewards = 0;
        self.stakers[at].info.total_rewards_claimed = claimed;
        proof {
            lemma_claim_preserves_wf(before, caller@, stake_index);
            assert(self@ =~= before.claim(caller@, stake_index));
        }
        Ok(rewards)
    }

    /// Removes the caller's record at `stake_index` once its lockup has
    /// passed, and answers with the principal to transfer to the caller.
    ///
    /// The caller's last record takes the place of the removed one, so the
    /// index of that record changes: indices do not outlive an unstake.
    pub fn unstake_tokens(&mut self, caller: &str, stake_index: u64, now: u64) -> (result: Result<
        u128,
        StakingError,
    >)
        requires
            old(self)@.wf(),
        ensures
            final(self)@.wf(),
            final(self)@ == old(self)@.unstake(caller@, stake_index, now),
            result == old(self)@.unstake_result(caller@, stake_index, now),
    {
        let ghost before = self@;
        let caller: String = caller.to_owned();
        let at: usize = match self.find_staker(&caller) {
            Some(at) => at,
            None => {
                return Err(StakingError::StakerNotFound);
            },
        };
        if stake_index >= self.stakers[at].info.stakes.len() as u64 {
            return Err(StakingError::InvalidRecordIndex);
        }
        let index: usize = stake_index as usize;
        if !self.stakers[at].info.stakes[index].is_unlocked(now) {
            return Err(StakingError::LockupNotElapsed);
        }
        proof {
            lemma_unstake_preserves_wf(before, caller@, stake_index, now);
        }
        let record: StakingRecord = self.stakers[at].info.stakes.swap_remove(index);
        self.total_staked = self.total_staked - record.staked_tokens;
        proof {
            assert(self@ =~= before.unstake(caller@, stake_index, now));
        }
        Ok(record.staked_tokens)
    }
}

} // verus!
