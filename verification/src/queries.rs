//! Read-only views of the ledger: the funding log, the pool, a staker's
//! records and totals, and the check of the ledger's invariant.

use vstd::prelude::*;
use crate::DAY;
use crate::MONTH;
use crate::arith::mul_div;
use crate::arith::mul_div_floor;
use crate::contract::StakingContract;
use crate::model::stake_amounts;
use crate::model::stake_rewards;
use crate::model::ContractView;
use crate::records::FundingRecord;
use crate::records::StakingError;
use crate::records::StakingRecord;
use crate::sums::lemma_sum_bounds_element;
use crate::sums::lemma_sum_prefix_le;
use crate::sums::lemma_sum_take_ends;
use crate::sums::lemma_sum_take_next;
use crate::sums::sum;

verus! {

/// How many units of the estimated rate make the whole: the rate is given in
/// hundredths of a percent.
pub const APR_SCALE: u128 = 10000;

/// What the ledger holds of one staker, with the totals over the records.
#[derive(Clone, Debug, PartialEq, Eq)]
pub struct UserRewards {
    /// The sum of the principal over the staker's records.
    pub total_staked_tokens: u128,
    /// All rewards ever paid out to the staker.
    pub total_claimed_rewards: u128,
    /// The sum of the rewards credited to the records and not yet paid out.
    pub total_unclaimed_rewards: u128,
    /// The staker's records.
    pub stake_details: Vec<StakingRecord>,
}

impl ContractView {
    /// Whole days from `now` until a month has passed since the last
    /// distribution; zero once it has.
    pub open spec fn days_to_next_distribution(self, now: u64) -> int {
        if self.last_distributed + MONTH > now {
            (self.last_distributed + MONTH - now) / (DAY as int)
        } else {
            0
        }
    }

    /// The reward pool in hundredths of a percent of the locked principal,
    /// rounded down; zero where the pool or the ledger is empty.
    pub open spec fn estimated_apr(self) -> int {
        if self.total_reward_pool == 0 || self.total_staked == 0 {
            0
        } else {
            mul_div(self.total_reward_pool as int, APR_SCALE as int, self.total_staked as int)
        }
    }
}

/// A copy of `records`.
fn copy_stakes(records: &Vec<StakingRecord>) -> (copy: Vec<StakingRecord>)
    ensures
        copy@ == records@,
{
    let n: usize = records.len();
    let mut copy: Vec<StakingRecord> = Vec::new();
    let mut j: usize = 0;
    while j < n
        invariant
            j <= n,
            n == records@.len(),
            copy@ == records@.take(j as int),
        decreases n - j,
    {
        copy.push(records[j]);
        assert(records@.take(j + 1) =~= records@.take(j as int).push(records@[j as int]));
        j += 1;
    }
    assert(records@.take(n as int) =~= records@);
    copy
}

/// The sums of the principal and of the credited rewards over `records`;
/// `None` for a sum that exceeds `u128::MAX`.
fn sum_stakes(records: &Vec<StakingRecord>) -> (sums: (Option<u128>, Option<u128>))
    ensures
        match sums.0 {
            Some(staked) => staked == sum(stake_amounts(records@)),
            None => sum(stake_amounts(records@)) > u128::MAX,
        },
        match sums.1 {
            Some(rewards) => rewards == sum(stake_rewards(records@)),
            None => sum(stake_rewards(records@)) > u128::MAX,
        },
{
    let ghost amounts = stake_amounts(records@);
    let ghost rewards = stake_rewards(records@);
    let n: usize = records.len();
    let mut staked: Option<u128> = Some(0);
    let mut unclaimed: Option<u128> = Some(0);
    let mut j: usize = 0;
    proof {
        lemma_sum_take_ends(amounts);
        lemma_sum_take_ends(rewards);
    }
    while j < n
        invariant
            j <= n,
            n == records@.len(),
            amounts == stake_amounts(records@),
            rewards == stake_rewards(records@),
            match staked {
                Some(s) => s == sum(amounts.take(j as int)),
                None => sum(amounts) > u128::MAX,
            },
            match unclaimed {
                Some(u) => u == sum(rewards.take(j as int)),
                None => sum(rewards) > u128::MAX,
            },
        decreases n - j,
    {
        proof {
            lemma_sum_take_next(amounts, j as int);
            lemma_sum_prefix_le(amounts, j + 1);
            lemma_sum_take_next(rewards, j as int);
            lemma_sum_prefix_le(rewards, j + 1);
        }
        let record = records[j];
        staked = match staked {
            Some(s) => s.checked_add(record.staked_tokens),
            None => None,
        };
        unclaimed = match unclaimed {
            Some(u) => u.checked_add(record.claimed_rewards),
            None => None,
        };
        j += 1;
    }
    proof {
        lemma_sum_take_ends(amounts);
        lemma_sum_take_ends(rewards);
    }
    (staked, unclaimed)
}

impl StakingContract {
    /// The funding log, oldest funding first.
    pub fn get_funding_records(&self) -> (records: Vec<FundingRecord>)
        ensures
            records@ == self@.funding_records,
    {
        let log = &self.reward_distribution.funding_records;
        let n: usize = log.len();
        let mut records: Vec<FundingRecord> = Vec::new();
        let mut k: usize = 0;
        while k < n
            invariant
                k <= n,
                n == log@.len(),
                records@ == log@.take(k as int),
            decreases n - k,
        {
            records.push(log[k]);
            assert(log@.take(k + 1) =~= log@.take(k as int).push(log@[k as int]));
            k += 1;
        }
        assert(log@.take(n as int) =~= log@);
        records
    }

    /// The funding log, oldest funding first.
    pub fn get_funding_details(&self) -> (records: Vec<FundingRecord>)
        ensures
            records@ == self@.funding_records,
    {
        self.get_funding_records()
    }

    /// The multiplier, in tenths, for a stake held for `elapsed` seconds.
    pub fn get_staking_weight(&self, elapsed: u64) -> (multiplier: u64)
        ensures
            multiplier == self@.weights.weight_for(elapsed as int),
    {
        self.staking_weight.weight_for(elapsed)
    }

    /// The records of `staker_id`, in the order that indices refer to.
    pub fn get_staking_info(&self, staker_id: &str) -> (result: Result<
        Vec<StakingRecord>,
        StakingError,
    >)
        requires
            self@.wf(),
        ensures
            match result {
                Ok(records) => self@.has_staker(staker_id@) && records@ == self@.stakes_of(
                    staker_id@,
                ),
                Err(e) => e == StakingError::StakerNotFound && !self@.has_staker(staker_id@),
            },
    {
        let staker: String = staker_id.to_owned();
        match self.find_staker(&staker) {
            Some(at) => Ok(copy_stakes(&self.stakers[at].info.stakes)),
            None => Err(StakingError::StakerNotFound),
        }
    }

    /// Whole days from `now` until a month has passed since the last
    /// distribution; zero once it has.
    pub fn get_next_reward_distribution(&self, now: u64) -> (days: u64)
        ensures
            days == self@.days_to_next_distribution(now),
    {
        let next: u128 = self.reward_distribution.last_distributed as u128 + MONTH as u128;
        if next > now as u128 {
            let days: u128 = (next - now as u128) / (DAY as u128);
            assert(DAY == 86400 && MONTH == 2592000);
            assert(days == (next - now) / 86400);
            days as u64
        } else {
            0
        }
    }

    /// When rewards were last distributed.
    pub fn get_last_reward_distribution(&self) -> (at: u64)
        ensures
            at == self@.last_distributed,
    {
        self.reward_distribution.last_distributed
    }

    /// The spendable balance of the reward pool.
    pub fn get_available_reward(&self) -> (pool: u128)
        ensures
            pool == self@.total_reward_pool,
    {
        self.reward_distribution.total_reward_pool
    }

    /// The reward pool in hundredths of a percent of the locked principal,
    /// rounded down; zero where the pool or the ledger is empty. `None`
    /// where the rate exceeds `u128::MAX`.
    ///
    /// The rate informs; no distribution depends on it.
    pub fn calculate_current_apr(&self) -> (rate: Option<u128>)
        ensures
            match rate {
                Some(r) => r == self@.estimated_apr(),
                None => self@.estimated_apr() > u128::MAX,
            },
    {
        let pool: u128 = self.reward_distribution.total_reward_pool;
        if pool == 0 || self.total_staked == 0 {
            return Some(0);
        }
        mul_div_floor(pool, APR_SCALE, self.total_staked)
    }

    /// The records of `staker_id` with the totals over them.
    pub fn get_user_rewards(&self, staker_id: &str) -> (result: Result<UserRewards, StakingError>)
        requires
            self@.wf(),
        ensures
            match result {
                Ok(rewards) => {
                    let staker = self@.stakers[self@.position(staker_id@)];
                    &&& self@.has_staker(staker_id@)
                    &&& rewards.total_staked_tokens == staker.staked()
                    &&& rewards.total_claimed_rewards == staker.total_rewards_claimed
                    &&& rewards.total_unclaimed_rewards == staker.unclaimed()
                    &&& rewards.stake_details@ == staker.stakes
                },
                Err(e) => if self@.has_staker(staker_id@) {
                    e == StakingError::ArithmeticOverflow && self@.stakers[self@.position(
                        staker_id@,
                    )].unclaimed() > u128::MAX
                } else {
                    e == StakingError::StakerNotFound
                },
            },
    {
        let staker: String = staker_id.to_owned();
        let at: usize = match self.find_staker(&staker) {
            Some(at) => at,
            None => {
                return Err(StakingError::StakerNotFound);
            },
        };
        let info = &self.stakers[at].info;
        proof {
            lemma_sum_bounds_element(self@.staker_amounts(), at as int);
        }
        let (staked, unclaimed) = sum_stakes(&info.stakes);
        match unclaimed {
            Some(total_unclaimed_rewards) => Ok(
                UserRewards {
                    total_staked_tokens: staked.unwrap(),
                    total_claimed_rewards: info.total_rewards_claimed,
                    total_unclaimed_rewards,
                    stake_details: copy_stakes(&info.stakes),
                },
            ),
            None => Err(StakingError::ArithmeticOverflow),
        }
    }

    /// Whether the state is a well-formed ledger: the weight table is well
    /// formed, no account occurs twice, every record holds a positive
    /// principal, and `total_staked` is the sum of the principal over all
    /// records.
    pub fn is_well_formed(&self) -> (ok: bool)
        ensures
            ok == self@.wf(),
    {
        if !self.staking_weight.is_well_formed() {
            return false;
        }
        let ghost m = self@;
        let ghost amounts = m.staker_amounts();
        let n: usize = self.stakers.len();
        let mut acc: u128 = 0;
        let mut i: usize = 0;
        proof {
            lemma_sum_take_ends(amounts);
        }
        while i < n
            invariant
                i <= n,
                n == self.stakers@.len(),
                m == self@,
                amounts == m.staker_amounts(),
                m.weights.wf(),
                forall|a: int, b: int| 0 <= a < b < i ==> m.stakers[a].account != m.stakers[b].account,
                forall|a: int, j: int|
                    0 <= a < i && 0 <= j < m.stakers[a].stakes.len()
                        ==> #[trigger] m.stakers[a].stakes[j].staked_tokens > 0,
                acc == sum(amounts.take(i as int)),
            decreases n - i,
        {
            let entry = &self.stakers[i];
            let mut k: usize = 0;
            while k < i
                invariant
                    k <= i,
                    i < n,
                    n == self.stakers@.len(),
                    m == self@,
                    *entry == self.stakers@[i as int],
                    forall|a: int| 0 <= a < k ==> m.stakers[a].account != m.stakers[i as int].account,
                decreases i - k,
            {
                if self.stakers[k].account == entry.account {
                    assert(m.stakers[k as int].account == m.stakers[i as int].account);
                    return false;
                }
                k += 1;
            }
            let records = &entry.info.stakes;
            let mut j: usize = 0;
            while j < records.len()
                invariant
                    j <= records@.len(),
                    i < n,
                    n == self.stakers@.len(),
                    m == self@,
                    records@ == m.stakers[i as int].stakes,
                    forall|b: int| 0 <= b < j ==> #[trigger] records@[b].staked_tokens > 0,
                decreases records@.len() - j,
            {
                if records[j].staked_tokens == 0 {
                    assert(!(m.stakers[i as int].stakes[j as int].staked_tokens > 0));
                    return false;
                }
                j += 1;
            }
            proof {
                lemma_sum_take_next(amounts, i as int);
                lemma_sum_prefix_le(amounts, i + 1);
            }
            let (staked, _) = sum_stakes(records);
            acc = match staked {
                Some(s) => match acc.checked_add(s) {
                    Some(t) => t,
                    None => {
                        return false;
                    },
                },
                None => {
                    proof {
                        lemma_sum_bounds_element(amounts, i as int);
                    }
                    return false;
                },
            };
            i += 1;
        }
        proof {
            lemma_sum_take_ends(amounts);
        }
        acc == self.total_staked
    }
}

} // verus!
