//! The distribution engine: apportions a released amount over the eligible
//! stake records in proportion to their weighted points.
//!
//! A distribution first totals the points of all records, then computes the
//! new state beside the old one, and replaces the old one only when every
//! share has been credited: a distribution that is rejected changes nothing.

use vstd::prelude::*;
use crate::arith::lemma_mul_div_bounded;
use crate::arith::mul_div_floor;
use crate::contract::StakingContract;
use crate::laws::lemma_distribute_preserves_wf;
use crate::laws::lemma_total_shares_bounded;
use crate::model::credit_stakes;
use crate::model::stake_points;
use crate::model::stake_shares;
use crate::model::ContractView;
use crate::records::staker_views;
use crate::records::StakerEntry;
use crate::records::StakerInfo;
use crate::records::StakingError;
use crate::records::StakingRecord;
use crate::sums::lemma_sum_bounds_element;
use crate::sums::lemma_sum_prefix_le;
use crate::sums::lemma_sum_take_ends;
use crate::sums::lemma_sum_take_next;
use crate::sums::sum;
use crate::weights::WeightTable;

verus! {

/// How a distribution that was not rejected ended.
#[derive(Clone, Debug, PartialEq, Eq)]
pub enum DistributionOutcome {
    /// No record had points: nothing was released and nothing changed.
    NoEligibleStake,
    /// Rewards were credited.
    Distributed {
        /// What was credited to each record: `credits[i][j]` went to record
        /// `j` of the staker at position `i`.
        credits: Vec<Vec<u128>>,
        /// The sum of all credits; at most the amount released.
        total_credited: u128,
    },
}

/// Whether `credits` holds, record by record, the shares of a distribution of
/// `release` at `now` in the state `m`.
pub open spec fn credits_match(
    credits: Seq<Vec<u128>>,
    m: ContractView,
    now: u64,
    release: u128,
) -> bool {
    &&& credits.len() == m.stakers.len()
    &&& forall|i: int|
        0 <= i < m.stakers.len() ==> (#[trigger] credits[i])@.len() == m.stakers[i].stakes.len()
    &&& forall|i: int, j: int|
        0 <= i < m.stakers.len() && 0 <= j < m.stakers[i].stakes.len() ==> #[trigger] credits[i]@[j]
            == m.stakers[i].stakes[j].share(m.weights, now, release, m.total_points(now))
}

impl DistributionOutcome {
    /// Whether the outcome is what a distribution of `release` at `now`
    /// yields in the state `m`.
    pub open spec fn describes(self, m: ContractView, now: u64, release: u128) -> bool {
        match self {
            DistributionOutcome::NoEligibleStake => m.total_points(now) == 0,
            DistributionOutcome::Distributed { credits, total_credited } => {
                &&& m.total_points(now) > 0
                &&& credits_match(credits@, m, now, release)
                &&& total_credited == m.total_shares(now, release)
                &&& total_credited <= release
            },
        }
    }
}

/// The sum of the points of `stakes` at `now`, or `None` where it exceeds
/// `u128::MAX`.
fn sum_points(stakes: &Vec<StakingRecord>, weights: &WeightTable, now: u64) -> (total: Option<u128>)
    ensures
        match total {
            Some(t) => t == sum(stake_points(stakes@, weights@, now)),
            None => sum(stake_points(stakes@, weights@, now)) > u128::MAX,
        },
{
    let ghost points = stake_points(stakes@, weights@, now);
    let n: usize = stakes.len();
    let mut acc: u128 = 0;
    let mut j: usize = 0;
    proof {
        lemma_sum_take_ends(points);
    }
    while j < n
        invariant
            j <= n,
            n == stakes@.len(),
            points == stake_points(stakes@, weights@, now),
            acc == sum(points.take(j as int)),
        decreases n - j,
    {
        proof {
            lemma_sum_take_next(points, j as int);
            lemma_sum_prefix_le(points, j + 1);
            lemma_sum_bounds_element(points, j as int);
        }
        let p: u128 = match stakes[j].weighted_points(weights, now) {
            Some(p) => p,
            None => {
                return None;
            },
        };
        acc = match acc.checked_add(p) {
            Some(s) => s,
            None => {
                return None;
            },
        };
        j += 1;
    }
    proof {
        lemma_sum_take_ends(points);
    }
    Some(acc)
}

/// The records with their shares of `release` credited, the shares, and the
/// sum of the shares; `None` where crediting some record would overflow.
fn credit_records(
    stakes: &Vec<StakingRecord>,
    weights: &WeightTable,
    now: u64,
    release: u128,
    total: u128,
) -> (out: Option<(Vec<StakingRecord>, Vec<u128>, u128)>)
    requires
        total > 0,
        sum(stake_points(stakes@, weights@, now)) <= total,
    ensures
        match out {
            Some((credited, shares, subtotal)) => {
                &&& credited@ == credit_stakes(stakes@, weights@, now, release, total as nat)
                &&& shares@.len() == stakes@.len()
                &&& forall|j: int|
                    0 <= j < stakes@.len() ==> #[trigger] shares@[j] == stakes@[j].share(
                        weights@,
                        now,
                        release,
                        total as nat,
                    )
                &&& subtotal == sum(stake_shares(stakes@, weights@, now, release, total as nat))
                &&& forall|j: int|
                    0 <= j < stakes@.len() ==> stakes@[j].claimed_rewards + #[trigger] stakes@[j].share(
                        weights@,
                        now,
                        release,
                        total as nat,
                    ) <= u128::MAX
            },
            None => exists|j: int|
                0 <= j < stakes@.len() && stakes@[j].claimed_rewards + #[trigger] stakes@[j].share(
                    weights@,
                    now,
                    release,
                    total as nat,
                ) > u128::MAX,
        },
{
    let ghost points = stake_points(stakes@, weights@, now);
    let ghost parts = stake_shares(stakes@, weights@, now, release, total as nat);
    let n: usize = stakes.len();
    let mut credited: Vec<StakingRecord> = Vec::new();
    let mut shares: Vec<u128> = Vec::new();
    let mut subtotal: u128 = 0;
    let mut j: usize = 0;
    proof {
        lemma_sum_take_ends(parts);
        crate::sums::lemma_sum_of_shares(points, parts, release as nat, total as nat);
        crate::arith::lemma_mul_div_monotone(
            release as int,
            sum(points) as int,
            total as int,
            total as int,
        );
        lemma_mul_div_bounded(release as int, total as int, total as int);
    }
    while j < n
        invariant
            j <= n,
            n == stakes@.len(),
            total > 0,
            points == stake_points(stakes@, weights@, now),
            parts == stake_shares(stakes@, weights@, now, release, total as nat),
            sum(points) <= total,
            sum(parts) <= release,
            credited@.len() == j,
            shares@.len() == j,
            forall|k: int|
                0 <= k < j ==> #[trigger] credited@[k] == stakes@[k].credited(
                    stakes@[k].share(weights@, now, release, total as nat),
                ),
            forall|k: int|
                0 <= k < j ==> #[trigger] shares@[k] == stakes@[k].share(
                    weights@,
                    now,
                    release,
                    total as nat,
                ),
            forall|k: int|
                0 <= k < j ==> stakes@[k].claimed_rewards + #[trigger] stakes@[k].share(
                    weights@,
                    now,
                    release,
                    total as nat,
                ) <= u128::MAX,
            subtotal == sum(parts.take(j as int)),
        decreases n - j,
    {
        let record = stakes[j];
        proof {
            lemma_sum_bounds_element(points, j as int);
            lemma_mul_div_bounded(
                release as int,
                record.points(weights@, now) as int,
                total as int,
            );
            lemma_sum_take_next(parts, j as int);
            lemma_sum_prefix_le(parts, j + 1);
        }
        let p: u128 = record.weighted_points(weights, now).unwrap();
        let share: u128 = mul_div_floor(release, p, total).unwrap();
        assert(share == record.share(weights@, now, release, total as nat));
        let rewards: u128 = match record.claimed_rewards.checked_add(share) {
            Some(r) => r,
            None => {
                return None;
            },
        };
        credited.push(
            StakingRecord {
                staked_tokens: record.staked_tokens,
                start_timestamp: record.start_timestamp,
                lockup_period: record.lockup_period,
                claimed_rewards: rewards,
            },
        );
        shares.push(share);
        subtotal = subtotal + share;
        j += 1;
    }
    proof {
        lemma_sum_take_ends(parts);
        assert(credited@ =~= credit_stakes(stakes@, weights@, now, release, total as nat));
    }
    Some((credited, shares, subtotal))
}

impl StakingContract {
    /// The weighted points of all records at `now`, or `None` where they
    /// exceed `u128::MAX`.
    fn sum_all_points(&self, now: u64) -> (total: Option<u128>)
        ensures
            match total {
                Some(t) => t == self@.total_points(now),
                None => self@.total_points(now) > u128::MAX,
            },
    {
        let ghost points = self@.staker_points(now);
        let n: usize = self.stakers.len();
        let mut acc: u128 = 0;
        let mut i: usize = 0;
        proof {
            lemma_sum_take_ends(points);
        }
        while i < n
            invariant
                i <= n,
                n == self.stakers@.len(),
                points == self@.staker_points(now),
                acc == sum(points.take(i as int)),
            decreases n - i,
        {
            proof {
                lemma_sum_take_next(points, i as int);
                lemma_sum_prefix_le(points, i + 1);
                lemma_sum_bounds_element(points, i as int);
            }
            let p: u128 = match sum_points(&self.stakers[i].info.stakes, &self.staking_weight, now) {
                Some(p) => p,
                None => {
                    return None;
                },
            };
            acc = match acc.checked_add(p) {
                Some(s) => s,
                None => {
                    return None;
                },
            };
            i += 1;
        }
        proof {
            lemma_sum_take_ends(points);
        }
        Some(acc)
    }

    /// The stakers after a distribution of `release`, what was credited to
    /// each record, and the sum of it; `None` where crediting some record
    /// would overflow.
    fn credit_stakers(&self, now: u64, release: u128, total: u128) -> (out: Option<
        (Vec<StakerEntry>, Vec<Vec<u128>>, u128),
    >)
        requires
            total > 0,
            total == self@.total_points(now),
        ensures
            match out {
                Some((stakers, credits, credited)) => {
                    &&& !self@.credit_overflows(now, release)
                    &&& staker_views(stakers@) == Seq::new(
                        self@.stakers.len(),
                        |i: int| self@.stakers[i].credited(self@.weights, now, release, total as nat),
                    )
                    &&& credits_match(credits@, self@, now, release)
                    &&& credited == self@.total_shares(now, release)
                },
                None => self@.credit_overflows(now, release),
            },
    {
        let ghost m = self@;
        let ghost parts = m.staker_shares(now, release);
        let n: usize = self.stakers.len();
        let mut stakers: Vec<StakerEntry> = Vec::new();
        let mut credits: Vec<Vec<u128>> = Vec::new();
        let mut credited: u128 = 0;
        let mut i: usize = 0;
        proof {
            lemma_sum_take_ends(parts);
            lemma_total_shares_bounded(m, now, release);
        }
        while i < n
            invariant
                i <= n,
                n == self.stakers@.len(),
                m == self@,
                total > 0,
                total == m.total_points(now),
                parts == m.staker_shares(now, release),
                sum(parts) <= release,
                stakers@.len() == i,
                credits@.len() == i,
                forall|k: int|
                    0 <= k < i ==> (#[trigger] stakers@[k])@ == m.stakers[k].credited(
                        m.weights,
                        now,
                        release,
                        total as nat,
                    ),
                forall|k: int|
                    0 <= k < i ==> (#[trigger] credits@[k])@.len() == m.stakers[k].stakes.len(),
                forall|k: int, j: int|
                    0 <= k < i && 0 <= j < m.stakers[k].stakes.len() ==> #[trigger] credits@[k]@[j]
                        == m.stakers[k].stakes[j].share(m.weights, now, release, total as nat),
                forall|k: int, j: int|
                    0 <= k < i && 0 <= j < m.stakers[k].stakes.len()
                        ==> m.stakers[k].stakes[j].claimed_rewards
                        + #[trigger] m.stakers[k].stakes[j].share(
                        m.weights,
                        now,
                        release,
                        total as nat,
                    ) <= u128::MAX,
                credited == sum(parts.take(i as int)),
            decreases n - i,
        {
            let entry = &self.stakers[i];
            proof {
                lemma_sum_bounds_element(m.staker_points(now), i as int);
                lemma_sum_take_next(parts, i as int);
                lemma_sum_prefix_le(parts, i + 1);
                assert(m.stakers[i as int].stakes == entry.info.stakes@);
            }
            match credit_records(&entry.info.stakes, &self.staking_weight, now, release, total) {
                None => {
                    proof {
                        let j = choose|j: int|
                            0 <= j < entry.info.stakes@.len()
                                && entry.info.stakes@[j].claimed_rewards
                                + #[trigger] entry.info.stakes@[j].share(
                                self.staking_weight@,
                                now,
                                release,
                                total as nat,
                            ) > u128::MAX;
                        assert(m.stakers[i as int].stakes[j].claimed_rewards
                            + m.stakers[i as int].stakes[j].share(
                            m.weights,
                            now,
                            release,
                            m.total_points(now),
                        ) > u128::MAX);
                    }
                    return None;
                },
                Some((stakes, shares, subtotal)) => {
                    stakers.push(
                        StakerEntry {
                            account: entry.account.clone(),
                            info: StakerInfo {
                                stakes,
                                total_rewards_claimed: entry.info.total_rewards_claimed,
                            },
                        },
                    );
                    credits.push(shares);
                    credited = credited + subtotal;
                },
            }
            i += 1;
        }
        proof {
            lemma_sum_take_ends(parts);
            assert(staker_views(stakers@) =~= Seq::new(
                m.stakers.len(),
                |i: int| m.stakers[i].credited(m.weights, now, release, total as nat),
            ));
        }
        Some((stakers, credits, credited))
    }

    /// Releases `amount` from the reward pool and credits every eligible
    /// record its share, `amount * points / total_points` rounded down.
    ///
    /// Only the operator may distribute, and no more than the pool holds.
    /// Where no record has points the distribution does nothing and says so.
    /// Otherwise the pool drops by `amount` and the time is noted.
    pub fn distribute_rewards(&mut self, caller: &str, amount: u128, now: u64) -> (result: Result<
        DistributionOutcome,
        StakingError,
    >)
        requires
            old(self)@.wf(),
        ensures
            final(self)@.wf(),
            final(self)@ == old(self)@.distribute(caller@, amount, now),
            match result {
                Ok(outcome) => old(self)@.distribute_result(caller@, amount, now) == Ok::<
                    bool,
                    StakingError,
                >(outcome is Distributed) && outcome.describes(old(self)@, now, amount),
                Err(e) => old(self)@.distribute_result(caller@, amount, now) == Err::<
                    bool,
                    StakingError,
                >(e),
            },
    {
        let ghost before = self@;
        let caller: String = caller.to_owned();
        if caller != self.owner {
            return Err(StakingError::Unauthorized);
        }
        if amount > self.reward_distribution.total_reward_pool {
            return Err(StakingError::InsufficientPool);
        }
        let total: u128 = match self.sum_all_points(now) {
            Some(t) => t,
            None => {
                return Err(StakingError::ArithmeticOverflow);
            },
        };
        if total == 0 {
            return Ok(DistributionOutcome::NoEligibleStake);
        }
        let (stakers, credits, total_credited) = match self.credit_stakers(now, amount, total) {
            Some(out) => out,
            None => {
                return Err(StakingError::ArithmeticOverflow);
            },
        };
        self.stakers = stakers;
        self.reward_distribution.total_reward_pool = self.reward_distribution.total_reward_pool
            - amount;
        self.reward_distribution.last_distributed = now;
        proof {
            lemma_total_shares_bounded(before, now, amount);
            lemma_distribute_preserves_wf(before, caller@, amount, now);
            assert(self@ =~= before.distribute(caller@, amount, now));
        }
        Ok(DistributionOutcome::Distributed { credits, total_credited })
    }
}

} // verus!
