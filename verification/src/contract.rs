//! The staking contract: the ledger's state and the operations on it.
//!
//! The operations take what the host knows of a call as plain arguments: the
//! account that called (`caller`), and the time (`now`, in seconds). They
//! answer with the amount that is to be transferred, and leave the transfer
//! itself to the host.

use vstd::prelude::*;
use crate::laws::lemma_position_unique;
use crate::model::ContractView;
use crate::records::staker_views;
use crate::records::RewardDistribution;
use crate::records::StakerEntry;
use crate::weights::WeightTable;

verus! {

/// The state of the staking contract.
#[derive(Clone, Debug)]
pub struct StakingContract {
    /// The operator: funds the pool and triggers distributions.
    pub owner: String,
    /// The token ledger whose transfers are accepted.
    pub sin_token: String,
    /// The stakers in the order of their first stake; no account twice.
    pub stakers: Vec<StakerEntry>,
    /// The principal locked over all stakers.
    pub total_staked: u128,
    /// The reward pool and its funding log.
    pub reward_distribution: RewardDistribution,
    /// The weight table.
    pub staking_weight: WeightTable,
}

impl View for StakingContract {
    type V = ContractView;

    open spec fn view(&self) -> ContractView {
        ContractView {
            owner: self.owner@,
            sin_token: self.sin_token@,
            stakers: staker_views(self.stakers@),
            total_staked: self.total_staked,
            total_reward_pool: self.reward_distribution.total_reward_pool,
            last_distributed: self.reward_distribution.last_distributed,
            funding_records: self.reward_distribution.funding_records@,
            weights: self.staking_weight@,
        }
    }
}

impl StakingContract {
    /// A ledger without stakers and with an empty pool, created at `now`,
    /// with the standard weight table.
    pub fn new(owner: String, sin_token: String, now: u64) -> (contract: StakingContract)
        ensures
            contract@.wf(),
            contract@.owner == owner@,
            contract@.sin_token == sin_token@,
            contract@.stakers.len() == 0,
            contract@.total_staked == 0,
            contract@.total_reward_pool == 0,
            contract@.last_distributed == now,
            contract@.funding_records.len() == 0,
            contract@.weights.tiers == crate::weights::standard_tiers(),
            contract@.weights.default_multiplier == 25,
    {
        let contract = StakingContract {
            owner,
            sin_token,
            stakers: Vec::new(),
            total_staked: 0,
            reward_distribution: RewardDistribution {
                total_reward_pool: 0,
                last_distributed: now,
                funding_records: Vec::new(),
            },
            staking_weight: WeightTable::standard(),
        };
        assert(contract@.staker_amounts() =~= Seq::<nat>::empty());
        contract
    }

    /// Where `account` stands among the stakers, if it has ever staked.
    pub(crate) fn find_staker(&self, account: &String) -> (found: Option<usize>)
        requires
            self@.wf(),
        ensures
            match found {
                Some(at) => self@.has_staker(account@) && at == self@.position(account@),
                None => !self@.has_staker(account@),
            },
    {
        let n: usize = self.stakers.len();
        let mut i: usize = 0;
        while i < n
            invariant
                i <= n,
                n == self.stakers@.len(),
                self@.wf(),
                forall|k: int| 0 <= k < i ==> self@.stakers[k].account != account@,
            decreases n - i,
        {
            if self.stakers[i].account == *account {
                proof {
                    lemma_position_unique(self@, account@, i as int);
                }
                return Some(i);
            }
            i += 1;
        }
        None
    }
}

} // verus!
