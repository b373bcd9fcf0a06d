//! What holds of the ledger whatever is done with it.
//!
//! Every statement here is about the mathematical state of `model`; the
//! operations of `StakingContract` are proved to compute exactly the
//! functions these statements speak of.

use vstd::prelude::*;
use crate::arith::lemma_mul_div_bounded;
use crate::arith::mul_div;
use crate::model::stake_amounts;
use crate::model::stake_points;
use crate::model::stake_rewards;
use crate::model::stake_shares;
use crate::model::swap_remove;
use crate::model::ContractView;
use crate::records::StakingError;
use crate::records::StakingRecord;
use crate::sums::lemma_sum_add;
use crate::sums::lemma_sum_bounds_element;
use crate::sums::lemma_sum_of_shares;
use crate::sums::lemma_sum_of_zeros;
use crate::sums::lemma_sum_push;
use crate::sums::lemma_sum_swap_remove;
use crate::sums::lemma_sum_update;
use crate::sums::sum;

verus! {

/// In a well-formed ledger an account stands at one position only.
pub proof fn lemma_position_unique(m: ContractView, account: Seq<char>, at: int)
    requires
        m.wf(),
        0 <= at < m.stakers.len(),
        m.stakers[at].account == account,
    ensures
        m.has_staker(account),
        m.position(account) == at,
        m.stakes_of(account) == m.stakers[at].stakes,
{
    let found = m.position(account);
    assert(0 <= found < m.stakers.len() && m.stakers[found].account == account);
    if found < at {
        assert(m.stakers[found].account != m.stakers[at].account);
    } else if at < found {
        assert(m.stakers[at].account != m.stakers[found].account);
    }
}

/// Replacing the records of one staker changes the sum of all principal by
/// the change of that staker's principal.
pub proof fn lemma_with_stakes_sum(m: ContractView, at: int, stakes: Seq<StakingRecord>)
    requires
        0 <= at < m.stakers.len(),
    ensures
        (ContractView { stakers: m.with_stakes(at, stakes), ..m }).staked_sum()
            + m.stakers[at].staked() == m.staked_sum() + sum(stake_amounts(stakes)),
{
    let after = ContractView { stakers: m.with_stakes(at, stakes), ..m };
    assert(after.staker_amounts() =~= m.staker_amounts().update(
        at,
        sum(stake_amounts(stakes)),
    ));
    lemma_sum_update(m.staker_amounts(), at, sum(stake_amounts(stakes)));
}

/// Funding the pool keeps the ledger well formed.
pub proof fn lemma_fund_preserves_wf(
    m: ContractView,
    caller: Seq<char>,
    sender: Seq<char>,
    amount: u128,
    now: u64,
)
    requires
        m.wf(),
    ensures
        m.fund(caller, sender, amount, now).wf(),
{
    let after = m.fund(caller, sender, amount, now);
    assert(after.staker_amounts() =~= m.staker_amounts());
}

/// Staking keeps the ledger well formed, and an accepted stake raises
/// `total_staked` by exactly the staked amount.
pub proof fn lemma_stake_preserves_wf(
    m: ContractView,
    caller: Seq<char>,
    sender: Seq<char>,
    amount: u128,
    lockup_days: u64,
    now: u64,
)
    requires
        m.wf(),
    ensures
        m.stake(caller, sender, amount, lockup_days, now).wf(),
        m.stake_result(caller, sender, amount, lockup_days) is Ok ==> m.stake(
            caller,
            sender,
            amount,
            lockup_days,
            now,
        ).total_staked == m.total_staked + amount,
{
    let after = m.stake(caller, sender, amount, lockup_days, now);
    if m.stake_result(caller, sender, amount, lockup_days) is Ok {
        let record = StakingRecord {
            staked_tokens: amount,
            start_timestamp: now,
            lockup_period: (lockup_days * crate::DAY) as u64,
            claimed_rewards: 0,
        };
        if m.has_staker(sender) {
            let at = m.position(sender);
            let stakes = m.stakers[at].stakes.push(record);
            assert(stake_amounts(stakes) =~= stake_amounts(m.stakers[at].stakes).push(
                amount as nat,
            ));
            lemma_sum_push(stake_amounts(m.stakers[at].stakes), amount as nat);
            lemma_with_stakes_sum(m, at, stakes);
            assert(after.stakers =~= m.with_stakes(at, stakes));
            assert(after.staker_amounts() =~= (ContractView {
                stakers: m.with_stakes(at, stakes),
                ..m
            }).staker_amounts());
            assert forall|i: int, j: int|
                0 <= i < after.stakers.len() && 0 <= j < after.stakers[i].stakes.len() implies
                #[trigger] after.stakers[i].stakes[j].staked_tokens > 0 by {
                if i == at && j < m.stakers[at].stakes.len() {
                    assert(after.stakers[i].stakes[j] == m.stakers[i].stakes[j]);
                } else if i != at {
                    assert(after.stakers[i].stakes[j] == m.stakers[i].stakes[j]);
                }
            }
            assert forall|i: int, j: int| 0 <= i < j < after.stakers.len() implies after.stakers[i].account
                != after.stakers[j].account by {
                assert(after.stakers[i].account == m.stakers[i].account);
                assert(after.stakers[j].account == m.stakers[j].account);
            }
        } else {
            assert(stake_amounts(seq![record]) =~= Seq::<nat>::empty().push(amount as nat));
            lemma_sum_push(Seq::<nat>::empty(), amount as nat);
            assert(after.staker_amounts() =~= m.staker_amounts().push(amount as nat));
            lemma_sum_push(m.staker_amounts(), amount as nat);
            assert forall|i: int, j: int|
                0 <= i < after.stakers.len() && 0 <= j < after.stakers[i].stakes.len() implies
                #[trigger] after.stakers[i].stakes[j].staked_tokens > 0 by {
                if i < m.stakers.len() {
                    assert(after.stakers[i].stakes[j] == m.stakers[i].stakes[j]);
                }
            }
            assert forall|i: int, j: int| 0 <= i < j < after.stakers.len() implies after.stakers[i].account
                != after.stakers[j].account by {
                assert(after.stakers[i].account == m.stakers[i].account);
                if j < m.stakers.len() {
                    assert(after.stakers[j].account == m.stakers[j].account);
                }
            }
        }
    }
}

/// Unstaking keeps the ledger well formed, and an accepted unstake lowers
/// `total_staked` by exactly the principal that is paid back.
pub proof fn lemma_unstake_preserves_wf(m: ContractView, caller: Seq<char>, index: u64, now: u64)
    requires
        m.wf(),
    ensures
        m.unstake(caller, index, now).wf(),
        m.unstake_result(caller, index, now) matches Ok(principal) ==> m.unstake(
            caller,
            index,
            now,
        ).total_staked + principal == m.total_staked,
{
    let after = m.unstake(caller, index, now);
    if m.unstake_result(caller, index, now) is Ok {
        let at = m.position(caller);
        let before = m.stakers[at].stakes;
        let stakes = swap_remove(before, index as int);
        assert(stake_amounts(stakes) =~= stake_amounts(before).update(
            index as int,
            stake_amounts(before).last(),
        ).drop_last());
        lemma_sum_swap_remove(stake_amounts(before), index as int);
        lemma_with_stakes_sum(m, at, stakes);
        lemma_sum_bounds_element(stake_amounts(before), index as int);
        lemma_sum_bounds_element(m.staker_amounts(), at);
        assert(after.stakers =~= m.with_stakes(at, stakes));
        assert(after.staker_amounts() =~= (ContractView {
            stakers: m.with_stakes(at, stakes),
            ..m
        }).staker_amounts());
        assert forall|i: int, j: int|
            0 <= i < after.stakers.len() && 0 <= j < after.stakers[i].stakes.len() implies
            #[trigger] after.stakers[i].stakes[j].staked_tokens > 0 by {
            if i == at {
                if j == index {
                    assert(after.stakers[i].stakes[j] == m.stakers[i].stakes[before.len() - 1]);
                } else {
                    assert(after.stakers[i].stakes[j] == m.stakers[i].stakes[j]);
                }
            } else {
                assert(after.stakers[i].stakes[j] == m.stakers[i].stakes[j]);
            }
        }
        assert forall|i: int, j: int| 0 <= i < j < after.stakers.len() implies after.stakers[i].account
            != after.stakers[j].account by {
            assert(after.stakers[i].account == m.stakers[i].account);
            assert(after.stakers[j].account == m.stakers[j].account);
        }
    }
}

/// Claiming keeps the ledger well formed and moves no principal.
pub proof fn lemma_claim_preserves_wf(m: ContractView, caller: Seq<char>, index: u64)
    requires
        m.wf(),
    ensures
        m.claim(caller, index).wf(),
        m.claim(caller, index).total_staked == m.total_staked,
{
    let after = m.claim(caller, index);
    if m.claim_result(caller, index) is Ok {
        let at = m.position(caller);
        assert forall|i: int| 0 <= i < m.stakers.len() implies after.staker_amounts()[i]
            == m.staker_amounts()[i] by {
            assert(stake_amounts(after.stakers[i].stakes) =~= stake_amounts(m.stakers[i].stakes));
        }
        assert(after.staker_amounts() =~= m.staker_amounts());
        assert forall|i: int, j: int|
            0 <= i < after.stakers.len() && 0 <= j < after.stakers[i].stakes.len() implies
            #[trigger] after.stakers[i].stakes[j].staked_tokens > 0 by {
            assert(after.stakers[i].stakes[j].staked_tokens
                == m.stakers[i].stakes[j].staked_tokens);
        }
        assert forall|i: int, j: int| 0 <= i < j < after.stakers.len() implies after.stakers[i].account
            != after.stakers[j].account by {
            assert(after.stakers[i].account == m.stakers[i].account);
            assert(after.stakers[j].account == m.stakers[j].account);
        }
    }
}

/// The shares of a distribution sum to no more than the amount released.
pub proof fn lemma_total_shares_bounded(m: ContractView, now: u64, release: u128)
    requires
        m.total_points(now) > 0,
    ensures
        m.total_shares(now, release) <= release,
{
    let total = m.total_points(now);
    assert forall|i: int| 0 <= i < m.stakers.len() implies m.staker_shares(now, release)[i]
        <= mul_div(release as int, m.staker_points(now)[i] as int, total as int) by {
        lemma_sum_of_shares(
            stake_points(m.stakers[i].stakes, m.weights, now),
            stake_shares(m.stakers[i].stakes, m.weights, now, release, total),
            release as nat,
            total,
        );
    }
    lemma_sum_of_shares(
        m.staker_points(now),
        m.staker_shares(now, release),
        release as nat,
        total,
    );
    lemma_mul_div_bounded(release as int, total as int, total as int);
}

/// In a well-formed ledger the total of the points is zero exactly when no
/// record is eligible.
pub proof fn lemma_points_need_eligibility(m: ContractView, now: u64)
    requires
        m.wf(),
    ensures
        m.total_points(now) == 0 <==> !m.some_eligible(now),
{
    if m.some_eligible(now) {
        let (i, j) = choose|i: int, j: int|
            0 <= i < m.stakers.len() && 0 <= j < m.stakers[i].stakes.len()
                && #[trigger] m.stakers[i].stakes[j].eligible(now);
        let record = m.stakers[i].stakes[j];
        m.weights.lemma_weight_for_positive(record.elapsed(now));
        assert(record.staked_tokens > 0);
        assert(record.points(m.weights, now) > 0) by (nonlinear_arith)
            requires
                record.points(m.weights, now) == m.weights.weight_for(record.elapsed(now))
                    * record.staked_tokens,
                m.weights.weight_for(record.elapsed(now)) > 0,
                record.staked_tokens > 0,
        ;
        lemma_sum_bounds_element(stake_points(m.stakers[i].stakes, m.weights, now), j);
        lemma_sum_bounds_element(m.staker_points(now), i);
    } else {
        assert forall|i: int| 0 <= i < m.stakers.len() implies m.staker_points(now)[i] == 0 by {
            assert forall|j: int| 0 <= j < m.stakers[i].stakes.len() implies stake_points(
                m.stakers[i].stakes,
                m.weights,
                now,
            )[j] == 0 by {
                assert(!m.stakers[i].stakes[j].eligible(now));
            }
            lemma_sum_of_zeros(stake_points(m.stakers[i].stakes, m.weights, now));
        }
        lemma_sum_of_zeros(m.staker_points(now));
    }
}

/// A distribution keeps the ledger well formed and moves no principal.
pub proof fn lemma_distribute_preserves_wf(
    m: ContractView,
    caller: Seq<char>,
    release: u128,
    now: u64,
)
    requires
        m.wf(),
    ensures
        m.distribute(caller, release, now).wf(),
        m.distribute(caller, release, now).total_staked == m.total_staked,
{
    let after = m.distribute(caller, release, now);
    if m.distribute_result(caller, release, now) == Ok::<bool, StakingError>(true) {
        assert forall|i: int| 0 <= i < m.stakers.len() implies after.staker_amounts()[i]
            == m.staker_amounts()[i] by {
            assert(stake_amounts(after.stakers[i].stakes) =~= stake_amounts(m.stakers[i].stakes));
        }
        assert(after.staker_amounts() =~= m.staker_amounts());
        assert forall|i: int, j: int|
            0 <= i < after.stakers.len() && 0 <= j < after.stakers[i].stakes.len() implies
            #[trigger] after.stakers[i].stakes[j].staked_tokens > 0 by {
            assert(after.stakers[i].stakes[j].staked_tokens
                == m.stakers[i].stakes[j].staked_tokens);
        }
        assert forall|i: int, j: int| 0 <= i < j < after.stakers.len() implies after.stakers[i].account
            != after.stakers[j].account by {
            assert(after.stakers[i].account == m.stakers[i].account);
            assert(after.stakers[j].account == m.stakers[j].account);
        }
    }
}

/// One operation on the ledger, with the arguments of the call.
pub enum Operation {
    Fund { caller: Seq<char>, sender: Seq<char>, amount: u128, now: u64 },
    Stake { caller: Seq<char>, sender: Seq<char>, amount: u128, lockup_days: u64, now: u64 },
    Transfer { caller: Seq<char>, sender: Seq<char>, amount: u128, now: u64 },
    Claim { caller: Seq<char>, index: u64 },
    Unstake { caller: Seq<char>, index: u64, now: u64 },
    Distribute { caller: Seq<char>, release: u128, now: u64 },
}

/// The state that `op` leaves when it is called in the state `m`.
pub open spec fn apply(m: ContractView, op: Operation) -> ContractView {
    match op {
        Operation::Fund { caller, sender, amount, now } => m.fund(caller, sender, amount, now),
        Operation::Stake { caller, sender, amount, lockup_days, now } => m.stake(
            caller,
            sender,
            amount,
            lockup_days,
            now,
        ),
        Operation::Transfer { caller, sender, amount, now } => m.on_transfer(
            caller,
            sender,
            amount,
            now,
        ),
        Operation::Claim { caller, index } => m.claim(caller, index),
        Operation::Unstake { caller, index, now } => m.unstake(caller, index, now),
        Operation::Distribute { caller, release, now } => m.distribute(caller, release, now),
    }
}

/// The state that the operations `ops`, called one after the other, leave
/// when the first is called in the state `m`.
pub open spec fn apply_all(m: ContractView, ops: Seq<Operation>) -> ContractView
    decreases ops.len(),
{
    if ops.len() == 0 {
        m
    } else {
        apply(apply_all(m, ops.drop_last()), ops.last())
    }
}

/// Conservation: after any sequence of operations, accepted or rejected, on
/// a well-formed ledger, `total_staked` equals the sum of the principal over
/// all surviving records.
pub proof fn lemma_conservation(m: ContractView, ops: Seq<Operation>)
    requires
        m.wf(),
    ensures
        apply_all(m, ops).wf(),
        apply_all(m, ops).total_staked == apply_all(m, ops).staked_sum(),
    decreases ops.len(),
{
    if ops.len() > 0 {
        lemma_conservation(m, ops.drop_last());
        let before = apply_all(m, ops.drop_last());
        match ops.last() {
            Operation::Fund { caller, sender, amount, now } => {
                lemma_fund_preserves_wf(before, caller, sender, amount, now);
            },
            Operation::Stake { caller, sender, amount, lockup_days, now } => {
                lemma_stake_preserves_wf(before, caller, sender, amount, lockup_days, now);
            },
            Operation::Transfer { caller, sender, amount, now } => {
                lemma_fund_preserves_wf(before, caller, sender, amount, now);
                lemma_stake_preserves_wf(
                    before,
                    caller,
                    sender,
                    amount,
                    crate::records::DEFAULT_LOCKUP_DAYS,
                    now,
                );
            },
            Operation::Claim { caller, index } => {
                lemma_claim_preserves_wf(before, caller, index);
            },
            Operation::Unstake { caller, index, now } => {
                lemma_unstake_preserves_wf(before, caller, index, now);
            },
            Operation::Distribute { caller, release, now } => {
                lemma_distribute_preserves_wf(before, caller, release, now);
            },
        }
    }
}

/// Distribution conservation: a distribution that credits rewards credits
/// each record exactly its share, the credits sum to no more than the amount
/// released, and the pool drops by exactly that amount.
pub proof fn lemma_distribution_conservation(
    m: ContractView,
    caller: Seq<char>,
    release: u128,
    now: u64,
)
    requires
        m.wf(),
        m.distribute_result(caller, release, now) == Ok::<bool, StakingError>(true),
    ensures
        m.total_points(now) > 0,
        m.total_shares(now, release) <= release,
        m.distribute(caller, release, now).unclaimed_sum() == m.unclaimed_sum() + m.total_shares(
            now,
            release,
        ),
        m.distribute(caller, release, now).total_reward_pool == m.total_reward_pool - release,
        forall|i: int, j: int|
            0 <= i < m.stakers.len() && 0 <= j < m.stakers[i].stakes.len() ==> #[trigger] m.distribute(
                caller,
                release,
                now,
            ).stakers[i].stakes[j].claimed_rewards == m.stakers[i].stakes[j].claimed_rewards
                + m.stakers[i].stakes[j].share(m.weights, now, release, m.total_points(now)),
{
    let after = m.distribute(caller, release, now);
    let total = m.total_points(now);
    lemma_total_shares_bounded(m, now, release);
    assert forall|i: int, j: int|
        0 <= i < m.stakers.len() && 0 <= j < m.stakers[i].stakes.len() implies #[trigger] after.stakers[i].stakes[j].claimed_rewards
        == m.stakers[i].stakes[j].claimed_rewards + m.stakers[i].stakes[j].share(
        m.weights,
        now,
        release,
        total,
    ) by {
        assert(m.stakers[i].stakes[j].claimed_rewards + m.stakers[i].stakes[j].share(
            m.weights,
            now,
            release,
            total,
        ) <= u128::MAX);
    }
    assert forall|i: int| 0 <= i < m.stakers.len() implies after.staker_unclaimed()[i]
        == m.staker_unclaimed()[i] + m.staker_shares(now, release)[i] by {
        assert forall|j: int| 0 <= j < m.stakers[i].stakes.len() implies stake_rewards(
            after.stakers[i].stakes,
        )[j] == stake_rewards(m.stakers[i].stakes)[j] + stake_shares(
            m.stakers[i].stakes,
            m.weights,
            now,
            release,
            total,
        )[j] by {
            assert(after.stakers[i].stakes[j].claimed_rewards
                == m.stakers[i].stakes[j].claimed_rewards + m.stakers[i].stakes[j].share(
                m.weights,
                now,
                release,
                total,
            ));
        }
        lemma_sum_add(
            stake_rewards(m.stakers[i].stakes),
            stake_shares(m.stakers[i].stakes, m.weights, now, release, total),
            stake_rewards(after.stakers[i].stakes),
        );
    }
    lemma_sum_add(m.staker_unclaimed(), m.staker_shares(now, release), after.staker_unclaimed());
}

/// No-op on zero eligibility: where no record is eligible, a distribution
/// credits nothing and leaves the whole state, pool and credited rewards
/// among it, as it was.
pub proof fn lemma_no_eligible_is_noop(m: ContractView, caller: Seq<char>, release: u128, now: u64)
    requires
        m.wf(),
        !m.some_eligible(now),
    ensures
        m.distribute(caller, release, now) == m,
        m.distribute_result(caller, release, now) != Ok::<bool, StakingError>(true),
        caller == m.owner && release <= m.total_reward_pool ==> m.distribute_result(
            caller,
            release,
            now,
        ) == Ok::<bool, StakingError>(false),
{
    lemma_points_need_eligibility(m, now);
}

/// Idempotent claim: a claim that follows an accepted claim of the same
/// record, with nothing in between, is rejected: there is nothing to claim.
pub proof fn lemma_claim_twice(m: ContractView, caller: Seq<char>, index: u64)
    requires
        m.wf(),
        m.claim_result(caller, index) is Ok,
    ensures
        m.claim(caller, index).claim_result(caller, index) == Err::<u128, StakingError>(
            StakingError::NothingToClaim,
        ),
{
    let after = m.claim(caller, index);
    let at = m.position(caller);
    lemma_claim_preserves_wf(m, caller, index);
    assert(after.stakers[at].account == caller);
    lemma_position_unique(after, caller, at);
}

/// Lockup gate: unstaking a record is rejected at every time at which less
/// than the record's lockup period has passed since its start, and accepted
/// at every other time.
pub proof fn lemma_lockup_gate(m: ContractView, caller: Seq<char>, index: u64, now: u64)
    requires
        m.has_staker(caller),
        index < m.stakes_of(caller).len(),
    ensures
        m.stakes_of(caller)[index as int].elapsed(now) < m.stakes_of(
            caller,
        )[index as int].lockup_period ==> m.unstake_result(caller, index, now) == Err::<
            u128,
            StakingError,
        >(StakingError::LockupNotElapsed),
        m.stakes_of(caller)[index as int].elapsed(now) >= m.stakes_of(
            caller,
        )[index as int].lockup_period ==> m.unstake_result(caller, index, now) == Ok::<
            u128,
            StakingError,
        >(m.stakes_of(caller)[index as int].staked_tokens),
{
}

} // verus!
