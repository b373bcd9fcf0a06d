use sin_staking_contract::DistributionOutcome;
use sin_staking_contract::StakingContract;
use sin_staking_contract::StakingError;
use sin_staking_contract::DAY;

const OWNER: &str = "operator.near";
const TOKEN: &str = "sin-token.near";
const ALICE: &str = "alice.near";
const BOB: &str = "bob.near";
const CAROL: &str = "carol.near";

fn funded(pool: u128) -> StakingContract {
    let mut contract = StakingContract::new(OWNER.to_string(), TOKEN.to_string(), 0);
    contract.fund(TOKEN, OWNER, pool, 0).unwrap();
    contract
}

fn credited(contract: &StakingContract) -> Vec<Vec<u128>> {
    contract
        .stakers
        .iter()
        .map(|entry| entry.info.stakes.iter().map(|s| s.claimed_rewards).collect())
        .collect()
}

#[test]
fn equal_records_share_equally_and_the_remainder_is_not_credited() {
    let mut contract = funded(1_000);
    contract.stake_tokens(TOKEN, ALICE, 7, 30, 0).unwrap();
    contract.stake_tokens(TOKEN, BOB, 7, 30, 0).unwrap();
    contract.stake_tokens(TOKEN, CAROL, 7, 30, 0).unwrap();

    let outcome = contract.distribute_rewards(OWNER, 100, 30 * DAY).unwrap();
    assert_eq!(
        outcome,
        DistributionOutcome::Distributed {
            credits: vec![vec![33], vec![33], vec![33]],
            total_credited: 99,
        }
    );
    assert_eq!(credited(&contract), vec![vec![33], vec![33], vec![33]]);
    assert_eq!(contract.get_available_reward(), 900);
    assert_eq!(contract.get_last_reward_distribution(), 30 * DAY);
    assert!(contract.is_well_formed());
}

#[test]
fn shares_follow_weight_times_principal() {
    let mut contract = funded(10_000);
    // Held 200 days at the distribution: weight 2.0.
    contract.stake_tokens(TOKEN, ALICE, 100, 30, 0).unwrap();
    // Held 100 days: weight 1.5.
    contract.stake_tokens(TOKEN, BOB, 300, 30, 100 * DAY).unwrap();
    // Held 40 days: weight 1.0.
    contract.stake_tokens(TOKEN, ALICE, 50, 30, 160 * DAY).unwrap();
    // Held 29 days: not eligible.
    contract.stake_tokens(TOKEN, CAROL, 1_000_000, 30, 171 * DAY).unwrap();

    // Points: 20 * 100 = 2000, 15 * 300 = 4500, 10 * 50 = 500; 7000 in all.
    let outcome = contract.distribute_rewards(OWNER, 1_000, 200 * DAY).unwrap();
    assert_eq!(
        outcome,
        DistributionOutcome::Distributed {
            // 1000 * 2000 / 7000, 1000 * 500 / 7000, 1000 * 4500 / 7000
            credits: vec![vec![285, 71], vec![642], vec![0]],
            total_credited: 998,
        }
    );
    assert_eq!(credited(&contract), vec![vec![285, 71], vec![642], vec![0]]);
    assert_eq!(contract.get_available_reward(), 9_000);
}

#[test]
fn credits_add_up_over_distributions() {
    let mut contract = funded(1_000);
    contract.stake_tokens(TOKEN, ALICE, 1, 30, 0).unwrap();
    contract.stake_tokens(TOKEN, BOB, 2, 30, 0).unwrap();
    contract.distribute_rewards(OWNER, 10, 30 * DAY).unwrap();
    assert_eq!(credited(&contract), vec![vec![3], vec![6]]);
    contract.distribute_rewards(OWNER, 20, 31 * DAY).unwrap();
    assert_eq!(credited(&contract), vec![vec![9], vec![19]]);
    assert_eq!(contract.get_available_reward(), 970);
    assert_eq!(contract.total_staked, 3);
}

#[test]
fn nothing_happens_where_no_record_is_eligible() {
    let mut contract = funded(1_000);
    contract.stake_tokens(TOKEN, ALICE, 500, 30, 10).unwrap();
    contract.stake_tokens(TOKEN, BOB, 500, 30, 20).unwrap();
    let before = contract.clone();

    // One second short of thirty days for the older record.
    let now: u64 = 10 + 30 * DAY - 1;
    assert_eq!(contract.distribute_rewards(OWNER, 100, now), Ok(DistributionOutcome::NoEligibleStake));
    assert_eq!(contract.get_available_reward(), 1_000);
    assert_eq!(contract.get_last_reward_distribution(), 0);
    assert_eq!(credited(&contract), vec![vec![0], vec![0]]);
    assert_eq!(contract.stakers, before.stakers);
    assert_eq!(contract.reward_distribution, before.reward_distribution);

    // A ledger without stakers.
    let mut empty = funded(5);
    assert_eq!(empty.distribute_rewards(OWNER, 5, u64::MAX), Ok(DistributionOutcome::NoEligibleStake));
    assert_eq!(empty.get_available_reward(), 5);

    // One second later the older record is eligible.
    assert_eq!(
        contract.distribute_rewards(OWNER, 100, now + 1),
        Ok(DistributionOutcome::Distributed { credits: vec![vec![100], vec![0]], total_credited: 100 })
    );
}

#[test]
fn a_release_of_zero_notes_the_time_only() {
    let mut contract = funded(1_000);
    contract.stake_tokens(TOKEN, ALICE, 500, 30, 0).unwrap();
    assert_eq!(
        contract.distribute_rewards(OWNER, 0, 40 * DAY),
        Ok(DistributionOutcome::Distributed { credits: vec![vec![0]], total_credited: 0 })
    );
    assert_eq!(contract.get_available_reward(), 1_000);
    assert_eq!(contract.get_last_reward_distribution(), 40 * DAY);
}

#[test]
fn the_whole_pool_can_be_released() {
    let mut contract = funded(1_000);
    contract.stake_tokens(TOKEN, ALICE, 500, 30, 0).unwrap();
    assert_eq!(contract.distribute_rewards(OWNER, 1_001, 40 * DAY), Err(StakingError::InsufficientPool));
    assert_eq!(contract.get_available_reward(), 1_000);
    assert_eq!(contract.get_last_reward_distribution(), 0);
    assert!(contract.distribute_rewards(OWNER, 1_000, 40 * DAY).is_ok());
    assert_eq!(contract.get_available_reward(), 0);
    assert_eq!(credited(&contract), vec![vec![1_000]]);
}

#[test]
fn only_the_operator_distributes() {
    let mut contract = funded(1_000);
    contract.stake_tokens(TOKEN, ALICE, 500, 30, 0).unwrap();
    for caller in [ALICE, TOKEN, "", "operator.nea", "operator.near "] {
        assert_eq!(
            contract.distribute_rewards(caller, 10, 40 * DAY),
            Err(StakingError::Unauthorized)
        );
    }
    assert_eq!(contract.get_available_reward(), 1_000);
    assert_eq!(credited(&contract), vec![vec![0]]);
}

#[test]
fn shares_are_exact_for_quantities_beyond_64_bits() {
    let pool: u128 = 3 * 10u128.pow(38);
    let mut contract = funded(pool);
    let a: u128 = 10u128.pow(36);
    let b: u128 = 2 * 10u128.pow(36) + 1;
    contract.stake_tokens(TOKEN, ALICE, a, 30, 0).unwrap();
    contract.stake_tokens(TOKEN, BOB, b, 30, 0).unwrap();

    let release: u128 = 3 * 10u128.pow(38) - 7;
    let outcome = contract.distribute_rewards(OWNER, release, 30 * DAY).unwrap();
    // release * a / (a + b) and release * b / (a + b), rounded down.
    let first: u128 = 99_999_999_999_999_999_999_999_999_999_999_999_964;
    let second: u128 = 200_000_000_000_000_000_000_000_000_000_000_000_028;
    assert_eq!(
        outcome,
        DistributionOutcome::Distributed {
            credits: vec![vec![first], vec![second]],
            total_credited: first + second,
        }
    );
    assert_eq!(first + second, release - 1);
    assert_eq!(contract.get_available_reward(), 7);
}

#[test]
fn points_beyond_the_range_reject_the_distribution() {
    let mut contract = funded(1_000);
    // 10 * amount exceeds u128::MAX.
    contract.stake_tokens(TOKEN, ALICE, u128::MAX / 10 + 1, 30, 0).unwrap();
    let before = contract.clone();
    assert_eq!(
        contract.distribute_rewards(OWNER, 10, 30 * DAY),
        Err(StakingError::ArithmeticOverflow)
    );
    assert_eq!(contract.stakers, before.stakers);
    assert_eq!(contract.reward_distribution, before.reward_distribution);
}

#[test]
fn a_credit_beyond_the_range_rejects_the_whole_distribution() {
    let mut contract = funded(1_000);
    contract.stake_tokens(TOKEN, ALICE, 1, 30, 0).unwrap();
    contract.stake_tokens(TOKEN, BOB, 1, 30, 0).unwrap();
    contract.stakers[1].info.stakes[0].claimed_rewards = u128::MAX - 4;
    assert!(contract.is_well_formed());
    let before = contract.clone();

    assert_eq!(
        contract.distribute_rewards(OWNER, 10, 30 * DAY),
        Err(StakingError::ArithmeticOverflow)
    );
    // The first record was not credited either.
    assert_eq!(contract.stakers, before.stakers);
    assert_eq!(contract.reward_distribution, before.reward_distribution);

    assert!(contract.distribute_rewards(OWNER, 8, 30 * DAY).is_ok());
    assert_eq!(credited(&contract), vec![vec![4], vec![u128::MAX]]);
}
