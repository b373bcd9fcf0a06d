use sin_staking_contract::StakerEntry;
use sin_staking_contract::StakerInfo;
use sin_staking_contract::StakingContract;
use sin_staking_contract::StakingError;
use sin_staking_contract::StakingRecord;
use sin_staking_contract::UserRewards;
use sin_staking_contract::DAY;
use sin_staking_contract::MONTH;

const OWNER: &str = "operator.near";
const TOKEN: &str = "sin-token.near";
const ALICE: &str = "alice.near";
const BOB: &str = "bob.near";

fn fresh(now: u64) -> StakingContract {
    StakingContract::new(OWNER.to_string(), TOKEN.to_string(), now)
}

#[test]
fn days_to_the_next_distribution_count_down_from_thirty() {
    let contract = fresh(1_000);
    assert_eq!(contract.get_last_reward_distribution(), 1_000);
    assert_eq!(contract.get_next_reward_distribution(1_000), 30);
    assert_eq!(contract.get_next_reward_distribution(1_001), 29);
    assert_eq!(contract.get_next_reward_distribution(1_000 + DAY), 29);
    assert_eq!(contract.get_next_reward_distribution(1_000 + 29 * DAY), 1);
    assert_eq!(contract.get_next_reward_distribution(1_000 + 29 * DAY + 1), 0);
    assert_eq!(contract.get_next_reward_distribution(1_000 + MONTH), 0);
    assert_eq!(contract.get_next_reward_distribution(u64::MAX), 0);
    // A time before the last distribution.
    assert_eq!(contract.get_next_reward_distribution(0), 30);
    assert_eq!(contract.get_next_reward_distribution(1_000 - 1), 30);

    let late = fresh(u64::MAX);
    assert_eq!(late.get_next_reward_distribution(u64::MAX), 30);
    assert_eq!(late.get_next_reward_distribution(0), 213_503_982_334_631);
}

#[test]
fn the_time_of_a_distribution_restarts_the_count() {
    let mut contract = fresh(0);
    contract.fund(TOKEN, OWNER, 100, 0).unwrap();
    contract.stake_tokens(TOKEN, ALICE, 1, 30, 0).unwrap();
    contract.distribute_rewards(OWNER, 10, 45 * DAY).unwrap();
    assert_eq!(contract.get_last_reward_distribution(), 45 * DAY);
    assert_eq!(contract.get_next_reward_distribution(45 * DAY), 30);
    assert_eq!(contract.get_next_reward_distribution(50 * DAY), 25);
}

#[test]
fn estimated_rate_is_pool_over_principal_in_hundredths_of_a_percent() {
    let mut contract = fresh(0);
    assert_eq!(contract.calculate_current_apr(), Some(0));
    contract.fund(TOKEN, OWNER, 1_000_000, 0).unwrap();
    assert_eq!(contract.calculate_current_apr(), Some(0));
    contract.stake_tokens(TOKEN, ALICE, 500, 30, 0).unwrap();
    // 1_000_000 / 500 is 2000, that is 200_000 percent.
    assert_eq!(contract.calculate_current_apr(), Some(20_000_000));
    contract.stake_tokens(TOKEN, BOB, 2_999_500, 30, 0).unwrap();
    // A third: 33.33 percent, rounded down.
    assert_eq!(contract.calculate_current_apr(), Some(3_333));

    let mut empty_pool = fresh(0);
    empty_pool.stake_tokens(TOKEN, ALICE, 500, 30, 0).unwrap();
    assert_eq!(empty_pool.calculate_current_apr(), Some(0));

    let mut huge = fresh(0);
    huge.fund(TOKEN, OWNER, u128::MAX, 0).unwrap();
    huge.stake_tokens(TOKEN, ALICE, 10_000, 30, 0).unwrap();
    assert_eq!(huge.calculate_current_apr(), Some(u128::MAX));
    huge.unstake_tokens(ALICE, 0, 30 * DAY).unwrap();
    huge.stake_tokens(TOKEN, ALICE, 9_999, 30, 0).unwrap();
    assert_eq!(huge.calculate_current_apr(), None);
}

#[test]
fn user_rewards_total_the_records() {
    let mut contract = fresh(0);
    contract.fund(TOKEN, OWNER, 1_000, 0).unwrap();
    contract.stake_tokens(TOKEN, ALICE, 100, 30, 0).unwrap();
    contract.stake_tokens(TOKEN, BOB, 100, 30, 0).unwrap();
    contract.stake_tokens(TOKEN, ALICE, 300, 60, 5).unwrap();
    contract.distribute_rewards(OWNER, 500, 40 * DAY).unwrap();
    assert_eq!(contract.claim_reward(ALICE, 0), Ok(100));
    contract.distribute_rewards(OWNER, 50, 41 * DAY).unwrap();

    assert_eq!(
        contract.get_user_rewards(ALICE),
        Ok(UserRewards {
            total_staked_tokens: 400,
            total_claimed_rewards: 100,
            total_unclaimed_rewards: 340,
            stake_details: vec![
                StakingRecord {
                    staked_tokens: 100,
                    start_timestamp: 0,
                    lockup_period: 30 * DAY,
                    claimed_rewards: 10,
                },
                StakingRecord {
                    staked_tokens: 300,
                    start_timestamp: 5,
                    lockup_period: 60 * DAY,
                    claimed_rewards: 330,
                },
            ],
        })
    );
    assert_eq!(
        contract.get_user_rewards(BOB),
        Ok(UserRewards {
            total_staked_tokens: 100,
            total_claimed_rewards: 0,
            total_unclaimed_rewards: 110,
            stake_details: contract.get_staking_info(BOB).unwrap(),
        })
    );
}

#[test]
fn user_rewards_of_an_emptied_staker_are_zero() {
    let mut contract = fresh(0);
    contract.stake_tokens(TOKEN, ALICE, 100, 0, 0).unwrap();
    contract.unstake_tokens(ALICE, 0, 0).unwrap();
    assert_eq!(
        contract.get_user_rewards(ALICE),
        Ok(UserRewards {
            total_staked_tokens: 0,
            total_claimed_rewards: 0,
            total_unclaimed_rewards: 0,
            stake_details: vec![],
        })
    );
}

#[test]
fn unclaimed_rewards_beyond_their_range_are_reported() {
    let mut contract = fresh(0);
    contract.stake_tokens(TOKEN, ALICE, 1, 0, 0).unwrap();
    contract.stake_tokens(TOKEN, ALICE, 1, 0, 0).unwrap();
    contract.stakers[0].info.stakes[0].claimed_rewards = u128::MAX;
    contract.stakers[0].info.stakes[1].claimed_rewards = 1;
    assert!(contract.is_well_formed());
    assert_eq!(contract.get_user_rewards(ALICE), Err(StakingError::ArithmeticOverflow));
    contract.stakers[0].info.stakes[1].claimed_rewards = 0;
    assert_eq!(contract.get_user_rewards(ALICE).unwrap().total_unclaimed_rewards, u128::MAX);
}

fn entry(account: &str, amounts: &[u128]) -> StakerEntry {
    StakerEntry {
        account: account.to_string(),
        info: StakerInfo {
            stakes: amounts
                .iter()
                .map(|a| StakingRecord {
                    staked_tokens: *a,
                    start_timestamp: 0,
                    lockup_period: 0,
                    claimed_rewards: 0,
                })
                .collect(),
            total_rewards_claimed: 0,
        },
    }
}

#[test]
fn states_that_break_the_invariant_are_told_apart() {
    let mut contract = fresh(0);
    contract.stakers = vec![entry(ALICE, &[1, 2]), entry(BOB, &[]), entry("carol.near", &[4])];
    contract.total_staked = 7;
    assert!(contract.is_well_formed());

    let mut wrong_total = contract.clone();
    wrong_total.total_staked = 6;
    assert!(!wrong_total.is_well_formed());

    let mut twice = contract.clone();
    twice.stakers[2].account = ALICE.to_string();
    assert!(!twice.is_well_formed());

    let mut empty_record = contract.clone();
    empty_record.stakers[0].info.stakes[1].staked_tokens = 0;
    empty_record.total_staked = 5;
    assert!(!empty_record.is_well_formed());

    let mut beyond = contract.clone();
    beyond.stakers[0].info.stakes[0].staked_tokens = u128::MAX;
    beyond.stakers[2].info.stakes[0].staked_tokens = u128::MAX;
    assert!(!beyond.is_well_formed());

    let mut bad_table = contract.clone();
    bad_table.staking_weight.tiers.swap(0, 1);
    assert!(!bad_table.is_well_formed());
}
