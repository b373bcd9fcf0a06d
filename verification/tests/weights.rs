use sin_staking_contract::StakingContract;
use sin_staking_contract::WeightTable;
use sin_staking_contract::WeightTier;
use sin_staking_contract::DAY;
use sin_staking_contract::MONTH;

fn tier(threshold: u64, multiplier: u64) -> WeightTier {
    WeightTier { threshold, multiplier }
}

#[test]
fn standard_table_steps_at_its_thresholds() {
    let table = WeightTable::standard();
    assert!(table.is_well_formed());
    assert_eq!(table.weight_for(0), 10);
    assert_eq!(table.weight_for(30 * DAY), 10);
    assert_eq!(table.weight_for(90 * DAY - 1), 10);
    assert_eq!(table.weight_for(90 * DAY), 10);
    assert_eq!(table.weight_for(90 * DAY + 1), 15);
    assert_eq!(table.weight_for(180 * DAY), 15);
    assert_eq!(table.weight_for(180 * DAY + 1), 20);
    assert_eq!(table.weight_for(270 * DAY), 20);
    assert_eq!(table.weight_for(270 * DAY + 1), 25);
    assert_eq!(table.weight_for(u64::MAX - 1), 25);
    assert_eq!(table.weight_for(u64::MAX), 25);
}

#[test]
fn standard_table_has_four_tiers() {
    let table = WeightTable::standard();
    assert_eq!(
        table.tiers,
        vec![tier(90 * DAY, 10), tier(180 * DAY, 15), tier(270 * DAY, 20), tier(u64::MAX, 25)]
    );
    assert_eq!(table.default_multiplier, 25);
    assert_eq!(MONTH, 2_592_000);
    assert_eq!(DAY, 86_400);
}

#[test]
fn contract_looks_weights_up_in_its_table() {
    let contract = StakingContract::new("operator.near".to_string(), "token.near".to_string(), 0);
    assert_eq!(contract.get_staking_weight(31 * DAY), 10);
    assert_eq!(contract.get_staking_weight(91 * DAY), 15);
    assert_eq!(contract.get_staking_weight(181 * DAY), 20);
    assert_eq!(contract.get_staking_weight(271 * DAY), 25);
}

#[test]
fn durations_beyond_every_threshold_get_the_default() {
    let table = WeightTable::new(vec![tier(10, 1), tier(20, 2)], 7).unwrap();
    assert_eq!(table.weight_for(0), 1);
    assert_eq!(table.weight_for(10), 1);
    assert_eq!(table.weight_for(11), 2);
    assert_eq!(table.weight_for(20), 2);
    assert_eq!(table.weight_for(21), 7);
    assert_eq!(table.weight_for(u64::MAX), 7);

    let flat = WeightTable::new(vec![], 3).unwrap();
    assert_eq!(flat.weight_for(0), 3);
    assert_eq!(flat.weight_for(u64::MAX), 3);
}

#[test]
fn weight_never_falls_with_duration() {
    let table = WeightTable::standard();
    let durations: Vec<u64> = vec![
        0,
        1,
        89 * DAY,
        90 * DAY,
        90 * DAY + 1,
        179 * DAY,
        180 * DAY,
        180 * DAY + 1,
        270 * DAY,
        270 * DAY + 1,
        u64::MAX,
    ];
    for pair in durations.windows(2) {
        assert!(table.weight_for(pair[0]) <= table.weight_for(pair[1]));
    }
}

#[test]
fn tables_that_are_not_well_formed_are_refused() {
    // Thresholds out of order, and twice the same threshold.
    assert!(WeightTable::new(vec![tier(20, 1), tier(10, 2)], 2).is_none());
    assert!(WeightTable::new(vec![tier(10, 1), tier(10, 2)], 2).is_none());
    // A multiplier that falls along the tiers.
    assert!(WeightTable::new(vec![tier(10, 2), tier(20, 1)], 2).is_none());
    // A default below the last multiplier.
    assert!(WeightTable::new(vec![tier(10, 1), tier(20, 3)], 2).is_none());
    // Multipliers of zero.
    assert!(WeightTable::new(vec![tier(10, 0), tier(20, 3)], 3).is_none());
    assert!(WeightTable::new(vec![], 0).is_none());
    // Equal multipliers are in order.
    assert!(WeightTable::new(vec![tier(10, 2), tier(20, 2)], 2).is_some());

    let broken = WeightTable { tiers: vec![tier(20, 1), tier(10, 2)], default_multiplier: 2 };
    assert!(!broken.is_well_formed());
}
