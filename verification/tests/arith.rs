use sin_staking_contract::arith::mul_div_floor;

#[test]
fn small_quotients_round_down() {
    assert_eq!(mul_div_floor(1000, 7, 3), Some(2333));
    assert_eq!(mul_div_floor(1000, 500, 500), Some(1000));
    assert_eq!(mul_div_floor(1, 1, 2), Some(0));
    assert_eq!(mul_div_floor(3, 5, 4), Some(3));
    assert_eq!(mul_div_floor(0, u128::MAX, 1), Some(0));
    assert_eq!(mul_div_floor(u128::MAX, 0, 1), Some(0));
    assert_eq!(mul_div_floor(6, 7, 42), Some(1));
    assert_eq!(mul_div_floor(6, 7, 43), Some(0));
}

#[test]
fn division_by_zero_has_no_quotient() {
    assert_eq!(mul_div_floor(0, 0, 0), None);
    assert_eq!(mul_div_floor(5, 5, 0), None);
}

#[test]
fn products_beyond_128_bits_are_exact() {
    assert_eq!(mul_div_floor(u128::MAX, u128::MAX, u128::MAX), Some(u128::MAX));
    assert_eq!(mul_div_floor(u128::MAX, u128::MAX - 1, u128::MAX), Some(u128::MAX - 1));
    assert_eq!(mul_div_floor(u128::MAX, 2, 2), Some(u128::MAX));
    assert_eq!(mul_div_floor(u128::MAX, 3, 4), Some(255211775190703847597530955573826158591));
    assert_eq!(
        mul_div_floor(
            123_456_789_012_345_678_901_234_567_890,
            987_654_321_098_765_432_109_876_543_210,
            1_000_000_007_000_000_000_000_000_000_000
        ),
        Some(121_932_630_283_493_383_241_731_350_041)
    );
    // A divisor above 2^127, where doubling a remainder leaves the range.
    assert_eq!(
        mul_div_floor(u128::MAX - 2, u128::MAX - 4, u128::MAX - 1),
        Some(u128::MAX - 5)
    );
}

#[test]
fn quotients_beyond_128_bits_are_refused() {
    assert_eq!(mul_div_floor(u128::MAX, 2, 1), None);
    assert_eq!(mul_div_floor(u128::MAX, u128::MAX, u128::MAX - 1), None);
    assert_eq!(mul_div_floor(1u128 << 127, 2, 1), None);
    assert_eq!(mul_div_floor(1u128 << 64, 1u128 << 64, 1), None);
    assert_eq!(mul_div_floor((1u128 << 64) - 1, (1u128 << 64) + 1, 1), Some(u128::MAX));
}
