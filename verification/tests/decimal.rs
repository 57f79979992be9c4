use bidown::decimal::{narrow, Decimal};

fn units(text: &str) -> i64 {
    Decimal::from_str(text).unwrap().units()
}

#[test]
fn literals_are_read_exactly() {
    assert_eq!(units("0"), 0);
    assert_eq!(units("1"), 1_000_000);
    assert_eq!(units("1.00"), 1_000_000);
    assert_eq!(units("0.50"), 500_000);
    assert_eq!(units("2.5"), 2_500_000);
    assert_eq!(units("12345.678901"), 12_345_678_901);
    assert_eq!(units("007"), 7_000_000);
}

#[test]
fn a_point_may_stand_first_or_last() {
    assert_eq!(units(".5"), 500_000);
    assert_eq!(units("5."), 5_000_000);
    assert!(Decimal::from_str(".").is_none());
}

#[test]
fn signs_are_read() {
    assert_eq!(units("-2"), -2_000_000);
    assert_eq!(units("+2"), 2_000_000);
    assert_eq!(units("-0.25"), -250_000);
    assert_eq!(units("-0"), 0);
    assert!(Decimal::from_str("-").is_none());
    assert!(Decimal::from_str("+").is_none());
    assert!(Decimal::from_str("--1").is_none());
    assert!(Decimal::from_str("+-1").is_none());
}

#[test]
fn digits_beyond_the_sixth_place_are_cut_off() {
    assert_eq!(units("0.1234567"), 123_456);
    assert_eq!(units("0.9999999"), 999_999);
    assert_eq!(units("-0.9999999"), -999_999);
    assert_eq!(units("1.0000001"), 1_000_000);
}

#[test]
fn exponents_move_the_point() {
    assert_eq!(units("1e0"), 1_000_000);
    assert_eq!(units("1e3"), 1_000_000_000);
    assert_eq!(units("1E3"), 1_000_000_000);
    assert_eq!(units("1e+3"), 1_000_000_000);
    assert_eq!(units("1e-3"), 1_000);
    assert_eq!(units("1.5e1"), 15_000_000);
    assert_eq!(units("12.345e-1"), 1_234_500);
    assert_eq!(units(".5e1"), 5_000_000);
    assert_eq!(units("5.e-1"), 500_000);
    assert_eq!(units("-2.5e2"), -250_000_000);
    assert_eq!(units("1e-6"), 1);
    assert_eq!(units("1e-7"), 0);
    assert_eq!(units("19e-7"), 1);
    assert_eq!(units("123456789e-10"), 12_345);
    assert_eq!(units("0e99999999999999999999999999"), 0);
    assert_eq!(units("1e-99999999999999999999999999"), 0);
    assert_eq!(units("0.000e5"), 0);
    assert_eq!(units("1e12"), 1_000_000_000_000_000_000);
    assert_eq!(units("9223372036854775807e-6"), i64::MAX);
    assert_eq!(units("1e13"), i64::MAX);
    assert_eq!(units("-1e13"), i64::MIN);
    assert_eq!(units("1e99999999999999999999999999"), i64::MAX);
    assert_eq!(units("-0.001e99999999999999999999999999"), i64::MIN);
}

#[test]
fn exponents_that_are_none() {
    assert!(Decimal::from_str("1e").is_none());
    assert!(Decimal::from_str("e5").is_none());
    assert!(Decimal::from_str(".e5").is_none());
    assert!(Decimal::from_str("1e+").is_none());
    assert!(Decimal::from_str("1e-").is_none());
    assert!(Decimal::from_str("1e5e5").is_none());
    assert!(Decimal::from_str("1e5.5").is_none());
    assert!(Decimal::from_str("1e 5").is_none());
    assert!(Decimal::from_str("1Ee5").is_none());
    assert!(Decimal::from_str("1x5").is_none());
}

#[test]
fn what_is_no_literal() {
    assert!(Decimal::from_str("inf").is_none());
    assert!(Decimal::from_str("NaN").is_none());
    assert!(Decimal::from_str("infinity").is_none());
    assert!(Decimal::from_str("").is_none());
    assert!(Decimal::from_str(" 1").is_none());
    assert!(Decimal::from_str("1 ").is_none());
    assert!(Decimal::from_str("1.2.3").is_none());
    assert!(Decimal::from_str("abc").is_none());
    assert!(Decimal::from_str("1a").is_none());
    assert!(Decimal::from_str("$v").is_none());
    assert!(Decimal::from_str("١").is_none());
}

#[test]
fn literals_out_of_range_give_the_nearest_number() {
    assert_eq!(units("9223372036854.775807"), i64::MAX);
    assert_eq!(units("9223372036854.775808"), i64::MAX);
    assert_eq!(units("-9223372036854.775808"), i64::MIN);
    assert_eq!(units("-9223372036854.775809"), i64::MIN);
    assert_eq!(units("99999999999999999999999999999999999999999999"), i64::MAX);
    assert_eq!(units("-99999999999999999999999999999999999999999999"), i64::MIN);
    assert_eq!(units("9223372036854.775806"), i64::MAX - 1);
}

#[test]
fn the_whole_part_is_rounded_toward_zero() {
    assert_eq!(Decimal::from_units(0).trunc(), 0);
    assert_eq!(Decimal::from_units(999_999).trunc(), 0);
    assert_eq!(Decimal::from_units(1_000_000).trunc(), 1);
    assert_eq!(Decimal::from_units(1_999_999).trunc(), 1);
    assert_eq!(Decimal::from_units(-999_999).trunc(), 0);
    assert_eq!(Decimal::from_units(-1_000_000).trunc(), -1);
    assert_eq!(Decimal::from_units(-1_999_999).trunc(), -1);
    assert_eq!(Decimal::from_units(i64::MAX).trunc(), 9_223_372_036_854);
    assert_eq!(Decimal::from_units(i64::MIN).trunc(), -9_223_372_036_854);
}

#[test]
fn sums_stay_in_range() {
    let one = Decimal::from_units(1_000_000);
    let half = Decimal::from_units(500_000);
    assert_eq!(one.saturating_add(half).units(), 1_500_000);
    assert_eq!(one.saturating_add(half.saturating_neg()).units(), 500_000);
    assert_eq!(Decimal::from_units(i64::MAX).saturating_add(one).units(), i64::MAX);
    assert_eq!(
        Decimal::from_units(i64::MIN)
            .saturating_add(one.saturating_neg())
            .units(),
        i64::MIN
    );
    assert_eq!(Decimal::from_units(i64::MIN).saturating_neg().units(), i64::MAX);
    assert_eq!(Decimal::from_units(i64::MAX).saturating_neg().units(), -i64::MAX);
}

#[test]
fn whole_numbers() {
    assert_eq!(Decimal::from_whole(0).units(), 0);
    assert_eq!(Decimal::from_whole(3).units(), 3_000_000);
    assert_eq!(Decimal::from_whole(-3).units(), -3_000_000);
    assert_eq!(Decimal::from_whole(i64::MAX).units(), i64::MAX);
    assert_eq!(Decimal::from_whole(i64::MIN).units(), i64::MIN);
}

#[test]
fn buckets_are_the_value_times_24_99_rounded_toward_zero() {
    assert_eq!(Decimal::from_units(0).quantize(), 0);
    // 1 * 24.99 = 24.99
    assert_eq!(units_bucket("1"), 24);
    // 2 * 24.99 = 49.98
    assert_eq!(units_bucket("2"), 49);
    // 0.04 * 24.99 = 0.9996
    assert_eq!(units_bucket("0.04"), 0);
    // 0.05 * 24.99 = 1.2495
    assert_eq!(units_bucket("0.05"), 1);
    // 100 * 24.99 = 2499
    assert_eq!(units_bucket("100"), 2499);
    // -1 * 24.99 = -24.99
    assert_eq!(units_bucket("-1"), -24);
    assert_eq!(units_bucket("-0.04"), 0);
    assert_eq!(units_bucket("-0.05"), -1);
    assert_eq!(Decimal::from_units(i64::MAX).quantize(), 230_492_067_201_000);
    assert_eq!(Decimal::from_units(i64::MIN).quantize(), -230_492_067_201_000);
}

fn units_bucket(text: &str) -> i64 {
    Decimal::from_str(text).unwrap().quantize()
}

#[test]
fn wide_numbers_are_narrowed_to_the_nearest() {
    assert_eq!(narrow(0), 0);
    assert_eq!(narrow(-5), -5);
    assert_eq!(narrow(i64::MAX as i128), i64::MAX);
    assert_eq!(narrow(i64::MAX as i128 + 1), i64::MAX);
    assert_eq!(narrow(i64::MIN as i128 - 1), i64::MIN);
    assert_eq!(narrow(i128::MAX), i64::MAX);
    assert_eq!(narrow(i128::MIN), i64::MIN);
}
