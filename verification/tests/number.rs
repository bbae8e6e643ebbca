use samplify_rs::number::{count_digits, power_of_ten};
use samplify_rs::Number;

#[test]
fn powers_of_ten_are_exact() {
    assert_eq!(power_of_ten(0), 1);
    assert_eq!(power_of_ten(1), 10);
    assert_eq!(power_of_ten(18), 1_000_000_000_000_000_000);
    assert_eq!(power_of_ten(38), 100_000_000_000_000_000_000_000_000_000_000_000_000);
}

#[test]
fn whole_numbers_keep_sign_and_magnitude() {
    assert_eq!(Number::from_i64(-5), Number::from_parts(true, 5, 0));
    assert_eq!(Number::from_i64(0), Number::from_parts(false, 0, 0));
    assert_eq!(Number::from_i64(i64::MIN), Number::from_parts(true, 9223372036854775808, 0));
    assert_eq!(Number::from_u64(u64::MAX), Number::from_parts(false, u64::MAX, 0));
}

#[test]
fn floor_rounds_down_and_ceiling_up() {
    // 1.25 at one digit: 12.5
    let n = Number::from_parts(false, 125, -2);
    assert_eq!(n.floor_scaled(1), Some(12));
    assert_eq!(n.ceil_scaled(1), Some(13));
    // -1.25 at one digit: -12.5
    let m = Number::from_parts(true, 125, -2);
    assert_eq!(m.floor_scaled(1), Some(-13));
    assert_eq!(m.ceil_scaled(1), Some(-12));
}

#[test]
fn exact_scaling_rounds_nothing() {
    let n = Number::from_parts(false, 125, -2);
    assert_eq!(n.floor_scaled(2), Some(125));
    assert_eq!(n.ceil_scaled(2), Some(125));
    assert_eq!(n.floor_scaled(4), Some(12500));
    let m = Number::from_parts(true, 3, 2);
    assert_eq!(m.floor_scaled(0), Some(-300));
    assert_eq!(m.ceil_scaled(18), Some(-300_000_000_000_000_000_000));
}

#[test]
fn tiny_values_round_to_zero_or_one_step() {
    let n = Number::from_parts(false, 1, -30);
    assert_eq!(n.floor_scaled(18), Some(0));
    assert_eq!(n.ceil_scaled(18), Some(1));
    let m = Number::from_parts(true, 1, -30);
    assert_eq!(m.floor_scaled(18), Some(-1));
    assert_eq!(m.ceil_scaled(18), Some(0));
    let z = Number::from_parts(true, 0, -30);
    assert_eq!(z.floor_scaled(18), Some(0));
    assert_eq!(z.ceil_scaled(18), Some(0));
}

#[test]
fn values_are_scaled_where_38_digits_hold_them() {
    let large = Number::from_parts(false, 1, 38);
    assert!(!large.is_fitting(0));
    assert_eq!(large.floor_scaled(0), None);
    assert_eq!(large.ceil_scaled(0), None);
    assert_eq!(large.nearest_scaled(0), None);
    assert!(large.is_fitting(-1));
    assert_eq!(large.floor_scaled(-1), Some(10_000_000_000_000_000_000_000_000_000_000_000_000));
    let below = Number::from_parts(false, 99_999_999_999_999_999, 3);
    assert!(below.is_fitting(18));
    assert_eq!(below.floor_scaled(18), Some(99_999_999_999_999_999_000_000_000_000_000_000_000));
    assert!(!below.is_fitting(19));
    let zero = Number::from_parts(false, 0, 1000);
    assert!(zero.is_fitting(18));
    assert_eq!(zero.floor_scaled(18), Some(0));
    assert!(Number::from_parts(true, u64::MAX, 18).is_fitting(0));
    assert!(!Number::from_parts(true, u64::MAX, 19).is_fitting(0));
    assert!(Number::from_parts(false, u64::MAX, -2_000_000_000).is_fitting(0));
    assert!(Number::from_parts(false, 1, i32::MAX).is_fitting(i32::MIN));
    assert!(!Number::from_parts(false, 1, i32::MAX).is_fitting(i32::MAX));
}

#[test]
fn values_are_scaled_down_by_steps_of_many_digits() {
    let n = Number::from_parts(false, 15, 299);
    assert_eq!(n.floor_scaled(-263), Some(15_000_000_000_000_000_000_000_000_000_000_000_000));
    assert_eq!(n.floor_scaled(-300), Some(1));
    assert_eq!(n.ceil_scaled(-300), Some(2));
    assert_eq!(n.nearest_scaled(-300), Some(2));
    assert_eq!(n.floor_scaled(-301), Some(0));
    assert_eq!(n.ceil_scaled(-301), Some(1));
    assert_eq!(n.nearest_scaled(-301), Some(0));
    let m = Number::from_parts(true, 5, 0);
    assert_eq!(m.floor_scaled(-263), Some(-1));
    assert_eq!(m.ceil_scaled(-263), Some(0));
    assert_eq!(m.nearest_scaled(-1), Some(0));
    assert_eq!(Number::from_parts(true, 15, 0).nearest_scaled(-1), Some(-2));
}

#[test]
fn the_least_step_follows_the_first_digit() {
    assert_eq!(Number::from_parts(false, 0, 1000).step_needed(), -18);
    assert_eq!(Number::from_parts(false, 1, 0).step_needed(), -37);
    assert_eq!(Number::from_parts(false, 100, 0).step_needed(), -35);
    assert_eq!(Number::from_parts(false, 1, 25).step_needed(), -12);
    assert_eq!(Number::from_parts(true, 15, 299).step_needed(), 263);
    assert_eq!(Number::from_parts(false, u64::MAX, 0).step_needed(), -18);
    assert_eq!(Number::from_parts(false, u64::MAX, i32::MAX).step_needed(), 2147483629);
    assert_eq!(Number::from_parts(false, 7, i32::MIN).step_needed(), -2147483685);
}

#[test]
fn digits_are_counted() {
    assert_eq!(count_digits(0), 1);
    assert_eq!(count_digits(9), 1);
    assert_eq!(count_digits(10), 2);
    assert_eq!(count_digits(999), 3);
    assert_eq!(count_digits(u64::MAX), 20);
}

#[test]
fn truncation_drops_the_fraction() {
    assert_eq!(Number::from_parts(false, 17, -1).to_i64(), Some(1));
    assert_eq!(Number::from_parts(true, 17, -1).to_i64(), Some(-1));
    assert_eq!(Number::from_parts(true, 9, -1).to_i64(), Some(0));
    assert_eq!(Number::from_parts(false, 5, 2).to_i64(), Some(500));
    assert_eq!(Number::from_i64(i64::MIN).to_i64(), Some(i64::MIN));
    assert_eq!(Number::from_i64(i64::MAX).to_i64(), Some(i64::MAX));
    assert_eq!(Number::from_parts(false, 9223372036854775808, 0).to_i64(), None);
    assert_eq!(Number::from_parts(true, 9223372036854775809, 0).to_i64(), None);
    assert_eq!(Number::from_parts(false, 1, 30).to_i64(), None);
}

#[test]
fn only_whole_numbers_that_are_not_negative_are_counts() {
    assert_eq!(Number::from_u64(2).to_u64(), Some(2));
    assert_eq!(Number::from_parts(false, 20, -1).to_u64(), Some(2));
    assert_eq!(Number::from_parts(false, 25, -1).to_u64(), None);
    assert_eq!(Number::from_parts(true, 2, 0).to_u64(), None);
    assert_eq!(Number::from_parts(true, 0, 0).to_u64(), Some(0));
    assert_eq!(Number::from_u64(u64::MAX).to_u64(), Some(u64::MAX));
    assert_eq!(Number::from_parts(false, u64::MAX, 1).to_u64(), None);
    assert_eq!(Number::from_parts(false, 2, 19).to_u64(), None);
    assert_eq!(Number::from_parts(false, 1, 19).to_u64(), Some(10_000_000_000_000_000_000));
}

#[test]
fn the_nearest_step_is_the_even_one_of_two() {
    assert_eq!(Number::from_parts(false, 1234, -3).nearest_scaled(2), Some(123));
    assert_eq!(Number::from_parts(false, 1236, -3).nearest_scaled(2), Some(124));
    assert_eq!(Number::from_parts(true, 1236, -3).nearest_scaled(2), Some(-124));
    assert_eq!(Number::from_parts(false, 125, -3).nearest_scaled(2), Some(12));
    assert_eq!(Number::from_parts(false, 135, -3).nearest_scaled(2), Some(14));
    assert_eq!(Number::from_parts(true, 125, -3).nearest_scaled(2), Some(-12));
    assert_eq!(Number::from_parts(true, 135, -3).nearest_scaled(2), Some(-14));
    assert_eq!(Number::from_parts(false, 5, -1).nearest_scaled(0), Some(0));
    assert_eq!(Number::from_parts(false, 15, -1).nearest_scaled(0), Some(2));
    assert_eq!(Number::from_parts(false, 25, -1).nearest_scaled(0), Some(2));
    assert_eq!(Number::from_parts(false, 7, 1).nearest_scaled(1), Some(700));
    assert_eq!(Number::from_parts(false, 9, -30).nearest_scaled(18), Some(0));
    assert_eq!(Number::from_parts(false, u64::MAX, -20).nearest_scaled(0), Some(0));
    assert_eq!(Number::from_parts(false, 5, -20).nearest_scaled(19), Some(0));
    assert_eq!(Number::from_parts(false, 15, -20).nearest_scaled(19), Some(2));
    assert_eq!(
        Number::from_parts(false, 1, 20).nearest_scaled(0),
        Some(100_000_000_000_000_000_000)
    );
}

#[test]
fn the_nearest_step_is_the_one_that_formatting_gives() {
    let cases: [(f64, u64, i32); 6] = [
        (1.234, 1234, -3),
        (0.125, 125, -3),
        (0.375, 375, -3),
        (2.5, 25, -1),
        (0.004, 4, -3),
        (0.006, 6, -3),
    ];
    for (float, mantissa, exponent) in cases {
        let written = format!("{:.2}", float);
        let steps: i128 = written.replace('.', "").parse().unwrap();
        assert_eq!(
            Number::from_parts(false, mantissa, exponent).nearest_scaled(2),
            Some(steps),
            "{}",
            written
        );
    }
}

#[test]
fn numbers_are_ordered_by_value() {
    let n = |negative, mantissa, exponent| Number::from_parts(negative, mantissa, exponent);
    assert!(n(false, 14, -1).is_less_than(&n(false, 15, -1)));
    assert!(!n(false, 15, -1).is_less_than(&n(false, 14, -1)));
    assert!(!n(false, 15, -1).is_less_than(&n(false, 150, -2)));
    assert!(!n(false, 150, -2).is_less_than(&n(false, 15, -1)));
    assert!(n(false, 1, -300).is_less_than(&n(false, 2, -300)));
    assert!(n(false, 9, -300).is_less_than(&n(false, 1, -299)));
    assert!(!n(false, 1, -299).is_less_than(&n(false, 9, -300)));
    assert!(n(true, 1, 0).is_less_than(&n(false, 0, 0)));
    assert!(n(true, 1, -300).is_less_than(&n(false, 0, 5)));
    assert!(!n(true, 0, 0).is_less_than(&n(false, 0, 7)));
    assert!(!n(false, 0, 3).is_less_than(&n(true, 0, 0)));
    assert!(n(true, 2, 0).is_less_than(&n(true, 1, 0)));
    assert!(!n(true, 1, 0).is_less_than(&n(true, 2, 0)));
    assert!(n(true, 1, 30).is_less_than(&n(true, u64::MAX, 0)));
    assert!(n(false, u64::MAX, 0).is_less_than(&n(false, 1, 30)));
    assert!(n(false, u64::MAX, 0).is_less_than(&n(false, 2, 19)));
    assert!(!n(false, u64::MAX, 0).is_less_than(&n(false, 1, 19)));
    assert!(n(false, 1, 19).is_less_than(&n(false, u64::MAX, 0)));
    assert!(n(false, 0, 100).is_less_than(&n(false, 1, -100)));
    assert!(!n(false, 1, i32::MAX).is_less_than(&n(false, 1, i32::MIN)));
    assert!(n(false, 1, i32::MIN).is_less_than(&n(false, 1, i32::MAX)));
}
