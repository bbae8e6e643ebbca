use samplify_rs::text::{render_fixed, render_int, render_nat, render_padded, render_stepped};

#[test]
fn integers_are_written_as_plain_numerals() {
    assert_eq!(render_int(0), "0");
    assert_eq!(render_int(7), "7");
    assert_eq!(render_int(-42), "-42");
    assert_eq!(render_int(i64::MAX), "9223372036854775807");
    assert_eq!(render_int(i64::MIN), "-9223372036854775808");
}

#[test]
fn naturals_are_written_without_leading_zeros() {
    assert_eq!(render_nat(0), "0");
    assert_eq!(render_nat(10), "10");
    assert_eq!(render_nat(u128::MAX), "340282366920938463463374607431768211455");
}

#[test]
fn padded_digits_keep_their_width() {
    assert_eq!(render_padded(5, 3), "005");
    assert_eq!(render_padded(12345, 2), "45");
    assert_eq!(render_padded(9, 0), "");
}

#[test]
fn fixed_point_values_have_the_digits_asked_for() {
    assert_eq!(render_fixed(12345, 2, 2), "123.45");
    assert_eq!(render_fixed(-5, 2, 2), "-0.05");
    assert_eq!(render_fixed(0, 2, 2), "0.00");
    assert_eq!(render_fixed(7, 0, 0), "7");
    assert_eq!(render_fixed(15, 1, 3), "1.500");
    assert_eq!(render_fixed(-10000, 2, 2), "-100.00");
    assert_eq!(
        render_fixed(1, 18, 20),
        "0.00000000000000000100"
    );
}

#[test]
fn stepped_values_are_written_out_in_full() {
    assert_eq!(render_stepped(12345, -2, 2), "123.45");
    assert_eq!(render_stepped(12345, 0, 0), "12345");
    assert_eq!(render_stepped(12345, 0, 3), "12345.000");
    assert_eq!(render_stepped(12, 5, 0), "1200000");
    assert_eq!(render_stepped(-12, 5, 2), "-1200000.00");
    assert_eq!(render_stepped(0, 5, 2), "0.00");
    assert_eq!(render_stepped(0, 40, 0), "0");
    assert_eq!(render_stepped(1, 30, 1), "1000000000000000000000000000000.0");
    assert_eq!(render_stepped(-5, -18, 20), "-0.00000000000000000500");
}
