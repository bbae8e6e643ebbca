use samplify_rs::parse::digit_of;
use samplify_rs::{read_number, Number};

#[test]
fn digits_are_told_from_other_characters() {
    assert_eq!(digit_of('0'), Some(0));
    assert_eq!(digit_of('9'), Some(9));
    assert_eq!(digit_of('a'), None);
    assert_eq!(digit_of('-'), None);
    assert_eq!(digit_of('٣'), None);
}

#[test]
fn whole_numbers_read_with_exponent_zero() {
    assert_eq!(read_number("0"), Some(Number::from_parts(false, 0, 0)));
    assert_eq!(read_number("100"), Some(Number::from_parts(false, 100, 0)));
    assert_eq!(read_number("-5"), Some(Number::from_parts(true, 5, 0)));
    assert_eq!(read_number("007"), Some(Number::from_parts(false, 7, 0)));
    assert_eq!(
        read_number("18446744073709551615"),
        Some(Number::from_parts(false, u64::MAX, 0))
    );
}

#[test]
fn digits_behind_the_point_lower_the_exponent() {
    assert_eq!(read_number("0.7"), Some(Number::from_parts(false, 7, -1)));
    assert_eq!(read_number("-12.345"), Some(Number::from_parts(true, 12345, -3)));
    assert_eq!(read_number("1.50"), Some(Number::from_parts(false, 150, -2)));
    assert_eq!(read_number("0.000"), Some(Number::from_parts(false, 0, -3)));
}

#[test]
fn a_written_exponent_is_added() {
    assert_eq!(read_number("1e5"), Some(Number::from_parts(false, 1, 5)));
    assert_eq!(read_number("1E5"), Some(Number::from_parts(false, 1, 5)));
    assert_eq!(read_number("1e+5"), Some(Number::from_parts(false, 1, 5)));
    assert_eq!(read_number("1e-7"), Some(Number::from_parts(false, 1, -7)));
    assert_eq!(read_number("1.5e300"), Some(Number::from_parts(false, 15, 299)));
    assert_eq!(read_number("-2.25e-3"), Some(Number::from_parts(true, 225, -5)));
    assert_eq!(read_number("5e-324"), Some(Number::from_parts(false, 5, -324)));
    assert_eq!(read_number("1e0002"), Some(Number::from_parts(false, 1, 2)));
}

#[test]
fn texts_that_are_no_numbers_read_as_nothing() {
    for text in [
        "", "-", "+1", ".5", "5.", "1e", "1e+", "1e-", "1.e5", "e5", "--1", "1 ", " 1", "1,5",
        "0x10", "1.2.3", "1e5e5", "NaN", "inf", "١٢", "1e5.0", "1-", "1+1",
    ] {
        assert_eq!(read_number(text), None, "{:?}", text);
    }
}

#[test]
fn digits_beyond_the_machine_word_read_as_nothing() {
    assert_eq!(read_number("18446744073709551616"), None);
    assert_eq!(read_number("1.8446744073709551616"), None);
    assert_eq!(read_number("184467440737095516150"), None);
    assert_eq!(read_number("99999999999999999999999999999999999999999999"), None);
    assert_eq!(
        read_number("0.00000000000000000001"),
        Some(Number::from_parts(false, 1, -20))
    );
}

#[test]
fn exponents_beyond_the_machine_word_read_as_nothing() {
    assert_eq!(read_number("1e2147483647"), Some(Number::from_parts(false, 1, i32::MAX)));
    assert_eq!(read_number("1e2147483648"), None);
    assert_eq!(read_number("1e-2147483648"), Some(Number::from_parts(false, 1, i32::MIN)));
    assert_eq!(read_number("1e-2147483649"), None);
    assert_eq!(read_number("1.5e-2147483648"), None);
    assert_eq!(read_number("1.5e2147483648"), Some(Number::from_parts(false, 15, i32::MAX)));
    assert_eq!(read_number("1e99999999999999999999999999999999999"), None);
    assert_eq!(read_number("1e-99999999999999999999999999999999999"), None);
}

#[test]
fn a_number_read_from_text_scales_like_one_built_from_parts() {
    let n = read_number("19.999").unwrap();
    assert_eq!(n.floor_scaled(1), Some(199));
    assert_eq!(n.ceil_scaled(1), Some(200));
    assert_eq!(n.to_i64(), Some(19));
    assert_eq!(read_number("2.0").unwrap().to_u64(), Some(2));
    assert_eq!(read_number("2e2").unwrap().to_u64(), Some(200));
}
