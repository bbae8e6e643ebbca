use samplify_rs::generate::{
    generate, generate_boolean, generate_fixed, generate_integer, generate_name, generate_uuid,
    render_boolean, render_boolean_draw, render_uuid,
};
use samplify_rs::{FieldPlan, NameKind};

fn is_fixed(text: &str, decimals: usize) -> bool {
    let body = text.strip_prefix('-').unwrap_or(text);
    match body.split_once('.') {
        Some((whole, fraction)) => {
            !whole.is_empty()
                && whole.chars().all(|c| c.is_ascii_digit())
                && fraction.len() == decimals
                && fraction.chars().all(|c| c.is_ascii_digit())
        }
        None => false,
    }
}

#[test]
fn truth_values_are_written_in_lower_case() {
    assert_eq!(render_boolean(true), "true");
    assert_eq!(render_boolean(false), "false");
}

#[test]
fn a_draw_below_the_threshold_is_true() {
    assert_eq!(render_boolean_draw(0, 1), "true");
    assert_eq!(render_boolean_draw(1, 1), "false");
    assert_eq!(render_boolean_draw(0, 0), "false");
    assert_eq!(
        render_boolean_draw(999_999_999_999_999_999, 1_000_000_000_000_000_000),
        "true"
    );
    assert_eq!(render_boolean_draw(499_999_999_999_999_999, 500_000_000_000_000_000), "true");
    assert_eq!(render_boolean_draw(500_000_000_000_000_000, 500_000_000_000_000_000), "false");
}

#[test]
fn a_certain_truth_value_never_varies() {
    for _ in 0..200 {
        assert_eq!(generate_boolean(1_000_000_000_000_000_000), "true");
        assert_eq!(generate_boolean(0), "false");
    }
}

#[test]
fn an_even_truth_value_gives_both() {
    let mut seen_true = false;
    let mut seen_false = false;
    for _ in 0..400 {
        match generate_boolean(500_000_000_000_000_000).as_str() {
            "true" => seen_true = true,
            "false" => seen_false = true,
            other => panic!("unexpected: {}", other),
        }
    }
    assert!(seen_true && seen_false);
}

#[test]
fn whole_numbers_stay_within_their_bounds() {
    for _ in 0..300 {
        let v: i64 = generate_integer(-3, 4).parse().unwrap();
        assert!((-3..=4).contains(&v));
    }
    assert_eq!(generate_integer(7, 7), "7");
    assert_eq!(generate_integer(i64::MIN, i64::MIN), "-9223372036854775808");
    assert_eq!(generate_integer(i64::MAX, i64::MAX), "9223372036854775807");
    let v: i64 = generate_integer(i64::MIN, i64::MAX).parse().unwrap();
    assert_eq!(v.to_string(), generate_integer(v, v));
}

#[test]
fn whole_numbers_reach_both_bounds() {
    let mut low = false;
    let mut high = false;
    for _ in 0..400 {
        match generate_integer(0, 1).as_str() {
            "0" => low = true,
            "1" => high = true,
            other => panic!("unexpected: {}", other),
        }
    }
    assert!(low && high);
}

#[test]
fn fractional_numbers_have_two_digits_and_stay_within_their_bounds() {
    for _ in 0..300 {
        let text = generate_fixed(0, 10000, -2, 2);
        assert!(is_fixed(&text, 2), "{}", text);
        let v: f64 = text.parse().unwrap();
        assert!((0.0..=100.0).contains(&v), "{}", text);
    }
    for _ in 0..300 {
        let text = generate_fixed(-150, -50, -2, 2);
        assert!(is_fixed(&text, 2), "{}", text);
        assert!(text.starts_with('-'));
        let v: f64 = text.parse().unwrap();
        assert!((-1.5..=-0.5).contains(&v), "{}", text);
    }
}

#[test]
fn fractional_numbers_with_one_step_are_exact() {
    assert_eq!(generate_fixed(314, 314, -2, 2), "3.14");
    assert_eq!(generate_fixed(-1, -1, -3, 3), "-0.001");
    assert_eq!(generate_fixed(5, 5, 0, 0), "5");
    assert_eq!(generate_fixed(25, 25, -1, 4), "2.5000");
    assert_eq!(generate_fixed(0, 0, -18, 18), "0.000000000000000000");
    assert_eq!(generate_fixed(7, 7, 3, 0), "7000");
    assert_eq!(generate_fixed(-7, -7, 3, 2), "-7000.00");
    assert_eq!(generate_fixed(0, 0, 3, 2), "0.00");
}

#[test]
fn names_are_never_empty() {
    let kinds = [
        NameKind::FirstName,
        NameKind::LastName,
        NameKind::Title,
        NameKind::Suffix,
        NameKind::Name,
        NameKind::NameWithTitle,
    ];
    for kind in kinds {
        for _ in 0..50 {
            assert!(!generate_name(kind).is_empty());
        }
    }
}

#[test]
fn whole_names_have_their_parts() {
    let titles = ["Mr.", "Mrs.", "Ms.", "Miss", "Dr."];
    let suffixes = ["Jr.", "Sr.", "I", "II", "III", "IV", "V", "MD", "DDS", "PhD", "DVM"];
    for _ in 0..100 {
        let name = generate_name(NameKind::Name);
        let (first, last) = name.split_once(' ').unwrap();
        assert!(!first.is_empty() && !last.is_empty());
        let titled = generate_name(NameKind::NameWithTitle);
        let (title, rest) = titled.split_once(' ').unwrap();
        assert!(titles.contains(&title));
        let (first, last) = rest.split_once(' ').unwrap();
        assert!(!first.is_empty() && !last.is_empty());
        assert!(titles.contains(&generate_name(NameKind::Title).as_str()));
        assert!(suffixes.contains(&generate_name(NameKind::Suffix).as_str()));
    }
}

#[test]
fn an_identifier_is_written_digit_by_digit() {
    assert_eq!(render_uuid(0), "00000000-0000-0000-0000-000000000000");
    assert_eq!(render_uuid(u128::MAX), "ffffffff-ffff-ffff-ffff-ffffffffffff");
    assert_eq!(
        render_uuid(0x0123456789abcdef_fedcba9876543210),
        "01234567-89ab-cdef-fedc-ba9876543210"
    );
    assert_ne!(render_uuid(1), render_uuid(2));
    assert_eq!(render_uuid(1 << 127), "80000000-0000-0000-0000-000000000000");
}

#[test]
fn identifiers_are_canonical_and_random() {
    let a = generate_uuid();
    let b = generate_uuid();
    assert_ne!(a, b);
    for text in [a, b] {
        assert_eq!(text.len(), 36);
        let parsed = uuid::Uuid::parse_str(&text).unwrap();
        assert_eq!(parsed.get_version_num(), 4);
        assert_eq!(parsed.get_variant(), uuid::Variant::RFC4122);
        assert_eq!(parsed.hyphenated().to_string(), text);
        for (i, c) in text.chars().enumerate() {
            if [8, 13, 18, 23].contains(&i) {
                assert_eq!(c, '-');
            } else {
                assert!(c.is_ascii_digit() || ('a'..='f').contains(&c));
            }
        }
        assert_eq!(text.as_bytes()[14], b'4');
        assert!(b"89ab".contains(&text.as_bytes()[19]));
    }
}

#[test]
fn a_plan_draws_what_it_describes() {
    assert_eq!(generate(&FieldPlan::Integer { min: 9, max: 9 }), "9");
    assert_eq!(
        generate(&FieldPlan::Fixed { low: -5, high: -5, step: -1, decimals: 2 }),
        "-0.50"
    );
    assert_eq!(generate(&FieldPlan::Boolean { threshold: 0 }), "false");
    assert_eq!(generate(&FieldPlan::Boolean { threshold: 1_000_000_000_000_000_000 }), "true");
    assert!(uuid::Uuid::parse_str(&generate(&FieldPlan::Uuid)).is_ok());
    assert!(!generate(&FieldPlan::Name(NameKind::FirstName)).is_empty());
}
