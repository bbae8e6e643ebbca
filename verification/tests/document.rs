use samplify_rs::{
    plan_field, read_number, sample, FieldPlan, JsonObject, JsonValue, NameKind, Number,
};

fn number_from(n: &serde_json::Number) -> Option<Number> {
    if let Some(v) = n.as_u64() {
        Some(Number::from_u64(v))
    } else if let Some(v) = n.as_i64() {
        Some(Number::from_i64(v))
    } else {
        read_number(&n.to_string())
    }
}

fn value_from(value: &serde_json::Value) -> JsonValue {
    match value {
        serde_json::Value::Null => JsonValue::Null,
        serde_json::Value::Bool(b) => JsonValue::Bool(*b),
        serde_json::Value::Number(n) => match number_from(n) {
            Some(number) => JsonValue::Number(number),
            None => JsonValue::Null,
        },
        serde_json::Value::String(s) => JsonValue::Text(s.clone()),
        serde_json::Value::Array(items) => JsonValue::Array(items.iter().map(value_from).collect()),
        serde_json::Value::Object(map) => JsonValue::Object(document_from(map)),
    }
}

fn document_from(map: &serde_json::Map<String, serde_json::Value>) -> JsonObject {
    let mut document = JsonObject::new();
    for (key, value) in map {
        document.insert(key.clone(), value_from(value));
    }
    document
}

fn document(text: &str) -> JsonObject {
    let map: serde_json::Map<String, serde_json::Value> = serde_json::from_str(text).unwrap();
    document_from(&map)
}

const REPORT: &str = r#"
{
    "id": {
        "type": "uuid"
    },
    "name": {
        "type": "name",
        "subtype": "name_with_title"
    },
    "score": {
        "type": "number",
        "params": {
            "min": 0,
            "max": 100,
            "float": true,
            "decimals": 2
        }
    },
    "is_active": {
        "type": "boolean",
        "params": {
            "true_probability": 0.7
        }
    }
}"#;

#[test]
fn a_schema_read_from_text_plans_every_field() {
    let doc = document(REPORT);
    assert_eq!(plan_field(&doc, "id").unwrap(), FieldPlan::Uuid);
    assert_eq!(plan_field(&doc, "name").unwrap(), FieldPlan::Name(NameKind::NameWithTitle));
    assert_eq!(
        plan_field(&doc, "score").unwrap(),
        FieldPlan::Fixed { low: 0, high: 10000, step: -2, decimals: 2 }
    );
    assert_eq!(
        plan_field(&doc, "is_active").unwrap(),
        FieldPlan::Boolean { threshold: 700_000_000_000_000_000 }
    );
}

#[test]
fn a_schema_read_from_text_samples_a_whole_record() {
    let doc = document(REPORT);
    let fields: Vec<String> =
        ["id", "name", "score", "is_active"].iter().map(|f| f.to_string()).collect();
    for _ in 0..20 {
        let record = sample(&doc, &fields).unwrap();
        assert_eq!(record.len(), 4);
        assert!(uuid::Uuid::parse_str(record.value(0)).is_ok());
        assert!(!record.value(1).is_empty());
        let score: f64 = record.value(2).parse().unwrap();
        assert!((0.0..=100.0).contains(&score));
        assert!(["true", "false"].contains(&record.value(3).as_str()));
    }
}

#[test]
fn fractions_written_in_a_schema_are_held_exactly() {
    let doc = document(
        r#"{"n": {"type": "number", "params":
            {"min": -1.25, "max": 1e-7, "float": true, "decimals": 8}}}"#,
    );
    assert_eq!(
        plan_field(&doc, "n").unwrap(),
        FieldPlan::Fixed { low: -125_000_000, high: 10, step: -8, decimals: 8 }
    );
    let doc = document(
        r#"{"n": {"type": "number", "params":
            {"min": 2.5, "max": 100.0, "decimals": 1.0}}}"#,
    );
    assert_eq!(plan_field(&doc, "n").unwrap(), FieldPlan::Integer { min: 2, max: 100 });
}

#[test]
fn bounds_of_any_size_written_in_a_schema_are_kept() {
    let doc = document(
        r#"{"n": {"type": "number", "params": {"min": -1.5e300, "max": 1.5e300, "float": true}}}"#,
    );
    assert_eq!(
        plan_field(&doc, "n").unwrap(),
        FieldPlan::Fixed {
            low: -15_000_000_000_000_000_000_000_000_000_000_000_000,
            high: 15_000_000_000_000_000_000_000_000_000_000_000_000,
            step: 263,
            decimals: 2
        }
    );
    let doc = document(r#"{"n": {"type": "number", "params": {"max": 18446744073709551615}}}"#);
    assert_eq!(plan_field(&doc, "n").unwrap(), FieldPlan::Integer { min: 0, max: 100 });
}

#[test]
fn large_bounds_hold_every_value_drawn() {
    let fields = vec!["n".to_string()];
    for (min, max) in [(1e25f64, 1e26f64), (-1e300, -5.0), (-1e300, 1e300), (0.5, 1.7e308)] {
        let doc = document(&format!(
            r#"{{"n": {{"type": "number", "params":
                {{"min": {:e}, "max": {:e}, "float": true, "decimals": 2}}}}}}"#,
            min, max
        ));
        for _ in 0..50 {
            let record = sample(&doc, &fields).unwrap();
            let text = record.value(0);
            let body = text.strip_prefix('-').unwrap_or(text);
            let (whole, fraction) = body.split_once('.').unwrap();
            assert!(!whole.is_empty() && whole.chars().all(|c| c.is_ascii_digit()), "{}", text);
            assert_eq!(fraction.len(), 2, "{}", text);
            let v: f64 = text.parse().unwrap();
            assert!(min <= v && v <= max, "{} {} {}", min, text, max);
        }
    }
}

#[test]
fn a_large_lower_bound_with_no_upper_bound_is_invalid() {
    let doc = document(
        r#"{"n": {"type": "number", "params": {"min": 1e25, "float": true, "decimals": 2}}}"#,
    );
    assert!(matches!(
        sample(&doc, &vec!["n".to_string()]),
        Err(samplify_rs::GenerationError::InvalidParams { .. })
    ));
}

#[test]
fn probabilities_written_in_a_schema_decide_the_threshold() {
    for (text, threshold) in [
        ("1.0", 1_000_000_000_000_000_000u64),
        ("1", 1_000_000_000_000_000_000),
        ("0.0", 0),
        ("0", 0),
        ("-0.5", 0),
        ("2.5", 1_000_000_000_000_000_000),
        ("0.25", 250_000_000_000_000_000),
        ("1e-3", 1_000_000_000_000_000),
    ] {
        let doc = document(&format!(
            r#"{{"b": {{"type": "boolean", "params": {{"true_probability": {}}}}}}}"#,
            text
        ));
        assert_eq!(plan_field(&doc, "b").unwrap(), FieldPlan::Boolean { threshold }, "{}", text);
    }
}

#[test]
fn bounds_that_hold_no_step_are_written_as_formatting_writes_them() {
    let doc = document(
        r#"{"n": {"type": "number", "params":
            {"min": 1.234, "max": 1.234, "float": true, "decimals": 2}}}"#,
    );
    let fields = vec!["n".to_string()];
    let record = sample(&doc, &fields).unwrap();
    assert_eq!(record.value(0), "1.23");
    assert_eq!(record.value(0), &format!("{:.2}", 1.234f64));
    let doc = document(
        r#"{"n": {"type": "number", "params": {"min": 0.001, "max": 0.004, "float": true}}}"#,
    );
    assert_eq!(sample(&doc, &fields).unwrap().value(0), "0.00");
}

#[test]
fn fractional_bounds_in_order_always_give_a_value_of_the_form_asked_for() {
    let fields = vec!["n".to_string()];
    let bounds = [("0", "100"), ("-2.5", "2.5"), ("0.004", "0.006"), ("7", "7"), ("0.1", "0.11")];
    for (min, max) in bounds {
        let doc = document(&format!(
            r#"{{"n": {{"type": "number", "params":
                {{"min": {}, "max": {}, "float": true, "decimals": 2}}}}}}"#,
            min, max
        ));
        for _ in 0..50 {
            let record = sample(&doc, &fields).unwrap();
            let text = record.value(0);
            let body = text.strip_prefix('-').unwrap_or(text);
            let (whole, fraction) = body.split_once('.').unwrap();
            assert!(!whole.is_empty() && whole.chars().all(|c| c.is_ascii_digit()), "{}", text);
            assert_eq!(fraction.len(), 2, "{}", text);
            assert!(fraction.chars().all(|c| c.is_ascii_digit()), "{}", text);
        }
    }
}

#[test]
fn bounds_that_are_steps_hold_every_value_drawn() {
    let fields = vec!["n".to_string()];
    for (min, max) in [(-1.25f64, 3.75f64), (0.0, 0.01), (99.99, 100.0), (-0.02, -0.01)] {
        let doc = document(&format!(
            r#"{{"n": {{"type": "number", "params":
                {{"min": {}, "max": {}, "float": true, "decimals": 2}}}}}}"#,
            min, max
        ));
        for _ in 0..100 {
            let record = sample(&doc, &fields).unwrap();
            let v: f64 = record.value(0).parse().unwrap();
            assert!(min <= v && v <= max, "{}", record.value(0));
        }
    }
}
