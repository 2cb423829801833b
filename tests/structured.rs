use searchdex::parse::{parse_json, JsonValue};

fn chars(s: &str) -> Vec<char> {
    s.chars().collect()
}

fn text(v: &[char]) -> String {
    v.iter().collect()
}

fn member<'a>(v: &'a JsonValue, key: &str) -> Option<&'a JsonValue> {
    match v {
        JsonValue::ObjectValue(ms) => ms.iter().find(|(k, _)| text(k) == key).map(|(_, v)| v),
        _ => None,
    }
}

#[test]
fn rejects_trailing_comma() {
    assert!(parse_json(&chars("{\"a\": 1,}")).is_none());
}

#[test]
fn rejects_unterminated_string() {
    assert!(parse_json(&chars("{\"a\": \"b")).is_none());
}

#[test]
fn rejects_missing_delimiter_and_bad_literals() {
    assert!(parse_json(&chars("{\"a\": 1 \"b\": 2}")).is_none());
    assert!(parse_json(&chars("{\"a\": tru}")).is_none());
    assert!(parse_json(&chars("{\"a\": 1.2.3}")).is_none());
    assert!(parse_json(&chars("{\"a\": -}")).is_none());
    assert!(parse_json(&chars("")).is_none());
    assert!(parse_json(&chars("[1]")).is_none());
    assert!(parse_json(&chars("{")).is_none());
}

#[test]
fn parses_nested_values() {
    let v = parse_json(&chars(
        "{\"s\": \"hi\", \"n\": -42, \"d\": 3.5, \"t\": true, \"f\": false, \"z\": null, \"a\": [1, [], {}]}",
    ))
    .unwrap();
    assert!(matches!(member(&v, "s"), Some(JsonValue::StringValue(s)) if text(s) == "hi"));
    assert!(matches!(member(&v, "n"), Some(JsonValue::IntegerValue(-42))));
    assert!(matches!(member(&v, "d"), Some(JsonValue::DecimalValue(d)) if text(d) == "3.5"));
    assert!(matches!(member(&v, "t"), Some(JsonValue::BooleanValue(true))));
    assert!(matches!(member(&v, "f"), Some(JsonValue::BooleanValue(false))));
    assert!(matches!(member(&v, "z"), Some(JsonValue::Null)));
    match member(&v, "a") {
        Some(JsonValue::ArrayValue(items)) => {
            assert_eq!(items.len(), 3);
            assert!(matches!(items[0], JsonValue::IntegerValue(1)));
            assert!(matches!(&items[1], JsonValue::ArrayValue(x) if x.is_empty()));
            assert!(matches!(&items[2], JsonValue::ObjectValue(x) if x.is_empty()));
        }
        _ => panic!("array expected"),
    }
}

#[test]
fn duplicate_keys_keep_the_last_value() {
    let v = parse_json(&chars("{\"a\": 1, \"b\": 2, \"a\": 3}")).unwrap();
    match &v {
        JsonValue::ObjectValue(ms) => assert_eq!(ms.len(), 2),
        _ => panic!("object expected"),
    }
    assert!(matches!(member(&v, "a"), Some(JsonValue::IntegerValue(3))));
}

#[test]
fn decodes_escapes() {
    let v = parse_json(&chars("{\"k\": \"\\u0041\\u00c3\\u00a9\\n\\\"x\"}")).unwrap();
    assert!(matches!(member(&v, "k"), Some(JsonValue::StringValue(s)) if text(s) == "Aé\n\"x"));
}

#[test]
fn rejects_invalid_escapes() {
    assert!(parse_json(&chars("{\"k\": \"\\u00zz\"}")).is_none());
    assert!(parse_json(&chars("{\"k\": \"\\u0100\"}")).is_none());
    assert!(parse_json(&chars("{\"k\": \"\\u00c3\"}")).is_none());
}

#[test]
fn integer_limits_and_large_numbers() {
    let v = parse_json(&chars(
        "{\"min\": -9223372036854775808, \"max\": 9223372036854775807, \"big\": 9223372036854775808}",
    ))
    .unwrap();
    assert!(matches!(member(&v, "min"), Some(JsonValue::IntegerValue(i64::MIN))));
    assert!(matches!(member(&v, "max"), Some(JsonValue::IntegerValue(i64::MAX))));
    assert!(matches!(member(&v, "big"), Some(JsonValue::DecimalValue(d)) if text(d) == "9223372036854775808"));
}

#[test]
fn stray_characters_are_skipped() {
    let v = parse_json(&chars("x{ \"a\" : 1 }")).unwrap();
    assert!(matches!(member(&v, "a"), Some(JsonValue::IntegerValue(1))));
}

fn render(v: &JsonValue) -> String {
    match v {
        JsonValue::StringValue(s) => format!("\"{}\"", text(s)),
        JsonValue::IntegerValue(n) => n.to_string(),
        JsonValue::DecimalValue(d) => text(d),
        JsonValue::BooleanValue(b) => b.to_string(),
        JsonValue::Null => "null".to_string(),
        JsonValue::ArrayValue(items) => {
            format!("[{}]", items.iter().map(render).collect::<Vec<_>>().join(", "))
        }
        JsonValue::ObjectValue(ms) => {
            let mut parts: Vec<String> =
                ms.iter().map(|(k, v)| format!("\"{}\": {}", text(k), render(v))).collect();
            parts.sort();
            format!("{{{}}}", parts.join(", "))
        }
    }
}

#[test]
fn serialization_round_trip() {
    let source = "{\"b\": [1, -2, 3.25, \"x y\"], \"a\": {\"n\": null, \"t\": true, \"e\": []}, \"c\": {}}";
    let v = parse_json(&chars(source)).unwrap();
    let once = render(&v);
    let again = parse_json(&chars(&once)).unwrap();
    assert_eq!(render(&again), once);
    assert_eq!(
        once,
        "{\"a\": {\"e\": [], \"n\": null, \"t\": true}, \"b\": [1, -2, 3.25, \"x y\"], \"c\": {}}"
    );
}
