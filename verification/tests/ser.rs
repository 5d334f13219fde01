use std::collections::HashMap;

use serde_json_exercise as json;
use serde_json_exercise::{Error, Value};

fn signed(items: &[i64]) -> Value {
    Value::Sequence(items.iter().map(|v| Value::Signed(*v)).collect())
}

#[test]
fn ser_string() {
    assert_eq!(
        json::to_string(&Value::Str("droddyrox".to_string())).expect("Failed to serialize"),
        "\"droddyrox\""
    );
}

#[test]
fn ser_escape_string() {
    let string = "droddy\"rox\"";
    let json = json::to_string(&Value::Str(string.to_string())).expect("Failed to serialize");
    assert_eq!(json, "\"droddy\\\"rox\\\"\"");
}

#[test]
fn ser_escape_ascii_control() {
    let string = "\x0F";
    let json = json::to_string(&Value::Str(string.to_string())).expect("Failed to serialize");
    assert_eq!(json, "\"\\u000f\"");
}

#[test]
fn ser_seq() {
    assert_eq!(
        json::to_string(&signed(&[1, 2, 3])).expect("Failed to serialize"),
        "[1,2,3]"
    );
}

#[test]
fn ser_map() {
    let map = HashMap::from([("a", 1), ("b", 2)]);
    let value = Value::Mapping(
        map.iter()
            .map(|(key, value)| (Value::Str(key.to_string()), Value::Signed(*value)))
            .collect(),
    );
    let string = json::to_string(&value).expect("Failed to serialize");
    // HashMap ordering is not guarenteed
    assert!(string == "{\"a\":1,\"b\":2}" || string == "{\"b\":2,\"a\":1}");
}

#[test]
fn bad_key() {
    let map = HashMap::from([(1, 1), (2, 2)]);
    let value = Value::Mapping(
        map.iter()
            .map(|(key, value)| (Value::Signed(*key), Value::Signed(*value)))
            .collect(),
    );
    assert!(json::to_string(&value).is_err());
    assert_eq!(json::to_string(&value), Err(Error::KeyNotString));
}

#[test]
fn tuple() {
    assert_eq!(
        json::to_string(&signed(&[1, 2, 3])).expect("Failed to serialize"),
        "[1,2,3]"
    );
}

#[test]
fn tuple_struct() {
    let point = signed(&[1, 2]);
    assert_eq!(
        serde_json_exercise::to_string(&point).expect("Failed to serialize"),
        "[1,2]"
    );
}

#[test]
fn newtype_variant() {
    let name = Value::Variant(
        "First".to_string(),
        Some(Box::new(Value::Str("droddyrox".to_string()))),
    );
    assert_eq!(
        json::to_string(&name).expect("Failed to serialize"),
        "{\"First\":\"droddyrox\"}"
    );
}

#[test]
fn tuple_variant() {
    let color = Value::Variant(
        "Rgb".to_string(),
        Some(Box::new(Value::Sequence(vec![
            Value::Unsigned(0),
            Value::Unsigned(0),
            Value::Unsigned(0),
        ]))),
    );
    assert_eq!(
        json::to_string(&color).expect("Failed to serialize"),
        "{\"Rgb\":[0,0,0]}"
    );
}

#[test]
fn struct_variant() {
    let color = Value::Variant(
        "Rgb".to_string(),
        Some(Box::new(Value::Mapping(vec![
            (Value::Str("r".to_string()), Value::Unsigned(0)),
            (Value::Str("g".to_string()), Value::Unsigned(0)),
            (Value::Str("b".to_string()), Value::Unsigned(0)),
        ]))),
    );
    assert_eq!(
        json::to_string(&color).expect("Failed to serialize"),
        "{\"Rgb\":{\"r\":0,\"g\":0,\"b\":0}}"
    );
}

#[test]
fn newtype_struct() {
    let age = Value::Unsigned(0);
    assert_eq!(json::to_string(&age).expect("Failed to serialize"), "0");
}
