use std::collections::HashMap;

use serde_json_exercise as json;
use serde_json_exercise::{Error, Shape, Value};

fn text(value: Value) -> String {
    match value {
        Value::Str(text) => text,
        other => panic!("not a text: {:?}", other),
    }
}

#[test]
fn de_string() {
    assert_eq!(
        text(json::from_str("\"droddyrox\"", &Shape::Str).expect("Failed to deserialize")),
        "droddyrox"
    );
}

#[test]
fn whitespace() {
    let input = r#""droddyrox" "#;
    assert_eq!(
        text(json::from_str(input, &Shape::Str).expect("Failed to deserialize")),
        "droddyrox"
    );
}

#[test]
fn de_escape_string() {
    let input = r#""droddy\"rox\"""#;
    println!("{input}");
    let json = text(json::from_str(input, &Shape::Str).expect("Failed to deserialize"));
    assert_eq!(json, "droddy\"rox\"");
}

#[test]
fn de_escape_ascii_control() {
    let input = r#""\u000f""#;
    let json = text(json::from_str(input, &Shape::Str).expect("Failed to deserialize"));
    assert_eq!(json, "\x0F");
}

#[test]
fn unclosed_string() {
    let input = r#""droddyrox"#;
    assert!(json::from_str(input, &Shape::Str).is_err());
    assert_eq!(json::from_str(input, &Shape::Str), Err(Error::Unclosed('"')));
}

#[test]
fn de_seq() {
    let input = r#"[1,2,3]"#;
    let json = json::from_str(input, &Shape::Sequence(Box::new(Shape::U8)))
        .expect("Failed to deserialize");
    assert_eq!(
        json,
        Value::Sequence(vec![Value::Unsigned(1), Value::Unsigned(2), Value::Unsigned(3)])
    );
    let json = json::from_str(input, &Shape::Bytes).expect("Failed to deserialize");
    assert_eq!(json, Value::Bytes(vec![1, 2, 3]));
}

#[test]
fn de_map() {
    let input = r#"{"a":"droddy","b":"rox"}"#;
    let shape = Shape::Mapping(Box::new(Shape::Str), Box::new(Shape::Str));
    let entries = match json::from_str(input, &shape).expect("Failed to deserialize") {
        Value::Mapping(entries) => entries,
        other => panic!("not a map: {:?}", other),
    };
    let mut json: HashMap<String, String> = HashMap::new();
    for (key, value) in entries {
        json.insert(text(key), text(value));
    }
    assert_eq!(json.get("a"), Some(&"droddy".to_string()));
    assert_eq!(json.get("b"), Some(&"rox".to_string()));
}

#[test]
fn float() {
    let input = "[-11.22, 1]";
    let items = match json::from_str(input, &Shape::Sequence(Box::new(Shape::Float)))
        .expect("Failed to deserialize")
    {
        Value::Sequence(items) => items,
        other => panic!("not a sequence: {:?}", other),
    };
    let mut json: Vec<f32> = Vec::new();
    for item in items {
        match item {
            Value::Float(text) => json.push(text.parse().expect("Failed to deserialize")),
            other => panic!("not a float: {:?}", other),
        }
    }
    assert_eq!(json, [-11.22, 1.0]);
}

#[test]
fn option() {
    let shape = Shape::Optional(Box::new(Shape::U8));

    let input = "null";
    let json = json::from_str(input, &shape).expect("Failed to deserialize");
    assert_eq!(json, Value::Optional(None));

    let input = "1";
    let json = serde_json_exercise::from_str(input, &shape).expect("Failed to deserialize");
    assert_eq!(json, Value::Optional(Some(Box::new(Value::Unsigned(1)))));
}

#[test]
fn d_enum() {
    let shape = Shape::Enum(vec![
        ("A".to_string(), Some(Shape::U8)),
        (
            "B".to_string(),
            Some(Shape::Struct(vec![
                ("a".to_string(), Shape::U8),
                ("b".to_string(), Shape::U8),
            ])),
        ),
    ]);
    let input = r#"{"A":1}"#;
    let json = json::from_str(input, &shape).expect("Failed to deserialize");
    assert_eq!(
        json,
        Value::Variant("A".to_string(), Some(Box::new(Value::Unsigned(1))))
    );
    let input = r#"{"B":{"a":1,"b":2}}"#;
    let json = serde_json_exercise::from_str(input, &shape).expect("Failed to deserialize");
    assert_eq!(
        json,
        Value::Variant(
            "B".to_string(),
            Some(Box::new(Value::Mapping(vec![
                (Value::Str("a".to_string()), Value::Unsigned(1)),
                (Value::Str("b".to_string()), Value::Unsigned(2)),
            ])))
        )
    );
}
