use serde_json_exercise::{from_bytes, from_str, to_bytes, to_string, Error, Shape, Value};

fn sample() -> (Value, Shape) {
    let shape = Shape::Mapping(
        Box::new(Shape::Str),
        Box::new(Shape::Sequence(Box::new(Shape::Enum(vec![
            ("Unit".to_string(), None),
            ("One".to_string(), Some(Shape::I16)),
            (
                "Pair".to_string(),
                Some(Shape::Sequence(Box::new(Shape::Optional(Box::new(
                    Shape::Bool,
                ))))),
            ),
            (
                "Named".to_string(),
                Some(Shape::Mapping(Box::new(Shape::Char), Box::new(Shape::Bytes))),
            ),
        ])))),
    );
    let value = Value::Mapping(vec![
        (Value::Str("first \"key\"".to_string()), Value::Sequence(Vec::new())),
        (
            Value::Str("second\n".to_string()),
            Value::Sequence(vec![
                Value::Variant("Unit".to_string(), None),
                Value::Variant("One".to_string(), Some(Box::new(Value::Signed(-300)))),
                Value::Variant(
                    "Pair".to_string(),
                    Some(Box::new(Value::Sequence(vec![
                        Value::Optional(Some(Box::new(Value::Bool(true)))),
                        Value::Optional(None),
                    ]))),
                ),
                Value::Variant(
                    "Named".to_string(),
                    Some(Box::new(Value::Mapping(vec![
                        (Value::Char('a'), Value::Bytes(vec![0, 127, 255])),
                        (Value::Char('"'), Value::Bytes(vec![9])),
                    ]))),
                ),
            ]),
        ),
    ]);
    (value, shape)
}

#[test]
fn round_trip() {
    let (value, shape) = sample();
    let written = to_bytes(&value).expect("the value can be written");
    assert_eq!(
        String::from_utf8(written.clone()).expect("text"),
        "{\"first \\\"key\\\"\":[],\"second\\n\":[\"Unit\",{\"One\":-300},{\"Pair\":[true,null]},{\"Named\":{\"a\":[0,127,255],\"\\\"\":[9]}}]}"
    );
    assert_eq!(from_bytes(&written, &shape), Ok(value));
}

#[test]
fn round_trip_of_records() {
    let shape = Shape::Struct(vec![
        ("id".to_string(), Shape::U32),
        (
            "at".to_string(),
            Shape::Tuple(vec![Shape::I16, Shape::I16, Shape::Optional(Box::new(Shape::Str))]),
        ),
        ("ratio".to_string(), Shape::Float),
    ]);
    let value = Value::Mapping(vec![
        (Value::Str("ratio".to_string()), Value::Float("-0.25".to_string())),
        (Value::Str("id".to_string()), Value::Unsigned(7)),
        (
            Value::Str("at".to_string()),
            Value::Sequence(vec![
                Value::Signed(-1),
                Value::Signed(2),
                Value::Optional(Some(Box::new(Value::Str("here".to_string())))),
            ]),
        ),
    ]);
    let written = to_string(&value).expect("the value can be written");
    assert_eq!(written, r#"{"ratio":-0.25,"id":7,"at":[-1,2,"here"]}"#);
    assert_eq!(from_str(&written, &shape), Ok(value));
}

#[test]
fn round_trip_of_scalars() {
    for (value, shape) in [
        (Value::Unit, Shape::Unit),
        (Value::Bool(false), Shape::Bool),
        (Value::Signed(i64::MIN), Shape::I64),
        (Value::Signed(-128), Shape::I8),
        (Value::Signed(32767), Shape::I16),
        (Value::Signed(0), Shape::I32),
        (Value::Unsigned(u64::MAX), Shape::U64),
        (Value::Unsigned(255), Shape::U8),
        (Value::Unsigned(65535), Shape::U16),
        (Value::Unsigned(0), Shape::U32),
        (Value::Char('x'), Shape::Char),
        (Value::Char('"'), Shape::Char),
        (Value::Char('\x0f'), Shape::Char),
        (Value::Char('\u{e9}'), Shape::Char),
        (Value::Char('\u{20ac}'), Shape::Char),
        (Value::Char('\u{1f600}'), Shape::Char),
        (Value::Str("\u{e9} and \u{1f600}".to_string()), Shape::Str),
        (Value::Bytes(vec![1]), Shape::Bytes),
        (Value::Float("1.5".to_string()), Shape::Float),
        (Value::Float("-2e10".to_string()), Shape::Float),
        (Value::Float("7".to_string()), Shape::Float),
        (Value::Float("0.5".to_string()), Shape::Any),
        (Value::Optional(None), Shape::Optional(Box::new(Shape::Unit))),
    ] {
        let written = to_string(&value).expect("the value can be written");
        assert_eq!(from_str(&written, &shape), Ok(value));
    }
}

#[test]
fn round_trip_of_a_character_that_is_not_ascii() {
    let written = to_string(&Value::Char('\u{e9}')).expect("the value can be written");
    assert_eq!(written.as_bytes(), &[b'"', 0xc3, 0xa9, b'"']);
    assert_eq!(from_str(&written, &Shape::Char), Ok(Value::Char('\u{e9}')));
    let keyed = Value::Mapping(vec![
        (Value::Char('\u{e9}'), Value::Char('\u{fc}')),
        (Value::Char('z'), Value::Char('\u{10348}')),
    ]);
    let written = to_string(&keyed).expect("the value can be written");
    let shape = Shape::Mapping(Box::new(Shape::Char), Box::new(Shape::Char));
    assert_eq!(from_str(&written, &shape), Ok(keyed));
}

#[test]
fn round_trip_where_nothing_is_expected() {
    let value = Value::Sequence(vec![
        Value::Unit,
        Value::Bool(true),
        Value::Unsigned(7),
        Value::Signed(-7),
        Value::Str("s".to_string()),
        Value::Mapping(vec![(Value::Str("k".to_string()), Value::Sequence(Vec::new()))]),
    ]);
    let written = to_string(&value).expect("the value can be written");
    assert_eq!(written, "[null,true,7,-7,\"s\",{\"k\":[]}]");
    assert_eq!(from_str(&written, &Shape::Any), Ok(value));
}

#[test]
fn what_is_not_read_back() {
    // a text that ends in a backslash
    let written = to_string(&Value::Str("a\\".to_string())).expect("written");
    assert_eq!(written, "\"a\\\\\"");
    assert_eq!(from_str(&written, &Shape::Str), Err(Error::Unclosed('"')));
    // the character that is the backslash
    let written = to_string(&Value::Char('\\')).expect("written");
    assert_eq!(written, "\"\\\\\"");
    assert_eq!(from_str(&written, &Shape::Char), Err(Error::Unclosed('"')));
    // an empty byte buffer
    let written = to_string(&Value::Bytes(Vec::new())).expect("written");
    assert_eq!(from_str(&written, &Shape::Bytes), Err(Error::ParseInt));
    // a floating-point number whose text is no number
    let written = to_string(&Value::Float("NaN".to_string())).expect("written");
    assert_eq!(
        from_str(&written, &Shape::Float),
        Ok(Value::Float(String::new()))
    );
    // a present value that is written `null`
    let shape = Shape::Optional(Box::new(Shape::Unit));
    let written = to_string(&Value::Optional(Some(Box::new(Value::Unit)))).expect("written");
    assert_eq!(from_str(&written, &shape), Ok(Value::Optional(None)));
}

#[test]
fn whitespace_between_tokens() {
    let (value, shape) = sample();
    let compact = to_string(&value).expect("the value can be written");
    let spaced = "\n{ \"first \\\"key\\\"\" :\t[ ] ,\r\n \"second\\n\" : [ \"Unit\" , { \"One\" : -300 } , \
                  {\"Pair\":[ true ,null ] } , { \"Named\" : { \"a\" : [ 0 , 127,255 ] , \"\\\"\" :[9] }\n}\n]\n}\n";
    assert_eq!(from_str(spaced, &shape), from_str(&compact, &shape));
    assert_eq!(from_str(spaced, &shape), Ok(value));
}

/// The places of `document` that lie behind a token.
fn behind_tokens(document: &[u8]) -> Vec<usize> {
    let mut places = Vec::new();
    let mut at = 0;
    while at < document.len() {
        let len = match document[at] {
            b' ' | b'\t' | b'\n' | b'\r' => {
                at += 1;
                continue;
            }
            b'"' => {
                let mut end = at + 1;
                while end < document.len()
                    && !(document[end] == b'"' && (end == at + 1 || document[end - 1] != b'\\'))
                {
                    end += 1;
                }
                end + 1 - at
            }
            b'n' | b't' => 4,
            b'f' => 5,
            _ => 1,
        };
        at += len;
        assert!(at <= document.len(), "the document ends inside a token");
        places.push(at);
    }
    places
}

#[test]
fn whitespace_behind_any_token() {
    let document = r#"{"a\"":[10,-2,true,false,null,"x y",0.5],"b":{"c":[]}}"#;
    let plain = from_str(document, &Shape::Any);
    assert!(plain.is_ok());
    let places = behind_tokens(document.as_bytes());
    assert_eq!(places.len(), 32);
    for place in places {
        for whitespace in [" ", "\t", "\r\n", " \n \t "] {
            let spaced = format!("{}{}{}", &document[..place], whitespace, &document[place..]);
            assert_eq!(from_str(&spaced, &Shape::Any), plain);
        }
    }
}

#[test]
fn whitespace_between_digits() {
    assert_eq!(from_str("1 2", &Shape::U8), from_str("12", &Shape::U8));
    assert_eq!(from_str("- 1 . 5", &Shape::Float), from_str("-1.5", &Shape::Float));
}

#[test]
fn whitespace_where_nothing_is_read() {
    // both fail; what was found is not the same
    assert_eq!(
        from_str("xyz1", &Shape::Unit),
        Err(Error::Unexpected {
            found: "xyz1".to_string(),
            expected: Some("null".to_string())
        })
    );
    assert_eq!(
        from_str("x yz1", &Shape::Unit),
        Err(Error::Unexpected {
            found: "x yz".to_string(),
            expected: Some("null".to_string())
        })
    );
}

#[test]
fn whitespace_in_front_of_anything() {
    for input in ["1", "x", "\"abc", "[1,", "nul", ""] {
        let padded = format!(" \t\r\n{input}");
        for shape in [Shape::U8, Shape::Str, Shape::Any, Shape::Bytes, Shape::Unit] {
            assert_eq!(from_str(&padded, &shape), from_str(input, &shape));
        }
    }
}

#[test]
fn aggregate_delimiters() {
    assert_eq!(
        from_str("[1,2,3]", &Shape::Sequence(Box::new(Shape::U8))),
        Ok(Value::Sequence(vec![
            Value::Unsigned(1),
            Value::Unsigned(2),
            Value::Unsigned(3)
        ]))
    );
    assert_eq!(
        to_string(&Value::Sequence(vec![
            Value::Unsigned(1),
            Value::Unsigned(2),
            Value::Unsigned(3)
        ])),
        Ok("[1,2,3]".to_string())
    );
}

#[test]
fn enum_forms() {
    let shape = Shape::Enum(vec![
        ("A".to_string(), Some(Shape::U8)),
        (
            "B".to_string(),
            Some(Shape::Struct(vec![
                ("a".to_string(), Shape::U8),
                ("b".to_string(), Shape::U8),
            ])),
        ),
    ]);
    let a = Value::Variant("A".to_string(), Some(Box::new(Value::Unsigned(1))));
    let b = Value::Variant(
        "B".to_string(),
        Some(Box::new(Value::Mapping(vec![
            (Value::Str("a".to_string()), Value::Unsigned(1)),
            (Value::Str("b".to_string()), Value::Unsigned(2)),
        ]))),
    );
    assert_eq!(from_str(r#"{"A":1}"#, &shape).as_ref(), Ok(&a));
    assert_eq!(from_str(r#"{"B":{"a":1,"b":2}}"#, &shape).as_ref(), Ok(&b));
    assert_eq!(to_string(&a), Ok(r#"{"A":1}"#.to_string()));
    assert_eq!(to_string(&b), Ok(r#"{"B":{"a":1,"b":2}}"#.to_string()));
}

#[test]
fn malformed_input() {
    assert_eq!(
        from_str("\"unterminated", &Shape::Str),
        Err(Error::Unclosed('"'))
    );
    assert!(from_str("tru", &Shape::Bool).is_err());
    assert_ne!(from_str("tru", &Shape::Bool), Ok(Value::Bool(false)));
}
