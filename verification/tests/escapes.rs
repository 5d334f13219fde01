use serde_json_exercise::parse::{escape, unescape};
use serde_json_exercise::{from_str, to_string, Error, Shape, Value};

#[test]
fn each_character_is_escaped_as_it_must() {
    assert_eq!(escape('"'), "\\\"");
    assert_eq!(escape('\\'), "\\\\");
    assert_eq!(escape('\x08'), "\\b");
    assert_eq!(escape('\x0c'), "\\f");
    assert_eq!(escape('\n'), "\\n");
    assert_eq!(escape('\r'), "\\r");
    assert_eq!(escape('\t'), "\\t");
    assert_eq!(escape('\x00'), "\\u0000");
    assert_eq!(escape('\x0f'), "\\u000f");
    assert_eq!(escape('\x1f'), "\\u001f");
    assert_eq!(escape('\x1b'), "\\u001b");
    assert_eq!(escape(' '), " ");
    assert_eq!(escape('a'), "a");
    assert_eq!(escape('\x7f'), "\x7f");
    assert_eq!(escape('\u{e9}'), "\u{e9}");
    assert_eq!(escape('\u{1f600}'), "\u{1f600}");
    assert_eq!(serde_json_exercise::ser::escape('/'), "/");
}

#[test]
fn each_escape_is_decoded() {
    assert_eq!(unescape(r#"a\"b"#), Ok("a\"b".to_string()));
    assert_eq!(unescape(r#"\\"#), Ok("\\".to_string()));
    assert_eq!(unescape(r#"\b\f\n\r\t"#), Ok("\x08\x0c\n\r\t".to_string()));
    assert_eq!(unescape(r#"\/"#), Ok("/".to_string()));
    assert_eq!(unescape(r#"\q"#), Ok("q".to_string()));
    assert_eq!(unescape("\\u000f"), Ok("\x0f".to_string()));
    assert_eq!(unescape("\\u0041\\u00e9"), Ok("A\u{e9}".to_string()));
    assert_eq!(unescape("\\u00E9"), Ok("\u{e9}".to_string()));
    assert_eq!(unescape("\\u20ac"), Ok("\u{20ac}".to_string()));
    assert_eq!(unescape("x\\uFFFFy"), Ok("x\u{ffff}y".to_string()));
    assert_eq!(unescape(""), Ok(String::new()));
    assert_eq!(unescape("plain \u{e9}"), Ok("plain \u{e9}".to_string()));
}

#[test]
fn a_malformed_escape_is_refused() {
    assert_eq!(unescape("\\"), Err(Error::InvalidEscape));
    assert_eq!(unescape("ab\\"), Err(Error::InvalidEscape));
    assert_eq!(unescape("\\u"), Err(Error::InvalidEscape));
    assert_eq!(unescape("\\u12"), Err(Error::InvalidEscape));
    assert_eq!(unescape("\\u123"), Err(Error::InvalidEscape));
    assert_eq!(unescape("\\u12g4"), Err(Error::InvalidEscape));
    assert_eq!(unescape("\\u+123"), Err(Error::InvalidEscape));
    assert_eq!(unescape("\\ud800"), Err(Error::InvalidEscape));
    assert_eq!(unescape("\\udfff"), Err(Error::InvalidEscape));
    assert_eq!(unescape("\\ud83d\\ude00"), Err(Error::InvalidEscape));
}

#[test]
fn escape_fidelity() {
    assert_eq!(
        to_string(&Value::Str("a\"b".to_string())),
        Ok("\"a\\\"b\"".to_string())
    );
    assert_eq!(
        from_str("\"a\\\"b\"", &Shape::Str),
        Ok(Value::Str("a\"b".to_string()))
    );
    let control = Value::Str("\x0f".to_string());
    let written = to_string(&control).expect("a text can be written");
    assert_eq!(written, "\"\\u000f\"");
    assert_eq!(from_str(&written, &Shape::Str), Ok(control));
}

#[test]
fn every_escaped_text_is_decoded_to_itself() {
    for text in [
        "",
        "plain",
        "quote \" inside",
        "\"starts with a quote",
        "back\\slash inside",
        "\x00\x01\x02\x1e\x1f control",
        "tab\tnewline\nreturn\rfeed\x0cback\x08",
        "\u{e9}\u{20ac}\u{1f600}",
        "ends with a quote\"",
    ] {
        let escaped: String = text.chars().map(escape).collect();
        assert_eq!(unescape(&escaped), Ok(text.to_string()));
        let value = Value::Str(text.to_string());
        let written = to_string(&value).expect("a text can be written");
        assert_eq!(from_str(&written, &Shape::Str), Ok(value));
    }
}
