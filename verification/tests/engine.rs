use serde_json_exercise::de::{from_bytes, from_str, CommaSeparated, Deserializer, EnumHead, Number, Token};
use serde_json_exercise::{Error, IoKind, Shape, Value};

fn unexpected(found: &str, expected: Option<&str>) -> Error {
    Error::Unexpected {
        found: found.to_string(),
        expected: expected.map(|text| text.to_string()),
    }
}

#[test]
fn peek_is_idempotent_and_next_takes_the_held_byte() {
    let mut de = Deserializer::new(b"  \t\r\n ab");
    assert_eq!(de.peek(), Ok(b'a'));
    assert_eq!(de.peek(), Ok(b'a'));
    assert_eq!(de.next(), Ok(b'a'));
    assert_eq!(de.next(), Ok(b'b'));
    assert_eq!(de.peek(), Err(Error::Io(IoKind::UnexpectedEof)));
    assert_eq!(de.next(), Err(Error::Io(IoKind::UnexpectedEof)));
}

#[test]
fn only_the_four_json_whitespace_bytes_are_skipped() {
    let mut de = Deserializer::new(b"\x0b1");
    assert_eq!(de.next(), Ok(0x0b));
    let mut de = Deserializer::new(b"\x0c1");
    assert_eq!(de.peek(), Ok(0x0c));
}

#[test]
fn expect_next_reports_what_it_found() {
    let mut de = Deserializer::new(b" [x");
    assert_eq!(de.expect_next('['), Ok(()));
    assert_eq!(de.expect_next(','), Err(unexpected("x", Some(","))));
    assert_eq!(de.expect_next(','), Err(Error::Io(IoKind::UnexpectedEof)));
}

#[test]
fn null_must_match_byte_for_byte() {
    assert_eq!(Deserializer::new(b" null").parse_null(), Ok(()));
    assert_eq!(Deserializer::new(b"null").deserialize_unit(), Ok(()));
    assert_eq!(
        Deserializer::new(b"nulx").parse_null(),
        Err(unexpected("nulx", Some("null")))
    );
    assert_eq!(
        Deserializer::new(b"n ull").parse_null(),
        Err(unexpected("n ul", Some("null")))
    );
    assert_eq!(
        Deserializer::new(b"nul").parse_null(),
        Err(Error::Io(IoKind::UnexpectedEof))
    );
    assert_eq!(
        Deserializer::new(b"").parse_null(),
        Err(Error::Io(IoKind::UnexpectedEof))
    );
    assert_eq!(Deserializer::new(b"n\xff\xfe\xfd").parse_null(), Err(Error::Utf8));
}

#[test]
fn null_is_consumed_once() {
    let mut de = Deserializer::new(b"null,");
    assert_eq!(de.peek(), Ok(b'n'));
    assert_eq!(de.parse_null(), Ok(()));
    assert_eq!(de.next(), Ok(b','));
}

#[test]
fn booleans_must_match_byte_for_byte() {
    assert_eq!(Deserializer::new(b"true").deserialize_bool(), Ok(true));
    assert_eq!(Deserializer::new(b"\n false ").deserialize_bool(), Ok(false));
    assert_eq!(
        Deserializer::new(b"tru").deserialize_bool(),
        Err(Error::Io(IoKind::UnexpectedEof))
    );
    assert_eq!(
        Deserializer::new(b"trux").deserialize_bool(),
        Err(unexpected("trux", Some("true")))
    );
    assert_eq!(
        Deserializer::new(b"falsy").deserialize_bool(),
        Err(unexpected("falsy", Some("false")))
    );
    assert_eq!(
        Deserializer::new(b"1").deserialize_bool(),
        Err(unexpected("1", Some("true or false")))
    );
}

#[test]
fn a_boolean_is_consumed_once() {
    let mut de = Deserializer::new(b"[true,false]");
    assert_eq!(de.next(), Ok(b'['));
    assert_eq!(de.deserialize_bool(), Ok(true));
    assert_eq!(de.next(), Ok(b','));
    assert_eq!(de.deserialize_bool(), Ok(false));
    assert_eq!(de.next(), Ok(b']'));
}

#[test]
fn get_integer_collects_digits_behind_the_buffer() {
    let mut de = Deserializer::new(b"123x");
    assert_eq!(de.get_integer(vec![b'-']), b"-123".to_vec());
    assert_eq!(de.peek(), Ok(b'x'));
    let mut de = Deserializer::new(b"45");
    assert_eq!(de.get_integer(Vec::new()), b"45".to_vec());
    let mut de = Deserializer::new(b"x");
    assert_eq!(de.get_integer(Vec::new()), Vec::<u8>::new());
}

#[test]
fn whitespace_between_digits_is_skipped() {
    assert_eq!(Deserializer::new(b"1 2").deserialize_u8(), Ok(12));
}

#[test]
fn signed_integers_of_each_width() {
    assert_eq!(Deserializer::new(b"-128").deserialize_i8(), Ok(-128));
    assert_eq!(Deserializer::new(b"127").deserialize_i8(), Ok(127));
    assert_eq!(Deserializer::new(b"128").deserialize_i8(), Err(Error::ParseInt));
    assert_eq!(Deserializer::new(b"-129").deserialize_i8(), Err(Error::ParseInt));
    assert_eq!(Deserializer::new(b"-32768").deserialize_i16(), Ok(-32768));
    assert_eq!(Deserializer::new(b"32768").deserialize_i16(), Err(Error::ParseInt));
    assert_eq!(Deserializer::new(b"-2147483648").deserialize_i32(), Ok(i32::MIN));
    assert_eq!(Deserializer::new(b"2147483648").deserialize_i32(), Err(Error::ParseInt));
    assert_eq!(
        Deserializer::new(b"-9223372036854775808").deserialize_i64(),
        Ok(i64::MIN)
    );
    assert_eq!(
        Deserializer::new(b"9223372036854775807").parse_int(),
        Ok(i64::MAX)
    );
    assert_eq!(
        Deserializer::new(b"9223372036854775808").deserialize_i64(),
        Err(Error::ParseInt)
    );
    assert_eq!(
        Deserializer::new(b"-9223372036854775809").deserialize_i64(),
        Err(Error::ParseInt)
    );
    assert_eq!(Deserializer::new(b"-0").deserialize_i8(), Ok(0));
    assert_eq!(Deserializer::new(b"-007").deserialize_i8(), Ok(-7));
    assert_eq!(Deserializer::new(b"-").deserialize_i8(), Err(Error::ParseInt));
    assert_eq!(Deserializer::new(b"x").deserialize_i8(), Err(Error::ParseInt));
    assert_eq!(
        Deserializer::new(b"  ").deserialize_i8(),
        Err(Error::Io(IoKind::UnexpectedEof))
    );
}

#[test]
fn unsigned_integers_of_each_width() {
    assert_eq!(Deserializer::new(b"255").deserialize_u8(), Ok(255));
    assert_eq!(Deserializer::new(b"256").deserialize_u8(), Err(Error::ParseInt));
    assert_eq!(Deserializer::new(b"65535").deserialize_u16(), Ok(65535));
    assert_eq!(Deserializer::new(b"65536").deserialize_u16(), Err(Error::ParseInt));
    assert_eq!(Deserializer::new(b"4294967295").deserialize_u32(), Ok(u32::MAX));
    assert_eq!(Deserializer::new(b"4294967296").deserialize_u32(), Err(Error::ParseInt));
    assert_eq!(
        Deserializer::new(b"18446744073709551615").deserialize_u64(),
        Ok(u64::MAX)
    );
    assert_eq!(
        Deserializer::new(b"18446744073709551616").parse_uint(),
        Err(Error::ParseInt)
    );
    assert_eq!(
        Deserializer::new(b"99999999999999999999999999999999").deserialize_u64(),
        Err(Error::ParseInt)
    );
    assert_eq!(Deserializer::new(b"007").deserialize_u8(), Ok(7));
    assert_eq!(Deserializer::new(b"-5").deserialize_u8(), Err(Error::ParseInt));
    assert_eq!(Deserializer::new(b"").deserialize_u8(), Err(Error::ParseInt));
}

#[test]
fn float_text_is_scanned_part_by_part() {
    assert_eq!(Deserializer::new(b"-11.22,").parse_float(), Ok("-11.22".to_string()));
    assert_eq!(Deserializer::new(b"1").parse_float(), Ok("1".to_string()));
    assert_eq!(Deserializer::new(b"1.5").parse_float(), Ok("1.5".to_string()));
    assert_eq!(Deserializer::new(b"2E10]").parse_float(), Ok("2E10".to_string()));
    assert_eq!(Deserializer::new(b"1.25e3 ").parse_float(), Ok("1.25e3".to_string()));
    assert_eq!(Deserializer::new(b"x").parse_float(), Ok(String::new()));
    assert_eq!(
        Deserializer::new(b"").parse_float(),
        Err(Error::Io(IoKind::UnexpectedEof))
    );
}

#[test]
fn no_sign_is_accepted_in_an_exponent() {
    let mut de = Deserializer::new(b"1e-5");
    assert_eq!(de.parse_float(), Ok("1e".to_string()));
    assert_eq!(de.next(), Ok(b'-'));
    assert_eq!(de.next(), Ok(b'5'));
}

#[test]
fn numbers_are_sorted_by_what_was_read() {
    assert_eq!(Deserializer::new(b"12").parse_number(), Ok(Number::Unsigned(12)));
    assert_eq!(Deserializer::new(b"-12").parse_number(), Ok(Number::Signed(-12)));
    assert_eq!(
        Deserializer::new(b"1.5").parse_number(),
        Ok(Number::Float("1.5".to_string()))
    );
    assert_eq!(
        Deserializer::new(b"-1e5,").parse_number(),
        Ok(Number::Float("-1e5".to_string()))
    );
    assert_eq!(
        Deserializer::new(b"18446744073709551616").parse_number(),
        Err(Error::ParseInt)
    );
    assert_eq!(
        Deserializer::new(b"-9223372036854775809").parse_number(),
        Err(Error::ParseInt)
    );
    assert_eq!(Deserializer::new(b"-").parse_number(), Err(Error::ParseInt));
}

#[test]
fn strings_end_at_the_first_quote_not_behind_a_backslash() {
    let mut de = Deserializer::new(br#" "a b" x"#);
    assert_eq!(de.parse_string(), Ok("a b".to_string()));
    assert_eq!(de.next(), Ok(b'x'));
    assert_eq!(Deserializer::new(br#""""#).parse_string(), Ok(String::new()));
    assert_eq!(
        Deserializer::new(br#""\"abc""#).parse_string(),
        Ok("\"abc".to_string())
    );
    assert_eq!(
        Deserializer::new(b"x").parse_string(),
        Err(unexpected("x", Some("\"")))
    );
    assert_eq!(
        Deserializer::new(b"").parse_string(),
        Err(Error::Io(IoKind::UnexpectedEof))
    );
    assert_eq!(
        Deserializer::new(br#""abc"#).parse_string(),
        Err(Error::Unclosed('"'))
    );
    assert_eq!(Deserializer::new(b"\"\xff\"").parse_string(), Err(Error::Utf8));
}

#[test]
fn a_text_that_ends_in_a_backslash_is_not_read_back() {
    // written from the text `a\`
    assert_eq!(
        Deserializer::new(br#""a\\""#).parse_string(),
        Err(Error::Unclosed('"'))
    );
    let mut de = Deserializer::new(br#"["a\\","b"]"#);
    assert_eq!(de.next(), Ok(b'['));
    assert_eq!(de.parse_string(), Ok("a\\\",".to_string()));
}

#[test]
fn a_character_is_a_string_of_one_character() {
    assert_eq!(Deserializer::new(br#""a""#).deserialize_char(), Ok('a'));
    assert_eq!(Deserializer::new(br#""\n""#).deserialize_char(), Ok('\n'));
    assert_eq!(Deserializer::new(br#""\"""#).deserialize_char(), Ok('"'));
    assert_eq!(
        Deserializer::new(&[b'"', 0xc3, 0xa9, b'"']).deserialize_char(),
        Ok('\u{e9}')
    );
    assert_eq!(
        Deserializer::new("\"\u{20ac}\"".as_bytes()).deserialize_char(),
        Ok('\u{20ac}')
    );
    assert_eq!(
        Deserializer::new("\"\u{1f600}\" ,".as_bytes()).deserialize_char(),
        Ok('\u{1f600}')
    );
    assert_eq!(
        Deserializer::new(br#""\u00e9""#).deserialize_char(),
        Ok('\u{e9}')
    );
    assert_eq!(
        Deserializer::new(br#""ab""#).deserialize_char(),
        Err(unexpected("ab", Some("single character")))
    );
    assert_eq!(
        Deserializer::new("\"\u{e9}\u{e9}\"".as_bytes()).deserialize_char(),
        Err(unexpected("\u{e9}\u{e9}", Some("single character")))
    );
    assert_eq!(
        Deserializer::new(br#""""#).deserialize_char(),
        Err(unexpected("", Some("single character")))
    );
    assert_eq!(
        Deserializer::new(&[b'"', 0xc3, b'"']).deserialize_char(),
        Err(Error::Utf8)
    );
}

#[test]
fn byte_buffers_are_arrays_of_numbers() {
    assert_eq!(Deserializer::new(b"[1,2,3]").parse_byte_buf(), Ok(vec![1, 2, 3]));
    assert_eq!(
        Deserializer::new(b" [ 0 , 255 ] ").parse_byte_buf(),
        Ok(vec![0, 255])
    );
    assert_eq!(Deserializer::new(b"[]").parse_byte_buf(), Err(Error::ParseInt));
    assert_eq!(Deserializer::new(b"[256]").parse_byte_buf(), Err(Error::ParseInt));
    assert_eq!(Deserializer::new(b"[1,]").parse_byte_buf(), Err(Error::ParseInt));
    assert_eq!(
        Deserializer::new(b"[1;2]").parse_byte_buf(),
        Err(unexpected(";", Some(",")))
    );
    assert_eq!(
        Deserializer::new(b"[1").parse_byte_buf(),
        Err(Error::Io(IoKind::UnexpectedEof))
    );
    assert_eq!(
        Deserializer::new(b"1").parse_byte_buf(),
        Err(unexpected("1", Some("[")))
    );
}

#[test]
fn an_optional_value_is_absent_where_null_stands() {
    let mut de = Deserializer::new(b" null,");
    assert_eq!(de.deserialize_option(), Ok(false));
    assert_eq!(de.next(), Ok(b','));
    let mut de = Deserializer::new(b" 1");
    assert_eq!(de.deserialize_option(), Ok(true));
    assert_eq!(de.deserialize_u8(), Ok(1));
    assert_eq!(
        Deserializer::new(b"nope").deserialize_option(),
        Err(unexpected("nope", Some("null")))
    );
    assert_eq!(
        Deserializer::new(b"").deserialize_option(),
        Err(Error::Io(IoKind::UnexpectedEof))
    );
}

#[test]
fn any_value_is_told_by_its_first_byte() {
    assert_eq!(
        Deserializer::new(br#""s""#).deserialize_any(),
        Ok(Token::Str("s".to_string()))
    );
    assert_eq!(Deserializer::new(b"[1]").deserialize_any(), Ok(Token::Sequence));
    assert_eq!(Deserializer::new(b"{}").deserialize_any(), Ok(Token::Mapping));
    assert_eq!(Deserializer::new(b"null").deserialize_any(), Ok(Token::Unit));
    assert_eq!(Deserializer::new(b"true").deserialize_any(), Ok(Token::Bool(true)));
    assert_eq!(Deserializer::new(b"false").deserialize_any(), Ok(Token::Bool(false)));
    assert_eq!(
        Deserializer::new(b"7").deserialize_any(),
        Ok(Token::Number(Number::Unsigned(7)))
    );
    assert_eq!(
        Deserializer::new(b"-7").deserialize_any(),
        Ok(Token::Number(Number::Signed(-7)))
    );
    assert_eq!(
        Deserializer::new(b"0.5").deserialize_any(),
        Ok(Token::Number(Number::Float("0.5".to_string())))
    );
    assert_eq!(
        Deserializer::new(b"?").deserialize_any(),
        Err(unexpected("?", None))
    );
    assert_eq!(
        Deserializer::new(b" ").deserialize_any(),
        Err(Error::Io(IoKind::UnexpectedEof))
    );
}

#[test]
fn shapes_that_are_written_alike_are_read_alike() {
    assert_eq!(
        Deserializer::new(br#""s""#).deserialize_str(),
        Ok("s".to_string())
    );
    assert_eq!(Deserializer::new(b"1.5").deserialize_f32(), Ok("1.5".to_string()));
    assert_eq!(Deserializer::new(b"-1e3").deserialize_f64(), Ok("-1e3".to_string()));
    assert_eq!(Deserializer::new(b"null").deserialize_unit_struct(), Ok(()));
    assert_eq!(Deserializer::new(b"[1,2]").deserialize_byte_buf(), Ok(vec![1, 2]));
    assert_eq!(Deserializer::new(b"[3]").deserialize_bytes(), Ok(vec![3]));
    assert_eq!(
        Deserializer::new(br#""s""#).deserialize_string(),
        Ok(Token::Str("s".to_string()))
    );
    assert_eq!(
        Deserializer::new(br#""id""#).deserialize_identifier(),
        Ok(Token::Str("id".to_string()))
    );
    assert_eq!(
        Deserializer::new(b"false").deserialize_ignored_any(),
        Ok(Token::Bool(false))
    );
    let mut de = Deserializer::new(b"[1]");
    let mut cursor = de.deserialize_tuple().expect("a bracket");
    assert_eq!(cursor.next_element_seed(&mut de), Ok(true));
    let mut de = Deserializer::new(b"[]");
    let mut cursor = de.deserialize_tuple_struct().expect("a bracket");
    assert_eq!(cursor.next_element_seed(&mut de), Ok(false));
    let mut de = Deserializer::new(b"{}");
    let mut cursor = de.deserialize_struct().expect("a brace");
    assert_eq!(cursor.next_key_seed(&mut de), Ok(false));
    assert_eq!(
        Deserializer::new(b"1").deserialize_struct().err(),
        Some(unexpected("1", Some("{")))
    );
}

#[test]
fn a_sequence_is_pulled_item_by_item() {
    let mut de = Deserializer::new(b"[1, 2]");
    let mut cursor = de.deserialize_seq().expect("a bracket");
    assert_eq!(cursor.next_element_seed(&mut de), Ok(true));
    assert_eq!(de.deserialize_u8(), Ok(1));
    assert_eq!(cursor.next_element_seed(&mut de), Ok(true));
    assert_eq!(de.deserialize_u8(), Ok(2));
    assert_eq!(cursor.next_element_seed(&mut de), Ok(false));
    assert_eq!(de.peek(), Err(Error::Io(IoKind::UnexpectedEof)));
}

#[test]
fn an_item_other_than_the_first_needs_a_comma() {
    let mut de = Deserializer::new(b"1 2]");
    let mut cursor = CommaSeparated::new();
    assert_eq!(cursor.next_element_seed(&mut de), Ok(true));
    assert_eq!(de.next(), Ok(b'1'));
    assert_eq!(
        cursor.next_element_seed(&mut de),
        Err(unexpected("2", Some(",")))
    );
    let mut de = Deserializer::new(b"");
    let mut cursor = CommaSeparated::new();
    assert_eq!(
        cursor.next_element_seed(&mut de),
        Err(Error::Io(IoKind::UnexpectedEof))
    );
}

#[test]
fn a_map_is_pulled_entry_by_entry() {
    let mut de = Deserializer::new(br#"{"a": 1, "b": 2}"#);
    let mut cursor = de.deserialize_map().expect("a brace");
    assert_eq!(cursor.next_key_seed(&mut de), Ok(true));
    assert_eq!(de.parse_string(), Ok("a".to_string()));
    assert_eq!(cursor.next_value_seed(&mut de), Ok(()));
    assert_eq!(de.deserialize_u8(), Ok(1));
    assert_eq!(cursor.next_key_seed(&mut de), Ok(true));
    assert_eq!(de.parse_string(), Ok("b".to_string()));
    assert_eq!(cursor.next_value_seed(&mut de), Ok(()));
    assert_eq!(de.deserialize_u8(), Ok(2));
    assert_eq!(cursor.next_key_seed(&mut de), Ok(false));
    let mut de = Deserializer::new(br#"{"a" 1}"#);
    let mut cursor = de.deserialize_map().expect("a brace");
    assert_eq!(cursor.next_key_seed(&mut de), Ok(true));
    assert_eq!(de.parse_string(), Ok("a".to_string()));
    assert_eq!(
        cursor.next_value_seed(&mut de),
        Err(unexpected("1", Some(":")))
    );
    assert_eq!(
        Deserializer::new(b"[").deserialize_map().err(),
        Some(unexpected("[", Some("{")))
    );
    assert_eq!(
        Deserializer::new(b"{").deserialize_seq().err(),
        Some(unexpected("{", Some("[")))
    );
}

#[test]
fn a_variant_is_a_string_or_an_object() {
    assert_eq!(
        Deserializer::new(br#""A""#).deserialize_enum(),
        Ok(EnumHead::Unit("A".to_string()))
    );
    let mut de = Deserializer::new(br#"{"A":1}"#);
    assert_eq!(de.deserialize_enum(), Ok(EnumHead::Tagged("A".to_string())));
    assert_eq!(de.expect_next(':'), Ok(()));
    assert_eq!(de.deserialize_u8(), Ok(1));
    assert_eq!(de.end_enum(), Ok(()));
    assert_eq!(
        Deserializer::new(b"1").deserialize_enum(),
        Err(unexpected("1", Some("string or object")))
    );
    assert_eq!(
        Deserializer::new(b"{1").deserialize_enum(),
        Err(unexpected("1", Some("\"")))
    );
    assert_eq!(Deserializer::new(b"]").end_enum(), Err(Error::Unclosed('{')));
    assert_eq!(Deserializer::new(b"").end_enum(), Err(Error::Unclosed('{')));
}

fn abc() -> Shape {
    Shape::Enum(vec![
        ("A".to_string(), Some(Shape::U8)),
        (
            "B".to_string(),
            Some(Shape::Mapping(Box::new(Shape::Str), Box::new(Shape::U8))),
        ),
        ("C".to_string(), None),
        ("D".to_string(), Some(Shape::Sequence(Box::new(Shape::I8)))),
    ])
}

#[test]
fn variants_are_read_by_their_names() {
    assert_eq!(
        from_str(r#""C""#, &abc()),
        Ok(Value::Variant("C".to_string(), None))
    );
    assert_eq!(
        from_str(r#" { "D" : [ -1 , 2 ] } "#, &abc()),
        Ok(Value::Variant(
            "D".to_string(),
            Some(Box::new(Value::Sequence(vec![
                Value::Signed(-1),
                Value::Signed(2)
            ])))
        ))
    );
    assert_eq!(
        from_str(r#""X""#, &abc()),
        Err(Error::Message("unknown variant".to_string()))
    );
    assert_eq!(
        from_str(r#"{"X":1}"#, &abc()),
        Err(Error::Message("unknown variant".to_string()))
    );
    assert_eq!(
        from_str(r#""A""#, &abc()),
        Err(Error::Message("invalid type: unit variant".to_string()))
    );
    assert_eq!(
        from_str(r#"{"C":null}"#, &abc()),
        Err(Error::Message(
            "Unit variant case should be handled by deserialize_enum".to_string()
        ))
    );
    assert_eq!(from_str(r#"{"A":1"#, &abc()), Err(Error::Unclosed('{')));
    assert_eq!(from_str(r#"{"A":1]"#, &abc()), Err(Error::Unclosed('{')));
    assert_eq!(
        from_str(r#"{"A" 1}"#, &abc()),
        Err(unexpected("1", Some(":")))
    );
}

#[test]
fn values_are_read_by_their_shapes() {
    assert_eq!(from_str("null", &Shape::Unit), Ok(Value::Unit));
    assert_eq!(from_str(" true", &Shape::Bool), Ok(Value::Bool(true)));
    assert_eq!(from_str("-5", &Shape::I8), Ok(Value::Signed(-5)));
    assert_eq!(from_str("-500", &Shape::I16), Ok(Value::Signed(-500)));
    assert_eq!(from_str("-70000", &Shape::I32), Ok(Value::Signed(-70000)));
    assert_eq!(
        from_str("-5000000000", &Shape::I64),
        Ok(Value::Signed(-5000000000))
    );
    assert_eq!(from_str("5", &Shape::U8), Ok(Value::Unsigned(5)));
    assert_eq!(from_str("500", &Shape::U16), Ok(Value::Unsigned(500)));
    assert_eq!(from_str("70000", &Shape::U32), Ok(Value::Unsigned(70000)));
    assert_eq!(
        from_str("5000000000", &Shape::U64),
        Ok(Value::Unsigned(5000000000))
    );
    assert_eq!(from_str("500", &Shape::U8), Err(Error::ParseInt));
    assert_eq!(
        from_str("1.5", &Shape::Float),
        Ok(Value::Float("1.5".to_string()))
    );
    assert_eq!(from_str(r#""x""#, &Shape::Char), Ok(Value::Char('x')));
    assert_eq!(
        from_str(r#""xy""#, &Shape::Str),
        Ok(Value::Str("xy".to_string()))
    );
    assert_eq!(
        from_bytes(b"[7]", &Shape::Bytes),
        Ok(Value::Bytes(vec![7]))
    );
    assert_eq!(
        from_str("[]", &Shape::Sequence(Box::new(Shape::Bool))),
        Ok(Value::Sequence(Vec::new()))
    );
    assert_eq!(
        from_str(
            "{}",
            &Shape::Mapping(Box::new(Shape::Str), Box::new(Shape::Bool))
        ),
        Ok(Value::Mapping(Vec::new()))
    );
    assert_eq!(
        from_str(
            "[[1],[],[2,3]]",
            &Shape::Sequence(Box::new(Shape::Sequence(Box::new(Shape::U8))))
        ),
        Ok(Value::Sequence(vec![
            Value::Sequence(vec![Value::Unsigned(1)]),
            Value::Sequence(Vec::new()),
            Value::Sequence(vec![Value::Unsigned(2), Value::Unsigned(3)]),
        ]))
    );
    assert_eq!(
        from_str("[1,]", &Shape::Sequence(Box::new(Shape::U8))),
        Err(Error::ParseInt)
    );
    assert_eq!(
        from_str("[1", &Shape::Sequence(Box::new(Shape::U8))),
        Err(Error::Io(IoKind::UnexpectedEof))
    );
    assert_eq!(
        from_str("[null,3]", &Shape::Sequence(Box::new(Shape::Optional(Box::new(Shape::U8))))),
        Ok(Value::Sequence(vec![
            Value::Optional(None),
            Value::Optional(Some(Box::new(Value::Unsigned(3)))),
        ]))
    );
}

fn point() -> Shape {
    Shape::Struct(vec![
        ("x".to_string(), Shape::I8),
        ("label".to_string(), Shape::Str),
        ("tags".to_string(), Shape::Sequence(Box::new(Shape::Char))),
    ])
}

#[test]
fn structs_are_read_field_by_field() {
    assert_eq!(
        from_str(r#" { "label" : "p" , "x" : -3 , "tags" : [ "a" , "b" ] } "#, &point()),
        Ok(Value::Mapping(vec![
            (Value::Str("label".to_string()), Value::Str("p".to_string())),
            (Value::Str("x".to_string()), Value::Signed(-3)),
            (
                Value::Str("tags".to_string()),
                Value::Sequence(vec![Value::Char('a'), Value::Char('b')])
            ),
        ]))
    );
    assert_eq!(from_str("{}", &point()), Ok(Value::Mapping(Vec::new())));
    assert_eq!(
        from_str(r#"{"y":1}"#, &point()),
        Err(Error::Message("unknown field".to_string()))
    );
    assert_eq!(from_str(r#"{"x":200}"#, &point()), Err(Error::ParseInt));
    assert_eq!(
        from_str(r#"{"x" 1}"#, &point()),
        Err(unexpected("1", Some(":")))
    );
    assert_eq!(
        from_str(r#"{1:1}"#, &point()),
        Err(unexpected("1", Some("\"")))
    );
    assert_eq!(
        from_str(r#"{"x":1"#, &point()),
        Err(Error::Io(IoKind::UnexpectedEof))
    );
    assert_eq!(
        from_str("[1]", &point()),
        Err(unexpected("[", Some("{")))
    );
}

#[test]
fn tuples_are_read_item_by_item() {
    let pair = Shape::Tuple(vec![Shape::U8, Shape::Str]);
    assert_eq!(
        from_str(r#"[1,"one"]"#, &pair),
        Ok(Value::Sequence(vec![
            Value::Unsigned(1),
            Value::Str("one".to_string())
        ]))
    );
    assert_eq!(
        from_str(r#" [ 1 , "one" ] "#, &pair),
        from_str(r#"[1,"one"]"#, &pair)
    );
    assert_eq!(
        from_str("[1]", &pair),
        Err(Error::Message("invalid length".to_string()))
    );
    assert_eq!(
        from_str("[]", &pair),
        Err(Error::Message("invalid length".to_string()))
    );
    assert_eq!(
        from_str(r#"[1,"one",2]"#, &pair),
        Err(Error::Message("invalid length".to_string()))
    );
    assert_eq!(from_str(r#"["one",1]"#, &pair), Err(Error::ParseInt));
    assert_eq!(
        from_str(r#"[1 "one"]"#, &pair),
        Err(unexpected("\"", Some(",")))
    );
    assert_eq!(from_str("[]", &Shape::Tuple(Vec::new())), Ok(Value::Sequence(Vec::new())));
    assert_eq!(
        from_str("[1]", &Shape::Tuple(Vec::new())),
        Err(Error::Message("invalid length".to_string()))
    );
    assert_eq!(
        from_str("{", &pair),
        Err(unexpected("{", Some("[")))
    );
}

#[test]
fn values_are_read_where_nothing_is_expected() {
    let input = r#" { "a" : [ 1 , -2 , 3.5 , true , null , "x" ] , "b" : { } } "#;
    assert_eq!(
        from_str(input, &Shape::Any),
        Ok(Value::Mapping(vec![
            (
                Value::Str("a".to_string()),
                Value::Sequence(vec![
                    Value::Unsigned(1),
                    Value::Signed(-2),
                    Value::Float("3.5".to_string()),
                    Value::Bool(true),
                    Value::Unit,
                    Value::Str("x".to_string()),
                ])
            ),
            (Value::Str("b".to_string()), Value::Mapping(Vec::new())),
        ]))
    );
    assert_eq!(from_str("12", &Shape::Any), Ok(Value::Unsigned(12)));
    assert_eq!(from_str("?", &Shape::Any), Err(unexpected("?", None)));
}

#[test]
fn what_stands_behind_the_value_is_not_looked_at() {
    assert_eq!(from_str("1 garbage", &Shape::U8), Ok(Value::Unsigned(1)));
}
