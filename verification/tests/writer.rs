use serde_json_exercise::ser::{to_bytes, to_string, KeySerializer, Serializer};
use serde_json_exercise::{Error, Value};

fn written(drive: impl FnOnce(&mut Serializer)) -> String {
    let mut ser = Serializer::new(Vec::new());
    drive(&mut ser);
    String::from_utf8(ser.into_inner()).expect("the writer puts out text")
}

#[test]
fn the_writer_appends_to_the_buffer_it_is_given() {
    let mut ser = Serializer::new(b"x=".to_vec());
    ser.serialize_bool(true);
    assert_eq!(ser.into_inner(), b"x=true".to_vec());
}

#[test]
fn what_was_written_can_be_taken_piece_by_piece() {
    let mut ser = Serializer::new(Vec::new());
    ser.serialize_seq();
    ser.begin_element();
    ser.serialize_u8(1);
    assert_eq!(ser.take(), b"[1".to_vec());
    assert_eq!(ser.take(), Vec::<u8>::new());
    ser.begin_element();
    ser.serialize_u8(2);
    ser.end_seq();
    assert_eq!(ser.take(), b",2]".to_vec());
    assert_eq!(ser.into_inner(), Vec::<u8>::new());
}

#[test]
fn scalars_are_written_in_their_canonical_form() {
    assert_eq!(written(|ser| ser.serialize_bool(true)), "true");
    assert_eq!(written(|ser| ser.serialize_bool(false)), "false");
    assert_eq!(written(|ser| ser.serialize_i8(-128)), "-128");
    assert_eq!(written(|ser| ser.serialize_i16(-32768)), "-32768");
    assert_eq!(written(|ser| ser.serialize_i32(i32::MIN)), "-2147483648");
    assert_eq!(
        written(|ser| ser.serialize_i64(i64::MIN)),
        "-9223372036854775808"
    );
    assert_eq!(
        written(|ser| ser.serialize_i64(i64::MAX)),
        "9223372036854775807"
    );
    assert_eq!(written(|ser| ser.serialize_i64(0)), "0");
    assert_eq!(written(|ser| ser.serialize_i64(-1)), "-1");
    assert_eq!(written(|ser| ser.serialize_u8(255)), "255");
    assert_eq!(written(|ser| ser.serialize_u16(65535)), "65535");
    assert_eq!(written(|ser| ser.serialize_u32(u32::MAX)), "4294967295");
    assert_eq!(
        written(|ser| ser.serialize_u64(u64::MAX)),
        "18446744073709551615"
    );
    assert_eq!(written(|ser| ser.serialize_u64(0)), "0");
    assert_eq!(written(|ser| ser.serialize_u64(10)), "10");
    assert_eq!(written(|ser| ser.serialize_u64(123)), "123");
    assert_eq!(written(|ser| ser.serialize_float(&(-11.22f64).to_string())), "-11.22");
    assert_eq!(written(|ser| ser.serialize_float(&1.0f64.to_string())), "1");
    assert_eq!(written(|ser| ser.serialize_char('a')), "\"a\"");
    assert_eq!(written(|ser| ser.serialize_char('"')), "\"\\\"\"");
    assert_eq!(written(|ser| ser.serialize_str("a\nb")), "\"a\\nb\"");
    assert_eq!(written(|ser| ser.serialize_str("")), "\"\"");
    assert_eq!(written(|ser| ser.serialize_str("\u{e9}")), "\"\u{e9}\"");
    assert_eq!(written(|ser| ser.serialize_bytes(&[1, 2, 3])), "[1,2,3]");
    assert_eq!(written(|ser| ser.serialize_bytes(&[])), "[]");
    assert_eq!(written(|ser| ser.serialize_none()), "null");
    assert_eq!(written(|ser| ser.serialize_unit()), "null");
    assert_eq!(written(|ser| ser.serialize_unit_struct()), "null");
    assert_eq!(written(|ser| ser.serialize_unit_variant("A")), "\"A\"");
}

#[test]
fn aggregates_are_written_piece_by_piece() {
    assert_eq!(
        written(|ser| {
            ser.serialize_seq();
            ser.begin_element();
            ser.serialize_u8(1);
            ser.begin_element();
            ser.serialize_u8(2);
            ser.end_seq();
        }),
        "[1,2]"
    );
    assert_eq!(
        written(|ser| {
            ser.serialize_tuple();
            ser.end_seq();
        }),
        "[]"
    );
    assert_eq!(
        written(|ser| {
            ser.serialize_tuple_struct();
            ser.begin_element();
            ser.serialize_unit();
            ser.end_seq();
        }),
        "[null]"
    );
    assert_eq!(
        written(|ser| {
            ser.serialize_map();
            ser.begin_element();
            ser.serialize_str("a");
            ser.end_key();
            ser.serialize_u8(1);
            ser.begin_element();
            ser.serialize_str("b");
            ser.end_key();
            ser.serialize_u8(2);
            ser.end_map();
        }),
        "{\"a\":1,\"b\":2}"
    );
    assert_eq!(
        written(|ser| {
            ser.serialize_struct();
            ser.serialize_field("x", &Value::Bool(true)).expect("a field");
            ser.serialize_field("y", &Value::Unit).expect("a field");
            ser.end_map();
        }),
        "{\"x\":true,\"y\":null}"
    );
    assert_eq!(
        written(|ser| {
            ser.begin_variant("V");
            ser.serialize_u8(1);
            ser.end_variant();
        }),
        "{\"V\":1}"
    );
    assert_eq!(
        written(|ser| {
            ser.serialize_newtype_variant("V", &Value::Unsigned(1))
                .expect("a variant");
        }),
        "{\"V\":1}"
    );
    assert_eq!(
        written(|ser| {
            ser.serialize_tuple_variant("T");
            ser.begin_element();
            ser.serialize_u8(0);
            ser.begin_element();
            ser.serialize_u8(1);
            ser.end_tuple_variant();
        }),
        "{\"T\":[0,1]}"
    );
    assert_eq!(
        written(|ser| {
            ser.serialize_struct_variant("S");
            ser.serialize_field("r", &Value::Unsigned(0)).expect("a field");
            ser.end_struct_variant();
        }),
        "{\"S\":{\"r\":0}}"
    );
    assert_eq!(
        written(|ser| {
            ser.serialize_seq();
            ser.serialize_element(&Value::Unsigned(1)).expect("an item");
            ser.serialize_element(&Value::Optional(None)).expect("an item");
            ser.serialize_some(&Value::Bool(false)).expect("a value");
            ser.end_seq();
        }),
        "[1,nullfalse]"
    );
    assert_eq!(
        written(|ser| {
            ser.serialize_map();
            ser.serialize_key(&Value::Char('k')).expect("a key");
            ser.serialize_value(&Value::Unsigned(1)).expect("a value");
            ser.serialize_key(&Value::Str("l".to_string())).expect("a key");
            ser.serialize_value(&Value::Unsigned(2)).expect("a value");
            ser.end_map();
        }),
        "{\"k\":1,\"l\":2}"
    );
}

#[test]
fn an_item_behind_an_empty_aggregate_has_its_comma() {
    let value = Value::Sequence(vec![
        Value::Sequence(Vec::new()),
        Value::Unsigned(1),
        Value::Mapping(Vec::new()),
        Value::Bytes(Vec::new()),
        Value::Unsigned(2),
    ]);
    assert_eq!(to_string(&value), Ok("[[],1,{},[],2]".to_string()));
    let value = Value::Mapping(vec![
        (Value::Str("a".to_string()), Value::Sequence(Vec::new())),
        (Value::Str("b".to_string()), Value::Unsigned(1)),
    ]);
    assert_eq!(to_string(&value), Ok("{\"a\":[],\"b\":1}".to_string()));
}

#[test]
fn every_value_is_written() {
    assert_eq!(to_string(&Value::Unit), Ok("null".to_string()));
    assert_eq!(to_string(&Value::Bool(true)), Ok("true".to_string()));
    assert_eq!(to_string(&Value::Signed(-3)), Ok("-3".to_string()));
    assert_eq!(to_string(&Value::Unsigned(3)), Ok("3".to_string()));
    assert_eq!(
        to_string(&Value::Float("0.25".to_string())),
        Ok("0.25".to_string())
    );
    assert_eq!(to_string(&Value::Char('c')), Ok("\"c\"".to_string()));
    assert_eq!(to_string(&Value::Bytes(vec![0, 9])), Ok("[0,9]".to_string()));
    assert_eq!(to_string(&Value::Optional(None)), Ok("null".to_string()));
    assert_eq!(
        to_string(&Value::Optional(Some(Box::new(Value::Unsigned(1))))),
        Ok("1".to_string())
    );
    assert_eq!(
        to_string(&Value::Variant("A".to_string(), None)),
        Ok("\"A\"".to_string())
    );
    assert_eq!(to_bytes(&Value::Unsigned(42)), Ok(b"42".to_vec()));
}

#[test]
fn key_rejection() {
    let integers = Value::Mapping(vec![
        (Value::Signed(1), Value::Signed(1)),
        (Value::Signed(2), Value::Signed(2)),
    ]);
    assert_eq!(to_string(&integers), Err(Error::KeyNotString));
    assert_eq!(to_bytes(&integers), Err(Error::KeyNotString));
    let strings = Value::Mapping(vec![
        (Value::Str("1".to_string()), Value::Signed(1)),
        (Value::Char('2'), Value::Signed(2)),
        (
            Value::Optional(Some(Box::new(Value::Str("3".to_string())))),
            Value::Signed(3),
        ),
    ]);
    assert_eq!(
        to_string(&strings),
        Ok("{\"1\":1,\"2\":2,\"3\":3}".to_string())
    );
    let nested = Value::Sequence(vec![Value::Variant(
        "V".to_string(),
        Some(Box::new(Value::Mapping(vec![(Value::Unit, Value::Unit)]))),
    )]);
    assert_eq!(to_string(&nested), Err(Error::KeyNotString));
}

#[test]
fn only_texts_and_characters_are_keys() {
    fn refused(drive: impl FnOnce(&mut Serializer) -> Result<(), Error>) {
        let mut ser = Serializer::new(Vec::new());
        assert_eq!(drive(&mut ser), Err(Error::KeyNotString));
        assert_eq!(ser.into_inner(), Vec::<u8>::new());
    }
    refused(|ser| KeySerializer::serialize_bool(ser, true));
    refused(|ser| KeySerializer::serialize_i8(ser, 1));
    refused(|ser| KeySerializer::serialize_i16(ser, 1));
    refused(|ser| KeySerializer::serialize_i32(ser, 1));
    refused(|ser| KeySerializer::serialize_i64(ser, 1));
    refused(|ser| KeySerializer::serialize_u8(ser, 1));
    refused(|ser| KeySerializer::serialize_u16(ser, 1));
    refused(|ser| KeySerializer::serialize_u32(ser, 1));
    refused(|ser| KeySerializer::serialize_u64(ser, 1));
    refused(|ser| KeySerializer::serialize_float(ser, "1.5"));
    refused(|ser| KeySerializer::serialize_bytes(ser, &[1]));
    refused(|ser| KeySerializer::serialize_none(ser));
    refused(|ser| KeySerializer::serialize_unit(ser));
    refused(|ser| KeySerializer::serialize_unit_struct(ser));
    refused(|ser| KeySerializer::serialize_unit_variant(ser, "A"));
    refused(|ser| KeySerializer::serialize_newtype_variant(ser, "A"));
    refused(|ser| KeySerializer::serialize_seq(ser));
    refused(|ser| KeySerializer::serialize_tuple(ser));
    refused(|ser| KeySerializer::serialize_tuple_struct(ser));
    refused(|ser| KeySerializer::serialize_tuple_variant(ser, "A"));
    refused(|ser| KeySerializer::serialize_map(ser));
    refused(|ser| KeySerializer::serialize_struct(ser));
    refused(|ser| KeySerializer::serialize_struct_variant(ser, "A"));
    refused(|ser| KeySerializer::serialize_some(ser, &Value::Unit));
    refused(|ser| KeySerializer::serialize(ser, &Value::Optional(None)));
    refused(|ser| KeySerializer::serialize(ser, &Value::Sequence(Vec::new())));
    refused(|ser| KeySerializer::serialize(ser, &Value::Variant("A".to_string(), None)));

    let mut ser = Serializer::new(Vec::new());
    assert_eq!(KeySerializer::serialize_char(&mut ser, 'k'), Ok(()));
    assert_eq!(KeySerializer::serialize_str(&mut ser, "ey"), Ok(()));
    assert_eq!(
        KeySerializer::serialize_some(&mut ser, &Value::Str("s".to_string())),
        Ok(())
    );
    assert_eq!(ser.into_inner(), b"\"k\"\"ey\"\"s\"".to_vec());
}

#[test]
fn a_failed_write_leaves_what_was_written() {
    let mut ser = Serializer::new(Vec::new());
    let value = Value::Sequence(vec![
        Value::Unsigned(1),
        Value::Mapping(vec![(Value::Unsigned(2), Value::Unit)]),
    ]);
    assert_eq!(ser.serialize(&value), Err(Error::KeyNotString));
    assert_eq!(ser.into_inner(), b"[1,{".to_vec());
}

#[test]
fn custom_errors_carry_their_message() {
    assert_eq!(Error::custom("boom"), Error::Message("boom".to_string()));
}
