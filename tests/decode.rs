use lua_pickle::{decimal, json_text, read_value, unpickle, DecodeError, IoError, Number, Value};

fn entries(v: &Value) -> &Vec<(String, Value)> {
    match v {
        Value::Table(es) => es,
        other => panic!("not a table: {:?}", other),
    }
}

fn uint(v: &Value) -> u64 {
    match v {
        Value::Number(Number::UInt(n)) => *n,
        other => panic!("not an integer: {:?}", other),
    }
}

fn text(v: &Value) -> &str {
    match v {
        Value::String(s) => s.as_str(),
        other => panic!("not a string: {:?}", other),
    }
}

#[test]
fn null_tag() {
    assert!(matches!(unpickle(&[0x00], 0), Ok(Value::Null)));
}

#[test]
fn bool_tags() {
    assert!(matches!(unpickle(&[0x01], 0), Ok(Value::Bool(true))));
    assert!(matches!(unpickle(&[0x02], 0), Ok(Value::Bool(false))));
}

#[test]
fn byte_integer() {
    assert_eq!(uint(&unpickle(&[0x03, 0x2A], 0).unwrap()), 42);
}

#[test]
fn wider_integers_are_little_endian() {
    assert_eq!(uint(&unpickle(&[0x04, 0x34, 0x12], 0).unwrap()), 0x1234);
    assert_eq!(uint(&unpickle(&[0x05, 0x78, 0x56, 0x34, 0x12], 0).unwrap()), 0x1234_5678);
    let bytes = [0x06, 0x08, 0x07, 0x06, 0x05, 0x04, 0x03, 0x02, 0x01];
    assert_eq!(uint(&unpickle(&bytes, 0).unwrap()), 0x0102_0304_0506_0708);
    let max = [0x06, 0xFF, 0xFF, 0xFF, 0xFF, 0xFF, 0xFF, 0xFF, 0xFF];
    assert_eq!(uint(&unpickle(&max, 0).unwrap()), u64::MAX);
}

#[test]
fn alternate_integer_tags() {
    assert_eq!(uint(&unpickle(&[0x0E, 0x2A], 0).unwrap()), 42);
    assert_eq!(uint(&unpickle(&[0x0F, 0x34, 0x12], 0).unwrap()), 0x1234);
    assert_eq!(uint(&unpickle(&[0x10, 0x78, 0x56, 0x34, 0x12], 0).unwrap()), 0x1234_5678);
    let (tag, _, end) = read_value(&[0x0F, 0x01, 0x00], 0).unwrap();
    assert_eq!(tag, 0x0F);
    assert_eq!(end, 3);
}

#[test]
fn finite_float() {
    let mut bytes = vec![0x07];
    bytes.extend_from_slice(&1.5f64.to_bits().to_le_bytes());
    match unpickle(&bytes, 0).unwrap() {
        Value::Number(Number::Float(bits)) => assert_eq!(f64::from_bits(bits), 1.5),
        other => panic!("unexpected {:?}", other),
    }
}

#[test]
fn non_finite_float_is_rejected() {
    for x in [f64::NAN, f64::INFINITY, f64::NEG_INFINITY] {
        let mut bytes = vec![0x07];
        bytes.extend_from_slice(&x.to_bits().to_le_bytes());
        assert_eq!(unpickle(&bytes, 0).unwrap_err(), DecodeError::Numeric);
    }
}

#[test]
fn byte_length_string() {
    let v = unpickle(&[0x08, 0x03, 0x61, 0x62, 0x63], 0).unwrap();
    assert_eq!(text(&v), "abc");
}

#[test]
fn halfword_length_string() {
    let v = unpickle(&[0x09, 0x03, 0x00, 0x61, 0x62, 0x63], 0).unwrap();
    assert_eq!(text(&v), "abc");
}

#[test]
fn string_consumes_exactly_declared_length() {
    let bytes = [0x08, 0x02, 0xC3, 0xA9, 0x03, 0x05];
    let (tag, v, end) = read_value(&bytes, 0).unwrap();
    assert_eq!(tag, 0x08);
    assert_eq!(text(&v), "\u{e9}");
    assert_eq!(end, 4);
    let (_, next, end2) = read_value(&bytes, end).unwrap();
    assert_eq!(uint(&next), 5);
    assert_eq!(end2, 6);
}

#[test]
fn empty_string() {
    let (_, v, end) = read_value(&[0x08, 0x00], 0).unwrap();
    assert_eq!(text(&v), "");
    assert_eq!(end, 2);
}

#[test]
fn invalid_utf8_is_an_encoding_error() {
    assert_eq!(unpickle(&[0x08, 0x01, 0xFF], 0).unwrap_err(), DecodeError::Encoding);
}

#[test]
fn short_string_payload_is_truncated() {
    let r = unpickle(&[0x08, 0x03, 0x61], 0);
    assert_eq!(r.unwrap_err(), DecodeError::Io(IoError::Truncated));
}

#[test]
fn table_with_array_part() {
    let v = unpickle(&[0x0B, 0x01, 0x00, 0x00, 0x00, 0x03, 0x07, 0x00], 0).unwrap();
    let es = entries(&v);
    assert_eq!(es.len(), 1);
    assert_eq!(es[0].0, "1");
    assert_eq!(uint(&es[0].1), 7);
}

#[test]
fn table_with_hash_part() {
    let bytes = [0x0B, 0x00, 0x00, 0x00, 0x00, 0x08, 0x03, 0x6B, 0x65, 0x79, 0x03, 0x09, 0x00];
    let v = unpickle(&bytes, 0).unwrap();
    let es = entries(&v);
    assert_eq!(es.len(), 1);
    assert_eq!(es[0].0, "key");
    assert_eq!(uint(&es[0].1), 9);
}

#[test]
fn hash_entry_overrides_array_index() {
    // array part: "1" -> 7, "2" -> 8; hash part: 1 -> 9, then "x" -> true
    let bytes = [
        0x0B, 0x02, 0x00, 0x00, 0x00, 0x03, 0x07, 0x03, 0x08, 0x03, 0x01, 0x03, 0x09, 0x08, 0x01,
        0x78, 0x01, 0x00,
    ];
    let v = unpickle(&bytes, 0).unwrap();
    let es = entries(&v);
    assert_eq!(es.len(), 3);
    assert_eq!(es[0].0, "1");
    assert_eq!(uint(&es[0].1), 9);
    assert_eq!(es[1].0, "2");
    assert_eq!(uint(&es[1].1), 8);
    assert_eq!(es[2].0, "x");
    assert!(matches!(es[2].1, Value::Bool(true)));
}

#[test]
fn repeated_hash_key_keeps_one_entry() {
    let bytes = [
        0x0B, 0x00, 0x00, 0x00, 0x00, 0x08, 0x01, 0x61, 0x03, 0x01, 0x08, 0x01, 0x61, 0x03, 0x02,
        0x00,
    ];
    let v = unpickle(&bytes, 0).unwrap();
    let es = entries(&v);
    assert_eq!(es.len(), 1);
    assert_eq!(es[0].0, "a");
    assert_eq!(uint(&es[0].1), 2);
}

#[test]
fn nested_tables() {
    let bytes = [
        0x0B, 0x00, 0x00, 0x00, 0x00, 0x08, 0x01, 0x74, 0x0B, 0x01, 0x00, 0x00, 0x00, 0x02, 0x00,
        0x00,
    ];
    let v = unpickle(&bytes, 0).unwrap();
    let outer = entries(&v);
    assert_eq!(outer[0].0, "t");
    let inner = entries(&outer[0].1);
    assert_eq!(inner.len(), 1);
    assert_eq!(inner[0].0, "1");
    assert!(matches!(inner[0].1, Value::Bool(false)));
}

#[test]
fn non_text_hash_keys_use_json_text() {
    // key true -> 1, key 300 -> 2
    let bytes = [
        0x0B, 0x00, 0x00, 0x00, 0x00, 0x01, 0x03, 0x01, 0x04, 0x2C, 0x01, 0x03, 0x02, 0x00,
    ];
    let v = unpickle(&bytes, 0).unwrap();
    let es = entries(&v);
    assert_eq!(es[0].0, "true");
    assert_eq!(es[1].0, "300");
}

#[test]
fn float_hash_key_cannot_be_converted() {
    let mut bytes = vec![0x0B, 0x00, 0x00, 0x00, 0x00, 0x07];
    bytes.extend_from_slice(&2.0f64.to_bits().to_le_bytes());
    bytes.extend_from_slice(&[0x03, 0x01, 0x00]);
    assert_eq!(unpickle(&bytes, 0).unwrap_err(), DecodeError::KeyConversion);
}

#[test]
fn single_entry_table_uses_json_text_of_key() {
    let v = unpickle(&[0x0D, 0x08, 0x01, 0x6B, 0x03, 0x05], 0).unwrap();
    let es = entries(&v);
    assert_eq!(es.len(), 1);
    assert_eq!(es[0].0, "\"k\"");
    assert_eq!(uint(&es[0].1), 5);
    let v = unpickle(&[0x0D, 0x03, 0x02, 0x01], 0).unwrap();
    assert_eq!(entries(&v)[0].0, "2");
    let v = unpickle(&[0x0D, 0x00, 0x01], 0).unwrap();
    assert_eq!(entries(&v)[0].0, "null");
}

#[test]
fn single_entry_table_escapes_and_nests_keys() {
    let v = unpickle(&[0x0D, 0x08, 0x02, 0x61, 0x22, 0x00], 0).unwrap();
    assert_eq!(entries(&v)[0].0, "\"a\\\"\"");
    let bytes = [
        0x0D, 0x0B, 0x01, 0x00, 0x00, 0x00, 0x02, 0x08, 0x01, 0x62, 0x03, 0x04, 0x00, 0x00,
    ];
    let v = unpickle(&bytes, 0).unwrap();
    assert_eq!(entries(&v)[0].0, "{\"1\":false,\"b\":4}");
}

#[test]
fn truncated_integer() {
    assert_eq!(unpickle(&[0x03], 0).unwrap_err(), DecodeError::Io(IoError::Truncated));
}

#[test]
fn truncated_table_without_terminator() {
    let r = unpickle(&[0x0B, 0x01, 0x00, 0x00, 0x00, 0x03, 0x07], 0);
    assert_eq!(r.unwrap_err(), DecodeError::Io(IoError::Truncated));
}

#[test]
fn unknown_tag_aborts() {
    assert_eq!(unpickle(&[0xFF], 0).unwrap_err(), DecodeError::UnknownTag(0xFF, 1));
    assert_eq!(unpickle(&[0x0A, 0x00], 0).unwrap_err(), DecodeError::UnknownTag(0x0A, 1));
    let nested = [0x0B, 0x01, 0x00, 0x00, 0x00, 0x0C, 0x00];
    assert_eq!(unpickle(&nested, 0).unwrap_err(), DecodeError::UnknownTag(0x0C, 6));
}

#[test]
fn header_is_skipped() {
    let bytes = [0xAA, 0xBB, 0xCC, 0xDD, 0x01];
    assert!(matches!(unpickle(&bytes, 4), Ok(Value::Bool(true))));
    assert_eq!(unpickle(&bytes, 5).unwrap_err(), DecodeError::Io(IoError::Truncated));
    assert_eq!(unpickle(&bytes, 6).unwrap_err(), DecodeError::Io(IoError::InvalidSeek));
    let unknown = [0x00, 0x00, 0x00, 0x00, 0xFF];
    assert_eq!(unpickle(&unknown, 4).unwrap_err(), DecodeError::UnknownTag(0xFF, 5));
}

#[test]
fn decoding_twice_gives_the_same_tree() {
    let bytes = [
        0x0B, 0x01, 0x00, 0x00, 0x00, 0x08, 0x01, 0x61, 0x08, 0x01, 0x6B, 0x0B, 0x00, 0x00, 0x00,
        0x00, 0x00, 0x00,
    ];
    let a = unpickle(&bytes, 0).unwrap();
    let b = unpickle(&bytes, 0).unwrap();
    assert_eq!(format!("{:?}", a), format!("{:?}", b));
    assert_eq!(json_text(&a), json_text(&b));
    assert_eq!(json_text(&a).unwrap(), "{\"1\":\"a\",\"k\":{}}");
}

#[test]
fn decimal_text() {
    assert_eq!(decimal(0), "0");
    assert_eq!(decimal(7), "7");
    assert_eq!(decimal(1234567890), "1234567890");
    assert_eq!(decimal(u64::MAX), "18446744073709551615");
}

#[test]
fn json_text_of_float_is_none() {
    assert!(json_text(&Value::Number(Number::Float(1.5f64.to_bits()))).is_none());
    assert_eq!(json_text(&Value::String("x\ny".to_string())).unwrap(), "\"x\\ny\"");
}
