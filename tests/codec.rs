use serde_bench::{from_bytes, to_bytes, Deserializer, Error, IoCause, Serializer, Shape, Value};

fn foo_value() -> Value {
    Value::Tuple(vec![
        Value::Str("hello".to_string()),
        Value::U64(1337),
        Value::Bool(true),
    ])
}

fn foo_shape() -> Shape {
    Shape::Tuple(vec![Shape::Str, Shape::U64, Shape::Bool])
}

fn foo_bytes() -> Vec<u8> {
    let mut b = vec![5, 0, 0, 0, 0, 0, 0, 0];
    b.extend_from_slice(b"hello");
    b.extend_from_slice(&[0x39, 0x05, 0, 0, 0, 0, 0, 0]);
    b.push(1);
    b
}

#[test]
fn test_ser() {
    assert_eq!(to_bytes(&foo_value()), foo_bytes());
}

#[test]
fn test_de() {
    let bytes = to_bytes(&foo_value());
    assert_eq!(from_bytes(bytes.clone(), &foo_shape()).unwrap(), foo_value());
    let mut de = Deserializer::new(bytes);
    assert_eq!(de.deserialize_value(&foo_shape()).unwrap(), foo_value());
    assert_eq!(de.remaining(), 0);
}

#[test]
fn record_bytes_are_exact() {
    let bytes = to_bytes(&foo_value());
    assert_eq!(bytes.len(), 8 + 5 + 8 + 1);
    assert_eq!(&bytes[..8], &5u64.to_le_bytes());
    assert_eq!(&bytes[8..13], b"hello");
    assert_eq!(&bytes[13..21], &1337u64.to_le_bytes());
    assert_eq!(bytes[21], 1);
}

#[test]
fn encoding_is_deterministic() {
    let a = to_bytes(&foo_value());
    let b = to_bytes(&foo_value());
    assert_eq!(a, b);
    let mut ser = Serializer::new(Vec::new());
    ser.serialize_value(&foo_value());
    assert_eq!(ser.into_inner(), a);
}

#[test]
fn integers_are_little_endian() {
    let mut ser = Serializer::new(Vec::new());
    ser.serialize_u8(0xAB);
    ser.serialize_u16(0x0102);
    ser.serialize_u32(0x0304_0506);
    ser.serialize_u64(0x0708_090A_0B0C_0D0E);
    ser.serialize_i8(-1);
    ser.serialize_i16(-2);
    ser.serialize_i32(-3);
    ser.serialize_i64(-4);
    let expected: Vec<u8> = vec![
        0xAB, 0x02, 0x01, 0x06, 0x05, 0x04, 0x03, 0x0E, 0x0D, 0x0C, 0x0B, 0x0A, 0x09, 0x08, 0x07,
        0xFF, 0xFE, 0xFF, 0xFD, 0xFF, 0xFF, 0xFF, 0xFC, 0xFF, 0xFF, 0xFF, 0xFF, 0xFF, 0xFF, 0xFF,
    ];
    assert_eq!(ser.as_bytes(), &expected);

    let mut de = Deserializer::new(expected);
    assert_eq!(de.deserialize_u8().unwrap(), 0xAB);
    assert_eq!(de.deserialize_u16().unwrap(), 0x0102);
    assert_eq!(de.deserialize_u32().unwrap(), 0x0304_0506);
    assert_eq!(de.deserialize_u64().unwrap(), 0x0708_090A_0B0C_0D0E);
    assert_eq!(de.deserialize_i8().unwrap(), -1);
    assert_eq!(de.deserialize_i16().unwrap(), -2);
    assert_eq!(de.deserialize_i32().unwrap(), -3);
    assert_eq!(de.deserialize_i64().unwrap(), -4);
    assert_eq!(de.remaining(), 0);
}

#[test]
fn extreme_integers_round_trip() {
    let v = Value::Tuple(vec![
        Value::U64(u64::MAX),
        Value::I64(i64::MIN),
        Value::I32(i32::MAX),
        Value::I16(i16::MIN),
        Value::U16(u16::MAX),
        Value::U32(0),
    ]);
    let shape = Shape::Tuple(vec![Shape::U64, Shape::I64, Shape::I32, Shape::I16, Shape::U16, Shape::U32]);
    let bytes = to_bytes(&v);
    assert_eq!(bytes.len(), 8 + 8 + 4 + 2 + 2 + 4);
    assert_eq!(from_bytes(bytes, &shape).unwrap(), v);
}

#[test]
fn bool_bytes() {
    let mut ser = Serializer::new(Vec::new());
    ser.serialize_bool(true);
    ser.serialize_bool(false);
    assert_eq!(ser.into_inner(), vec![1, 0]);
    let mut de = Deserializer::new(vec![1, 0]);
    assert_eq!(de.deserialize_bool(), Ok(true));
    assert_eq!(de.deserialize_bool(), Ok(false));
}

#[test]
fn bool_byte_two_is_invalid() {
    let mut de = Deserializer::new(vec![2]);
    assert_eq!(de.deserialize_bool(), Err(Error::InvalidBoolean));
    assert_eq!(de.remaining(), 0);
    assert_eq!(from_bytes(vec![2], &Shape::Bool), Err(Error::InvalidBoolean));
}

#[test]
fn truncated_input_is_io_failure() {
    let eof = Error::IoFailure(IoCause::UnexpectedEof);
    assert_eq!(Deserializer::new(vec![]).deserialize_u8(), Err(eof.clone()));
    assert_eq!(Deserializer::new(vec![1]).deserialize_u16(), Err(eof.clone()));
    assert_eq!(Deserializer::new(vec![1, 2, 3]).deserialize_u32(), Err(eof.clone()));
    assert_eq!(Deserializer::new(vec![1; 7]).deserialize_i64(), Err(eof.clone()));
    assert_eq!(Deserializer::new(vec![]).deserialize_bool(), Err(eof.clone()));
    let mut bytes = foo_bytes();
    bytes.pop();
    assert_eq!(from_bytes(bytes, &foo_shape()), Err(eof.clone()));
    let short = foo_bytes()[..10].to_vec();
    assert_eq!(from_bytes(short, &foo_shape()), Err(eof.clone()));
    assert_eq!(from_bytes(vec![3, 0, 0], &Shape::Str), Err(eof));
}

#[test]
fn oversized_length_prefix_fails() {
    let mut de = Deserializer::new(vec![0xFF; 8]);
    let r = de.read_vec();
    if r == Err(Error::LengthOverflow) {
        assert_eq!(de.remaining(), 0);
    } else {
        assert_eq!(r, Err(Error::IoFailure(IoCause::UnexpectedEof)));
        assert_eq!(de.remaining(), 8);
    }
}

#[test]
fn chars_take_their_utf8_width() {
    let cases: Vec<(char, Vec<u8>)> = vec![
        ('a', vec![0x61]),
        ('\u{e9}', vec![0xC3, 0xA9]),
        ('\u{20ac}', vec![0xE2, 0x82, 0xAC]),
        ('\u{1f600}', vec![0xF0, 0x9F, 0x98, 0x80]),
    ];
    for (c, expected) in cases {
        let mut ser = Serializer::new(Vec::new());
        ser.serialize_char(c);
        assert_eq!(ser.as_bytes(), &expected);
        let mut de = Deserializer::new(expected);
        assert_eq!(de.deserialize_char(), Ok(c));
        assert_eq!(de.remaining(), 0);
    }
}

#[test]
fn continuation_byte_is_invalid_char_width() {
    let mut de = Deserializer::new(vec![0x80, 0x80]);
    assert_eq!(de.deserialize_char(), Err(Error::InvalidCharWidth));
    assert_eq!(de.remaining(), 1);
    assert_eq!(Deserializer::new(vec![0xFF]).deserialize_char(), Err(Error::InvalidCharWidth));
}

#[test]
fn malformed_char_is_invalid_utf8() {
    let mut de = Deserializer::new(vec![0xC3, 0x41, 0x42]);
    assert_eq!(de.deserialize_char(), Err(Error::InvalidUtf8));
    assert_eq!(de.remaining(), 1);
    assert_eq!(
        Deserializer::new(vec![0xE2, 0x82]).deserialize_char(),
        Err(Error::IoFailure(IoCause::UnexpectedEof))
    );
}

#[test]
fn text_and_bytes_are_length_prefixed() {
    let mut ser = Serializer::new(Vec::new());
    ser.serialize_str("h\u{e9}");
    ser.serialize_bytes(&[9, 8]);
    let expected: Vec<u8> = vec![3, 0, 0, 0, 0, 0, 0, 0, 0x68, 0xC3, 0xA9, 2, 0, 0, 0, 0, 0, 0, 0, 9, 8];
    assert_eq!(ser.as_bytes(), &expected);
    let mut de = Deserializer::new(expected);
    assert_eq!(de.read_string().unwrap(), "h\u{e9}");
    assert_eq!(de.read_vec().unwrap(), vec![9, 8]);
}

#[test]
fn invalid_utf8_text_fails() {
    let bytes = vec![2, 0, 0, 0, 0, 0, 0, 0, 0xFF, 0xFE];
    let mut de = Deserializer::new(bytes.clone());
    assert_eq!(de.read_string(), Err(Error::InvalidUtf8));
    assert_eq!(de.remaining(), 0);
    assert_eq!(from_bytes(bytes, &Shape::Str), Err(Error::InvalidUtf8));
}

#[test]
fn empty_text_and_sequences() {
    let v = Value::Tuple(vec![Value::Str(String::new()), Value::List(vec![]), Value::Bytes(vec![])]);
    let bytes = to_bytes(&v);
    assert_eq!(bytes, vec![0u8; 24]);
    let shape = Shape::Tuple(vec![Shape::Str, Shape::List(Box::new(Shape::U8)), Shape::Bytes]);
    assert_eq!(from_bytes(bytes, &shape).unwrap(), v);
}

#[test]
fn option_layout() {
    assert_eq!(to_bytes(&Value::Option(None)), vec![0]);
    let some = Value::Option(Some(Box::new(Value::U16(7))));
    assert_eq!(to_bytes(&some), vec![1, 7, 0]);
    let shape = Shape::Option(Box::new(Shape::U16));
    assert_eq!(from_bytes(vec![0], &shape).unwrap(), Value::Option(None));
    assert_eq!(from_bytes(vec![1, 7, 0], &shape).unwrap(), some);
    assert_eq!(from_bytes(vec![2, 7, 0], &shape), Err(Error::InvalidBoolean));
    let mut ser = Serializer::new(Vec::new());
    ser.serialize_none();
    ser.serialize_some();
    assert_eq!(ser.into_inner(), vec![0, 1]);
}

fn three_variants() -> Shape {
    Shape::Enum(vec![
        Shape::Unit,
        Shape::U8,
        Shape::Tuple(vec![Shape::Str, Shape::I32]),
    ])
}

#[test]
fn third_variant_round_trips() {
    let v = Value::Variant(
        2,
        Box::new(Value::Tuple(vec![Value::Str("x".to_string()), Value::I32(-5)])),
    );
    let bytes = to_bytes(&v);
    let mut expected: Vec<u8> = vec![2, 0, 0, 0, 1, 0, 0, 0, 0, 0, 0, 0, b'x'];
    expected.extend_from_slice(&(-5i32).to_le_bytes());
    assert_eq!(bytes, expected);
    assert_eq!(from_bytes(bytes, &three_variants()).unwrap(), v);
    let unit = Value::Variant(0, Box::new(Value::Unit));
    assert_eq!(to_bytes(&unit), vec![0, 0, 0, 0]);
    assert_eq!(from_bytes(vec![0, 0, 0, 0], &three_variants()).unwrap(), unit);
}

#[test]
fn discriminant_beyond_variants_is_custom_error() {
    let r = from_bytes(vec![3, 0, 0, 0], &three_variants());
    assert!(matches!(r, Err(Error::Custom(_))));
    let r = from_bytes(vec![0xFF, 0xFF, 0xFF, 0xFF, 1], &three_variants());
    assert!(matches!(r, Err(Error::Custom(_))));
}

#[test]
fn nested_composites_round_trip() {
    let v = Value::Tuple(vec![
        Value::List(vec![
            Value::Option(Some(Box::new(Value::Char('\u{20ac}')))),
            Value::Option(None),
        ]),
        Value::Dict(vec![
            (Value::Str("a".to_string()), Value::Bytes(vec![1, 2, 3])),
            (Value::Str("b".to_string()), Value::Bytes(vec![])),
        ]),
        Value::Variant(1, Box::new(Value::U8(200))),
        Value::Unit,
    ]);
    let shape = Shape::Tuple(vec![
        Shape::List(Box::new(Shape::Option(Box::new(Shape::Char)))),
        Shape::Dict(Box::new(Shape::Str), Box::new(Shape::Bytes)),
        three_variants(),
        Shape::Unit,
    ]);
    let bytes = to_bytes(&v);
    let mut de = Deserializer::new(bytes.clone());
    assert_eq!(de.deserialize_value(&shape).unwrap(), v);
    assert_eq!(de.remaining(), 0);
    let mut longer = bytes;
    longer.extend_from_slice(&[42, 43]);
    let mut de = Deserializer::new(longer);
    assert_eq!(de.deserialize_value(&shape).unwrap(), v);
    assert_eq!(de.remaining(), 2);
    assert_eq!(de.deserialize_u8(), Ok(42));
}

#[test]
fn map_count_and_pairs_in_order() {
    let v = Value::Dict(vec![(Value::U8(2), Value::Bool(false)), (Value::U8(1), Value::Bool(true))]);
    assert_eq!(to_bytes(&v), vec![2, 0, 0, 0, 0, 0, 0, 0, 2, 0, 1, 1]);
}

#[test]
fn sequence_count_and_elements() {
    let mut ser = Serializer::new(Vec::new());
    assert_eq!(ser.serialize_seq(Some(2)), Ok(()));
    ser.serialize_u8(4);
    ser.serialize_u8(5);
    assert_eq!(ser.as_bytes(), &vec![2, 0, 0, 0, 0, 0, 0, 0, 4, 5]);
    let mut de = Deserializer::new(ser.into_inner());
    assert_eq!(de.deserialize_len(), Ok(2));
    assert_eq!(de.deserialize_u8(), Ok(4));
}

#[test]
fn unknown_length_is_unsupported() {
    let mut ser = Serializer::new(vec![7]);
    assert_eq!(ser.serialize_seq(None), Err(Error::UnsupportedOperation));
    assert_eq!(ser.serialize_map(None), Err(Error::UnsupportedOperation));
    assert_eq!(ser.into_inner(), vec![7]);
}

#[test]
fn variant_index_and_unit() {
    let mut ser = Serializer::new(Vec::new());
    ser.serialize_unit();
    ser.serialize_variant_index(0x0102_0304);
    ser.serialize_len(3);
    assert_eq!(ser.into_inner(), vec![4, 3, 2, 1, 3, 0, 0, 0, 0, 0, 0, 0]);
    let mut de = Deserializer::new(vec![4, 3, 2, 1, 1]);
    assert_eq!(de.deserialize_variant_index(), Ok(0x0102_0304));
    assert_eq!(de.deserialize_option(), Ok(true));
}

#[test]
fn error_descriptions() {
    assert_eq!(Error::InvalidBoolean.describe(), "invalid boolean");
    assert_eq!(Error::IoFailure(IoCause::UnexpectedEof).describe(), "unexpected end of input");
    assert_eq!(Error::Custom("bad".to_string()).describe(), "bad");
}

#[test]
fn nested_failure_comes_out_unchanged() {
    let mut bytes = foo_bytes();
    let last = bytes.len() - 1;
    bytes[last] = 2;
    assert_eq!(from_bytes(bytes, &foo_shape()), Err(Error::InvalidBoolean));
    let list = Shape::List(Box::new(Shape::Char));
    let bytes = vec![2, 0, 0, 0, 0, 0, 0, 0, b'a', 0x80];
    assert_eq!(from_bytes(bytes, &list), Err(Error::InvalidCharWidth));
}

#[test]
fn every_truncation_is_io_failure() {
    let v = Value::Tuple(vec![
        Value::Variant(2, Box::new(Value::Tuple(vec![Value::Str("\u{e9}t\u{e9}".to_string()), Value::I32(9)]))),
        Value::Dict(vec![(Value::Char('\u{1f600}'), Value::Option(Some(Box::new(Value::U64(3)))))]),
        Value::Bytes(vec![1, 2]),
    ]);
    let shape = Shape::Tuple(vec![
        three_variants(),
        Shape::Dict(Box::new(Shape::Char), Box::new(Shape::Option(Box::new(Shape::U64)))),
        Shape::Bytes,
    ]);
    let bytes = to_bytes(&v);
    for k in 0..bytes.len() {
        assert_eq!(
            from_bytes(bytes[..k].to_vec(), &shape),
            Err(Error::IoFailure(IoCause::UnexpectedEof)),
            "prefix of {} bytes",
            k
        );
    }
    assert_eq!(from_bytes(bytes, &shape).unwrap(), v);
}

#[test]
fn unknown_discriminant_reads_only_the_discriminant() {
    let mut de = Deserializer::new(vec![3, 0, 0, 0, 9, 9]);
    assert!(matches!(de.deserialize_value(&three_variants()), Err(Error::Custom(_))));
    assert_eq!(de.remaining(), 2);
}
