use ggml_io::codec::{decode, decode_at, encode, encode_into, DecodeError};
use ggml_io::value::{Schema, Value};

fn sample_record() -> Value {
    Value::Record(vec![Value::U32(7), Value::Text(String::from("hi"))])
}

fn sample_schema() -> Schema {
    Schema::Record(vec![Schema::U32, Schema::Text])
}

fn nested_value() -> Value {
    Value::Record(vec![
        Value::U8(0xab),
        Value::List(vec![
            Value::Record(vec![Value::U16(1), Value::Bool(true)]),
            Value::Record(vec![Value::U16(0x1234), Value::Bool(false)]),
        ]),
        Value::Text(String::from("héllo")),
        Value::Bytes(vec![0, 255, 7]),
        Value::U64(0x0102_0304_0506_0708),
        Value::Record(vec![]),
    ])
}

fn nested_schema() -> Schema {
    Schema::Record(vec![
        Schema::U8,
        Schema::List(Box::new(Schema::Record(vec![Schema::U16, Schema::Bool]))),
        Schema::Text,
        Schema::Bytes,
        Schema::U64,
        Schema::Record(vec![]),
    ])
}

#[test]
fn record_of_u32_and_text_has_the_expected_bytes() {
    let bytes = encode(&sample_record());
    assert_eq!(bytes, vec![0x00, 0x00, 0x00, 0x07, 0x00, 0x00, 0x00, 0x02, 0x68, 0x69]);
    assert_eq!(bytes.len(), 10);
}

#[test]
fn expected_bytes_decode_to_the_record() {
    let bytes: Vec<u8> = vec![0x00, 0x00, 0x00, 0x07, 0x00, 0x00, 0x00, 0x02, 0x68, 0x69];
    assert_eq!(decode(&sample_schema(), &bytes), Ok(sample_record()));
}

#[test]
fn u8_is_one_byte() {
    assert_eq!(encode(&Value::U8(5)), vec![5]);
    assert_eq!(decode(&Schema::U8, &[5]), Ok(Value::U8(5)));
}

#[test]
fn u16_is_two_bytes_most_significant_first() {
    assert_eq!(encode(&Value::U16(0x1234)), vec![0x12, 0x34]);
    assert_eq!(decode(&Schema::U16, &[0x12, 0x34]), Ok(Value::U16(0x1234)));
}

#[test]
fn u32_is_four_bytes_most_significant_first() {
    assert_eq!(encode(&Value::U32(0xdead_beef)), vec![0xde, 0xad, 0xbe, 0xef]);
    assert_eq!(decode(&Schema::U32, &[0xde, 0xad, 0xbe, 0xef]), Ok(Value::U32(0xdead_beef)));
}

#[test]
fn u64_is_eight_bytes_most_significant_first() {
    assert_eq!(
        encode(&Value::U64(0x0102_0304_0506_0708)),
        vec![1, 2, 3, 4, 5, 6, 7, 8]
    );
    assert_eq!(
        decode(&Schema::U64, &[1, 2, 3, 4, 5, 6, 7, 8]),
        Ok(Value::U64(0x0102_0304_0506_0708))
    );
}

#[test]
fn integer_extremes_round_trip() {
    for v in [
        Value::U8(0),
        Value::U8(u8::MAX),
        Value::U16(u16::MAX),
        Value::U32(u32::MAX),
        Value::U64(u64::MAX),
    ] {
        let schema = match v {
            Value::U8(_) => Schema::U8,
            Value::U16(_) => Schema::U16,
            Value::U32(_) => Schema::U32,
            _ => Schema::U64,
        };
        let bytes = encode(&v);
        assert_eq!(decode(&schema, &bytes), Ok(v));
    }
    assert_eq!(encode(&Value::U64(u64::MAX)), vec![0xff; 8]);
}

#[test]
fn bool_is_one_byte_zero_or_one() {
    assert_eq!(encode(&Value::Bool(false)), vec![0]);
    assert_eq!(encode(&Value::Bool(true)), vec![1]);
    assert_eq!(decode(&Schema::Bool, &[0]), Ok(Value::Bool(false)));
    assert_eq!(decode(&Schema::Bool, &[1]), Ok(Value::Bool(true)));
}

#[test]
fn text_is_length_prefixed_utf8() {
    let v = Value::Text(String::from("né"));
    assert_eq!(encode(&v), vec![0, 0, 0, 3, 0x6e, 0xc3, 0xa9]);
    assert_eq!(decode(&Schema::Text, &[0, 0, 0, 3, 0x6e, 0xc3, 0xa9]), Ok(v));
}

#[test]
fn empty_text_is_a_zero_length_prefix() {
    let v = Value::Text(String::new());
    assert_eq!(encode(&v), vec![0, 0, 0, 0]);
    assert_eq!(decode(&Schema::Text, &[0, 0, 0, 0]), Ok(v));
}

#[test]
fn byte_string_is_length_prefixed() {
    let v = Value::Bytes(vec![9, 8, 7]);
    assert_eq!(encode(&v), vec![0, 0, 0, 3, 9, 8, 7]);
    assert_eq!(decode(&Schema::Bytes, &[0, 0, 0, 3, 9, 8, 7]), Ok(v));
}

#[test]
fn long_byte_string_has_a_big_endian_length() {
    let v = Value::Bytes(vec![1; 300]);
    let bytes = encode(&v);
    assert_eq!(&bytes[..4], &[0, 0, 1, 44]);
    assert_eq!(bytes.len(), 304);
    assert_eq!(decode(&Schema::Bytes, &bytes), Ok(v));
}

#[test]
fn list_is_count_prefixed() {
    let v = Value::List(vec![Value::U16(1), Value::U16(2)]);
    assert_eq!(encode(&v), vec![0, 0, 0, 2, 0, 1, 0, 2]);
    assert_eq!(
        decode(&Schema::List(Box::new(Schema::U16)), &[0, 0, 0, 2, 0, 1, 0, 2]),
        Ok(v)
    );
}

#[test]
fn empty_list_and_empty_record() {
    assert_eq!(encode(&Value::List(vec![])), vec![0, 0, 0, 0]);
    assert_eq!(encode(&Value::Record(vec![])), Vec::<u8>::new());
    assert_eq!(decode(&Schema::Record(vec![]), &[]), Ok(Value::Record(vec![])));
    assert_eq!(
        decode(&Schema::List(Box::new(Schema::U8)), &[0, 0, 0, 0]),
        Ok(Value::List(vec![]))
    );
}

#[test]
fn record_is_its_fields_end_to_end() {
    let v = Value::Record(vec![Value::U8(1), Value::Record(vec![Value::U8(2), Value::U8(3)])]);
    assert_eq!(encode(&v), vec![1, 2, 3]);
}

#[test]
fn nested_value_round_trips() {
    let bytes = encode(&nested_value());
    assert_eq!(decode(&nested_schema(), &bytes), Ok(nested_value()));
}

#[test]
fn nested_value_has_the_expected_bytes() {
    let expected: Vec<u8> = vec![
        0xab, // u8
        0, 0, 0, 2, // two list items
        0, 1, 1, // first item
        0x12, 0x34, 0, // second item
        0, 0, 0, 6, 0x68, 0xc3, 0xa9, 0x6c, 0x6c, 0x6f, // text
        0, 0, 0, 3, 0, 255, 7, // bytes
        1, 2, 3, 4, 5, 6, 7, 8, // u64
    ];
    assert_eq!(encode(&nested_value()), expected);
}

#[test]
fn encoding_twice_gives_the_same_bytes() {
    let first = encode(&nested_value());
    let second = encode(&nested_value());
    assert_eq!(first, second);
    let v = nested_value();
    assert_eq!(encode(&v), encode(&v));
}

#[test]
fn every_strict_prefix_is_truncated() {
    let bytes = encode(&nested_value());
    for cut in 0..bytes.len() {
        assert_eq!(
            decode(&nested_schema(), &bytes[..cut]),
            Err(DecodeError::Truncated),
            "cut at {}",
            cut
        );
    }
}

#[test]
fn every_strict_prefix_of_the_record_is_truncated() {
    let bytes = encode(&sample_record());
    for cut in 0..bytes.len() {
        assert_eq!(decode(&sample_schema(), &bytes[..cut]), Err(DecodeError::Truncated));
    }
}

#[test]
fn empty_input_is_truncated_for_every_primitive() {
    for schema in [
        Schema::U8,
        Schema::U16,
        Schema::U32,
        Schema::U64,
        Schema::Bool,
        Schema::Text,
        Schema::Bytes,
    ] {
        assert_eq!(decode(&schema, &[]), Err(DecodeError::Truncated));
    }
}

#[test]
fn length_prefix_beyond_the_buffer_is_truncated() {
    assert_eq!(
        decode(&Schema::Bytes, &[0, 0, 0, 5, 1, 2]),
        Err(DecodeError::Truncated)
    );
    assert_eq!(
        decode(&Schema::Text, &[0xff, 0xff, 0xff, 0xff, 0x61]),
        Err(DecodeError::Truncated)
    );
    assert_eq!(
        decode(&Schema::List(Box::new(Schema::U8)), &[0, 0, 0, 3, 1, 2]),
        Err(DecodeError::Truncated)
    );
}

#[test]
fn bool_byte_other_than_zero_or_one_is_malformed() {
    assert_eq!(decode(&Schema::Bool, &[2]), Err(DecodeError::Malformed));
    assert_eq!(decode(&Schema::Bool, &[255]), Err(DecodeError::Malformed));
}

#[test]
fn text_that_is_not_utf8_is_malformed() {
    assert_eq!(
        decode(&Schema::Text, &[0, 0, 0, 2, 0xff, 0xfe]),
        Err(DecodeError::Malformed)
    );
    assert_eq!(
        decode(&Schema::Text, &[0, 0, 0, 1, 0xc3]),
        Err(DecodeError::Malformed)
    );
}

#[test]
fn malformed_field_inside_a_record_is_reported() {
    let schema = Schema::Record(vec![Schema::U8, Schema::Bool, Schema::U8]);
    assert_eq!(decode(&schema, &[1, 7, 3]), Err(DecodeError::Malformed));
    assert_eq!(decode(&schema, &[1, 1]), Err(DecodeError::Truncated));
}

#[test]
fn trailing_bytes_are_ignored() {
    let mut bytes = encode(&sample_record());
    bytes.extend_from_slice(&[0, 0, 0, 0, 0, 0]);
    assert_eq!(decode(&sample_schema(), &bytes), Ok(sample_record()));
    bytes.extend_from_slice(&[0xff, 0x01]);
    assert_eq!(decode(&sample_schema(), &bytes), Ok(sample_record()));
}

#[test]
fn decode_at_reports_where_the_value_ends() {
    let bytes: Vec<u8> = vec![0xee, 0, 0, 0, 7, 0, 0, 0, 2, 0x68, 0x69, 0xee];
    assert_eq!(decode_at(&sample_schema(), &bytes, 1), Ok((sample_record(), 11)));
    assert_eq!(decode_at(&Schema::U8, &bytes, 11), Ok((Value::U8(0xee), 12)));
    assert_eq!(decode_at(&Schema::U8, &bytes, 12), Err(DecodeError::Truncated));
    assert_eq!(decode_at(&Schema::U8, &bytes, 13), Err(DecodeError::Truncated));
    assert_eq!(decode_at(&Schema::Record(vec![]), &bytes, 12), Ok((Value::Record(vec![]), 12)));
    assert_eq!(decode_at(&Schema::Record(vec![]), &bytes, 99), Err(DecodeError::Truncated));
}

#[test]
fn records_laid_end_to_end_are_read_one_after_the_other() {
    let mut bytes = encode(&sample_record());
    let second = Value::Record(vec![Value::U32(9), Value::Text(String::from("yo!"))]);
    encode_into(&second, &mut bytes);
    let (first, next) = decode_at(&sample_schema(), &bytes, 0).unwrap();
    assert_eq!(first, sample_record());
    assert_eq!(next, 10);
    assert_eq!(decode_at(&sample_schema(), &bytes, next), Ok((second, bytes.len())));
}

#[test]
fn encode_into_appends() {
    let mut out: Vec<u8> = vec![0xaa];
    encode_into(&Value::U16(0x0102), &mut out);
    assert_eq!(out, vec![0xaa, 1, 2]);
}

#[test]
fn decoding_under_another_schema_reads_the_bytes_as_that_schema() {
    let bytes = encode(&Value::U32(0x0001_0002));
    assert_eq!(
        decode(&Schema::Record(vec![Schema::U16, Schema::U16]), &bytes),
        Ok(Value::Record(vec![Value::U16(1), Value::U16(2)]))
    );
}

#[test]
fn representable_values_are_recognised() {
    assert!(nested_value().is_representable());
    assert!(Value::Text(String::new()).is_representable());
    assert!(Value::List(vec![]).is_representable());
}

#[test]
fn conformance_follows_the_schema() {
    assert!(nested_value().conforms_to(&nested_schema()));
    assert!(sample_record().conforms_to(&sample_schema()));
    assert!(!sample_record().conforms_to(&nested_schema()));
    assert!(!Value::U8(1).conforms_to(&Schema::U16));
    assert!(!Value::Bool(true).conforms_to(&Schema::U8));
    assert!(!Value::Record(vec![Value::U8(1)]).conforms_to(&Schema::Record(vec![])));
    assert!(!Value::Record(vec![]).conforms_to(&Schema::Record(vec![Schema::U8])));
    assert!(
        !Value::List(vec![Value::U8(1), Value::U16(2)]).conforms_to(&Schema::List(Box::new(Schema::U8)))
    );
    assert!(Value::List(vec![]).conforms_to(&Schema::List(Box::new(Schema::Text))));
    assert!(!Value::List(vec![]).conforms_to(&Schema::Record(vec![])));
}

#[test]
fn signed_integers_are_twos_complement() {
    assert_eq!(encode(&Value::I8(-1)), vec![0xff]);
    assert_eq!(encode(&Value::I8(i8::MIN)), vec![0x80]);
    assert_eq!(encode(&Value::I16(-2)), vec![0xff, 0xfe]);
    assert_eq!(encode(&Value::I32(-7)), vec![0xff, 0xff, 0xff, 0xf9]);
    assert_eq!(encode(&Value::I32(7)), vec![0, 0, 0, 7]);
    assert_eq!(
        encode(&Value::I64(i64::MIN)),
        vec![0x80, 0, 0, 0, 0, 0, 0, 0]
    );
    assert_eq!(decode(&Schema::I8, &[0xff]), Ok(Value::I8(-1)));
    assert_eq!(decode(&Schema::I16, &[0x80, 0x00]), Ok(Value::I16(i16::MIN)));
    assert_eq!(decode(&Schema::I32, &[0xff, 0xff, 0xff, 0xf9]), Ok(Value::I32(-7)));
    assert_eq!(
        decode(&Schema::I64, &[0x7f, 0xff, 0xff, 0xff, 0xff, 0xff, 0xff, 0xff]),
        Ok(Value::I64(i64::MAX))
    );
}

#[test]
fn signed_extremes_round_trip() {
    let v = Value::Record(vec![
        Value::I8(i8::MIN),
        Value::I8(i8::MAX),
        Value::I16(i16::MIN),
        Value::I16(i16::MAX),
        Value::I32(i32::MIN),
        Value::I32(i32::MAX),
        Value::I64(i64::MIN),
        Value::I64(i64::MAX),
        Value::I64(-1),
        Value::I64(0),
    ]);
    let schema = Schema::Record(vec![
        Schema::I8,
        Schema::I8,
        Schema::I16,
        Schema::I16,
        Schema::I32,
        Schema::I32,
        Schema::I64,
        Schema::I64,
        Schema::I64,
        Schema::I64,
    ]);
    assert!(v.conforms_to(&schema));
    let bytes = encode(&v);
    assert_eq!(bytes.len(), 2 + 4 + 8 + 32);
    for cut in 0..bytes.len() {
        assert_eq!(decode(&schema, &bytes[..cut]), Err(DecodeError::Truncated));
    }
    assert_eq!(decode(&schema, &bytes), Ok(v));
}

#[test]
fn signed_and_unsigned_layouts_differ_in_kind_only() {
    assert!(!Value::I32(1).conforms_to(&Schema::U32));
    assert!(!Value::U32(1).conforms_to(&Schema::I32));
    assert_eq!(decode(&Schema::U8, &encode(&Value::I8(-1))), Ok(Value::U8(255)));
}

#[test]
fn clone_holds_the_same() {
    let v = nested_value();
    let copy = v.clone();
    assert_eq!(copy, v);
    assert_eq!(encode(&copy), encode(&v));
    let schema = nested_schema();
    assert_eq!(schema.clone(), schema);
    assert_eq!(decode(&schema.clone(), &encode(&v)), Ok(copy));
}

#[test]
fn what_decodes_encodes_back_to_the_bytes_it_took() {
    let inputs: Vec<(Schema, Vec<u8>)> = vec![
        (Schema::U16, vec![0xab, 0xcd, 0xef]),
        (Schema::I32, vec![0x80, 0, 0, 1]),
        (Schema::Bool, vec![1, 1]),
        (Schema::Text, vec![0, 0, 0, 2, 0xc3, 0xa9, 5]),
        (Schema::Bytes, vec![0, 0, 0, 1, 0xff]),
        (Schema::List(Box::new(Schema::I8)), vec![0, 0, 0, 3, 0xff, 0, 1, 9, 9]),
        (
            Schema::Record(vec![Schema::U8, Schema::List(Box::new(Schema::Bool))]),
            vec![7, 0, 0, 0, 2, 1, 0, 3],
        ),
    ];
    for (schema, bytes) in inputs {
        let (value, next) = decode_at(&schema, &bytes, 0).unwrap();
        assert!(value.conforms_to(&schema));
        assert!(value.is_representable());
        assert_eq!(encode(&value), bytes[..next].to_vec());
    }
}
