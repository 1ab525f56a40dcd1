use tagbin::{decode, decode_from_bytes, Deserializer, Error, Shape, Value, VariantShape};

#[test]
fn it_works() {
    assert_eq!(2 + 2, 4);
}

#[test]
fn bool_true() {
    assert_eq!(decode_from_bytes(&[0x11], &Shape::Bool), Ok(Value::Bool(true)));
}

#[test]
fn bool_false() {
    assert_eq!(decode_from_bytes(&[0x10], &Shape::Bool), Ok(Value::Bool(false)));
}

#[test]
fn bool_bad_tag() {
    assert_eq!(decode_from_bytes(&[0x12], &Shape::Bool), Err(Error::ExpectedBoolean));
}

#[test]
fn bool_empty_input() {
    assert_eq!(decode_from_bytes(&[], &Shape::Bool), Err(Error::UnexpectedEnd));
}

#[test]
fn inline_string_leaves_tail_untouched() {
    // Inline string of length 1: "h"; the trailing 'i' is not consumed.
    let input = [0x81, b'h', b'i'];
    let mut de = Deserializer::from_bytes(&input);
    let v = decode(&mut de, &Shape::Text).unwrap();
    assert_eq!(v, Value::Text("h".to_string()));
    assert_eq!(de.pos, 2);
    assert_eq!(&de.input[de.pos..], b"i");
}

#[test]
fn sequence_of_bools() {
    let input = [0x15, 0x11, 0x10, 0x17];
    let shape = Shape::Sequence(Box::new(Shape::Bool));
    assert_eq!(
        decode_from_bytes(&input, &shape),
        Ok(Value::Sequence(vec![Value::Bool(true), Value::Bool(false)]))
    );
}

#[test]
fn map_of_string_to_bool() {
    let input = [0x16, 0x82, b'o', b'k', 0x11, 0x17];
    let shape = Shape::Mapping(Box::new(Shape::Text), Box::new(Shape::Bool));
    assert_eq!(
        decode_from_bytes(&input, &shape),
        Ok(Value::Mapping(vec![(Value::Text("ok".to_string()), Value::Bool(true))]))
    );
}

#[test]
fn option_absent_and_present() {
    let shape = Shape::Optional(Box::new(Shape::Bool));
    assert_eq!(decode_from_bytes(&[0x00], &shape), Ok(Value::Null));
    assert_eq!(decode_from_bytes(&[0x11], &shape), Ok(Value::Bool(true)));
}

#[test]
fn truncated_string_is_unexpected_end() {
    // "Hello" as an inline string of length 5, cut to three bytes.
    let input = [0x85, b'H', b'e'];
    assert_eq!(decode_from_bytes(&input, &Shape::Text), Err(Error::UnexpectedEnd));
}

#[test]
fn unit_value() {
    assert_eq!(decode_from_bytes(&[0x00], &Shape::Unit), Ok(Value::Unit));
    assert_eq!(decode_from_bytes(&[0x11], &Shape::Unit), Err(Error::ExpectedNull));
}

#[test]
fn string_length_classes_are_interchangeable() {
    // The same two characters through all five length classes.
    let inline = [0x82, b'h', b'i'];
    let c8 = [0xc4, 2, b'h', b'i'];
    let c16 = [0xc5, 0, 2, b'h', b'i'];
    let c32 = [0xc6, 0, 0, 0, 2, b'h', b'i'];
    let c64 = [0xc7, 0, 0, 0, 0, 0, 0, 0, 2, b'h', b'i'];
    let expected = Ok(Value::Text("hi".to_string()));
    assert_eq!(decode_from_bytes(&inline, &Shape::Text), expected);
    assert_eq!(decode_from_bytes(&c8, &Shape::Text), expected);
    assert_eq!(decode_from_bytes(&c16, &Shape::Text), expected);
    assert_eq!(decode_from_bytes(&c32, &Shape::Text), expected);
    assert_eq!(decode_from_bytes(&c64, &Shape::Text), expected);
}

#[test]
fn empty_string_inline() {
    assert_eq!(decode_from_bytes(&[0x80], &Shape::Text), Ok(Value::Text(String::new())));
}

#[test]
fn invalid_utf8_is_syntax() {
    assert_eq!(decode_from_bytes(&[0x81, 0xff], &Shape::Text), Err(Error::Syntax));
}

#[test]
fn non_string_tag_is_expected_string() {
    assert_eq!(decode_from_bytes(&[0x11], &Shape::Text), Err(Error::ExpectedString));
}

#[test]
fn truncated_length_field_is_unexpected_end() {
    // A 16-bit length class with only one length byte present.
    assert_eq!(decode_from_bytes(&[0xc5, 0], &Shape::Text), Err(Error::UnexpectedEnd));
}

#[test]
fn unsigned_scalars() {
    assert_eq!(decode_from_bytes(&[0x04, 0xa5], &Shape::U8), Ok(Value::U8(0xa5)));
    assert_eq!(decode_from_bytes(&[0x05, 0x01, 0x02], &Shape::U16), Ok(Value::U16(0x0102)));
    assert_eq!(
        decode_from_bytes(&[0x06, 0x00, 0x00, 0x00, 0x2a], &Shape::U32),
        Ok(Value::U32(42))
    );
    assert_eq!(
        decode_from_bytes(&[0x07, 0xff, 0xff, 0xff, 0xff, 0xff, 0xff, 0xff, 0xff], &Shape::U64),
        Ok(Value::U64(u64::MAX))
    );
}

#[test]
fn signed_scalars() {
    assert_eq!(decode_from_bytes(&[0x08, 0xff], &Shape::I8), Ok(Value::I8(-1)));
    assert_eq!(decode_from_bytes(&[0x08, 0x7f], &Shape::I8), Ok(Value::I8(127)));
    assert_eq!(decode_from_bytes(&[0x09, 0xfe, 0x0c], &Shape::I16), Ok(Value::I16(-500)));
    assert_eq!(
        decode_from_bytes(&[0x0a, 0x80, 0x00, 0x00, 0x00], &Shape::I32),
        Ok(Value::I32(i32::MIN))
    );
    assert_eq!(
        decode_from_bytes(&[0x0b, 0x80, 0x00, 0x00, 0x00, 0x00, 0x00, 0x00, 0x00], &Shape::I64),
        Ok(Value::I64(i64::MIN))
    );
    assert_eq!(
        decode_from_bytes(&[0x0b, 0x00, 0x00, 0x00, 0x00, 0x00, 0x00, 0x00, 0x2a], &Shape::I64),
        Ok(Value::I64(42))
    );
}

#[test]
fn scalar_wrong_tag_is_syntax() {
    assert_eq!(decode_from_bytes(&[0x05, 0xa5, 0x00], &Shape::U8), Err(Error::Syntax));
}

#[test]
fn scalar_short_payload_is_unexpected_end() {
    assert_eq!(decode_from_bytes(&[0x06, 0x00, 0x00], &Shape::U32), Err(Error::UnexpectedEnd));
}

#[test]
fn float_bits_survive_decoding() {
    // 12.5f32 is 0x41480000 big-endian.
    let v = decode_from_bytes(&[0x0c, 0x41, 0x48, 0x00, 0x00], &Shape::F32).unwrap();
    assert_eq!(v, Value::F32Bits(0x4148_0000));
    match v {
        Value::F32Bits(bits) => assert_eq!(f32::from_bits(bits), 12.5f32),
        _ => panic!("not a float"),
    }
    // A NaN with a nonstandard payload keeps its exact bit pattern.
    let nan = decode_from_bytes(
        &[0x0d, 0x7f, 0xf0, 0x00, 0x00, 0x00, 0x00, 0xde, 0xad],
        &Shape::F64,
    )
    .unwrap();
    assert_eq!(nan, Value::F64Bits(0x7ff0_0000_0000_dead));
}

#[test]
fn sequence_missing_close_is_unexpected_end() {
    let shape = Shape::Sequence(Box::new(Shape::Bool));
    assert_eq!(decode_from_bytes(&[0x15, 0x11], &shape), Err(Error::UnexpectedEnd));
}

#[test]
fn sequence_duplicated_close_is_trailing() {
    let shape = Shape::Sequence(Box::new(Shape::Bool));
    assert_eq!(
        decode_from_bytes(&[0x15, 0x11, 0x17, 0x17], &shape),
        Err(Error::TrailingCharacters)
    );
}

#[test]
fn sequence_wrong_open_is_expected_array() {
    let shape = Shape::Sequence(Box::new(Shape::Bool));
    assert_eq!(decode_from_bytes(&[0x11], &shape), Err(Error::ExpectedArray));
}

#[test]
fn map_wrong_open_is_expected_map() {
    let shape = Shape::Mapping(Box::new(Shape::Text), Box::new(Shape::Bool));
    assert_eq!(decode_from_bytes(&[0x15, 0x17], &shape), Err(Error::ExpectedMap));
}

#[test]
fn tuple_decodes_fixed_arity() {
    let shape = Shape::Tuple(vec![Shape::Bool, Shape::U8]);
    assert_eq!(
        decode_from_bytes(&[0x15, 0x11, 0x04, 0x07, 0x17], &shape),
        Ok(Value::Sequence(vec![Value::Bool(true), Value::U8(7)]))
    );
}

#[test]
fn tuple_unclosed_is_expected_sequence_end() {
    // Two elements stand where the tuple expects one, so the close check
    // meets a boolean tag instead.
    let shape = Shape::Tuple(vec![Shape::Bool]);
    assert_eq!(
        decode_from_bytes(&[0x15, 0x11, 0x11, 0x17], &shape),
        Err(Error::ExpectedSequenceEnd)
    );
}

#[test]
fn nested_sequences() {
    let shape = Shape::Sequence(Box::new(Shape::Sequence(Box::new(Shape::Bool))));
    assert_eq!(
        decode_from_bytes(&[0x15, 0x15, 0x11, 0x17, 0x15, 0x17, 0x17], &shape),
        Ok(Value::Sequence(vec![
            Value::Sequence(vec![Value::Bool(true)]),
            Value::Sequence(vec![]),
        ]))
    );
}

#[test]
fn sequence_of_options() {
    let shape = Shape::Sequence(Box::new(Shape::Optional(Box::new(Shape::Bool))));
    assert_eq!(
        decode_from_bytes(&[0x15, 0x00, 0x11, 0x17], &shape),
        Ok(Value::Sequence(vec![Value::Null, Value::Bool(true)]))
    );
}

fn sample_enum_shape() -> Shape {
    Shape::Enum(vec![
        ("Unit".to_string(), VariantShape::Unit),
        ("Newtype".to_string(), VariantShape::Newtype(Box::new(Shape::U32))),
        ("Tuple".to_string(), VariantShape::Tuple(vec![Shape::U32, Shape::U32])),
        (
            "Struct".to_string(),
            VariantShape::Struct(Box::new(Shape::Text), Box::new(Shape::U32)),
        ),
    ])
}

#[test]
fn enum_unit_variant_from_bare_string() {
    let input = [0x84, b'U', b'n', b'i', b't'];
    assert_eq!(
        decode_from_bytes(&input, &sample_enum_shape()),
        Ok(Value::Variant("Unit".to_string(), Box::new(Value::Unit)))
    );
}

#[test]
fn enum_newtype_variant() {
    let input = [
        0x16, 0x87, b'N', b'e', b'w', b't', b'y', b'p', b'e', 0x06, 0x00, 0x00, 0x00, 0x01, 0x17,
    ];
    assert_eq!(
        decode_from_bytes(&input, &sample_enum_shape()),
        Ok(Value::Variant("Newtype".to_string(), Box::new(Value::U32(1))))
    );
}

#[test]
fn enum_tuple_variant() {
    let input = [
        0x16, 0x85, b'T', b'u', b'p', b'l', b'e', 0x15, 0x06, 0x00, 0x00, 0x00, 0x01, 0x06, 0x00,
        0x00, 0x00, 0x02, 0x17, 0x17,
    ];
    assert_eq!(
        decode_from_bytes(&input, &sample_enum_shape()),
        Ok(Value::Variant(
            "Tuple".to_string(),
            Box::new(Value::Sequence(vec![Value::U32(1), Value::U32(2)]))
        ))
    );
}

#[test]
fn enum_struct_variant() {
    let input = [
        0x16, 0x86, b'S', b't', b'r', b'u', b'c', b't', 0x16, 0x81, b'a', 0x06, 0x00, 0x00, 0x00,
        0x01, 0x17, 0x17,
    ];
    assert_eq!(
        decode_from_bytes(&input, &sample_enum_shape()),
        Ok(Value::Variant(
            "Struct".to_string(),
            Box::new(Value::Mapping(vec![(Value::Text("a".to_string()), Value::U32(1))]))
        ))
    );
}

#[test]
fn enum_unit_variant_in_map_form_is_expected_string() {
    let input = [0x16, 0x84, b'U', b'n', b'i', b't', 0x17];
    assert_eq!(
        decode_from_bytes(&input, &sample_enum_shape()),
        Err(Error::ExpectedString)
    );
}

#[test]
fn enum_unknown_variant_is_syntax() {
    let input = [0x84, b'W', b'h', b'a', b't'];
    assert_eq!(decode_from_bytes(&input, &sample_enum_shape()), Err(Error::Syntax));
}

#[test]
fn enum_other_tag_is_expected_enum() {
    let input = [0x04, 0x01];
    assert_eq!(decode_from_bytes(&input, &sample_enum_shape()), Err(Error::ExpectedEnum));
}

#[test]
fn trailing_bytes_fail_top_level_decode() {
    assert_eq!(decode_from_bytes(&[0x11, 0x11], &Shape::Bool), Err(Error::TrailingCharacters));
}

#[test]
fn decode_consumes_exactly_the_value() {
    // The same encoding with and without a tail decodes to the same value,
    // and the tail stays in place.
    let plain = [0x15, 0x11, 0x10, 0x17];
    let with_tail = [0x15, 0x11, 0x10, 0x17, 0xaa, 0xbb];
    let shape = Shape::Sequence(Box::new(Shape::Bool));
    let mut de1 = Deserializer::from_bytes(&plain);
    let mut de2 = Deserializer::from_bytes(&with_tail);
    let v1 = decode(&mut de1, &shape).unwrap();
    let v2 = decode(&mut de2, &shape).unwrap();
    assert_eq!(v1, v2);
    assert_eq!(de1.pos, 4);
    assert_eq!(de2.pos, 4);
    assert_eq!(&de2.input[de2.pos..], &[0xaa, 0xbb]);
}

#[test]
fn every_strict_prefix_of_an_encoding_fails_with_unexpected_end() {
    let full = [
        0x16, 0x85, b'T', b'u', b'p', b'l', b'e', 0x15, 0x06, 0x00, 0x00, 0x00, 0x01, 0x06, 0x00,
        0x00, 0x00, 0x02, 0x17, 0x17,
    ];
    let shape = sample_enum_shape();
    assert!(decode_from_bytes(&full, &shape).is_ok());
    for cut in 0..full.len() {
        assert_eq!(
            decode_from_bytes(&full[..cut], &shape),
            Err(Error::UnexpectedEnd),
            "prefix of length {cut}"
        );
    }
}
