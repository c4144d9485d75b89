use bytevec2::{
    check_available, check_count, BVExpectedSize, ByteVecError, Kind, PrimKind, Primitive,
    SizeType, Value,
};

fn prim(p: Primitive) -> Value {
    Value::Prim(p)
}

fn u8s(items: &[u8]) -> Vec<Value> {
    items.iter().map(|x| prim(Primitive::U8(*x))).collect()
}

fn u8_kind() -> Kind {
    Kind::Prim(PrimKind::U8)
}

fn bad_size(expected: BVExpectedSize, actual: usize) -> ByteVecError {
    ByteVecError::BadSizeDecodeError { expected, actual }
}

#[test]
fn primitives_are_little_endian() {
    assert_eq!(prim(Primitive::U32(1)).encode(SizeType::U8).unwrap(), vec![1, 0, 0, 0]);
    assert_eq!(prim(Primitive::U16(0x1234)).encode(SizeType::U8).unwrap(), vec![0x34, 0x12]);
    assert_eq!(
        prim(Primitive::U64(0x0102030405060708)).encode(SizeType::U8).unwrap(),
        vec![8, 7, 6, 5, 4, 3, 2, 1]
    );
    assert_eq!(prim(Primitive::U8(200)).encode(SizeType::U64).unwrap(), vec![200]);
}

#[test]
fn signed_integers_are_twos_complement() {
    assert_eq!(prim(Primitive::I8(-1)).encode(SizeType::U8).unwrap(), vec![0xff]);
    assert_eq!(prim(Primitive::I16(-2)).encode(SizeType::U8).unwrap(), vec![0xfe, 0xff]);
    assert_eq!(
        prim(Primitive::I32(i32::MIN)).encode(SizeType::U8).unwrap(),
        vec![0, 0, 0, 0x80]
    );
    assert_eq!(
        prim(Primitive::I64(-256)).encode(SizeType::U8).unwrap(),
        vec![0, 0xff, 0xff, 0xff, 0xff, 0xff, 0xff, 0xff]
    );
    assert_eq!(prim(Primitive::I64(50)).encode(SizeType::U8).unwrap(), vec![50, 0, 0, 0, 0, 0, 0, 0]);
}

#[test]
fn signed_integers_round_trip_at_their_limits() {
    let values = vec![
        Primitive::I8(i8::MIN),
        Primitive::I8(i8::MAX),
        Primitive::I16(i16::MIN),
        Primitive::I16(i16::MAX),
        Primitive::I32(i32::MIN),
        Primitive::I32(i32::MAX),
        Primitive::I64(i64::MIN),
        Primitive::I64(i64::MAX),
        Primitive::I64(-1),
        Primitive::U64(u64::MAX),
        Primitive::U32(u32::MAX),
    ];
    for p in values {
        let bytes = prim(p).encode(SizeType::U16).unwrap();
        let kind = match p {
            Primitive::I8(_) => PrimKind::I8,
            Primitive::I16(_) => PrimKind::I16,
            Primitive::I32(_) => PrimKind::I32,
            Primitive::I64(_) => PrimKind::I64,
            Primitive::U32(_) => PrimKind::U32,
            _ => PrimKind::U64,
        };
        assert_eq!(Value::decode(&Kind::Prim(kind), &bytes, SizeType::U16).unwrap(), prim(p));
    }
}

#[test]
fn bool_and_char_layout() {
    assert_eq!(prim(Primitive::Bool(false)).encode(SizeType::U8).unwrap(), vec![0]);
    assert_eq!(prim(Primitive::Bool(true)).encode(SizeType::U8).unwrap(), vec![1]);
    assert_eq!(prim(Primitive::Char('A')).encode(SizeType::U8).unwrap(), vec![0x41, 0, 0, 0]);
    assert_eq!(
        prim(Primitive::Char('\u{10FFFF}')).encode(SizeType::U8).unwrap(),
        vec![0xff, 0xff, 0x10, 0]
    );
    assert_eq!(
        Value::decode(&Kind::Prim(PrimKind::Char), &[0xff, 0xd7, 0, 0], SizeType::U8).unwrap(),
        prim(Primitive::Char('\u{D7FF}'))
    );
}

#[test]
fn string_layout_has_a_length_prefix_of_the_chosen_width() {
    let hi = Value::Text("Hi".to_string());
    assert_eq!(hi.encode(SizeType::U8).unwrap(), vec![2, b'H', b'i']);
    assert_eq!(hi.encode(SizeType::U16).unwrap(), vec![2, 0, b'H', b'i']);
    assert_eq!(hi.encode(SizeType::U32).unwrap(), vec![2, 0, 0, 0, b'H', b'i']);
    assert_eq!(hi.encode(SizeType::U64).unwrap(), vec![2, 0, 0, 0, 0, 0, 0, 0, b'H', b'i']);
    let accented = Value::Text("é".to_string());
    assert_eq!(accented.encode(SizeType::U8).unwrap(), vec![2, 0xc3, 0xa9]);
    assert_eq!(Value::Text(String::new()).encode(SizeType::U8).unwrap(), vec![0]);
}

#[test]
fn optional_layout() {
    assert_eq!(Value::Optional(None).encode(SizeType::U8).unwrap(), vec![0]);
    let some = Value::Optional(Some(Box::new(prim(Primitive::U8(7)))));
    assert_eq!(some.encode(SizeType::U8).unwrap(), vec![1, 7]);
}

#[test]
fn collection_layouts() {
    assert_eq!(Value::Sequence(u8s(&[1, 2])).encode(SizeType::U8).unwrap(), vec![2, 1, 2]);
    assert_eq!(Value::SetOf(u8s(&[9, 8])).encode(SizeType::U16).unwrap(), vec![2, 0, 9, 8]);
    assert_eq!(Value::Tuple(u8s(&[1, 2])).encode(SizeType::U8).unwrap(), vec![1, 2]);
    let map = Value::MapOf(vec![
        (prim(Primitive::U8(1)), Value::Text("a".to_string())),
        (prim(Primitive::U8(2)), Value::Text("bc".to_string())),
    ]);
    assert_eq!(map.encode(SizeType::U8).unwrap(), vec![2, 1, 1, b'a', 2, 2, b'b', b'c']);
}

#[test]
fn aggregate_layout_has_no_framing() {
    let value = Value::Aggregate(vec![
        ("id".to_string(), prim(Primitive::U16(258))),
        ("name".to_string(), Value::Text("x".to_string())),
        ("flag".to_string(), prim(Primitive::Bool(true))),
    ]);
    assert_eq!(value.encode(SizeType::U8).unwrap(), vec![2, 1, 1, b'x', 1]);
}

#[test]
fn empty_containers_round_trip() {
    let cases = vec![
        (Value::Sequence(vec![]), Kind::Sequence(Box::new(u8_kind()))),
        (Value::SetOf(vec![]), Kind::SetOf(Box::new(u8_kind()))),
        (Value::MapOf(vec![]), Kind::MapOf(Box::new(u8_kind()), Box::new(Kind::Text))),
    ];
    for (value, kind) in cases {
        let bytes = value.encode(SizeType::U32).unwrap();
        assert_eq!(bytes, vec![0, 0, 0, 0]);
        assert_eq!(Value::decode(&kind, &bytes, SizeType::U32).unwrap(), value);
    }
}

#[test]
fn optional_integer_round_trips() {
    let kind = Kind::Optional(Box::new(Kind::Prim(PrimKind::I32)));
    let absent = Value::Optional(None);
    let present = Value::Optional(Some(Box::new(prim(Primitive::I32(-7)))));
    for value in vec![absent, present] {
        let bytes = value.encode(SizeType::U8).unwrap();
        assert_eq!(Value::decode(&kind, &bytes, SizeType::U8).unwrap(), value);
    }
}

#[test]
fn nested_aggregate_with_string_keeps_the_next_field_aligned() {
    let inner = Value::Aggregate(vec![
        ("label".to_string(), Value::Text("inner text".to_string())),
        ("n".to_string(), prim(Primitive::U8(3))),
    ]);
    let value = Value::Aggregate(vec![
        ("title".to_string(), Value::Text("outer".to_string())),
        ("inner".to_string(), inner),
        ("after".to_string(), prim(Primitive::U32(0xdeadbeef))),
    ]);
    let kind = Kind::Aggregate(vec![
        ("title".to_string(), Kind::Text),
        (
            "inner".to_string(),
            Kind::Aggregate(vec![
                ("label".to_string(), Kind::Text),
                ("n".to_string(), u8_kind()),
            ]),
        ),
        ("after".to_string(), Kind::Prim(PrimKind::U32)),
    ]);
    let bytes = value.encode(SizeType::U16).unwrap();
    assert_eq!(bytes.len(), 2 + 5 + 2 + 10 + 1 + 4);
    assert_eq!(Value::decode(&kind, &bytes, SizeType::U16).unwrap(), value);
}

#[test]
fn count_overflow_boundary() {
    let at_limit = Value::Sequence(u8s(&[0; 255]));
    let over = Value::Sequence(u8s(&[0; 256]));
    assert_eq!(at_limit.encode(SizeType::U8).unwrap().len(), 256);
    assert_eq!(over.encode(SizeType::U8), Err(ByteVecError::OverflowError));
    assert_eq!(over.encode(SizeType::U16).unwrap().len(), 258);
    let long = Value::Text("x".repeat(256));
    assert_eq!(long.encode(SizeType::U8), Err(ByteVecError::OverflowError));
    assert_eq!(long.encode(SizeType::U16).unwrap().len(), 258);
    let nested = Value::Tuple(vec![prim(Primitive::U8(1)), Value::SetOf(u8s(&[0; 256]))]);
    assert_eq!(nested.encode(SizeType::U8), Err(ByteVecError::OverflowError));
    let wide = Value::Sequence(u8s(&[0; 65536]));
    assert_eq!(wide.encode(SizeType::U16), Err(ByteVecError::OverflowError));
    assert_eq!(wide.encode(SizeType::U32).unwrap().len(), 65540);
}

#[test]
fn a_count_prefix_counts_items_not_bytes() {
    let items = Value::Sequence((0..100).map(|_| prim(Primitive::U32(0))).collect());
    assert_eq!(items.encode(SizeType::U8).unwrap().len(), 1 + 400);
    assert_eq!(items.encode(SizeType::U32).unwrap().len(), 4 + 400);
}

#[test]
fn bounds_checks() {
    assert_eq!(check_count(255, 255), Ok(()));
    assert_eq!(check_count(256, 255), Err(ByteVecError::OverflowError));
    assert_eq!(check_available(4, 4), Ok(()));
    assert_eq!(check_available(0, 0), Ok(()));
    assert_eq!(check_available(3, 4), Err(bad_size(BVExpectedSize::MoreThan(3), 3)));
    assert_eq!(SizeType::U8.count_limit(), 255);
    assert_eq!(SizeType::U16.count_limit(), 65535);
    assert_eq!(SizeType::U32.count_limit(), 4294967295);
    assert_eq!(SizeType::U64.count_limit(), usize::MAX);
    assert_eq!(SizeType::U32.byte_width(), 4);
}

#[test]
fn truncated_input_reports_the_shortfall() {
    let u32_kind = Kind::Prim(PrimKind::U32);
    assert_eq!(
        Value::decode(&u32_kind, &[1, 2], SizeType::U8),
        Err(bad_size(BVExpectedSize::MoreThan(3), 2))
    );
    assert_eq!(
        Value::decode(&Kind::Text, &[5, b'a'], SizeType::U8),
        Err(bad_size(BVExpectedSize::MoreThan(4), 1))
    );
    assert_eq!(
        Value::decode(&Kind::Text, &[5], SizeType::U16),
        Err(bad_size(BVExpectedSize::MoreThan(1), 1))
    );
    let seq_kind = Kind::Sequence(Box::new(Kind::Prim(PrimKind::U16)));
    assert_eq!(
        Value::decode(&seq_kind, &[3, 1, 0, 2, 0, 3], SizeType::U8),
        Err(bad_size(BVExpectedSize::MoreThan(1), 1))
    );
    assert_eq!(
        Value::decode(&Kind::Optional(Box::new(u8_kind())), &[], SizeType::U8),
        Err(bad_size(BVExpectedSize::MoreThan(0), 0))
    );
    assert_eq!(
        Value::decode(&Kind::Optional(Box::new(u8_kind())), &[1], SizeType::U8),
        Err(bad_size(BVExpectedSize::MoreThan(0), 0))
    );
}

#[test]
fn every_strict_prefix_of_an_encoding_is_refused_as_too_short() {
    let value = Value::Sequence(vec![
        Value::Tuple(vec![Value::Text("ab".to_string()), prim(Primitive::U16(7))]),
        Value::Tuple(vec![Value::Text("".to_string()), prim(Primitive::U16(8))]),
    ]);
    let kind = Kind::Sequence(Box::new(Kind::Tuple(vec![Kind::Text, Kind::Prim(PrimKind::U16)])));
    let bytes = value.encode(SizeType::U16).unwrap();
    for cut in 0..bytes.len() {
        let r = Value::decode(&kind, &bytes[..cut], SizeType::U16);
        assert!(matches!(
            r,
            Err(ByteVecError::BadSizeDecodeError { expected: BVExpectedSize::MoreThan(_), .. })
        ));
    }
    assert_eq!(Value::decode(&kind, &bytes, SizeType::U16).unwrap(), value);
}

#[test]
fn invalid_flags_and_codes_are_refused() {
    let opt = Kind::Optional(Box::new(u8_kind()));
    assert_eq!(
        Value::decode(&opt, &[2, 0], SizeType::U8),
        Err(bad_size(BVExpectedSize::LessOrEqualThan(1), 2))
    );
    assert_eq!(
        Value::decode(&Kind::Prim(PrimKind::Bool), &[7], SizeType::U8),
        Err(bad_size(BVExpectedSize::LessOrEqualThan(1), 7))
    );
    let char_kind = Kind::Prim(PrimKind::Char);
    assert_eq!(
        Value::decode(&char_kind, &[0, 0xd8, 0, 0], SizeType::U8),
        Err(bad_size(BVExpectedSize::MoreThan(0xdfff), 0xd800))
    );
    assert_eq!(
        Value::decode(&char_kind, &[0xff, 0xdf, 0, 0], SizeType::U8),
        Err(bad_size(BVExpectedSize::MoreThan(0xdfff), 0xdfff))
    );
    assert_eq!(
        Value::decode(&char_kind, &[0, 0, 0x11, 0], SizeType::U8),
        Err(bad_size(BVExpectedSize::LessOrEqualThan(0x10ffff), 0x110000))
    );
    assert_eq!(
        Value::decode(&char_kind, &[0, 0xe0, 0, 0], SizeType::U8).unwrap(),
        prim(Primitive::Char('\u{E000}'))
    );
}

#[test]
fn invalid_utf8_is_reported_with_the_cause() {
    let payload: [u8; 3] = [b'a', 0xff, b'b'];
    let cause = std::str::from_utf8(&payload).unwrap_err();
    let r = Value::decode(&Kind::Text, &[3, b'a', 0xff, b'b'], SizeType::U8);
    assert_eq!(r, Err(ByteVecError::StringDecodeUtf8Error(cause)));
    assert_eq!(ByteVecError::from(cause), ByteVecError::StringDecodeUtf8Error(cause));
    match r {
        Err(ByteVecError::StringDecodeUtf8Error(e)) => assert_eq!(e.valid_up_to(), 1),
        _ => panic!("expected a UTF-8 failure"),
    }
    let ok = Value::decode(&Kind::Text, &[2, 0xc3, 0xa9, 0xff], SizeType::U8).unwrap();
    assert_eq!(ok, Value::Text("é".to_string()));
}

#[test]
fn trailing_bytes_are_not_an_error() {
    let r = Value::decode(&u8_kind(), &[5, 6, 7], SizeType::U8).unwrap();
    assert_eq!(r, prim(Primitive::U8(5)));
    let seq = Kind::Sequence(Box::new(u8_kind()));
    assert_eq!(
        Value::decode(&seq, &[1, 9, 9, 9], SizeType::U8).unwrap(),
        Value::Sequence(u8s(&[9]))
    );
}

#[test]
fn decode_max_refuses_a_longer_input_before_reading() {
    let value = Value::Sequence((0..100).map(|_| prim(Primitive::U32(0))).collect());
    let kind = Kind::Sequence(Box::new(Kind::Prim(PrimKind::U32)));
    let bytes = value.encode(SizeType::U32).unwrap();
    assert_eq!(bytes.len(), 404);
    assert_eq!(
        Value::decode_max(&kind, &bytes, SizeType::U32, 100),
        Err(bad_size(BVExpectedSize::LessOrEqualThan(100), 404))
    );
    assert_eq!(
        Value::decode_max(&kind, &bytes, SizeType::U32, 403),
        Err(bad_size(BVExpectedSize::LessOrEqualThan(403), 404))
    );
    assert_eq!(Value::decode_max(&kind, &bytes, SizeType::U32, 404).unwrap(), value);
    assert_eq!(Value::decode(&kind, &bytes, SizeType::U32).unwrap(), value);
    assert_eq!(
        Value::decode_max(&kind, &[9, 9, 9], SizeType::U32, 2),
        Err(bad_size(BVExpectedSize::LessOrEqualThan(2), 3))
    );
}

#[test]
fn a_set_keeps_the_first_of_equal_items() {
    let kind = Kind::SetOf(Box::new(u8_kind()));
    let r = Value::decode(&kind, &[4, 1, 2, 1, 3], SizeType::U8).unwrap();
    assert_eq!(r, Value::SetOf(u8s(&[1, 2, 3])));
}

#[test]
fn a_map_keeps_the_later_value_of_a_key() {
    let kind = Kind::MapOf(Box::new(u8_kind()), Box::new(u8_kind()));
    let r = Value::decode(&kind, &[3, 1, 10, 2, 20, 1, 30], SizeType::U8).unwrap();
    assert_eq!(
        r,
        Value::MapOf(vec![
            (prim(Primitive::U8(1)), prim(Primitive::U8(30))),
            (prim(Primitive::U8(2)), prim(Primitive::U8(20))),
        ])
    );
}

#[test]
fn decoding_a_malformed_input_twice_gives_the_same_error() {
    let kind = Kind::Tuple(vec![Kind::Text, Kind::Prim(PrimKind::U32)]);
    let inputs: Vec<Vec<u8>> = vec![
        vec![],
        vec![3, b'a'],
        vec![2, 0xc3, 0x28, 0, 0, 0, 0],
        vec![1, b'a', 1, 2],
    ];
    for input in inputs {
        let first = Value::decode(&kind, &input, SizeType::U8);
        let second = Value::decode(&kind, &input, SizeType::U8);
        assert!(first.is_err());
        assert_eq!(first, second);
    }
}

#[test]
fn same_compares_by_content() {
    let a = Value::Tuple(vec![Value::Text("x".to_string()), prim(Primitive::I8(-1))]);
    let b = Value::Tuple(vec![Value::Text("x".to_string()), prim(Primitive::I8(-1))]);
    let c = Value::Tuple(vec![Value::Text("x".to_string()), prim(Primitive::I8(1))]);
    assert!(a.same(&b));
    assert!(!a.same(&c));
    assert!(!a.same(&Value::Sequence(vec![])));
    assert!(!Value::Sequence(u8s(&[1])).same(&Value::SetOf(u8s(&[1]))));
    assert!(Value::Optional(None).same(&Value::Optional(None)));
}
