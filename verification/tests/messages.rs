use bytevec2::{BVExpectedSize, ByteVecError, EncodedBuffer, DecodeCursor, Kind, PrimKind, Primitive, SizeType, Value};
use bytevec2::{add_unique, decode_from, encode_into, put_entry, text_value};

#[test]
fn bad_size_messages() {
    let e = ByteVecError::BadSizeDecodeError {
        expected: BVExpectedSize::LessOrEqualThan(100),
        actual: 404,
    };
    assert_eq!(
        e.message(),
        "The size expected for the structure is less or equal than 100, but the size of the given buffer is 404"
    );
    let e = ByteVecError::BadSizeDecodeError { expected: BVExpectedSize::MoreThan(3), actual: 0 };
    assert_eq!(
        e.message(),
        "The size expected for the structure is more than 3, but the size of the given buffer is 0"
    );
    let e = ByteVecError::BadSizeDecodeError {
        expected: BVExpectedSize::EqualTo(4),
        actual: 1234567890,
    };
    assert_eq!(
        e.message(),
        "The size expected for the structure is 4, but the size of the given buffer is 1234567890"
    );
    let e = ByteVecError::BadSizeDecodeError {
        expected: BVExpectedSize::MoreThan(usize::MAX),
        actual: 10,
    };
    assert_eq!(
        e.message(),
        format!(
            "The size expected for the structure is more than {}, but the size of the given buffer is 10",
            usize::MAX
        )
    );
}

#[test]
fn overflow_message() {
    assert_eq!(
        ByteVecError::OverflowError.message(),
        "OverflowError: The size of the data structure surpasses the max value of the integral generic type"
    );
}

#[test]
fn utf8_failure_message_names_the_cause() {
    let bytes: [u8; 2] = [0xc3, 0x28];
    let cause = std::str::from_utf8(&bytes).unwrap_err();
    let e = ByteVecError::from(cause);
    assert_eq!(e.message(), format!("StringDecodeUtf8Error: {}", cause));
}

#[test]
fn a_buffer_takes_several_values_one_after_another() {
    let mut out = EncodedBuffer::new();
    encode_into(&Value::Prim(Primitive::U16(1)), SizeType::U8, &mut out).unwrap();
    encode_into(&Value::Text("ab".to_string()), SizeType::U8, &mut out).unwrap();
    assert_eq!(out.len(), 5);
    out.put_flag(true);
    out.put_primitive(Primitive::I8(-1));
    out.put_count(3, SizeType::U16).unwrap();
    out.put_bytes(&[7, 8]);
    assert_eq!(out.put_count(256, SizeType::U8), Err(ByteVecError::OverflowError));
    assert_eq!(out.into_bytes(), vec![1, 0, 2, b'a', b'b', 1, 0xff, 3, 0, 7, 8]);
}

#[test]
fn a_cursor_reads_several_values_one_after_another() {
    let bytes: Vec<u8> = vec![1, 0, 2, b'a', b'b', 9, 4, 0, 5, 6];
    let mut cursor = DecodeCursor::new(&bytes);
    assert_eq!(cursor.remaining(), 10);
    let first = decode_from(&Kind::Prim(PrimKind::U16), SizeType::U8, &mut cursor).unwrap();
    assert_eq!(first, Value::Prim(Primitive::U16(1)));
    let second = decode_from(&Kind::Text, SizeType::U8, &mut cursor).unwrap();
    assert_eq!(second, Value::Text("ab".to_string()));
    assert_eq!(cursor.remaining(), 5);
    assert_eq!(cursor.take_byte(), Ok(9));
    assert_eq!(cursor.take_count(SizeType::U16), Ok(4));
    assert_eq!(cursor.take_primitive(PrimKind::U8), Ok(Primitive::U8(5)));
    assert_eq!(cursor.take(1), Ok(&bytes[9..]));
    assert_eq!(cursor.remaining(), 0);
    assert_eq!(
        cursor.take(1),
        Err(ByteVecError::BadSizeDecodeError { expected: BVExpectedSize::MoreThan(0), actual: 0 })
    );
    assert_eq!(cursor.remaining(), 0);
}

#[test]
fn sets_and_maps_are_built_by_insertion() {
    let mut items: Vec<Value> = Vec::new();
    add_unique(&mut items, Value::Text("a".to_string()));
    add_unique(&mut items, Value::Text("b".to_string()));
    add_unique(&mut items, Value::Text("a".to_string()));
    assert_eq!(items, vec![Value::Text("a".to_string()), Value::Text("b".to_string())]);
    let mut entries: Vec<(Value, Value)> = Vec::new();
    put_entry(&mut entries, Value::Prim(Primitive::U8(1)), Value::Text("x".to_string()));
    put_entry(&mut entries, Value::Prim(Primitive::U8(2)), Value::Text("y".to_string()));
    put_entry(&mut entries, Value::Prim(Primitive::U8(1)), Value::Text("z".to_string()));
    assert_eq!(
        entries,
        vec![
            (Value::Prim(Primitive::U8(1)), Value::Text("z".to_string())),
            (Value::Prim(Primitive::U8(2)), Value::Text("y".to_string())),
        ]
    );
}

#[test]
fn text_value_maps_both_outcomes_of_the_validation() {
    assert_eq!(text_value(std::str::from_utf8(b"ok")), Ok(Value::Text("ok".to_string())));
    let bytes: [u8; 3] = [b'o', 0xe2, 0x82];
    let checked = std::str::from_utf8(&bytes);
    let cause = checked.unwrap_err();
    assert_eq!(cause.valid_up_to(), 1);
    assert_eq!(text_value(checked), Err(ByteVecError::StringDecodeUtf8Error(cause)));
}
