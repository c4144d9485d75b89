use bytevec2::{Kind, PrimKind, Primitive, SizeType, Value};

fn u32v(x: u32) -> Value {
    Value::Prim(Primitive::U32(x))
}

fn text(s: &str) -> Value {
    Value::Text(s.to_string())
}

fn field(name: &str, value: Value) -> (String, Value) {
    (name.to_string(), value)
}

fn field_kind(name: &str, kind: Kind) -> (String, Kind) {
    (name.to_string(), kind)
}

fn u32_kind() -> Kind {
    Kind::Prim(PrimKind::U32)
}

fn profile(id: u32, name: &str, last_name: &str) -> Value {
    Value::Aggregate(vec![
        field("id", u32v(id)),
        field("name", text(name)),
        field("last_name", text(last_name)),
    ])
}

fn profile_kind() -> Kind {
    Kind::Aggregate(vec![
        field_kind("id", u32_kind()),
        field_kind("name", Kind::Text),
        field_kind("last_name", Kind::Text),
    ])
}

fn employee(id: u32, profile: Value, dept: &str) -> Value {
    Value::Aggregate(vec![
        field("id", u32v(id)),
        field("profile", profile),
        field("dept", text(dept)),
    ])
}

fn employee_kind() -> Kind {
    Kind::Aggregate(vec![
        field_kind("id", u32_kind()),
        field_kind("profile", profile_kind()),
        field_kind("dept", Kind::Text),
    ])
}

fn meetings_log(id: u32, owner: &str, meetings: Vec<(&str, &str)>) -> Value {
    Value::Aggregate(vec![
        field("id", u32v(id)),
        field("owner", text(owner)),
        field(
            "meetings",
            Value::MapOf(meetings.into_iter().map(|(k, v)| (text(k), text(v))).collect()),
        ),
    ])
}

fn meetings_log_kind() -> Kind {
    Kind::Aggregate(vec![
        field_kind("id", u32_kind()),
        field_kind("owner", Kind::Text),
        field_kind("meetings", Kind::MapOf(Box::new(Kind::Text), Box::new(Kind::Text))),
    ])
}

fn zeros(n: usize) -> Value {
    Value::Sequence((0..n).map(|_| u32v(0)).collect())
}

#[test]
fn test_serialize_vec() {
    let employees_1 = Value::Sequence(vec![
        employee(1, profile(10000, "Michael", "Jackson"), "music"),
        employee(2, profile(10001, "John", "Cena"), "wrestling"),
    ]);
    let bytes = employees_1.encode(SizeType::U32).unwrap();
    let kind = Kind::Sequence(Box::new(employee_kind()));
    let employees_2 = Value::decode(&kind, &bytes, SizeType::U32).unwrap();
    assert_eq!(employees_1, employees_2);
}

#[test]
fn test_serialize_slices() {
    let slice = Value::Sequence(vec![
        Value::Prim(Primitive::Char('1')),
        Value::Prim(Primitive::Char('2')),
        Value::Prim(Primitive::Char('3')),
    ]);
    let bytes = slice.encode(SizeType::U32).unwrap();
    let kind = Kind::Sequence(Box::new(Kind::Prim(PrimKind::Char)));
    let vec = Value::decode(&kind, &bytes, SizeType::U32).unwrap();
    assert_eq!(vec, slice);
}

#[test]
fn test_serialize_set() {
    let set_1 = Value::SetOf(vec![
        Value::Tuple(vec![text("One!"), u32v(1)]),
        Value::Tuple(vec![text("Two!"), u32v(2)]),
        Value::Tuple(vec![text("Three!"), u32v(3)]),
    ]);
    let bytes = set_1.encode(SizeType::U32).unwrap();
    let kind = Kind::SetOf(Box::new(Kind::Tuple(vec![Kind::Text, u32_kind()])));
    let set_2 = Value::decode(&kind, &bytes, SizeType::U32).unwrap();
    assert_eq!(set_1, set_2);
}

#[test]
fn test_serialize_tuple() {
    let pair1 = Value::Tuple(vec![text("Hello"), text("World")]);
    let bytes = pair1.encode(SizeType::U8).unwrap();
    let kind = Kind::Tuple(vec![Kind::Text, Kind::Text]);
    let pair2 = Value::decode(&kind, &bytes, SizeType::U8).unwrap();
    assert_eq!(pair1, pair2);
}

#[test]
fn test_serialize_map() {
    let classes_1 = Value::MapOf(vec![
        (Value::Prim(Primitive::U64(101)), text("Programming 1")),
        (Value::Prim(Primitive::U64(102)), text("Basic CS")),
    ]);
    let bytes = classes_1.encode(SizeType::U32).unwrap();
    let kind = Kind::MapOf(Box::new(Kind::Prim(PrimKind::U64)), Box::new(Kind::Text));
    let classes_2 = Value::decode(&kind, &bytes, SizeType::U32).unwrap();
    assert_eq!(classes_1, classes_2);
}

#[test]
fn test_serialize_slice_with_map_containers() {
    let slice = Value::Sequence(vec![
        meetings_log(1, "Jack", vec![("New York", "Michael"), ("Nippon", "Koichi")]),
        meetings_log(2, "Juan", vec![("España", "José"), ("Korea", "Lee Hyun")]),
    ]);
    let bytes = slice.encode(SizeType::U64).unwrap();
    let kind = Kind::Sequence(Box::new(meetings_log_kind()));
    let vec = Value::decode(&kind, &bytes, SizeType::U64).unwrap();
    assert_eq!(vec, slice);
}

#[test]
fn test_u8_upper_limit_encode_err() {
    // The upper limit of a one-byte count prefix is 255 items.
    let vec = zeros(256);
    assert!(vec.encode(SizeType::U8).is_err());
}

#[test]
fn test_decode_limit_err() {
    let vec = zeros(100);
    let bytes = vec.encode(SizeType::U32).unwrap();
    let kind = Kind::Sequence(Box::new(u32_kind()));
    assert!(Value::decode_max(&kind, &bytes, SizeType::U32, 100).is_err());
}

#[test]
fn test_serialize_bool() {
    let stuff = |simple: bool, optional: Vec<bool>| {
        Value::Aggregate(vec![
            field("simple", Value::Prim(Primitive::Bool(simple))),
            field(
                "optional",
                Value::Sequence(
                    optional.into_iter().map(|b| Value::Prim(Primitive::Bool(b))).collect(),
                ),
            ),
        ])
    };
    let data1 = Value::Sequence(vec![
        stuff(true, vec![true, false, false, false]),
        stuff(false, vec![true, false, true, false]),
    ]);
    let bytes = data1.encode(SizeType::U32).unwrap();
    let kind = Kind::Sequence(Box::new(Kind::Aggregate(vec![
        field_kind("simple", Kind::Prim(PrimKind::Bool)),
        field_kind("optional", Kind::Sequence(Box::new(Kind::Prim(PrimKind::Bool)))),
    ])));
    let data2 = Value::decode(&kind, &bytes, SizeType::U32).unwrap();
    assert_eq!(data1, data2);
}

#[test]
fn test_serialize_options() {
    let stuff = |simple: Option<bool>, some: Option<i64>, some_vec: Option<Vec<u32>>| {
        Value::Aggregate(vec![
            field(
                "simple",
                Value::Optional(simple.map(|b| Box::new(Value::Prim(Primitive::Bool(b))))),
            ),
            field(
                "some",
                Value::Optional(some.map(|x| Box::new(Value::Prim(Primitive::I64(x))))),
            ),
            field(
                "some_vec",
                Value::Optional(
                    some_vec.map(|v| Box::new(Value::Sequence(v.into_iter().map(u32v).collect()))),
                ),
            ),
        ])
    };
    let data1 = Value::Sequence(vec![
        stuff(None, Some(8i64), Some(vec![7, 3, 5, 9, 1, 4, 4])),
        stuff(Some(true), Some(50i64), Some(vec![1, 2, 3, 5, 4, 6, 7, 8, 9, 10])),
    ]);
    let bytes = data1.encode(SizeType::U32).unwrap();
    let optional = |kind: Kind| Kind::Optional(Box::new(kind));
    let kind = Kind::Sequence(Box::new(Kind::Aggregate(vec![
        field_kind("simple", optional(Kind::Prim(PrimKind::Bool))),
        field_kind("some", optional(Kind::Prim(PrimKind::I64))),
        field_kind("some_vec", optional(Kind::Sequence(Box::new(u32_kind())))),
    ])));
    let data2 = Value::decode(&kind, &bytes, SizeType::U32).unwrap();
    assert_eq!(data1, data2);
}
