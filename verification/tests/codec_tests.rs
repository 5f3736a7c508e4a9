use layout_codec::{decode, encode, CodecError, Layout, LayoutKind, Value};

fn leaf(name: &str, kind: LayoutKind) -> Layout {
    Layout {
        name: String::from(name),
        kind,
        fields: None,
    }
}

fn strukt(name: &str, fields: Vec<Layout>) -> Layout {
    Layout {
        name: String::from(name),
        kind: LayoutKind::Struct,
        fields: Some(fields),
    }
}

fn array(name: &str, element: Layout) -> Layout {
    Layout {
        name: String::from(name),
        kind: LayoutKind::Array,
        fields: Some(vec![element]),
    }
}

fn obj(pairs: Vec<(&str, Value)>) -> Value {
    Value::Obj(
        pairs
            .into_iter()
            .map(|(name, value)| (String::from(name), value))
            .collect(),
    )
}

#[test]
fn scenario_struct_u8() {
    let layout = strukt("Person", vec![leaf("age", LayoutKind::U8)]);
    let bytes = vec![27u8];
    let value = decode(&layout, &bytes).unwrap();
    assert_eq!(value, obj(vec![("age", Value::UInt(27))]));
    let back = encode(&layout, &value).unwrap();
    assert_eq!(back, bytes);
}

#[test]
fn scenario_vec_u8() {
    let layout = strukt(
        "Person",
        vec![array("favorite_numbers", leaf("unnamed", LayoutKind::U8))],
    );
    let value = obj(vec![(
        "favorite_numbers",
        Value::Arr(vec![Value::UInt(7), Value::UInt(24), Value::UInt(97)]),
    )]);
    let bytes = encode(&layout, &value).unwrap();
    assert_eq!(bytes, vec![3, 0, 0, 0, 0, 0, 0, 0, 7, 24, 97]);
    let back = decode(&layout, &bytes).unwrap();
    assert_eq!(back, value);
}

#[test]
fn scenario_vec_u8_matches_external_serializer() {
    // The wire format must be bit-identical to what the conventional binary
    // serializer produces for the described native value.
    let layout = strukt(
        "Person",
        vec![array("favorite_numbers", leaf("unnamed", LayoutKind::U8))],
    );
    let value = obj(vec![(
        "favorite_numbers",
        Value::Arr(vec![Value::UInt(7), Value::UInt(24), Value::UInt(97)]),
    )]);
    let reference = bincode::serialize(&vec![7u8, 24, 97]).unwrap();
    assert_eq!(encode(&layout, &value).unwrap(), reference);
}

#[test]
fn scenario_vec_string() {
    let layout = strukt(
        "Person",
        vec![array("favorite_names", leaf("unnamed", LayoutKind::String))],
    );
    let value = obj(vec![(
        "favorite_names",
        Value::Arr(vec![
            Value::Str(String::from("Andy")),
            Value::Str(String::from("Bob")),
        ]),
    )]);
    let bytes = encode(&layout, &value).unwrap();
    let reference =
        bincode::serialize(&vec![String::from("Andy"), String::from("Bob")]).unwrap();
    assert_eq!(bytes, reference);
    // Count prefix, then each string with its own 8-byte length prefix.
    let mut expected = vec![2u8, 0, 0, 0, 0, 0, 0, 0];
    expected.extend_from_slice(&[4, 0, 0, 0, 0, 0, 0, 0]);
    expected.extend_from_slice(b"Andy");
    expected.extend_from_slice(&[3, 0, 0, 0, 0, 0, 0, 0]);
    expected.extend_from_slice(b"Bob");
    assert_eq!(bytes, expected);
    let back = decode(&layout, &bytes).unwrap();
    assert_eq!(back, value);
}

#[test]
fn scenario_array_of_structs() {
    let person = strukt("Person", vec![leaf("age", LayoutKind::U8)]);
    let layout = array("Persons", person);
    let value = Value::Arr(vec![
        obj(vec![("age", Value::UInt(10))]),
        obj(vec![("age", Value::UInt(30))]),
    ]);
    let bytes = encode(&layout, &value).unwrap();
    assert_eq!(bytes, vec![2, 0, 0, 0, 0, 0, 0, 0, 10, 30]);
    let back = decode(&layout, &bytes).unwrap();
    assert_eq!(back, value);
}

#[test]
fn scenario_f32_bytes() {
    let layout = strukt("Person", vec![leaf("age", LayoutKind::F32)]);
    let value = obj(vec![("age", Value::F32Bits(27.0f32.to_bits()))]);
    let bytes = encode(&layout, &value).unwrap();
    assert_eq!(bytes, bincode::serialize(&27.0f32).unwrap());
    assert_eq!(bytes, 27.0f32.to_le_bytes().to_vec());
    let back = decode(&layout, &bytes).unwrap();
    assert_eq!(back, value);
}

#[test]
fn person_round_trip_against_external_serializer() {
    // A record with a variable-length field in the middle, as the external
    // serializer lays it out: fields concatenated in declaration order.
    let layout = strukt(
        "Person",
        vec![
            leaf("age", LayoutKind::U8),
            leaf("name", LayoutKind::String),
            leaf("height", LayoutKind::U16),
        ],
    );
    let reference =
        bincode::serialize(&(27u8, String::from("Bob is a cool kid"), 180u16)).unwrap();
    let value = decode(&layout, &reference).unwrap();
    assert_eq!(
        value,
        obj(vec![
            ("age", Value::UInt(27)),
            ("name", Value::Str(String::from("Bob is a cool kid"))),
            ("height", Value::UInt(180)),
        ])
    );
    assert_eq!(encode(&layout, &value).unwrap(), reference);
}

#[test]
fn size_in_bytes_spans_one_value() {
    let layout = strukt(
        "Person",
        vec![
            leaf("age", LayoutKind::U8),
            leaf("name", LayoutKind::String),
            leaf("height", LayoutKind::U16),
        ],
    );
    let bytes = bincode::serialize(&(50u8, String::from("James D"), 150u16)).unwrap();
    assert_eq!(layout.size_in_bytes(&bytes), bytes.len());
    // 1 byte age + 8-byte length prefix + 7 bytes text + 2 bytes height.
    assert_eq!(bytes.len(), 18);
}

#[test]
fn decode_ignores_trailing_bytes() {
    let layout = strukt("Person", vec![leaf("age", LayoutKind::U8)]);
    let bytes = vec![27u8, 99, 99];
    let value = decode(&layout, &bytes).unwrap();
    assert_eq!(value, obj(vec![("age", Value::UInt(27))]));
}

#[test]
fn integers_are_little_endian() {
    let layout = leaf("n", LayoutKind::U16);
    assert_eq!(
        decode(&layout, &vec![0x34, 0x12]).unwrap(),
        Value::UInt(0x1234)
    );
    let layout = leaf("n", LayoutKind::U32);
    assert_eq!(
        decode(&layout, &vec![0x78, 0x56, 0x34, 0x12]).unwrap(),
        Value::UInt(0x1234_5678)
    );
    let layout = leaf("n", LayoutKind::U64);
    assert_eq!(
        decode(&layout, &vec![1, 2, 3, 4, 5, 6, 7, 8]).unwrap(),
        Value::UInt(0x0807_0605_0403_0201)
    );
    let layout = leaf("n", LayoutKind::U8);
    assert_eq!(encode(&layout, &Value::UInt(27)).unwrap(), vec![27]);
}

#[test]
fn signed_integers_two_complement() {
    let layout = leaf("n", LayoutKind::I16);
    assert_eq!(decode(&layout, &vec![0xfe, 0xff]).unwrap(), Value::Int(-2));
    assert_eq!(encode(&layout, &Value::Int(-2)).unwrap(), vec![0xfe, 0xff]);
    let layout = leaf("n", LayoutKind::I8);
    assert_eq!(decode(&layout, &vec![0x80]).unwrap(), Value::Int(-128));
    assert_eq!(encode(&layout, &Value::Int(-128)).unwrap(), vec![0x80]);
    let layout = leaf("n", LayoutKind::I64);
    let reference = bincode::serialize(&-5i64).unwrap();
    assert_eq!(decode(&layout, &reference).unwrap(), Value::Int(-5));
    assert_eq!(encode(&layout, &Value::Int(-5)).unwrap(), reference);
    let layout = leaf("n", LayoutKind::I32);
    assert_eq!(
        encode(&layout, &Value::Int(-1)).unwrap(),
        vec![0xff, 0xff, 0xff, 0xff]
    );
}

#[test]
fn booleans_encode_as_single_byte() {
    let layout = leaf("b", LayoutKind::Bool);
    assert_eq!(encode(&layout, &Value::Bool(true)).unwrap(), vec![1]);
    assert_eq!(encode(&layout, &Value::Bool(false)).unwrap(), vec![0]);
    assert_eq!(decode(&layout, &vec![1]).unwrap(), Value::Bool(true));
    assert_eq!(decode(&layout, &vec![0]).unwrap(), Value::Bool(false));
    assert_eq!(
        decode(&layout, &vec![2]).unwrap_err(),
        CodecError::InvalidEncoding
    );
}

#[test]
fn truncated_buffer_is_reported() {
    let layout = strukt("Person", vec![leaf("age", LayoutKind::U16)]);
    assert_eq!(
        decode(&layout, &vec![1]).unwrap_err(),
        CodecError::TruncatedInput
    );
    // A length prefix promising more payload than remains.
    let layout = leaf("s", LayoutKind::String);
    let mut bytes = vec![5u8, 0, 0, 0, 0, 0, 0, 0];
    bytes.extend_from_slice(b"abcd");
    assert_eq!(
        decode(&layout, &bytes).unwrap_err(),
        CodecError::TruncatedInput
    );
    // One byte short of a full array element.
    let layout = array("ns", leaf("unnamed", LayoutKind::U16));
    let bytes = vec![2u8, 0, 0, 0, 0, 0, 0, 0, 1, 0, 1];
    assert_eq!(
        decode(&layout, &bytes).unwrap_err(),
        CodecError::TruncatedInput
    );
}

#[test]
fn missing_field_is_reported() {
    let layout = strukt(
        "Person",
        vec![leaf("age", LayoutKind::U8), leaf("name", LayoutKind::String)],
    );
    let value = obj(vec![("age", Value::UInt(27))]);
    assert_eq!(
        encode(&layout, &value).unwrap_err(),
        CodecError::MissingField
    );
}

#[test]
fn type_mismatch_is_reported() {
    let layout = leaf("n", LayoutKind::U8);
    assert_eq!(
        encode(&layout, &Value::Str(String::from("27"))).unwrap_err(),
        CodecError::TypeMismatch
    );
    // In range for the type family but not for the declared width.
    assert_eq!(
        encode(&layout, &Value::UInt(256)).unwrap_err(),
        CodecError::TypeMismatch
    );
    assert_eq!(
        encode(&layout, &Value::Int(-1)).unwrap_err(),
        CodecError::TypeMismatch
    );
    let layout = leaf("n", LayoutKind::I8);
    assert_eq!(
        encode(&layout, &Value::Int(128)).unwrap_err(),
        CodecError::TypeMismatch
    );
    let layout = leaf("b", LayoutKind::Bool);
    assert_eq!(
        encode(&layout, &Value::UInt(1)).unwrap_err(),
        CodecError::TypeMismatch
    );
}

#[test]
fn string_payload_must_be_utf8() {
    let layout = leaf("s", LayoutKind::String);
    let bytes = vec![2u8, 0, 0, 0, 0, 0, 0, 0, 0xff, 0xfe];
    assert_eq!(
        decode(&layout, &bytes).unwrap_err(),
        CodecError::InvalidEncoding
    );
}

#[test]
fn field_order_is_layout_driven() {
    let layout = strukt(
        "Pair",
        vec![leaf("first", LayoutKind::U8), leaf("second", LayoutKind::U8)],
    );
    let forwards = obj(vec![
        ("first", Value::UInt(1)),
        ("second", Value::UInt(2)),
    ]);
    let backwards = obj(vec![
        ("second", Value::UInt(2)),
        ("first", Value::UInt(1)),
    ]);
    let a = encode(&layout, &forwards).unwrap();
    let b = encode(&layout, &backwards).unwrap();
    assert_eq!(a, b);
    assert_eq!(a, vec![1, 2]);
}

#[test]
fn empty_array_and_empty_string() {
    let layout = array("ns", leaf("unnamed", LayoutKind::U8));
    let value = Value::Arr(vec![]);
    let bytes = encode(&layout, &value).unwrap();
    assert_eq!(bytes, vec![0; 8]);
    assert_eq!(decode(&layout, &bytes).unwrap(), value);
    let layout = leaf("s", LayoutKind::String);
    let value = Value::Str(String::new());
    let bytes = encode(&layout, &value).unwrap();
    assert_eq!(bytes, vec![0; 8]);
    assert_eq!(decode(&layout, &bytes).unwrap(), value);
}

#[test]
fn nested_arrays_round_trip() {
    let layout = array("grid", array("unnamed", leaf("unnamed", LayoutKind::U8)));
    let value = Value::Arr(vec![
        Value::Arr(vec![Value::UInt(1), Value::UInt(2)]),
        Value::Arr(vec![]),
        Value::Arr(vec![Value::UInt(3)]),
    ]);
    let bytes = encode(&layout, &value).unwrap();
    let reference = bincode::serialize(&vec![vec![1u8, 2], vec![], vec![3]]).unwrap();
    assert_eq!(bytes, reference);
    assert_eq!(decode(&layout, &bytes).unwrap(), value);
}

#[test]
fn wide_integers_round_trip() {
    let layout = leaf("n", LayoutKind::U64);
    let value = Value::UInt(u64::MAX);
    let bytes = encode(&layout, &value).unwrap();
    assert_eq!(bytes, vec![0xff; 8]);
    assert_eq!(decode(&layout, &bytes).unwrap(), value);
    let layout = leaf("n", LayoutKind::I64);
    let value = Value::Int(i64::MIN);
    let bytes = encode(&layout, &value).unwrap();
    assert_eq!(bytes, bincode::serialize(&i64::MIN).unwrap());
    assert_eq!(decode(&layout, &bytes).unwrap(), value);
    let layout = leaf("x", LayoutKind::F64);
    let value = Value::F64Bits(27.5f64.to_bits());
    let bytes = encode(&layout, &value).unwrap();
    assert_eq!(bytes, 27.5f64.to_le_bytes().to_vec());
    assert_eq!(decode(&layout, &bytes).unwrap(), value);
}

#[test]
fn derived_layout_drives_codec() {
    let desc = layout_codec::TypeDesc::Record(
        String::from("Person"),
        vec![(
            String::from("favorite_numbers"),
            layout_codec::TypeDesc::Sequence(Box::new(layout_codec::TypeDesc::UInt8)),
        )],
    );
    let layout = layout_codec::derive_layout(&desc, "unnamed");
    let value = obj(vec![(
        "favorite_numbers",
        Value::Arr(vec![Value::UInt(1), Value::UInt(2), Value::UInt(3)]),
    )]);
    let bytes = encode(&layout, &value).unwrap();
    assert_eq!(bytes, bincode::serialize(&vec![1u8, 2, 3]).unwrap());
    assert_eq!(decode(&layout, &bytes).unwrap(), value);
}

#[test]
fn lenient_integer_variants_on_encode() {
    // A non-negative Int is accepted where an unsigned kind is declared, and
    // a small UInt where a signed kind is declared; decoding stays canonical.
    let layout = leaf("n", LayoutKind::U8);
    assert_eq!(encode(&layout, &Value::Int(27)).unwrap(), vec![27]);
    let layout = leaf("n", LayoutKind::I16);
    assert_eq!(encode(&layout, &Value::UInt(5)).unwrap(), vec![5, 0]);
    assert_eq!(decode(&layout, &vec![5, 0]).unwrap(), Value::Int(5));
}
