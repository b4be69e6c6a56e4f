use binwire::de;
use binwire::de::Error as DeError;
use binwire::deserialize_buffer;
use binwire::value::{Arm, MapEntry, Shape, Value};

fn text(s: &str) -> Value {
    Value::Text(s.to_owned())
}

fn boxed(v: Value) -> Box<Value> {
    Box::new(v)
}

fn encode(v: &Value) -> Vec<u8> {
    binwire::serialize_into_buffer(v).unwrap()
}

#[test]
fn serialize_bool() {
    assert_eq!(encode(&Value::Bool(true)), vec![1]);
    assert_eq!(encode(&Value::Bool(false)), vec![0]);
}

#[test]
fn serialize_u8() {
    assert_eq!(encode(&Value::U8(112)), vec![112]);
}

#[test]
fn serialize_i8() {
    assert_eq!(encode(&Value::I8(-3)), vec![0xfd]);
}

#[test]
fn serialize_u16() {
    assert_eq!(encode(&Value::U16(0xe8_72)), vec![0x72, 0xe8]);
}

#[test]
fn serialize_i16() {
    assert_eq!(encode(&Value::I16(-0x3)), vec![0xfd, 0xff]);
}

#[test]
fn serialize_u32() {
    assert_eq!(encode(&Value::U32(0x02_4c_e8_72)), vec![0x72, 0xe8, 0x4c, 0x02]);
}

#[test]
fn serialize_i32() {
    assert_eq!(encode(&Value::I32(-0x3)), vec![0xfd, 0xff, 0xff, 0xff]);
}

#[test]
fn serialize_u64() {
    assert_eq!(
        encode(&Value::U64(0x02_4c_e8_72_12_34_56_78)),
        vec![0x78, 0x56, 0x34, 0x12, 0x72, 0xe8, 0x4c, 0x02]
    );
}

#[test]
fn serialize_i64() {
    assert_eq!(
        encode(&Value::I64(-0x3)),
        vec![0xfd, 0xff, 0xff, 0xff, 0xff, 0xff, 0xff, 0xff]
    );
}

#[test]
fn serialize_u128() {
    assert_eq!(
        encode(&Value::U128(0x02_4c_e8_72_12_34_56_78_23_43_53_73_17_37_57_77)),
        vec![
            0x77, 0x57, 0x37, 0x17, 0x73, 0x53, 0x43, 0x23, 0x78, 0x56, 0x34, 0x12,
            0x72, 0xe8, 0x4c, 0x02,
        ]
    );
}

#[test]
fn serialize_i128() {
    assert_eq!(
        encode(&Value::I128(-0x3)),
        vec![
            0xfd, 0xff, 0xff, 0xff, 0xff, 0xff, 0xff, 0xff, 0xff, 0xff, 0xff, 0xff,
            0xff, 0xff, 0xff, 0xff,
        ]
    );
}

#[test]
fn serialize_f32() {
    let buf = encode(&Value::F32Bits((123.5_f32).to_bits()));
    assert_eq!(buf, (123.5_f32).to_bits().to_le_bytes().to_vec());
}

#[test]
fn serialize_f64() {
    let buf = encode(&Value::F64Bits((123.5_f64).to_bits()));
    assert_eq!(buf, (123.5_f64).to_bits().to_le_bytes().to_vec());
}

#[test]
fn serialize_char() {
    assert_eq!(encode(&Value::Char('\u{e7}')), vec![231, 0, 0, 0]);
}

#[test]
fn serialize_str() {
    let buf = encode(&text("fa\u{e7}ade"));
    assert_eq!(&buf[..8], &[7, 0, 0, 0, 0, 0, 0, 0]);
    assert_eq!(&buf[8..], "fa\u{e7}ade".as_bytes());
}

#[test]
fn serialize_bytes() {
    let buf = encode(&Value::Bytes(vec![1, 3, 2, 5]));
    assert_eq!(&buf[..8], &[4, 0, 0, 0, 0, 0, 0, 0]);
    assert_eq!(&buf[8..], &[1, 3, 2, 5]);
}

#[test]
fn serialize_none() {
    assert_eq!(encode(&Value::Optional(None)), vec![0]);
}

#[test]
fn serialize_some() {
    assert_eq!(
        encode(&Value::Optional(Some(boxed(Value::U16(0x12_34))))),
        vec![1, 0x34, 0x12]
    );
}

#[test]
fn serialize_unit() {
    assert_eq!(encode(&Value::Unit), Vec::<u8>::new());
}

#[test]
fn serialize_unit_variant() {
    assert_eq!(encode(&Value::Variant(0, vec![])), vec![0, 0, 0, 0]);
    assert_eq!(encode(&Value::Variant(1, vec![])), vec![1, 0, 0, 0]);
    assert_eq!(encode(&Value::Variant(2, vec![])), vec![2, 0, 0, 0]);
}

#[test]
fn serialize_newtype_struct() {
    assert_eq!(
        encode(&Value::Newtype(boxed(Value::I32(-4)))),
        vec![0xfc, 0xff, 0xff, 0xff]
    );
}

#[test]
fn serialize_newtype_variant() {
    assert_eq!(
        encode(&Value::Variant(0, vec![Value::Bool(true)])),
        vec![0, 0, 0, 0, 1]
    );
    assert_eq!(
        encode(&Value::Variant(1, vec![Value::I32(-4)])),
        vec![1, 0, 0, 0, 0xfc, 0xff, 0xff, 0xff]
    );
    assert_eq!(
        encode(&Value::Variant(2, vec![Value::U8(253)])),
        vec![2, 0, 0, 0, 253]
    );
}

#[test]
fn serialize_seq_empty() {
    assert_eq!(
        encode(&Value::Sequence(vec![])),
        vec![0, 0, 0, 0, 0, 0, 0, 0]
    );
}

#[test]
fn serialize_seq_non_empty() {
    let buf = encode(&Value::Sequence(vec![
        text("foo!"),
        text("fa\u{e7}ade"),
        text("x"),
    ]));
    assert_eq!(&buf[..8], &[3, 0, 0, 0, 0, 0, 0, 0]);
    assert_eq!(&buf[8..16], &[4, 0, 0, 0, 0, 0, 0, 0]);
    assert_eq!(&buf[16..20], "foo!".as_bytes());
    assert_eq!(&buf[20..28], &[7, 0, 0, 0, 0, 0, 0, 0]);
    assert_eq!(&buf[28..35], "fa\u{e7}ade".as_bytes());
    assert_eq!(&buf[35..43], &[1, 0, 0, 0, 0, 0, 0, 0]);
    assert_eq!(&buf[43..], "x".as_bytes());
}

#[test]
fn serialize_tuple() {
    let buf = encode(&Value::Tuple(vec![
        text("foo"),
        Value::U64(0x02_4c_e8_72_12_34_56_78),
        Value::I8(-2),
    ]));
    assert_eq!(&buf[..8], &[3, 0, 0, 0, 0, 0, 0, 0]);
    assert_eq!(&buf[8..11], "foo".as_bytes());
    assert_eq!(&buf[11..19], &[0x78, 0x56, 0x34, 0x12, 0x72, 0xe8, 0x4c, 0x02]);
    assert_eq!(&buf[19..], &[0xfe]);
}

#[test]
fn serialize_tuple_variant() {
    let var = |name: &str| Value::Variant(0, vec![text(name)]);

    let buf = encode(&var("my_x"));
    assert_eq!(&buf[..4], &[0, 0, 0, 0]);
    assert_eq!(&buf[4..12], &[4, 0, 0, 0, 0, 0, 0, 0]);
    assert_eq!(&buf[12..], "my_x".as_bytes());

    let buf = encode(&Value::Variant(1, vec![var("f"), var("my_x")]));
    assert_eq!(&buf[..4], &[1, 0, 0, 0]);
    assert_eq!(&buf[4..8], &[0, 0, 0, 0]);
    assert_eq!(&buf[8..16], &[1, 0, 0, 0, 0, 0, 0, 0]);
    assert_eq!(&buf[16..17], "f".as_bytes());
    assert_eq!(&buf[17..21], &[0, 0, 0, 0]);
    assert_eq!(&buf[21..29], &[4, 0, 0, 0, 0, 0, 0, 0]);
    assert_eq!(&buf[29..], "my_x".as_bytes());

    let buf = encode(&Value::Variant(2, vec![text("y_"), var("x")]));
    assert_eq!(&buf[..4], &[2, 0, 0, 0]);
    assert_eq!(&buf[4..12], &[2, 0, 0, 0, 0, 0, 0, 0]);
    assert_eq!(&buf[12..14], "y_".as_bytes());
    assert_eq!(&buf[14..18], &[0, 0, 0, 0]);
    assert_eq!(&buf[18..26], &[1, 0, 0, 0, 0, 0, 0, 0]);
    assert_eq!(&buf[26..], "x".as_bytes());
}

#[test]
fn serialize_map_empty() {
    assert_eq!(encode(&Value::Dict(vec![])), vec![0, 0, 0, 0, 0, 0, 0, 0]);
}

#[test]
fn serialize_map_non_empty() {
    let entry = |k: &str, v: u16| MapEntry { key: text(k), value: Value::U16(v) };
    let buf = encode(&Value::Dict(vec![
        entry("aoo", 12),
        entry("b", 0x4a_bc),
        entry("cigger", 134),
        entry("dreater", 1),
    ]));
    assert_eq!(&buf[..8], &[4, 0, 0, 0, 0, 0, 0, 0]);
    assert_eq!(&buf[8..16], &[3, 0, 0, 0, 0, 0, 0, 0]);
    assert_eq!(&buf[16..19], "aoo".as_bytes());
    assert_eq!(&buf[19..21], &[12, 0]);
    assert_eq!(&buf[21..29], &[1, 0, 0, 0, 0, 0, 0, 0]);
    assert_eq!(&buf[29..30], "b".as_bytes());
    assert_eq!(&buf[30..32], &[0xbc, 0x4a]);
    assert_eq!(&buf[32..40], &[6, 0, 0, 0, 0, 0, 0, 0]);
    assert_eq!(&buf[40..46], "cigger".as_bytes());
    assert_eq!(&buf[46..48], &[134, 0]);
    assert_eq!(&buf[48..56], &[7, 0, 0, 0, 0, 0, 0, 0]);
    assert_eq!(&buf[56..63], "dreater".as_bytes());
    assert_eq!(&buf[63..], &[1, 0]);
}

#[test]
fn serialize_struct_variant() {
    let buf = encode(&Value::Variant(0, vec![text("xy"), Value::U32(0xab_cd_ef_78)]));
    assert_eq!(&buf[..4], &[0, 0, 0, 0]);
    assert_eq!(&buf[4..12], &[2, 0, 0, 0, 0, 0, 0, 0]);
    assert_eq!(&buf[12..14], "xy".as_bytes());
    assert_eq!(&buf[14..], &[0x78, 0xef, 0xcd, 0xab]);
}

#[test]
fn serialize_into_buffer() {
    let value = Value::Tuple(vec![
        text("foo"),
        Value::U64(0x02_4c_e8_72_12_34_56_78),
        Value::Sequence(vec![
            Value::Sequence(vec![Value::I32(1), Value::I32(2), Value::I32(3)]),
            Value::Sequence(vec![Value::I32(-2), Value::I32(0x3_f1_f2)]),
            Value::Sequence(vec![]),
        ]),
        Value::I8(-2),
    ]);
    let buf = encode(&value);
    assert_eq!(&buf[..8], &[3, 0, 0, 0, 0, 0, 0, 0]);
    assert_eq!(&buf[8..11], "foo".as_bytes());
    assert_eq!(&buf[11..19], &[0x78, 0x56, 0x34, 0x12, 0x72, 0xe8, 0x4c, 0x02]);
    assert_eq!(&buf[19..27], &[3, 0, 0, 0, 0, 0, 0, 0]);
    assert_eq!(&buf[27..35], &[3, 0, 0, 0, 0, 0, 0, 0]);
    assert_eq!(&buf[35..39], &[1, 0, 0, 0]);
    assert_eq!(&buf[39..43], &[2, 0, 0, 0]);
    assert_eq!(&buf[43..47], &[3, 0, 0, 0]);
    assert_eq!(&buf[47..55], &[2, 0, 0, 0, 0, 0, 0, 0]);
    assert_eq!(&buf[55..59], &[0xfe, 0xff, 0xff, 0xff]);
    assert_eq!(&buf[59..63], &[0xf2, 0xf1, 0x3, 0]);
    assert_eq!(&buf[63..71], &[0, 0, 0, 0, 0, 0, 0, 0]);
    assert_eq!(&buf[71..], &[0xfe]);
}

#[test]
fn serialize_on_buffer() {
    let mut buf = Vec::new();
    binwire::serialize_on_buffer(&mut buf, &Value::U16(0xe8_72)).unwrap();
    assert_eq!(buf, vec![0x72, 0xe8]);
}

#[test]
fn deserialize_bool() {
    assert_eq!(
        deserialize_buffer(&[0], &Shape::Bool).unwrap(),
        Value::Bool(false)
    );
    assert_eq!(
        deserialize_buffer(&[1], &Shape::Bool).unwrap(),
        Value::Bool(true)
    );
}

#[test]
fn deserialize_u8() {
    assert_eq!(
        deserialize_buffer(&[123], &Shape::U8).unwrap(),
        Value::U8(123)
    );
}

#[test]
fn deserialize_i8() {
    assert_eq!(
        deserialize_buffer(&[0xfd], &Shape::I8).unwrap(),
        Value::I8(-3)
    );
}

#[test]
fn deserialize_u16() {
    assert_eq!(
        deserialize_buffer(&[0xab, 0xcd], &Shape::U16).unwrap(),
        Value::U16(0xcd_ab)
    );
}

#[test]
fn deserialize_i16() {
    assert_eq!(
        deserialize_buffer(&[0xfd, 0xff], &Shape::I16).unwrap(),
        Value::I16(-3)
    );
}

#[test]
fn deserialize_u32() {
    assert_eq!(
        deserialize_buffer(&[0xab, 0xcd, 0x12, 0x34], &Shape::U32).unwrap(),
        Value::U32(0x34_12_cd_ab)
    );
}

#[test]
fn deserialize_i32() {
    assert_eq!(
        deserialize_buffer(&[0xfd, 0xff, 0xff, 0xff], &Shape::I32).unwrap(),
        Value::I32(-3)
    );
}

#[test]
fn deserialize_u64() {
    assert_eq!(
        deserialize_buffer(
            &[0x1a, 0xef, 0x78, 0x56, 0xab, 0xcd, 0x12, 0x34],
            &Shape::U64
        )
        .unwrap(),
        Value::U64(0x34_12_cd_ab_56_78_ef_1a)
    );
}

#[test]
fn deserialize_i64() {
    assert_eq!(
        deserialize_buffer(
            &[0xfd, 0xff, 0xff, 0xff, 0xff, 0xff, 0xff, 0xff],
            &Shape::I64
        )
        .unwrap(),
        Value::I64(-3)
    );
}

#[test]
fn deserialize_u128() {
    assert_eq!(
        deserialize_buffer(
            &[
                0x73, 0xd2, 0xe1, 0xf0, 0xe5, 0xd4, 0xc3, 0xb2, 0x1a, 0xef, 0x78,
                0x56, 0xab, 0xcd, 0x12, 0x34,
            ],
            &Shape::U128
        )
        .unwrap(),
        Value::U128(0x34_12_cd_ab_56_78_ef_1a_b2_c3_d4_e5_f0_e1_d2_73)
    );
}

#[test]
fn deserialize_i128() {
    assert_eq!(
        deserialize_buffer(
            &[
                0xfd, 0xff, 0xff, 0xff, 0xff, 0xff, 0xff, 0xff, 0xff, 0xff, 0xff,
                0xff, 0xff, 0xff, 0xff, 0xff,
            ],
            &Shape::I128
        )
        .unwrap(),
        Value::I128(-3)
    );
}

#[test]
fn deserialize_f32() {
    let buf = (123.5_f32).to_bits().to_le_bytes();
    assert_eq!(
        deserialize_buffer(&buf, &Shape::F32).unwrap(),
        Value::F32Bits((123.5_f32).to_bits())
    );
}

#[test]
fn deserialize_f64() {
    let buf = (123.5_f64).to_bits().to_le_bytes();
    assert_eq!(
        deserialize_buffer(&buf, &Shape::F64).unwrap(),
        Value::F64Bits((123.5_f64).to_bits())
    );
}

#[test]
fn deserialize_char() {
    let buf = u32::from('\u{e7}').to_le_bytes();
    assert_eq!(
        deserialize_buffer(&buf, &Shape::Char).unwrap(),
        Value::Char('\u{e7}')
    );
}

#[test]
fn deserialize_string() {
    let mut buf = vec![7, 0, 0, 0, 0, 0, 0, 0];
    buf.extend_from_slice("fa\u{e7}ade".as_bytes());
    assert_eq!(
        deserialize_buffer(&buf, &Shape::Text).unwrap(),
        text("fa\u{e7}ade")
    );
}

#[test]
fn deserialize_vec() {
    let mut buf = vec![5, 0, 0, 0, 0, 0, 0, 0];
    buf.extend_from_slice(&[1, 3, 2, 5, 4]);
    assert_eq!(
        deserialize_buffer(&buf, &Shape::Bytes).unwrap(),
        Value::Bytes(vec![1, 3, 2, 5, 4])
    );
}

#[test]
fn deserialize_none() {
    assert_eq!(
        deserialize_buffer(&[0], &Shape::Optional(Box::new(Shape::I16))).unwrap(),
        Value::Optional(None)
    );
}

#[test]
fn deserialize_some() {
    assert_eq!(
        deserialize_buffer(&[1, 0xfb, 0x9], &Shape::Optional(Box::new(Shape::I16)))
            .unwrap(),
        Value::Optional(Some(boxed(Value::I16(0x9_fb))))
    );
}

#[test]
fn deserialize_unit() {
    assert_eq!(deserialize_buffer(&[], &Shape::Unit).unwrap(), Value::Unit);
}

#[test]
fn deserialize_newtype_struct() {
    assert_eq!(
        deserialize_buffer(&[0xab, 0xcd], &Shape::Newtype(Box::new(Shape::U16)))
            .unwrap(),
        Value::Newtype(boxed(Value::U16(0xcd_ab)))
    );
}

#[test]
fn deserialize_seq_empty() {
    assert_eq!(
        deserialize_buffer(&[0; 8], &Shape::Sequence(Box::new(Shape::I16))).unwrap(),
        Value::Sequence(vec![])
    );
}

#[test]
fn deserialize_seq_non_empty() {
    let mut buf = vec![3, 0, 0, 0, 0, 0, 0, 0];
    buf.extend_from_slice(&[0xfd, 0xff, 0xfd, 0xf, 0x1, 0x0]);
    assert_eq!(
        deserialize_buffer(&buf, &Shape::Sequence(Box::new(Shape::I16))).unwrap(),
        Value::Sequence(vec![Value::I16(-3), Value::I16(0xf_fd), Value::I16(1)])
    );
}

#[test]
fn deserialize_tuple() {
    let mut buf = vec![3, 0, 0, 0, 0, 0, 0, 0];
    buf.extend_from_slice("foo".as_bytes());
    buf.push(9);
    buf.extend_from_slice(&[0x3f, 0xa]);
    let shape = Shape::Tuple(vec![Shape::Text, Shape::Bool, Shape::U16]);
    assert_eq!(
        deserialize_buffer(&buf, &shape).unwrap(),
        Value::Tuple(vec![text("foo"), Value::Bool(true), Value::U16(0xa_3f)])
    );
}

#[test]
fn deserialize_map_empty() {
    let shape = Shape::Dict(Box::new(Shape::Text), Box::new(Shape::I16));
    assert_eq!(
        deserialize_buffer(&[0; 8], &shape).unwrap(),
        Value::Dict(vec![])
    );
}

#[test]
fn deserialize_map_non_empty() {
    let mut buf = vec![2, 0, 0, 0, 0, 0, 0, 0];
    buf.extend_from_slice(&[3, 0, 0, 0, 0, 0, 0, 0]);
    buf.extend_from_slice("xyz".as_bytes());
    buf.extend_from_slice(&[0xfd, 0xf]);
    buf.extend_from_slice(&[4, 0, 0, 0, 0, 0, 0, 0]);
    buf.extend_from_slice("abcd".as_bytes());
    buf.extend_from_slice(&[0x1, 0x0]);
    let shape = Shape::Dict(Box::new(Shape::Text), Box::new(Shape::I16));
    assert_eq!(
        deserialize_buffer(&buf, &shape).unwrap(),
        Value::Dict(vec![
            MapEntry { key: text("xyz"), value: Value::I16(0xf_fd) },
            MapEntry { key: text("abcd"), value: Value::I16(1) },
        ])
    );
}

#[test]
fn deserialize_struct_synchronous() {
    let mut buf = vec![3, 0, 0, 0, 0, 0, 0, 0];
    buf.extend_from_slice("foo".as_bytes());
    buf.push(9);
    buf.extend_from_slice(&[0x3f, 0xa]);
    let shape = Shape::Tuple(vec![Shape::Text, Shape::Bool, Shape::U16]);
    assert_eq!(
        deserialize_buffer(&buf, &shape).unwrap(),
        Value::Tuple(vec![text("foo"), Value::Bool(true), Value::U16(0xa_3f)])
    );
}

#[test]
fn deserialize_enum() {
    let shape = Shape::Sum(vec![
        Arm { fields: vec![Shape::Text, Shape::U32] },
        Arm { fields: vec![Shape::U8, Shape::I32, Shape::Bool] },
        Arm { fields: vec![] },
    ]);

    let mut buf = vec![0, 0, 0, 0];
    buf.extend_from_slice(&[2, 0, 0, 0, 0, 0, 0, 0]);
    buf.extend_from_slice("xy".as_bytes());
    buf.extend_from_slice(&[0x78, 0xef, 0xcd, 0xab]);
    assert_eq!(
        deserialize_buffer(&buf, &shape).unwrap(),
        Value::Variant(0, vec![text("xy"), Value::U32(0xab_cd_ef_78)])
    );

    let mut buf = vec![1, 0, 0, 0];
    buf.push(123);
    buf.extend_from_slice(&[0xcd, 0xac, 0xbd, 0x1b]);
    buf.push(0);
    assert_eq!(
        deserialize_buffer(&buf, &shape).unwrap(),
        Value::Variant(
            1,
            vec![Value::U8(123), Value::I32(0x1b_bd_ac_cd), Value::Bool(false)]
        )
    );

    let buf = vec![2, 0, 0, 0];
    assert_eq!(
        deserialize_buffer(&buf, &shape).unwrap(),
        Value::Variant(2, vec![])
    );
}

#[test]
fn deserialize_bad_variant_tag() {
    let shape = Shape::Sum(vec![Arm { fields: vec![] }]);
    let err = deserialize_buffer(&[7, 0, 0, 0], &shape).unwrap_err();
    assert!(matches!(err, DeError::Custom(_)));
}

#[test]
fn deserialize_bad_code_point() {
    let buf = 0xd8_00_u32.to_le_bytes();
    let err = deserialize_buffer(&buf, &Shape::Char).unwrap_err();
    assert!(matches!(err, DeError::InvalidCodePoint(0xd8_00)));
}

#[test]
fn deserialize_bad_utf8() {
    let mut buf = vec![2, 0, 0, 0, 0, 0, 0, 0];
    buf.extend_from_slice(&[0xff, 0xfe]);
    let err = deserialize_buffer(&buf, &Shape::Text).unwrap_err();
    assert!(matches!(err, DeError::Utf8));
}

#[test]
fn unexpected_eof() {
    let mut config = de::Config::new();
    config.with_hard_eof();
    let err = config.deserialize_buffer(&[], &Shape::U8).unwrap_err();
    assert!(matches!(err, DeError::PrematureEof));
}

#[test]
fn expected_eof() {
    let mut config = de::Config::new();
    config.with_hard_eof();
    let err = config.deserialize_buffer(&[1, 2], &Shape::U8).unwrap_err();
    assert!(matches!(err, DeError::ExpectedEof(2)));
}

#[test]
fn round_trip_composite() {
    let value = Value::Tuple(vec![
        text("fa\u{e7}ade"),
        Value::Optional(Some(boxed(Value::I16(0x9_fb)))),
        Value::Sequence(vec![Value::U8(1), Value::U8(2)]),
        Value::Variant(1, vec![Value::Bool(true)]),
        Value::Dict(vec![MapEntry { key: Value::U8(7), value: text("seven") }]),
    ]);
    let shape = Shape::Tuple(vec![
        Shape::Text,
        Shape::Optional(Box::new(Shape::I16)),
        Shape::Sequence(Box::new(Shape::U8)),
        Shape::Sum(vec![Arm { fields: vec![] }, Arm { fields: vec![Shape::Bool] }]),
        Shape::Dict(Box::new(Shape::U8), Box::new(Shape::Text)),
    ]);
    let bytes = encode(&value);
    let mut config = de::Config::new();
    config.with_hard_eof();
    assert_eq!(config.deserialize_buffer(&bytes, &shape).unwrap(), value);
}

#[test]
fn default_config_matches_explicit() {
    let value = Value::Sequence(vec![Value::U64(99), Value::U64(100)]);
    let shape = Shape::Sequence(Box::new(Shape::U64));

    let explicit = binwire::ser::Config::new();
    let dflt = binwire::ser::Config::default();
    let a = explicit.serialize_into_buffer(&value).unwrap();
    let b = dflt.serialize_into_buffer(&value).unwrap();
    assert_eq!(a, b);

    let da = de::Config::new().deserialize_buffer(&a, &shape).unwrap();
    let db = de::Config::default().deserialize_buffer(&b, &shape).unwrap();
    assert_eq!(da, db);
    assert_eq!(da, value);
}

#[test]
fn serialize_unit_struct() {
    assert_eq!(encode(&Value::Unit), Vec::<u8>::new());
}

#[test]
fn serialize_tuple_struct() {
    let buf = encode(&Value::Tuple(vec![
        text("foo"),
        Value::U64(0x02_4c_e8_72_12_34_56_78),
        Value::I8(-2),
    ]));
    assert_eq!(&buf[..8], &[3, 0, 0, 0, 0, 0, 0, 0]);
    assert_eq!(&buf[8..11], "foo".as_bytes());
    assert_eq!(&buf[11..19], &[0x78, 0x56, 0x34, 0x12, 0x72, 0xe8, 0x4c, 0x02]);
    assert_eq!(&buf[19..], &[0xfe]);
}

#[test]
fn serialize_struct() {
    let buf = encode(&Value::Tuple(vec![
        text("foo"),
        Value::U64(0x02_4c_e8_72_12_34_56_78),
        Value::I8(-2),
    ]));
    assert_eq!(&buf[..8], &[3, 0, 0, 0, 0, 0, 0, 0]);
    assert_eq!(&buf[8..11], "foo".as_bytes());
    assert_eq!(&buf[11..19], &[0x78, 0x56, 0x34, 0x12, 0x72, 0xe8, 0x4c, 0x02]);
    assert_eq!(&buf[19..], &[0xfe]);
}

#[test]
fn deserialize_unit_struct() {
    assert_eq!(deserialize_buffer(&[], &Shape::Unit).unwrap(), Value::Unit);
}

#[test]
fn deserialize_tuple_struct() {
    let mut buf = vec![3, 0, 0, 0, 0, 0, 0, 0];
    buf.extend_from_slice("foo".as_bytes());
    buf.push(9);
    buf.extend_from_slice(&[0x3f, 0xa]);
    let shape = Shape::Tuple(vec![Shape::Text, Shape::Bool, Shape::U16]);
    assert_eq!(
        deserialize_buffer(&buf, &shape).unwrap(),
        Value::Tuple(vec![text("foo"), Value::Bool(true), Value::U16(0xa_3f)])
    );
}

#[test]
fn deserialize_struct() {
    let mut buf = vec![3, 0, 0, 0, 0, 0, 0, 0];
    buf.extend_from_slice("foo".as_bytes());
    buf.push(9);
    buf.extend_from_slice(&[0x3f, 0xa]);
    let shape = Shape::Tuple(vec![Shape::Text, Shape::Bool, Shape::U16]);
    assert_eq!(
        deserialize_buffer(&buf, &shape).unwrap(),
        Value::Tuple(vec![text("foo"), Value::Bool(true), Value::U16(0xa_3f)])
    );
}
