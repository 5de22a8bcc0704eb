use feather_protocol::custom_type::{
    ArrayLength, CustomType, FieldType, IntegerType, Literal, PrimitiveType, Selector,
    SelectorType,
};
use feather_protocol::generation::{CustomTypeGenerator, PacketGenerator, ProtocolGenerator};
use feather_protocol::packet::DecodeError;
use feather_protocol::primitives::{
    CustomTypeName, FieldName, PacketDirection, PacketId, PacketIdentifier, PacketStage,
    ProtocolVersion,
};
use feather_protocol::protocol::Protocol;
use feather_protocol::types::{
    Error, read_var_int, read_var_long, write_var_int, write_var_long,
};
use feather_protocol::validation::{Validation, ValidationError};
use feather_protocol::value::Value;

fn roundtrip_var_int(v: i32) -> Vec<u8> {
    let mut buf: Vec<u8> = Vec::new();
    let n = write_var_int(&mut buf, v);
    assert_eq!(n, buf.len());
    assert!(n <= 5);
    let (back, end) = read_var_int(&buf, 0).unwrap();
    assert_eq!(back, v);
    assert_eq!(end, buf.len());
    buf
}

#[test]
fn var_int_round_trip() {
    for v in [
        0i32,
        1,
        2,
        127,
        128,
        255,
        300,
        16383,
        16384,
        2097151,
        2097152,
        268435455,
        268435456,
        i32::MAX,
        -1,
        -2147483648,
        25565,
    ] {
        roundtrip_var_int(v);
    }
    assert_eq!(roundtrip_var_int(0), vec![0x00]);
    assert_eq!(roundtrip_var_int(1), vec![0x01]);
    assert_eq!(roundtrip_var_int(300), vec![0xac, 0x02]);
    assert_eq!(roundtrip_var_int(-1), vec![0xff, 0xff, 0xff, 0xff, 0x0f]);
}

#[test]
fn var_int_rejects_six_continuations() {
    let bytes = vec![0x80u8, 0x80, 0x80, 0x80, 0x80, 0x00];
    assert!(matches!(read_var_int(&bytes, 0), Err(Error::Malformed)));
}

#[test]
fn var_int_partial_asks_for_more() {
    let bytes = vec![0x80u8, 0x80];
    assert!(matches!(read_var_int(&bytes, 0), Err(Error::NotEnoughBytes)));
    let empty: Vec<u8> = Vec::new();
    assert!(matches!(read_var_int(&empty, 0), Err(Error::NotEnoughBytes)));
}

#[test]
fn var_int_non_canonical_decodes_but_longer() {
    // A zero padded with continuation bytes still decodes to zero, but the
    // canonical encoding of zero is a single byte.
    let padded = vec![0x80u8, 0x00];
    let (v, end) = read_var_int(&padded, 0).unwrap();
    assert_eq!(v, 0);
    assert_eq!(end, 2);
    assert_eq!(roundtrip_var_int(0).len(), 1);
}

#[test]
fn var_long_round_trip() {
    for v in [0i64, 1, 127, 128, 300, i64::MAX, -1, i64::MIN, 9999999999] {
        let mut buf: Vec<u8> = Vec::new();
        let n = write_var_long(&mut buf, v);
        assert_eq!(n, buf.len());
        assert!(n <= 10);
        let (back, end) = read_var_long(&buf, 0).unwrap();
        assert_eq!(back, v);
        assert_eq!(end, buf.len());
    }
    let mut buf: Vec<u8> = Vec::new();
    write_var_long(&mut buf, -1);
    assert_eq!(buf.len(), 10);
}

fn key_array_schema() -> CustomType {
    CustomType::Struct {
        name: CustomTypeName(String::from("holder")),
        fields: vec![
            (
                FieldName(String::from("count")),
                FieldType::Key(SelectorType::Integer(IntegerType::VarInt)),
            ),
            (
                FieldName(String::from("items")),
                FieldType::Primitive(PrimitiveType::Array {
                    length: ArrayLength::Key(FieldName(String::from("count"))),
                    field_type: Box::new(FieldType::Integer(IntegerType::U8)),
                }),
            ),
        ],
    }
}

#[test]
fn key_field_asymmetry() {
    // Decoding [3, e1, e2, e3] yields a value with exactly three elements
    // and no field named "count"; re-encoding reproduces the leading count
    // byte exactly.
    let t = key_array_schema();
    let shared: Vec<CustomType> = Vec::new();
    let bytes = vec![3u8, 10, 20, 30];
    let (v, end) = CustomTypeGenerator::decode(&t, &shared, &bytes, 0).unwrap();
    assert_eq!(end, 4);
    match &v {
        Value::StructVal(fields) => {
            assert_eq!(fields.len(), 1);
            assert_eq!(fields[0].0, "items");
            match &fields[0].1 {
                Value::Arr(items) => {
                    assert_eq!(items.len(), 3);
                    assert!(matches!(items[0], Value::U8(10)));
                    assert!(matches!(items[1], Value::U8(20)));
                    assert!(matches!(items[2], Value::U8(30)));
                },
                other => panic!("expected an array, got {:?}", other),
            }
        },
        other => panic!("expected a struct value, got {:?}", other),
    }
    let re = CustomTypeGenerator::encode(&t, &shared, &v).unwrap();
    assert_eq!(re, bytes);
}

fn two_variant_enum() -> CustomType {
    CustomType::Enum {
        name: CustomTypeName(String::from("choice")),
        variant: Selector::Prefixed(SelectorType::Integer(IntegerType::VarInt)),
        variants: vec![
            (
                Literal::Int(0),
                CustomType::Unit { name: CustomTypeName(String::from("a")) },
            ),
            (
                Literal::Int(1),
                CustomType::Unit { name: CustomTypeName(String::from("b")) },
            ),
        ],
    }
}

#[test]
fn enum_selector_dispatch() {
    // Selector 2 matches no variant and fails; 0 and 1 decode, and
    // re-encoding reproduces the original selector byte.
    let t = two_variant_enum();
    let shared: Vec<CustomType> = Vec::new();
    assert!(CustomTypeGenerator::decode(&t, &shared, &[2u8], 0).is_err());
    for sel in [0u8, 1u8] {
        let bytes = vec![sel];
        let (v, end) = CustomTypeGenerator::decode(&t, &shared, &bytes, 0).unwrap();
        assert_eq!(end, 1);
        match &v {
            Value::EnumVal(key, payload) => {
                assert!(matches!(key, Literal::Int(k) if *k == sel as i64));
                assert!(matches!(**payload, Value::Unit));
            },
            other => panic!("expected an enum value, got {:?}", other),
        }
        let re = CustomTypeGenerator::encode(&t, &shared, &v).unwrap();
        assert_eq!(re, bytes);
    }
}

fn named_packet(name: &str) -> CustomType {
    CustomType::Struct { name: CustomTypeName(String::from(name)), fields: Vec::new() }
}

fn ident(direction: PacketDirection, stage: PacketStage, id: u64) -> PacketIdentifier {
    PacketIdentifier(direction, stage, PacketId(id))
}

#[test]
fn validator_duplicate_detection() {
    // Two packets in the same (client-bound, play) group named alike fail
    // validation with both offending ids; the same names in different
    // stages do not conflict.
    let bad = Protocol {
        version: ProtocolVersion(498),
        packets: vec![
            (
                ident(PacketDirection::Client, PacketStage::Play, 5),
                named_packet("update_health"),
            ),
            (
                ident(PacketDirection::Client, PacketStage::Play, 9),
                named_packet("update_health"),
            ),
        ],
        shared_types: Vec::new(),
    };
    match bad.validate() {
        Err(ValidationError::DuplicateName { name, first_id, second_id }) => {
            assert_eq!(name, "update_health");
            assert_eq!(first_id.2.0, 5);
            assert_eq!(second_id.2.0, 9);
        },
        Ok(()) => panic!("duplicate names must not validate"),
    }
    let ok = Protocol {
        version: ProtocolVersion(498),
        packets: vec![
            (
                ident(PacketDirection::Client, PacketStage::Login, 5),
                named_packet("update_health"),
            ),
            (
                ident(PacketDirection::Client, PacketStage::Play, 9),
                named_packet("update_health"),
            ),
        ],
        shared_types: Vec::new(),
    };
    assert!(ok.validate().is_ok());
}

#[test]
fn validator_reports_id_gaps() {
    let p = Protocol {
        version: ProtocolVersion(498),
        packets: vec![
            (ident(PacketDirection::Client, PacketStage::Play, 0), named_packet("a")),
            (ident(PacketDirection::Client, PacketStage::Play, 1), named_packet("b")),
            (ident(PacketDirection::Client, PacketStage::Play, 4), named_packet("c")),
            (ident(PacketDirection::Server, PacketStage::Play, 9), named_packet("d")),
        ],
        shared_types: Vec::new(),
    };
    assert!(p.validate().is_ok());
    let gaps = p.id_gaps();
    assert_eq!(gaps.len(), 1);
    assert_eq!(gaps[0].0.2.0, 1);
    assert_eq!(gaps[0].1.2.0, 4);
}

#[test]
fn packet_dispatch_and_unknown_id() {
    let p = Protocol {
        version: ProtocolVersion(498),
        packets: vec![
            (
                ident(PacketDirection::Server, PacketStage::Handshaking, 0),
                CustomType::Struct {
                    name: CustomTypeName(String::from("handshake")),
                    fields: vec![(
                        FieldName(String::from("protocol_version")),
                        FieldType::Integer(IntegerType::VarInt),
                    )],
                },
            ),
        ],
        shared_types: Vec::new(),
    };
    // id 0: decodes to the declared struct.
    let frame = vec![0u8, 0xac, 0x02];
    let (id, v) = PacketGenerator::decode(
        &p,
        PacketDirection::Server,
        PacketStage::Handshaking,
        &frame,
    )
        .unwrap();
    assert_eq!(id, 0);
    match &v {
        Value::StructVal(fields) => {
            assert_eq!(fields.len(), 1);
            assert!(matches!(fields[0].1, Value::VarInt(300)));
        },
        other => panic!("expected a struct value, got {:?}", other),
    }
    let re = PacketGenerator::encode(&p, PacketDirection::Server, PacketStage::Handshaking, 0, &v)
        .unwrap();
    assert_eq!(re, frame);
    // id 7: no such packet in the group, and the error names it.
    let missing = vec![7u8];
    match PacketGenerator::decode(&p, PacketDirection::Server, PacketStage::Handshaking, &missing)
    {
        Err(DecodeError::NonExistentPacket { direction, stage, id }) => {
            assert_eq!(direction, PacketDirection::Server);
            assert_eq!(stage, PacketStage::Handshaking);
            assert_eq!(id, 7);
        },
        other => panic!("expected a non-existent-packet error, got {:?}", other),
    }
}

#[test]
fn compiler_groups_by_direction_and_stage() {
    let p = Protocol {
        version: ProtocolVersion(498),
        packets: vec![
            (ident(PacketDirection::Client, PacketStage::Play, 0), named_packet("a")),
            (ident(PacketDirection::Server, PacketStage::Play, 0), named_packet("b")),
            (ident(PacketDirection::Server, PacketStage::Play, 1), named_packet("c")),
        ],
        shared_types: Vec::new(),
    };
    let compiled = ProtocolGenerator::generate(&p);
    assert_eq!(compiled.groups.len(), 8);
    let client_play = &compiled.groups[3];
    assert_eq!(client_play.packets.len(), 1);
    assert_eq!(client_play.packets[0].1, 0);
    let server_play = &compiled.groups[7];
    assert_eq!(server_play.packets.len(), 2);
    assert_eq!(server_play.packets[0].0.2.0, 0);
    assert_eq!(server_play.packets[1].0.2.0, 1);
    // Boundary lookup: the server-bound range begins after the client-bound
    // entry in the ordered table.
    assert_eq!(p.split_index(PacketDirection::Server, PacketStage::Handshaking), 1);
}

#[test]
fn array_length_strategies() {
    let shared: Vec<CustomType> = Vec::new();
    // Prefixed: an inline VarInt count precedes the elements.
    let prefixed = CustomType::Struct {
        name: CustomTypeName(String::from("list")),
        fields: vec![(
            FieldName(String::from("items")),
            FieldType::Primitive(PrimitiveType::Array {
                length: ArrayLength::Prefixed(IntegerType::VarInt),
                field_type: Box::new(FieldType::Integer(IntegerType::U16)),
            }),
        )],
    };
    let bytes = vec![2u8, 0x01, 0x00, 0x02, 0x00];
    let (v, end) = CustomTypeGenerator::decode(&prefixed, &shared, &bytes, 0).unwrap();
    assert_eq!(end, 5);
    assert_eq!(CustomTypeGenerator::encode(&prefixed, &shared, &v).unwrap(), bytes);
    // A count that exceeds the remaining bytes is rejected outright.
    let bomb = vec![100u8];
    assert!(matches!(
        CustomTypeGenerator::decode(&prefixed, &shared, &bomb, 0),
        Err(Error::ValueTooLarge)
    ));
    // FixedLength: the count is schema-known and neither read nor written.
    let fixed = CustomType::Struct {
        name: CustomTypeName(String::from("pair")),
        fields: vec![(
            FieldName(String::from("items")),
            FieldType::Primitive(PrimitiveType::Array {
                length: ArrayLength::FixedLength(2),
                field_type: Box::new(FieldType::Integer(IntegerType::U8)),
            }),
        )],
    };
    let bytes = vec![7u8, 9u8];
    let (v, end) = CustomTypeGenerator::decode(&fixed, &shared, &bytes, 0).unwrap();
    assert_eq!(end, 2);
    assert_eq!(CustomTypeGenerator::encode(&fixed, &shared, &v).unwrap(), bytes);
    // RemainingLength: elements run to the end of the frame.
    let remaining = CustomType::Struct {
        name: CustomTypeName(String::from("rest")),
        fields: vec![(
            FieldName(String::from("items")),
            FieldType::Primitive(PrimitiveType::Array {
                length: ArrayLength::RemainingLength,
                field_type: Box::new(FieldType::Integer(IntegerType::U8)),
            }),
        )],
    };
    let bytes = vec![1u8, 2, 3, 4];
    let (v, end) = CustomTypeGenerator::decode(&remaining, &shared, &bytes, 0).unwrap();
    assert_eq!(end, 4);
    match &v {
        Value::StructVal(fields) => match &fields[0].1 {
            Value::Arr(items) => assert_eq!(items.len(), 4),
            other => panic!("expected an array, got {:?}", other),
        },
        other => panic!("expected a struct value, got {:?}", other),
    }
    assert_eq!(CustomTypeGenerator::encode(&remaining, &shared, &v).unwrap(), bytes);
}

#[test]
fn constants_and_floats() {
    let shared: Vec<CustomType> = Vec::new();
    let t = CustomType::Struct {
        name: CustomTypeName(String::from("motion")),
        fields: vec![
            (
                FieldName(String::from("marker")),
                FieldType::Constant(Literal::Int(1)),
            ),
            (
                FieldName(String::from("vx")),
                FieldType::Float(feather_protocol::custom_type::FloatType::F32),
            ),
        ],
    };
    // The constant field occupies no bytes and is not materialized.
    let bytes = 1.5f32.to_be_bytes().to_vec();
    let (v, end) = CustomTypeGenerator::decode(&t, &shared, &bytes, 0).unwrap();
    assert_eq!(end, 4);
    match &v {
        Value::StructVal(fields) => {
            assert_eq!(fields.len(), 1);
            assert_eq!(fields[0].0, "vx");
            match fields[0].1 {
                Value::F32Bits(bits) => assert_eq!(f32::from_bits(bits), 1.5),
                ref other => panic!("expected raw float bits, got {:?}", other),
            }
        },
        other => panic!("expected a struct value, got {:?}", other),
    }
    assert_eq!(CustomTypeGenerator::encode(&t, &shared, &v).unwrap(), bytes);
}

#[test]
fn sibling_keyed_enum() {
    // An enum whose selector is an already-decoded sibling key field.
    let shared: Vec<CustomType> = Vec::new();
    let t = CustomType::Struct {
        name: CustomTypeName(String::from("action")),
        fields: vec![
            (
                FieldName(String::from("kind")),
                FieldType::Key(SelectorType::Integer(IntegerType::VarInt)),
            ),
            (
                FieldName(String::from("body")),
                FieldType::CustomType(CustomType::Enum {
                    name: CustomTypeName(String::from("body")),
                    variant: Selector::Sibling(FieldName(String::from("kind"))),
                    variants: vec![
                        (
                            Literal::Int(0),
                            CustomType::Unit { name: CustomTypeName(String::from("noop")) },
                        ),
                        (
                            Literal::Int(1),
                            CustomType::Struct {
                                name: CustomTypeName(String::from("jump")),
                                fields: vec![(
                                    FieldName(String::from("height")),
                                    FieldType::Integer(IntegerType::U8),
                                )],
                            },
                        ),
                    ],
                }),
            ),
        ],
    };
    let bytes = vec![1u8, 42u8];
    let (v, end) = CustomTypeGenerator::decode(&t, &shared, &bytes, 0).unwrap();
    assert_eq!(end, 2);
    // The key is re-derived from the enum's discriminant on encode.
    assert_eq!(CustomTypeGenerator::encode(&t, &shared, &v).unwrap(), bytes);
    // An unmatched sibling selector fails.
    let bad = vec![9u8, 42u8];
    assert!(CustomTypeGenerator::decode(&t, &shared, &bad, 0).is_err());
}
