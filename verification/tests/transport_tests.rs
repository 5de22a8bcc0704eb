use feather_protocol::custom_type::{
    BitField, CustomType, FieldType, IntegerType, PrimitiveType,
};
use feather_protocol::generation::CustomTypeGenerator;
use feather_protocol::network::codec::{Compressor, Delimiter, DelimiterState, PacketCodec};
use feather_protocol::primitives::{CustomTypeName, FieldName, FlagName, PacketStage};
use feather_protocol::types::{Error, Uuid, read_string, read_uuid, write_string, write_uuid};
use feather_protocol::value::Value;

// Mirrors the original codec round-trip check: a packet payload encoded
// through the schema codec decodes back to the same value.
#[test]
fn encoder_test() {
    let t = CustomType::Struct {
        name: CustomTypeName(String::from("position")),
        fields: vec![
            (FieldName(String::from("x")), FieldType::Integer(IntegerType::I32)),
            (FieldName(String::from("y")), FieldType::Integer(IntegerType::I16)),
            (
                FieldName(String::from("tag")),
                FieldType::Primitive(PrimitiveType::Str(100)),
            ),
        ],
    };
    let shared: Vec<CustomType> = Vec::new();
    let v = Value::StructVal(vec![
        (String::from("x"), Value::I32(-7)),
        (String::from("y"), Value::I16(300)),
        (String::from("tag"), Value::Str(String::from("spawn"))),
    ]);
    let bytes = CustomTypeGenerator::encode(&t, &shared, &v).unwrap();
    let (back, end) = CustomTypeGenerator::decode(&t, &shared, &bytes, 0).unwrap();
    assert_eq!(end, bytes.len());
    let re = CustomTypeGenerator::encode(&t, &shared, &back).unwrap();
    assert_eq!(re, bytes);
}

// Mirrors the original transport test: a codec is built over a delimiter
// and carried through the stage transitions of a connection.
#[test]
fn test() {
    let mut codec = PacketCodec::new(Delimiter::new(50_000));
    assert_eq!(codec.stage, PacketStage::Handshaking);
    codec.set_stage(PacketStage::Login);
    assert_eq!(codec.stage, PacketStage::Login);
    codec.set_stage(PacketStage::Play);
    assert_eq!(codec.stage, PacketStage::Play);
    assert_eq!(codec.delimiter.max_length, 50_000);
}

#[test]
fn frame_round_trip_chunked() {
    // One framed payload, fed one byte at a time, yields no frame until the
    // last byte arrives, then exactly the payload.
    let payload: Vec<u8> = (0u8..100).collect();
    let mut sender = PacketCodec::new(Delimiter::new(1000));
    let wire = sender.encode(&payload).unwrap();
    let mut receiver = PacketCodec::new(Delimiter::new(1000));
    let mut buffer: Vec<u8> = Vec::new();
    let mut produced: Option<Vec<u8>> = None;
    for (i, b) in wire.iter().enumerate() {
        buffer.push(*b);
        match receiver.decode(&mut buffer).unwrap() {
            Some(frame) => {
                assert_eq!(i, wire.len() - 1, "a frame may only appear on the last byte");
                produced = Some(frame);
            },
            None => assert!(i < wire.len() - 1),
        }
    }
    assert_eq!(produced.unwrap(), payload);
    assert!(buffer.is_empty());
    assert!(matches!(receiver.delimiter.state, DelimiterState::Head));
}

#[test]
fn frame_too_large_is_fatal() {
    let payload: Vec<u8> = vec![1, 2, 3, 4, 5, 6, 7, 8];
    let mut sender = PacketCodec::new(Delimiter::new(1000));
    let wire = sender.encode(&payload).unwrap();
    let mut receiver = PacketCodec::new(Delimiter::new(4));
    let mut buffer = wire;
    assert!(matches!(receiver.decode(&mut buffer), Err(Error::ValueTooLarge)));
}

#[test]
fn compression_threshold() {
    // At or below the threshold: a zero marker and the payload unchanged.
    let small: Vec<u8> = vec![9; 16];
    let c = Compressor { compression_threshold: 16 };
    let body = c.compress(&small).unwrap();
    assert_eq!(body[0], 0);
    assert_eq!(&body[1..], &small[..]);
    assert_eq!(c.decompress(&body).unwrap(), small);
    // Above the threshold: the marker carries the original size and the
    // rest is compressed, but decoding still yields the payload.
    let big: Vec<u8> = vec![7; 300];
    let body = c.compress(&big).unwrap();
    assert_eq!(body[0], 0xac);
    assert_eq!(body[1], 0x02);
    assert_ne!(&body[2..], &big[..]);
    assert!(body.len() < big.len());
    assert_eq!(c.decompress(&body).unwrap(), big);
}

#[test]
fn compressed_transport_round_trip() {
    let payload: Vec<u8> = vec![42; 600];
    let mut sender = PacketCodec::new(Delimiter::new(100_000));
    sender.enable_compression(256);
    let wire = sender.encode(&payload).unwrap();
    assert!(wire.len() < payload.len());
    let mut receiver = PacketCodec::new(Delimiter::new(100_000));
    receiver.enable_compression(256);
    let mut buffer = wire;
    let frame = receiver.decode(&mut buffer).unwrap().unwrap();
    assert_eq!(frame, payload);
}

#[test]
fn encrypted_transport_round_trip() {
    let key: Vec<u8> = (1u8..17).collect();
    let iv: Vec<u8> = (100u8..116).collect();
    let payload: Vec<u8> = b"glowing regeneration".to_vec();
    let mut sender = PacketCodec::new(Delimiter::new(1000));
    sender.enable_encryption(&key, &iv).unwrap();
    let wire = sender.encode(&payload).unwrap();
    // The ciphertext differs from the plain framing.
    let mut plain_sender = PacketCodec::new(Delimiter::new(1000));
    let plain_wire = plain_sender.encode(&payload).unwrap();
    assert_eq!(wire.len(), plain_wire.len());
    assert_ne!(wire, plain_wire);
    // Split the ciphertext into two arbitrary chunks; the receiver must
    // never decrypt the same bytes twice.
    let mut receiver = PacketCodec::new(Delimiter::new(1000));
    receiver.enable_encryption(&key, &iv).unwrap();
    let mut buffer: Vec<u8> = Vec::new();
    buffer.extend_from_slice(&wire[..3]);
    assert!(receiver.decode(&mut buffer).unwrap().is_none());
    buffer.extend_from_slice(&wire[3..]);
    let frame = receiver.decode(&mut buffer).unwrap().unwrap();
    assert_eq!(frame, payload);
    // A wrong key does not reproduce the payload.
    let other_key: Vec<u8> = vec![0; 16];
    let mut wrong = PacketCodec::new(Delimiter::new(1000));
    wrong.enable_encryption(&other_key, &iv).unwrap();
    let mut sender2 = PacketCodec::new(Delimiter::new(1000));
    sender2.enable_encryption(&key, &iv).unwrap();
    let mut buffer2 = sender2.encode(&payload).unwrap();
    match wrong.decode(&mut buffer2) {
        Ok(Some(frame)) => assert_ne!(frame, payload),
        Ok(None) => {},
        Err(_) => {},
    }
    // Key material must be exactly sixteen bytes.
    let mut bad = PacketCodec::new(Delimiter::new(1000));
    assert!(bad.enable_encryption(&key[..5], &iv).is_err());
}

#[test]
fn string_codec_limits() {
    let mut buf: Vec<u8> = Vec::new();
    let n = write_string(&mut buf, &String::from("hi"), 100).unwrap();
    assert_eq!(n, 3);
    assert_eq!(buf, vec![2, b'h', b'i']);
    let (s, end) = read_string(&buf, 0, 100).unwrap();
    assert_eq!(s, "hi");
    assert_eq!(end, 3);
    // The declared maximum is enforced on both sides.
    let mut out: Vec<u8> = Vec::new();
    assert!(matches!(
        write_string(&mut out, &String::from("toolong"), 3),
        Err(Error::ValueTooLarge)
    ));
    assert!(matches!(read_string(&buf, 0, 1), Err(Error::ValueTooLarge)));
    // Invalid UTF-8 content is malformed.
    let bad = vec![2u8, 0xff, 0xfe];
    assert!(matches!(read_string(&bad, 0, 100), Err(Error::Malformed)));
    // A truncated body only asks for more input.
    let short = vec![5u8, b'a'];
    assert!(matches!(read_string(&short, 0, 100), Err(Error::NotEnoughBytes)));
}

#[test]
fn bool_and_uuid_codec() {
    let t = CustomType::Struct {
        name: CustomTypeName(String::from("flagged")),
        fields: vec![(FieldName(String::from("on")), FieldType::Primitive(PrimitiveType::Boolean))],
    };
    let shared: Vec<CustomType> = Vec::new();
    assert!(CustomTypeGenerator::decode(&t, &shared, &[2u8], 0).is_err());
    let (v, _) = CustomTypeGenerator::decode(&t, &shared, &[1u8], 0).unwrap();
    assert_eq!(CustomTypeGenerator::encode(&t, &shared, &v).unwrap(), vec![1u8]);

    let u = Uuid { msb: 0x0123_4567_89ab_cdef, lsb: 0xfedc_ba98_7654_3210 };
    let mut buf: Vec<u8> = Vec::new();
    write_uuid(&mut buf, u);
    assert_eq!(buf.len(), 16);
    assert_eq!(buf[0], 0x01);
    assert_eq!(buf[15], 0x10);
    let (back, end) = read_uuid(&buf, 0).unwrap();
    assert_eq!(end, 16);
    assert_eq!(back, u);
}

#[test]
fn bitfield_and_bitflags_round_trip() {
    let bf = CustomType::BitField {
        name: CustomTypeName(String::from("packed")),
        fields: vec![
            (FieldName(String::from("kind")), BitField::U8(3)),
            (FieldName(String::from("delta")), BitField::I8(5)),
        ],
    };
    let shared: Vec<CustomType> = Vec::new();
    // One byte carrier: kind in the top three bits, delta sign-extended
    // from the low five.
    let bytes = vec![0b101_11111u8];
    let (v, end) = CustomTypeGenerator::decode(&bf, &shared, &bytes, 0).unwrap();
    assert_eq!(end, 1);
    match &v {
        Value::BitFieldVal(fields) => {
            assert_eq!(fields.len(), 2);
            assert_eq!(fields[0].0, "kind");
            assert_eq!(fields[0].1, 0b101);
            assert_eq!(fields[1].0, "delta");
            assert_eq!(fields[1].1, -1);
        },
        other => panic!("expected a bit-field value, got {:?}", other),
    }
    assert_eq!(CustomTypeGenerator::encode(&bf, &shared, &v).unwrap(), bytes);

    let flags = CustomType::BitFlags {
        name: CustomTypeName(String::from("abilities")),
        field_type: IntegerType::U8,
        flags: vec![
            (0x01, FlagName(String::from("invulnerable"))),
            (0x02, FlagName(String::from("flying"))),
            (0x04, FlagName(String::from("allow_flying"))),
        ],
    };
    let (v, _) = CustomTypeGenerator::decode(&flags, &shared, &[0x05u8], 0).unwrap();
    match &v {
        Value::Flags(names) => {
            assert_eq!(names.len(), 2);
            assert_eq!(names[0], "invulnerable");
            assert_eq!(names[1], "allow_flying");
        },
        other => panic!("expected a flag set, got {:?}", other),
    }
    assert_eq!(CustomTypeGenerator::encode(&flags, &shared, &v).unwrap(), vec![0x05u8]);
}

#[test]
fn nbt_blob_keeps_exact_extent() {
    // An empty named compound: compound tag, empty name, end tag. The
    // decoder must consume exactly the blob, not the trailing bytes.
    let t = CustomType::Struct {
        name: CustomTypeName(String::from("entity_data")),
        fields: vec![
            (FieldName(String::from("data")), FieldType::Primitive(PrimitiveType::Nbt)),
            (FieldName(String::from("after")), FieldType::Integer(IntegerType::U8)),
        ],
    };
    let shared: Vec<CustomType> = Vec::new();
    let bytes = vec![0x0au8, 0x00, 0x00, 0x00, 0x2a];
    let (v, end) = CustomTypeGenerator::decode(&t, &shared, &bytes, 0).unwrap();
    assert_eq!(end, 5);
    match &v {
        Value::StructVal(fields) => {
            assert!(matches!(&fields[0].1, Value::NbtBlob(raw) if raw.len() == 4));
            assert!(matches!(fields[1].1, Value::U8(0x2a)));
        },
        other => panic!("expected a struct value, got {:?}", other),
    }
    assert_eq!(CustomTypeGenerator::encode(&t, &shared, &v).unwrap(), bytes);
}

#[test]
fn shared_types_and_options() {
    let shared = vec![CustomType::Struct {
        name: CustomTypeName(String::from("slot")),
        fields: vec![(FieldName(String::from("id")), FieldType::Integer(IntegerType::VarInt))],
    }];
    let t = CustomType::Struct {
        name: CustomTypeName(String::from("window")),
        fields: vec![(
            FieldName(String::from("held")),
            FieldType::Primitive(PrimitiveType::Optional(Box::new(FieldType::Primitive(
                PrimitiveType::Shared(CustomTypeName(String::from("slot"))),
            )))),
        )],
    };
    // Absent: a single false byte.
    let (v, _) = CustomTypeGenerator::decode(&t, &shared, &[0u8], 0).unwrap();
    assert_eq!(CustomTypeGenerator::encode(&t, &shared, &v).unwrap(), vec![0u8]);
    // Present: the flag, then the shared struct's fields.
    let bytes = vec![1u8, 0x07];
    let (v, end) = CustomTypeGenerator::decode(&t, &shared, &bytes, 0).unwrap();
    assert_eq!(end, 2);
    assert_eq!(CustomTypeGenerator::encode(&t, &shared, &v).unwrap(), bytes);
    // A dangling shared name is malformed.
    let broken = CustomType::Struct {
        name: CustomTypeName(String::from("window")),
        fields: vec![(
            FieldName(String::from("held")),
            FieldType::Primitive(PrimitiveType::Shared(CustomTypeName(String::from("missing")))),
        )],
    };
    assert!(matches!(
        CustomTypeGenerator::decode(&broken, &shared, &[0u8], 0),
        Err(Error::Malformed)
    ));
}

#[test]
fn nbt_negative_length_is_malformed() {
    // A compound whose first entry is a byte array with a negative length:
    // a hostile packet that must be rejected as malformed, never trusted
    // as a capacity.
    let t = CustomType::Struct {
        name: CustomTypeName(String::from("entity_data")),
        fields: vec![(FieldName(String::from("data")), FieldType::Primitive(PrimitiveType::Nbt))],
    };
    let shared: Vec<CustomType> = Vec::new();
    let bytes = vec![0x0au8, 0x00, 0x00, 0x07, 0x00, 0x00, 0xff, 0xff, 0xff, 0xff];
    assert!(matches!(
        CustomTypeGenerator::decode(&t, &shared, &bytes, 0),
        Err(Error::Malformed)
    ));
    // The same for a negative list count and for a truncated array body.
    let neg_list = vec![
        0x0au8, 0x00, 0x00, 0x09, 0x00, 0x00, 0x01, 0xff, 0xff, 0xff, 0xff,
    ];
    assert!(matches!(
        CustomTypeGenerator::decode(&t, &shared, &neg_list, 0),
        Err(Error::Malformed)
    ));
    let truncated = vec![0x0au8, 0x00, 0x00, 0x07, 0x00, 0x00, 0x00, 0x00, 0x00, 0x09, 0x01];
    assert!(matches!(
        CustomTypeGenerator::decode(&t, &shared, &truncated, 0),
        Err(Error::Malformed)
    ));
}

#[test]
fn nbt_nested_blob_extent() {
    // A compound holding a short, a string and a list of two bytes; the
    // skipper must walk all of it and stop exactly at the end marker.
    let mut blob: Vec<u8> = Vec::new();
    blob.extend_from_slice(&[0x0a, 0x00, 0x01, b'r']);
    blob.extend_from_slice(&[0x02, 0x00, 0x01, b's', 0x12, 0x34]);
    blob.extend_from_slice(&[0x08, 0x00, 0x01, b't', 0x00, 0x02, b'h', b'i']);
    blob.extend_from_slice(&[0x09, 0x00, 0x01, b'l', 0x01, 0x00, 0x00, 0x00, 0x02, 0x07, 0x08]);
    blob.push(0x00);
    let mut bytes = blob.clone();
    bytes.push(0x2a);
    let end = feather_protocol::types::nbt_blob_extent(&bytes, 0).unwrap();
    assert_eq!(end, blob.len());
}

#[test]
fn decode_keeps_delimiter_sane_under_encryption() {
    let key: Vec<u8> = vec![3; 16];
    let iv: Vec<u8> = vec![4; 16];
    let payload: Vec<u8> = vec![5; 20];
    let mut sender = PacketCodec::new(Delimiter::new(1000));
    sender.enable_encryption(&key, &iv).unwrap();
    let wire = sender.encode(&payload).unwrap();
    let mut receiver = PacketCodec::new(Delimiter::new(1000));
    receiver.enable_encryption(&key, &iv).unwrap();
    let mut buffer: Vec<u8> = Vec::new();
    // After a partial feed the machine waits for a body it cannot have yet.
    buffer.extend_from_slice(&wire[..5]);
    assert!(receiver.decode(&mut buffer).unwrap().is_none());
    match receiver.delimiter.state {
        DelimiterState::Head => {},
        DelimiterState::Data(n) => assert!(buffer.len() < n),
    }
    // After the frame comes out the machine is reset.
    buffer.extend_from_slice(&wire[5..]);
    let frame = receiver.decode(&mut buffer).unwrap().unwrap();
    assert_eq!(frame, payload);
    assert!(matches!(receiver.delimiter.state, DelimiterState::Head));
}
