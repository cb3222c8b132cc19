use record_codec::binary::{deserialize_struct, serialize_struct, DecodeError};
use record_codec::codec::RecordCodec;
use record_codec::schema::{FieldSchema, FieldType, RawAttribute, RecordSchema, Value};

fn field(name: &str, type_tag: FieldType) -> FieldSchema {
    FieldSchema { name: name.to_string(), type_tag, raw_attributes: Vec::new() }
}

fn swap_schema() -> RecordSchema {
    RecordSchema {
        fields: vec![
            field("base_asset", FieldType::Utf8String),
            field("base_qty", FieldType::UInt32),
            field("quote_asset", FieldType::Utf8String),
            field("quote_qty", FieldType::UInt32),
        ],
    }
}

fn swap_value() -> Vec<Value> {
    vec![
        Value::Utf8String("USDC".to_string()),
        Value::UInt32(200),
        Value::Utf8String("BTC".to_string()),
        Value::UInt32(300),
    ]
}

fn swap_bytes() -> Vec<u8> {
    let mut b = vec![0, 0, 0, 4];
    b.extend_from_slice(b"USDC");
    b.extend_from_slice(&[0, 0, 0, 200]);
    b.extend_from_slice(&[0, 0, 0, 3]);
    b.extend_from_slice(b"BTC");
    b.extend_from_slice(&[0, 0, 1, 44]);
    b
}

#[test]
fn swap_encodes_to_expected_bytes() {
    let bytes = serialize_struct(&swap_schema(), &swap_value()).unwrap();
    assert_eq!(bytes, swap_bytes());
}

#[test]
fn swap_bytes_decode_to_original() {
    let decoded = deserialize_struct(&swap_schema(), &swap_bytes()).unwrap();
    assert_eq!(decoded, swap_value());
}

#[test]
fn round_trip_through_registered_codec() {
    let codec = RecordCodec::register(swap_schema()).unwrap();
    let record = vec![
        Value::Utf8String(String::new()),
        Value::UInt32(u32::MAX),
        Value::Utf8String("héllo, wörld ✓".to_string()),
        Value::UInt32(0),
    ];
    let bytes = codec.encode(&record).unwrap();
    assert_eq!(codec.decode(&bytes).unwrap(), record);
}

#[test]
fn multibyte_string_length_counts_bytes() {
    let schema = RecordSchema { fields: vec![field("s", FieldType::Utf8String)] };
    let bytes = serialize_struct(&schema, &vec![Value::Utf8String("é✓".to_string())]).unwrap();
    assert_eq!(bytes, vec![0, 0, 0, 5, 0xc3, 0xa9, 0xe2, 0x9c, 0x93]);
    let back = deserialize_struct(&schema, &bytes).unwrap();
    assert_eq!(back, vec![Value::Utf8String("é✓".to_string())]);
}

#[test]
fn every_truncation_is_out_of_bounds() {
    let full = swap_bytes();
    for k in 0..full.len() {
        assert_eq!(deserialize_struct(&swap_schema(), &full[..k]), Err(DecodeError::OutOfBounds), "cut at {}", k);
    }
}

#[test]
fn trailing_bytes_are_ignored() {
    let mut bytes = swap_bytes();
    bytes.extend_from_slice(&[9, 9, 9]);
    assert_eq!(deserialize_struct(&swap_schema(), &bytes).unwrap(), swap_value());
}

#[test]
fn invalid_utf8_is_rejected() {
    let schema = RecordSchema { fields: vec![field("s", FieldType::Utf8String)] };
    let bytes = vec![0, 0, 0, 2, 0xff, 0xfe];
    assert_eq!(deserialize_struct(&schema, &bytes), Err(DecodeError::InvalidUtf8));
}

#[test]
fn length_prefix_past_end_is_out_of_bounds() {
    let schema = RecordSchema { fields: vec![field("s", FieldType::Utf8String)] };
    let bytes = vec![0xff, 0xff, 0xff, 0xff, b'a'];
    assert_eq!(deserialize_struct(&schema, &bytes), Err(DecodeError::OutOfBounds));
}

#[test]
fn empty_schema_encodes_to_nothing() {
    let schema = RecordSchema { fields: Vec::new() };
    assert_eq!(serialize_struct(&schema, &Vec::new()).unwrap(), Vec::<u8>::new());
    assert_eq!(deserialize_struct(&schema, &[1, 2, 3]).unwrap(), Vec::new());
}

#[test]
fn text_attributes_do_not_change_binary() {
    let plain = swap_schema();
    let mut dressed = swap_schema();
    dressed.fields[0].name = "other".to_string();
    dressed.fields[0].raw_attributes = vec![RawAttribute { key: "skip".to_string(), value: None }];
    dressed.fields[2].raw_attributes = vec![
        RawAttribute { key: "rename".to_string(), value: Some("q".to_string()) },
        RawAttribute { key: "skip_serializing_if".to_string(), value: Some("Option::is_none".to_string()) },
    ];
    let a = serialize_struct(&plain, &swap_value()).unwrap();
    let b = serialize_struct(&dressed, &swap_value()).unwrap();
    assert_eq!(a, b);
    assert_eq!(deserialize_struct(&dressed, &a).unwrap(), swap_value());
}
