use record_codec::schema::{parse_type_name, text_eq, FieldType, SchemaError};

#[test]
fn type_names_map_to_field_types() {
    assert_eq!(parse_type_name("u32"), Ok(FieldType::UInt32));
    assert_eq!(parse_type_name("String"), Ok(FieldType::Utf8String));
    assert_eq!(parse_type_name("u64"), Err(SchemaError::UnsupportedFieldType));
    assert_eq!(parse_type_name("string"), Err(SchemaError::UnsupportedFieldType));
}

#[test]
fn text_equality_compares_characters() {
    assert!(text_eq("skip", "skip"));
    assert!(!text_eq("skip", "skips"));
    assert!(!text_eq("é", "e"));
    assert!(text_eq("", ""));
}
