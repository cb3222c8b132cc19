use record_codec::codec::RecordCodec;
use record_codec::resolve::{resolve_schema, FieldPolicy, Predicate};
use record_codec::schema::{FieldSchema, FieldType, RawAttribute, RecordSchema, SchemaError, Value};
use record_codec::text::serde_json;

fn attr(key: &str, value: Option<&str>) -> RawAttribute {
    RawAttribute { key: key.to_string(), value: value.map(|v| v.to_string()) }
}

fn field(name: &str, type_tag: FieldType, raw_attributes: Vec<RawAttribute>) -> FieldSchema {
    FieldSchema { name: name.to_string(), type_tag, raw_attributes }
}

fn person_schema() -> RecordSchema {
    RecordSchema {
        fields: vec![
            field(
                "name",
                FieldType::Utf8String,
                vec![attr("skip_serializing_if", Some("Option::is_none")), attr("rename", Some("username"))],
            ),
            field("email", FieldType::Utf8String, Vec::new()),
            field("password", FieldType::Utf8String, Vec::new()),
        ],
    }
}

#[test]
fn present_name_renders_under_rename() {
    let codec = RecordCodec::register(person_schema()).unwrap();
    let record = vec![
        Value::Utf8String("mayank".to_string()),
        Value::Utf8String("value".to_string()),
        Value::Utf8String("value".to_string()),
    ];
    assert_eq!(codec.render(&record), "{ \"username\": \"mayank\", \"email\": \"value\", \"password\": \"value\" }");
}

#[test]
fn absent_name_disappears() {
    let codec = RecordCodec::register(person_schema()).unwrap();
    let record = vec![Value::Absent, Value::Utf8String("value".to_string()), Value::Utf8String("value".to_string())];
    assert_eq!(codec.render(&record), "{ \"email\": \"value\", \"password\": \"value\" }");
}

#[test]
fn integers_render_as_bare_digits() {
    let schema = RecordSchema {
        fields: vec![
            field("a", FieldType::UInt32, Vec::new()),
            field("b", FieldType::UInt32, Vec::new()),
            field("c", FieldType::UInt32, Vec::new()),
        ],
    };
    let policies = resolve_schema(&schema).unwrap();
    let record = vec![Value::UInt32(0), Value::UInt32(200), Value::UInt32(u32::MAX)];
    assert_eq!(serde_json(&policies, &record), "{ \"a\": 0, \"b\": 200, \"c\": 4294967295 }");
}

#[test]
fn skipped_field_leaves_gap_in_order() {
    let schema = RecordSchema {
        fields: vec![
            field("first", FieldType::UInt32, Vec::new()),
            field("secret", FieldType::Utf8String, vec![attr("skip", None), attr("skip_serializing_if", Some("x"))]),
            field("last", FieldType::Utf8String, vec![attr("rename", Some("final"))]),
        ],
    };
    let codec = RecordCodec::register(schema).unwrap();
    let record = vec![Value::UInt32(7), Value::Utf8String("hidden".to_string()), Value::Utf8String("end".to_string())];
    assert_eq!(codec.render(&record), "{ \"first\": 7, \"final\": \"end\" }");
}

#[test]
fn strings_are_not_escaped() {
    let schema = RecordSchema { fields: vec![field("q", FieldType::Utf8String, Vec::new())] };
    let codec = RecordCodec::register(schema).unwrap();
    assert_eq!(codec.render(&vec![Value::Utf8String("a\"b".to_string())]), "{ \"q\": \"a\"b\" }");
}

#[test]
fn nothing_rendered_gives_empty_braces() {
    let schema = RecordSchema { fields: vec![field("x", FieldType::UInt32, vec![attr("skip", None)])] };
    let codec = RecordCodec::register(schema).unwrap();
    assert_eq!(codec.render(&vec![Value::UInt32(1)]), "{  }");
    let empty = RecordCodec::register(RecordSchema { fields: Vec::new() }).unwrap();
    assert_eq!(empty.render(&Vec::new()), "{  }");
}

#[test]
fn absent_without_conditional_skip_renders_none() {
    let schema = RecordSchema { fields: vec![field("x", FieldType::Utf8String, Vec::new())] };
    let codec = RecordCodec::register(schema).unwrap();
    assert_eq!(codec.render(&vec![Value::Absent]), "{ \"x\": None }");
}

#[test]
fn conditional_skip_without_rename_is_refused() {
    let schema = RecordSchema {
        fields: vec![field("name", FieldType::Utf8String, vec![attr("skip_serializing_if", Some("Option::is_none"))])],
    };
    assert_eq!(resolve_schema(&schema).unwrap_err(), SchemaError::RenameRequiredForConditionalSkip);
    assert!(matches!(RecordCodec::register(schema), Err(SchemaError::RenameRequiredForConditionalSkip)));
}

#[test]
fn unknown_attribute_is_refused() {
    let schema = RecordSchema { fields: vec![field("a", FieldType::UInt32, vec![attr("flatten", None)])] };
    assert_eq!(resolve_schema(&schema).unwrap_err(), SchemaError::UnsupportedAttribute);
    let wrong_form = RecordSchema { fields: vec![field("a", FieldType::UInt32, vec![attr("rename", None)])] };
    assert_eq!(resolve_schema(&wrong_form).unwrap_err(), SchemaError::UnsupportedAttribute);
    let skip_with_value = RecordSchema { fields: vec![field("a", FieldType::UInt32, vec![attr("skip", Some("yes"))])] };
    assert_eq!(resolve_schema(&skip_with_value).unwrap_err(), SchemaError::UnsupportedAttribute);
}

#[test]
fn unknown_predicate_is_refused() {
    let schema = RecordSchema {
        fields: vec![field("a", FieldType::UInt32, vec![attr("rename", Some("b")), attr("skip_serializing_if", Some("is_zero"))])],
    };
    assert_eq!(resolve_schema(&schema).unwrap_err(), SchemaError::UnknownPredicate);
}

#[test]
fn first_failing_field_decides_error() {
    let schema = RecordSchema {
        fields: vec![
            field("ok", FieldType::UInt32, Vec::new()),
            field("a", FieldType::UInt32, vec![attr("skip_serializing_if", Some("Option::is_none"))]),
            field("b", FieldType::UInt32, vec![attr("bogus", None)]),
        ],
    };
    assert_eq!(resolve_schema(&schema).unwrap_err(), SchemaError::RenameRequiredForConditionalSkip);
}

#[test]
fn policies_follow_directives() {
    let policies = resolve_schema(&person_schema()).unwrap();
    assert_eq!(
        policies,
        vec![
            FieldPolicy { effective_name: "username".to_string(), skip: false, skip_if: Some(Predicate::IsAbsent) },
            FieldPolicy { effective_name: "email".to_string(), skip: false, skip_if: None },
            FieldPolicy { effective_name: "password".to_string(), skip: false, skip_if: None },
        ]
    );
    let twice = RecordSchema {
        fields: vec![field("n", FieldType::UInt32, vec![attr("rename", Some("one")), attr("rename", Some("two"))])],
    };
    assert_eq!(resolve_schema(&twice).unwrap()[0].effective_name, "two");
}
