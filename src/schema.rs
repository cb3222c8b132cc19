//! The static shape of a record type and the values that fill it.
use vstd::prelude::*;
use vstd::utf8::*;

verus! {

broadcast use vstd::utf8::encode_utf8_decode_utf8;

/// The two primitive types a field can have.
#[derive(Clone, Copy, Debug, PartialEq, Eq, Structural)]
pub enum FieldType {
    UInt32,
    Utf8String,
}

/// Errors raised while a schema is registered; no codec exists for a type
/// whose schema raises one.
#[derive(Clone, Copy, Debug, PartialEq, Eq, Structural)]
pub enum SchemaError {
    /// A field's declared type is neither `u32` nor `String`.
    UnsupportedFieldType,
    /// An attribute key other than `rename`, `skip` and `skip_serializing_if`,
    /// or one of those written in the wrong form.
    UnsupportedAttribute,
    /// `skip_serializing_if` was given without `rename` on the same field.
    RenameRequiredForConditionalSkip,
    /// `skip_serializing_if` names a predicate that the renderer does not know.
    UnknownPredicate,
}

/// One attribute as written on a field: a key, and a value for the
/// `key = "value"` form.
#[derive(Clone, Debug, PartialEq, Eq)]
pub struct RawAttribute {
    pub key: String,
    pub value: Option<String>,
}

/// One declared field.
#[derive(Clone, Debug, PartialEq, Eq)]
pub struct FieldSchema {
    pub name: String,
    pub type_tag: FieldType,
    pub raw_attributes: Vec<RawAttribute>,
}

/// The ordered fields of a record type; the order fixes both the binary
/// layout and the text rendering order.
#[derive(Clone, Debug, PartialEq, Eq)]
pub struct RecordSchema {
    pub fields: Vec<FieldSchema>,
}

/// The value of one field of a record instance. `Absent` stands for an
/// optional field that holds nothing; a present optional value is carried as
/// the primitive it holds.
#[derive(Clone, Debug, PartialEq, Eq)]
pub enum Value {
    UInt32(u32),
    Utf8String(String),
    Absent,
}

/// The mathematical content of a [`Value`].
pub ghost enum ValueModel {
    UInt32(u32),
    Utf8String(Seq<char>),
    Absent,
}

impl View for Value {
    type V = ValueModel;

    open spec fn view(&self) -> ValueModel {
        match self {
            Value::UInt32(n) => ValueModel::UInt32(*n),
            Value::Utf8String(s) => ValueModel::Utf8String(s@),
            Value::Absent => ValueModel::Absent,
        }
    }
}

/// The models of a sequence of values.
pub open spec fn values_model(vs: Seq<Value>) -> Seq<ValueModel> {
    vs.map_values(|v: Value| v@)
}

/// The declared types of a schema's fields, in order.
pub open spec fn field_types(fields: Seq<FieldSchema>) -> Seq<FieldType> {
    fields.map_values(|f: FieldSchema| f.type_tag)
}

/// A value that a field of type `t` can hold in a binary record.
pub open spec fn value_has_type(v: ValueModel, t: FieldType) -> bool {
    match t {
        FieldType::UInt32 => v is UInt32,
        FieldType::Utf8String => v is Utf8String,
    }
}

/// `vs` holds one value of the right type for each field type in `ts`.
pub open spec fn conforms(ts: Seq<FieldType>, vs: Seq<ValueModel>) -> bool {
    &&& ts.len() == vs.len()
    &&& forall|i: int| 0 <= i < ts.len() ==> value_has_type(#[trigger] vs[i], ts[i])
}

/// The type a declared type name stands for: the last path segment
/// `u32` or `String`.
pub open spec fn type_of_name(name: Seq<char>) -> Result<FieldType, SchemaError> {
    if name == "u32"@ {
        Ok(FieldType::UInt32)
    } else if name == "String"@ {
        Ok(FieldType::Utf8String)
    } else {
        Err(SchemaError::UnsupportedFieldType)
    }
}

/// Whether two strings hold the same characters, compared through their
/// UTF-8 bytes.
pub fn text_eq(a: &str, b: &str) -> (r: bool)
    ensures
        r == (a@ == b@),
{
    let x = a.as_bytes();
    let y = b.as_bytes();
    if x.len() != y.len() {
        return false;
    }
    let mut i: usize = 0;
    while i < x.len()
        invariant
            x@ == encode_utf8(a@),
            y@ == encode_utf8(b@),
            x@.len() == y@.len(),
            i <= x@.len(),
            forall|j: int| 0 <= j < i ==> x@[j] == y@[j],
        decreases x@.len() - i,
    {
        if x[i] != y[i] {
            return false;
        }
        i = i + 1;
    }
    assert(x@ =~= y@);
    assert(decode_utf8(encode_utf8(a@)) == a@);
    assert(decode_utf8(encode_utf8(b@)) == b@);
    true
}

/// The field type that a declared type name stands for.
pub fn parse_type_name(name: &str) -> (r: Result<FieldType, SchemaError>)
    ensures
        r == type_of_name(name@),
{
    if text_eq(name, "u32") {
        Ok(FieldType::UInt32)
    } else if text_eq(name, "String") {
        Ok(FieldType::Utf8String)
    } else {
        Err(SchemaError::UnsupportedFieldType)
    }
}

} // verus!
