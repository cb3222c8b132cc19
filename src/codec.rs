//! A record type registered once: its schema and the policies resolved from
//! it, reused read-only by every encode, decode and render.
use vstd::prelude::*;
use crate::binary::{decoding, deserialize_struct, encoding, serialize_struct, DecodeError, EncodeError};
use crate::resolve::{first_error_is, resolve_schema, resolved_as, schema_resolves, FieldPolicy, PolicyModel};
use crate::schema::{conforms, field_types, values_model, RecordSchema, SchemaError, Value, ValueModel};
use crate::text::{policies_model, rendering, serde_json};

verus! {

/// The codecs of one record type. Only [`RecordCodec::register`] builds one,
/// and only from a schema whose every field resolves.
pub struct RecordCodec {
    schema: RecordSchema,
    policies: Vec<FieldPolicy>,
}

impl RecordCodec {
    /// The schema the codec was registered with.
    pub closed spec fn schema_spec(&self) -> RecordSchema {
        self.schema
    }

    /// The policies resolved from the schema, one per field.
    pub closed spec fn policies_spec(&self) -> Seq<PolicyModel> {
        policies_model(self.policies@)
    }

    pub open spec fn wf(&self) -> bool {
        resolved_as(self.schema_spec().fields@, self.policies_spec())
    }

    /// Resolves every field's policy; fails with the error of the first field
    /// that does not resolve.
    pub fn register(schema: RecordSchema) -> (r: Result<RecordCodec, SchemaError>)
        ensures
            r is Ok <==> schema_resolves(schema.fields@),
            match r {
                Ok(c) => c.wf() && c.schema_spec() == schema,
                Err(e) => first_error_is(schema.fields@, e),
            },
    {
        match resolve_schema(&schema) {
            Ok(policies) => {
                let c = RecordCodec { schema, policies };
                assert(c.policies_spec() =~= policies_model(policies@));
                Ok(c)
            },
            Err(e) => Err(e),
        }
    }

    pub fn schema(&self) -> (r: &RecordSchema)
        ensures
            *r == self.schema_spec(),
    {
        &self.schema
    }

    pub fn policies(&self) -> (r: &Vec<FieldPolicy>)
        ensures
            policies_model(r@) == self.policies_spec(),
    {
        &self.policies
    }

    /// Encodes a record in the binary layout of the schema.
    pub fn encode(&self, record: &Vec<Value>) -> (r: Result<Vec<u8>, EncodeError>)
        requires
            conforms(field_types(self.schema_spec().fields@), values_model(record@)),
        ensures
            match r {
                Ok(b) => encoding(field_types(self.schema_spec().fields@), values_model(record@))
                    == Ok::<Seq<u8>, EncodeError>(b@),
                Err(e) => encoding(field_types(self.schema_spec().fields@), values_model(record@))
                    == Err::<Seq<u8>, EncodeError>(e),
            },
    {
        serialize_struct(&self.schema, record)
    }

    /// Decodes a record from the front of `bytes`.
    pub fn decode(&self, bytes: &[u8]) -> (r: Result<Vec<Value>, DecodeError>)
        ensures
            match r {
                Ok(vs) => decoding(field_types(self.schema_spec().fields@), bytes@) == Ok::<
                    Seq<ValueModel>,
                    DecodeError,
                >(values_model(vs@)),
                Err(e) => decoding(field_types(self.schema_spec().fields@), bytes@) == Err::<
                    Seq<ValueModel>,
                    DecodeError,
                >(e),
            },
    {
        deserialize_struct(&self.schema, bytes)
    }

    /// Renders a record, one value per field, as text.
    pub fn render(&self, record: &Vec<Value>) -> (r: String)
        requires
            self.wf(),
            record@.len() == self.schema_spec().fields@.len(),
        ensures
            r@ == rendering(self.policies_spec(), values_model(record@)),
    {
        serde_json(&self.policies, record)
    }
}

} // verus!
