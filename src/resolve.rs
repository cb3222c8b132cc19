//! Turning a field's raw attributes into the policy that text rendering follows.
use vstd::prelude::*;
use crate::schema::{text_eq, FieldSchema, RawAttribute, RecordSchema, SchemaError};

verus! {

/// A predicate that `skip_serializing_if` can name.
#[derive(Clone, Copy, Debug, PartialEq, Eq, Structural)]
pub enum Predicate {
    /// Holds of an optional field that holds nothing (`Option::is_none`).
    IsAbsent,
}

/// How one field is rendered as text.
#[derive(Clone, Debug, PartialEq, Eq)]
pub struct FieldPolicy {
    pub effective_name: String,
    pub skip: bool,
    pub skip_if: Option<Predicate>,
}

/// The mathematical content of a [`FieldPolicy`].
pub ghost struct PolicyModel {
    pub effective_name: Seq<char>,
    pub skip: bool,
    pub skip_if: Option<Predicate>,
}

impl View for FieldPolicy {
    type V = PolicyModel;

    open spec fn view(&self) -> PolicyModel {
        PolicyModel { effective_name: self.effective_name@, skip: self.skip, skip_if: self.skip_if }
    }
}

/// `rename = "<name>"`.
pub open spec fn is_rename(a: RawAttribute) -> bool {
    a.key@ == "rename"@ && a.value is Some
}

/// `skip`, with no value.
pub open spec fn is_skip(a: RawAttribute) -> bool {
    a.key@ == "skip"@ && a.value is None
}

/// `skip_serializing_if = "<predicate>"`.
pub open spec fn is_skip_if(a: RawAttribute) -> bool {
    a.key@ == "skip_serializing_if"@ && a.value is Some
}

pub open spec fn is_recognized(a: RawAttribute) -> bool {
    is_rename(a) || is_skip(a) || is_skip_if(a)
}

/// The value of the last `rename` among `attrs`: a later one overrides an
/// earlier one.
pub open spec fn last_rename(attrs: Seq<RawAttribute>) -> Option<Seq<char>>
    decreases attrs.len(),
{
    if attrs.len() == 0 {
        None
    } else if is_rename(attrs.last()) {
        Some(attrs.last().value->0@)
    } else {
        last_rename(attrs.drop_last())
    }
}

/// The value of the last `skip_serializing_if` among `attrs`.
pub open spec fn last_skip_if(attrs: Seq<RawAttribute>) -> Option<Seq<char>>
    decreases attrs.len(),
{
    if attrs.len() == 0 {
        None
    } else if is_skip_if(attrs.last()) {
        Some(attrs.last().value->0@)
    } else {
        last_skip_if(attrs.drop_last())
    }
}

pub open spec fn has_skip(attrs: Seq<RawAttribute>) -> bool {
    exists|i: int| 0 <= i < attrs.len() && is_skip(#[trigger] attrs[i])
}

pub open spec fn all_recognized(attrs: Seq<RawAttribute>) -> bool {
    forall|i: int| 0 <= i < attrs.len() ==> is_recognized(#[trigger] attrs[i])
}

/// The predicate a `skip_serializing_if` value names.
pub open spec fn predicate_named(name: Seq<char>) -> Option<Predicate> {
    if name == "Option::is_none"@ {
        Some(Predicate::IsAbsent)
    } else {
        None
    }
}

/// The policy of one field, or the schema error it raises.
///
/// Unrecognised attributes fail first. `skip` then wins over every other
/// directive. Otherwise a conditional skip needs a `rename` (a policy of this
/// library, not a necessity of the format) and must name a known predicate;
/// the effective name is the rename if given, else the declared name.
#[verifier::opaque]
pub open spec fn field_policy(f: FieldSchema) -> Result<PolicyModel, SchemaError> {
    let attrs = f.raw_attributes@;
    if !all_recognized(attrs) {
        Err(SchemaError::UnsupportedAttribute)
    } else if has_skip(attrs) {
        Ok(PolicyModel { effective_name: f.name@, skip: true, skip_if: None })
    } else {
        match last_skip_if(attrs) {
            Some(p) => match last_rename(attrs) {
                None => Err(SchemaError::RenameRequiredForConditionalSkip),
                Some(r) => match predicate_named(p) {
                    None => Err(SchemaError::UnknownPredicate),
                    Some(pred) => Ok(PolicyModel { effective_name: r, skip: false, skip_if: Some(pred) }),
                },
            },
            None => Ok(
                PolicyModel {
                    effective_name: match last_rename(attrs) {
                        Some(r) => r,
                        None => f.name@,
                    },
                    skip: false,
                    skip_if: None,
                },
            ),
        }
    }
}

/// Every field of `fields` resolves to a policy.
pub open spec fn schema_resolves(fields: Seq<FieldSchema>) -> bool {
    forall|i: int| 0 <= i < fields.len() ==> (#[trigger] field_policy(fields[i])) is Ok
}

/// `ps` holds the policy of each field of `fields`, in order.
pub open spec fn resolved_as(fields: Seq<FieldSchema>, ps: Seq<PolicyModel>) -> bool {
    &&& ps.len() == fields.len()
    &&& forall|i: int|
        0 <= i < ps.len() ==> field_policy(fields[i]) == Ok::<PolicyModel, SchemaError>(
            #[trigger] ps[i],
        )
}

/// The error that resolving `fields` raises: that of the first field that
/// fails.
pub open spec fn first_error_is(fields: Seq<FieldSchema>, e: SchemaError) -> bool {
    exists|i: int|
        0 <= i < fields.len() && field_policy(#[trigger] fields[i]) == Err::<PolicyModel, SchemaError>(
            e,
        ) && forall|j: int| 0 <= j < i ==> (#[trigger] field_policy(fields[j])) is Ok
}

/// What one raw attribute is.
enum Directive {
    Rename,
    Skip,
    SkipIf,
    Unsupported,
}

fn classify(a: &RawAttribute) -> (r: Directive)
    ensures
        r is Rename <==> is_rename(*a),
        r is Skip <==> is_skip(*a),
        r is SkipIf <==> is_skip_if(*a),
        r is Unsupported <==> !is_recognized(*a),
{
    proof {
        reveal_strlit("rename");
        reveal_strlit("skip");
        reveal_strlit("skip_serializing_if");
        assert("rename"@.len() != "skip_serializing_if"@.len());
    }
    let k = a.key.as_str();
    let has_value = a.value.is_some();
    if has_value && text_eq(k, "rename") {
        Directive::Rename
    } else if !has_value && text_eq(k, "skip") {
        Directive::Skip
    } else if has_value && text_eq(k, "skip_serializing_if") {
        Directive::SkipIf
    } else {
        Directive::Unsupported
    }
}

fn predicate_from_name(name: &String) -> (r: Option<Predicate>)
    ensures
        r == predicate_named(name@),
{
    if text_eq(name.as_str(), "Option::is_none") {
        Some(Predicate::IsAbsent)
    } else {
        None
    }
}

/// Resolves one field's raw attributes into its text-rendering policy.
pub fn resolve_field(field: &FieldSchema) -> (r: Result<FieldPolicy, SchemaError>)
    ensures
        match r {
            Ok(p) => field_policy(*field) == Ok::<PolicyModel, SchemaError>(p@),
            Err(e) => field_policy(*field) == Err::<PolicyModel, SchemaError>(e),
        },
{
    let attrs = &field.raw_attributes;
    let ghost sa = attrs@;
    let mut rename: Option<String> = None;
    let mut skip_if: Option<String> = None;
    let mut skip = false;
    let mut i: usize = 0;
    while i < attrs.len()
        invariant
            sa == attrs@,
            sa == field.raw_attributes@,
            i <= sa.len(),
            all_recognized(sa.take(i as int)),
            skip == has_skip(sa.take(i as int)),
            match rename {
                Some(s) => last_rename(sa.take(i as int)) == Some(s@),
                None => last_rename(sa.take(i as int)) is None,
            },
            match skip_if {
                Some(s) => last_skip_if(sa.take(i as int)) == Some(s@),
                None => last_skip_if(sa.take(i as int)) is None,
            },
        decreases sa.len() - i,
    {
        let a = &attrs[i];
        let ghost next = sa.take(i + 1);
        assert(next.drop_last() =~= sa.take(i as int));
        assert(next.last() == sa[i as int]);
        match classify(a) {
            Directive::Rename => {
                if let Some(v) = &a.value {
                    rename = Some(v.clone());
                }
            },
            Directive::Skip => {
                skip = true;
            },
            Directive::SkipIf => {
                if let Some(v) = &a.value {
                    skip_if = Some(v.clone());
                }
            },
            Directive::Unsupported => {
                assert(!all_recognized(sa));
                assert(field.raw_attributes@ == sa);
                proof {
                    reveal(field_policy);
                }
                return Err(SchemaError::UnsupportedAttribute);
            },
        }
        proof {
            assert forall|j: int| 0 <= j < next.len() implies is_recognized(#[trigger] next[j]) by {
                if j < i {
                    assert(next[j] == sa.take(i as int)[j]);
                }
            }
            if has_skip(next) && !skip {
                let j = choose|j: int| 0 <= j < next.len() && is_skip(#[trigger] next[j]);
                if j < i {
                    assert(sa.take(i as int)[j] == next[j]);
                }
            }
            if has_skip(sa.take(i as int)) {
                let j = choose|j: int| 0 <= j < i && is_skip(#[trigger] sa.take(i as int)[j]);
                assert(next[j] == sa.take(i as int)[j]);
            }
        }
        i = i + 1;
    }
    assert(sa.take(sa.len() as int) =~= sa);
    proof {
        reveal(field_policy);
    }
    if skip {
        return Ok(FieldPolicy { effective_name: field.name.clone(), skip: true, skip_if: None });
    }
    match skip_if {
        Some(p) => match rename {
            None => Err(SchemaError::RenameRequiredForConditionalSkip),
            Some(r) => match predicate_from_name(&p) {
                None => Err(SchemaError::UnknownPredicate),
                Some(pred) => Ok(FieldPolicy { effective_name: r, skip: false, skip_if: Some(pred) }),
            },
        },
        None => {
            let name = match rename {
                Some(r) => r,
                None => field.name.clone(),
            };
            Ok(FieldPolicy { effective_name: name, skip: false, skip_if: None })
        },
    }
}

/// Resolves every field of a schema, in declaration order. Either all
/// fields resolve, and the policies come back one per field, or the error of
/// the first field that fails comes back and no policy at all.
pub fn resolve_schema(schema: &RecordSchema) -> (r: Result<Vec<FieldPolicy>, SchemaError>)
    ensures
        r is Ok <==> schema_resolves(schema.fields@),
        match r {
            Ok(ps) => resolved_as(schema.fields@, ps@.map_values(|p: FieldPolicy| p@)),
            Err(e) => first_error_is(schema.fields@, e),
        },
{
    let fields = &schema.fields;
    let mut ps: Vec<FieldPolicy> = Vec::new();
    let mut i: usize = 0;
    while i < fields.len()
        invariant
            i <= fields@.len(),
            fields@ == schema.fields@,
            ps@.len() == i,
            forall|j: int|
                0 <= j < i ==> field_policy(fields@[j]) == Ok::<PolicyModel, SchemaError>(
                    #[trigger] ps@[j]@,
                ),
        decreases fields@.len() - i,
    {
        match resolve_field(&fields[i]) {
            Ok(p) => {
                ps.push(p);
            },
            Err(e) => {
                assert(field_policy(fields@[i as int]) == Err::<PolicyModel, SchemaError>(e));
                assert forall|j: int| 0 <= j < i implies (#[trigger] field_policy(fields@[j])) is Ok by {
                    assert(field_policy(fields@[j]) == Ok::<PolicyModel, SchemaError>(ps@[j]@));
                }
                assert(first_error_is(fields@, e));
                assert(!schema_resolves(fields@));
                return Err(e);
            },
        }
        i = i + 1;
    }
    assert(forall|j: int| 0 <= j < fields@.len() ==> field_policy(fields@[j]) == Ok::<PolicyModel, SchemaError>(ps@[j]@));
    Ok(ps)
}

proof fn lemma_no_rename(attrs: Seq<RawAttribute>)
    requires
        forall|i: int| 0 <= i < attrs.len() ==> !is_rename(#[trigger] attrs[i]),
    ensures
        last_rename(attrs) is None,
    decreases attrs.len(),
{
    if attrs.len() > 0 {
        assert(!is_rename(attrs[attrs.len() - 1]));
        lemma_no_rename(attrs.drop_last());
    }
}

proof fn lemma_some_skip_if(attrs: Seq<RawAttribute>, k: int)
    requires
        0 <= k < attrs.len(),
        is_skip_if(attrs[k]),
    ensures
        last_skip_if(attrs) is Some,
    decreases attrs.len(),
{
    if !is_skip_if(attrs.last()) {
        assert(attrs.drop_last()[k] == attrs[k]);
        lemma_some_skip_if(attrs.drop_last(), k);
    }
}

/// A field that carries `skip_serializing_if` and no `rename` (and is not
/// skipped outright, which wins over every other directive) makes the whole
/// schema fail to resolve, so no codec is ever built for it. Where the field's
/// attributes are otherwise well formed, the error is
/// `RenameRequiredForConditionalSkip`.
pub proof fn lemma_conditional_skip_requires_rename(fields: Seq<FieldSchema>, i: int, k: int)
    requires
        0 <= i < fields.len(),
        0 <= k < fields[i].raw_attributes@.len(),
        is_skip_if(fields[i].raw_attributes@[k]),
        forall|j: int|
            0 <= j < fields[i].raw_attributes@.len() ==> !is_rename(
                #[trigger] fields[i].raw_attributes@[j],
            ),
        !has_skip(fields[i].raw_attributes@),
    ensures
        field_policy(fields[i]) is Err,
        all_recognized(fields[i].raw_attributes@) ==> field_policy(fields[i]) == Err::<
            PolicyModel,
            SchemaError,
        >(SchemaError::RenameRequiredForConditionalSkip),
        !schema_resolves(fields),
{
    reveal(field_policy);
    lemma_no_rename(fields[i].raw_attributes@);
    lemma_some_skip_if(fields[i].raw_attributes@, k);
}

} // verus!
