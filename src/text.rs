//! The text rendering: `{ "name": value, ... }` in declaration order, with
//! strings quoted as they are (no escaping) and integers as bare digits.
use vstd::prelude::*;
use vstd::string::StringExecFns;
use crate::resolve::{FieldPolicy, PolicyModel, Predicate};
use crate::binary::{encode_fields, lemma_encode_split};
use crate::schema::{values_model, FieldType, Value, ValueModel};

verus! {

/// The character of a decimal digit.
pub open spec fn digit_char(d: nat) -> char {
    if d == 0 {
        '0'
    } else if d == 1 {
        '1'
    } else if d == 2 {
        '2'
    } else if d == 3 {
        '3'
    } else if d == 4 {
        '4'
    } else if d == 5 {
        '5'
    } else if d == 6 {
        '6'
    } else if d == 7 {
        '7'
    } else if d == 8 {
        '8'
    } else {
        '9'
    }
}

/// The decimal digits of `n`, most significant first, with no leading zero.
pub open spec fn decimal(n: nat) -> Seq<char>
    decreases n,
{
    if n < 10 {
        seq![digit_char(n)]
    } else {
        decimal(n / 10).push(digit_char(n % 10))
    }
}

/// Whether `pred` holds of a field's value.
pub open spec fn predicate_holds(pred: Predicate, v: ValueModel) -> bool {
    match pred {
        Predicate::IsAbsent => v is Absent,
    }
}

/// How a value reads in text. An absent value, rendered only where no
/// conditional skip removed it, reads `None`.
pub open spec fn render_value(v: ValueModel) -> Seq<char> {
    match v {
        ValueModel::UInt32(n) => decimal(n as nat),
        ValueModel::Utf8String(s) => "\""@ + s + "\""@,
        ValueModel::Absent => "None"@,
    }
}

/// `"<name>": <value>`.
pub open spec fn render_entry(name: Seq<char>, v: ValueModel) -> Seq<char> {
    "\""@ + name + "\": "@ + render_value(v)
}

/// A field appears in the text unless it is skipped, or its conditional-skip
/// predicate holds of its value.
pub open spec fn is_rendered(p: PolicyModel, v: ValueModel) -> bool {
    !p.skip && match p.skip_if {
        Some(pred) => !predicate_holds(pred, v),
        None => true,
    }
}

/// The entries of the fields that appear, in declaration order.
pub open spec fn entries(ps: Seq<PolicyModel>, vs: Seq<ValueModel>) -> Seq<Seq<char>>
    decreases ps.len(),
{
    if ps.len() == 0 {
        Seq::empty()
    } else {
        let rest = entries(ps.drop_last(), vs.drop_last());
        if is_rendered(ps.last(), vs.last()) {
            rest.push(render_entry(ps.last().effective_name, vs.last()))
        } else {
            rest
        }
    }
}

/// `parts` joined with `, ` between neighbours.
pub open spec fn join(parts: Seq<Seq<char>>) -> Seq<char>
    decreases parts.len(),
{
    if parts.len() == 0 {
        Seq::empty()
    } else if parts.len() == 1 {
        parts[0]
    } else {
        join(parts.drop_last()) + ", "@ + parts.last()
    }
}

/// The text of a record under the given policies.
pub open spec fn rendering(ps: Seq<PolicyModel>, vs: Seq<ValueModel>) -> Seq<char> {
    "{ "@ + join(entries(ps, vs)) + " }"@
}

/// The models of a sequence of policies.
pub open spec fn policies_model(ps: Seq<FieldPolicy>) -> Seq<PolicyModel> {
    ps.map_values(|p: FieldPolicy| p@)
}

fn digit_str(d: u32) -> (r: &'static str)
    requires
        d < 10,
    ensures
        r@ == seq![digit_char(d as nat)],
{
    proof {
        reveal_strlit("0");
        reveal_strlit("1");
        reveal_strlit("2");
        reveal_strlit("3");
        reveal_strlit("4");
        reveal_strlit("5");
        reveal_strlit("6");
        reveal_strlit("7");
        reveal_strlit("8");
        reveal_strlit("9");
    }
    let r = if d == 0 {
        "0"
    } else if d == 1 {
        "1"
    } else if d == 2 {
        "2"
    } else if d == 3 {
        "3"
    } else if d == 4 {
        "4"
    } else if d == 5 {
        "5"
    } else if d == 6 {
        "6"
    } else if d == 7 {
        "7"
    } else if d == 8 {
        "8"
    } else {
        "9"
    };
    assert(r@ =~= seq![digit_char(d as nat)]);
    r
}

fn push_decimal(out: &mut String, n: u32)
    ensures
        final(out)@ == old(out)@ + decimal(n as nat),
    decreases n,
{
    if n >= 10 {
        push_decimal(out, n / 10);
    }
    out.append(digit_str(n % 10));
    assert(final(out)@ =~= old(out)@ + decimal(n as nat));
}

fn push_value(out: &mut String, v: &Value)
    ensures
        final(out)@ == old(out)@ + render_value(v@),
{
    match v {
        Value::UInt32(n) => {
            push_decimal(out, *n);
        },
        Value::Utf8String(s) => {
            out.append("\"");
            out.append(s.as_str());
            out.append("\"");
        },
        Value::Absent => {
            out.append("None");
        },
    }
    assert(final(out)@ =~= old(out)@ + render_value(v@));
}

/// Renders a record as text under the policies resolved for its schema, one
/// policy per field: the fields that appear, in declaration order, each as
/// `"<effective name>": <value>`, joined with `, ` inside `{ ` and ` }`.
pub fn serde_json(policies: &Vec<FieldPolicy>, record: &Vec<Value>) -> (r: String)
    requires
        policies@.len() == record@.len(),
    ensures
        r@ == rendering(policies_model(policies@), values_model(record@)),
{
    let ghost ps = policies_model(policies@);
    let ghost vs = values_model(record@);
    let mut body = String::new();
    let mut any = false;
    let mut i: usize = 0;
    while i < record.len()
        invariant
            ps == policies_model(policies@),
            vs == values_model(record@),
            ps.len() == vs.len(),
            i <= vs.len(),
            body@ == join(entries(ps.take(i as int), vs.take(i as int))),
            any == (entries(ps.take(i as int), vs.take(i as int)).len() > 0),
        decreases vs.len() - i,
    {
        let p = &policies[i];
        let v = &record[i];
        let ghost es = entries(ps.take(i as int), vs.take(i as int));
        proof {
            let p1 = ps.take(i + 1);
            let v1 = vs.take(i + 1);
            assert(p1.drop_last() =~= ps.take(i as int));
            assert(v1.drop_last() =~= vs.take(i as int));
            assert(p1.last() == p@);
            assert(v1.last() == v@);
        }
        let shown = if p.skip {
            false
        } else {
            match p.skip_if {
                Some(Predicate::IsAbsent) => !matches!(v, Value::Absent),
                None => true,
            }
        };
        assert(shown == is_rendered(p@, v@));
        if shown {
            let ghost e = render_entry(p@.effective_name, v@);
            if any {
                body.append(", ");
            }
            body.append("\"");
            body.append(p.effective_name.as_str());
            body.append("\": ");
            push_value(&mut body, v);
            proof {
                let es2 = es.push(e);
                assert(es2.drop_last() =~= es);
                assert(es2.last() == e);
                if es.len() == 0 {
                    assert(join(es) == Seq::<char>::empty());
                }
                assert(body@ =~= join(es2));
            }
            any = true;
        }
        i = i + 1;
    }
    assert(ps.take(i as int) =~= ps);
    assert(vs.take(i as int) =~= vs);
    let mut out = String::new();
    out.append("{ ");
    out.append(body.as_str());
    out.append(" }");
    assert(out@ =~= rendering(ps, vs));
    out
}

proof fn lemma_entries_split(ps: Seq<PolicyModel>, vs: Seq<ValueModel>, i: int)
    requires
        ps.len() == vs.len(),
        0 <= i <= ps.len(),
    ensures
        entries(ps, vs) == entries(ps.take(i), vs.take(i)) + entries(ps.skip(i), vs.skip(i)),
    decreases ps.len(),
{
    if i == ps.len() {
        assert(ps.take(i) =~= ps);
        assert(vs.take(i) =~= vs);
        assert(ps.skip(i).len() == 0);
        assert(entries(ps, vs) + Seq::<Seq<char>>::empty() =~= entries(ps, vs));
    } else {
        lemma_entries_split(ps.drop_last(), vs.drop_last(), i);
        assert(ps.drop_last().take(i) =~= ps.take(i));
        assert(vs.drop_last().take(i) =~= vs.take(i));
        let ps2 = ps.skip(i);
        let vs2 = vs.skip(i);
        assert(ps2.drop_last() =~= ps.drop_last().skip(i));
        assert(vs2.drop_last() =~= vs.drop_last().skip(i));
        assert(ps2.last() == ps.last());
        assert(vs2.last() == vs.last());
        assert(entries(ps, vs) =~= entries(ps.take(i), vs.take(i)) + entries(ps.skip(i), vs.skip(i)));
    }
}

/// Both codecs keep declaration order: at every field boundary `i`, the
/// binary encoding is that of the fields before `i` followed by that of the
/// fields from `i` on, and the text entries are those of the fields before
/// `i` followed by those of the fields from `i` on. Skipped fields leave no
/// entry and move no other.
pub proof fn lemma_declaration_order(
    types: Seq<FieldType>,
    policies: Seq<PolicyModel>,
    record: Seq<ValueModel>,
    i: int,
)
    requires
        types.len() == record.len(),
        policies.len() == record.len(),
        0 <= i <= record.len(),
    ensures
        encode_fields(types, record) == encode_fields(types.take(i), record.take(i)) + encode_fields(
            types.skip(i),
            record.skip(i),
        ),
        entries(policies, record) == entries(policies.take(i), record.take(i)) + entries(
            policies.skip(i),
            record.skip(i),
        ),
{
    lemma_encode_split(types, record, i);
    lemma_entries_split(policies, record, i);
}

} // verus!
