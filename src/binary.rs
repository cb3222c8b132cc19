//! The binary codec: fields in declaration order, integers as four bytes
//! big-endian, strings as a four-byte big-endian byte count followed by the
//! UTF-8 bytes. No header, no terminator.
use vstd::prelude::*;
use vstd::utf8::*;
use crate::schema::{
    conforms, field_types, values_model, FieldType, RecordSchema, Value, ValueModel,
};

verus! {

broadcast use {vstd::utf8::encode_utf8_decode_utf8, vstd::utf8::encode_utf8_valid_utf8};

/// Errors of the encoder.
#[derive(Clone, Copy, Debug, PartialEq, Eq, Structural)]
pub enum EncodeError {
    /// A string's UTF-8 byte count does not fit the 32-bit length prefix.
    LengthOverflow,
}

/// Errors of the decoder.
#[derive(Clone, Copy, Debug, PartialEq, Eq, Structural)]
pub enum DecodeError {
    /// The buffer ends before the field being read does.
    OutOfBounds,
    /// A string's bytes are not valid UTF-8.
    InvalidUtf8,
}

/// The four big-endian bytes of `n`.
pub open spec fn be_bytes(n: u32) -> Seq<u8> {
    seq![(n >> 24u32) as u8, (n >> 16u32) as u8, (n >> 8u32) as u8, n as u8]
}

/// The integer that the first four bytes of `b` hold, big-endian.
pub open spec fn be_value(b: Seq<u8>) -> u32
    recommends
        b.len() >= 4,
{
    ((b[0] as u32) << 24u32) | ((b[1] as u32) << 16u32) | ((b[2] as u32) << 8u32) | (b[3] as u32)
}

/// The encoding of one value in a field of type `t`.
pub open spec fn encode_field(t: FieldType, v: ValueModel) -> Seq<u8> {
    match (t, v) {
        (FieldType::UInt32, ValueModel::UInt32(n)) => be_bytes(n),
        (FieldType::Utf8String, ValueModel::Utf8String(s)) => be_bytes(
            encode_utf8(s).len() as u32,
        ) + encode_utf8(s),
        _ => Seq::empty(),
    }
}

/// The encodings of the fields, concatenated in declaration order.
pub open spec fn encode_fields(ts: Seq<FieldType>, vs: Seq<ValueModel>) -> Seq<u8>
    decreases ts.len(),
{
    if ts.len() == 0 {
        Seq::empty()
    } else {
        encode_fields(ts.drop_last(), vs.drop_last()) + encode_field(ts.last(), vs.last())
    }
}

/// Every string among `vs` has a UTF-8 byte count that fits in 32 bits.
pub open spec fn lengths_fit(vs: Seq<ValueModel>) -> bool {
    forall|i: int|
        0 <= i < vs.len() ==> match #[trigger] vs[i] {
            ValueModel::Utf8String(s) => encode_utf8(s).len() <= u32::MAX,
            _ => true,
        }
}

/// What encoding `vs` under field types `ts` gives.
pub open spec fn encoding(ts: Seq<FieldType>, vs: Seq<ValueModel>) -> Result<Seq<u8>, EncodeError> {
    if lengths_fit(vs) {
        Ok(encode_fields(ts, vs))
    } else {
        Err(EncodeError::LengthOverflow)
    }
}

/// Reading one field of type `t` from the front of `b`: the value and the
/// number of bytes it took.
pub open spec fn decode_field(t: FieldType, b: Seq<u8>) -> Result<(ValueModel, int), DecodeError> {
    if b.len() < 4 {
        Err(DecodeError::OutOfBounds)
    } else {
        let n = be_value(b);
        match t {
            FieldType::UInt32 => Ok((ValueModel::UInt32(n), 4)),
            FieldType::Utf8String => if b.len() - 4 < n {
                Err(DecodeError::OutOfBounds)
            } else {
                let content = b.subrange(4, 4 + n);
                if valid_utf8(content) {
                    Ok((ValueModel::Utf8String(decode_utf8(content)), 4 + n))
                } else {
                    Err(DecodeError::InvalidUtf8)
                }
            },
        }
    }
}

/// Reading fields of types `ts`, in order, from the front of `b`. Bytes left
/// after the last field are ignored.
pub open spec fn decoding(ts: Seq<FieldType>, b: Seq<u8>) -> Result<Seq<ValueModel>, DecodeError>
    decreases ts.len(),
{
    if ts.len() == 0 {
        Ok(Seq::empty())
    } else {
        match decode_field(ts[0], b) {
            Err(e) => Err(e),
            Ok((v, n)) => if 0 <= n <= b.len() {
                match decoding(ts.drop_first(), b.skip(n)) {
                    Err(e) => Err(e),
                    Ok(rest) => Ok(seq![v] + rest),
                }
            } else {
                Err(DecodeError::OutOfBounds)
            },
        }
    }
}

/// `r` with `pre` put in front of what it holds.
pub open spec fn prefixed(
    pre: Seq<ValueModel>,
    r: Result<Seq<ValueModel>, DecodeError>,
) -> Result<Seq<ValueModel>, DecodeError> {
    match r {
        Ok(rest) => Ok(pre + rest),
        Err(e) => Err(e),
    }
}

proof fn lemma_be_round_trip(n: u32)
    ensures
        be_value(be_bytes(n)) == n,
{
    let b0 = (n >> 24u32) as u8;
    let b1 = (n >> 16u32) as u8;
    let b2 = (n >> 8u32) as u8;
    let b3 = n as u8;
    assert(((b0 as u32) << 24u32) | ((b1 as u32) << 16u32) | ((b2 as u32) << 8u32) | (b3 as u32)
        == n) by (bit_vector)
        requires
            b0 == (n >> 24u32) as u8,
            b1 == (n >> 16u32) as u8,
            b2 == (n >> 8u32) as u8,
            b3 == n as u8,
    ;
}

proof fn lemma_be_value_prefix(a: Seq<u8>, b: Seq<u8>)
    requires
        a.len() >= 4,
        b.len() >= 4,
        a[0] == b[0],
        a[1] == b[1],
        a[2] == b[2],
        a[3] == b[3],
    ensures
        be_value(a) == be_value(b),
{
}

/// One field's encoding, read back from the front of any buffer that starts
/// with it.
proof fn lemma_decode_field_encoded(t: FieldType, v: ValueModel, extra: Seq<u8>)
    requires
        crate::schema::value_has_type(v, t),
        lengths_fit(seq![v]),
    ensures
        decode_field(t, encode_field(t, v) + extra) == Ok::<(ValueModel, int), DecodeError>(
            (v, encode_field(t, v).len() as int),
        ),
{
    let b = encode_field(t, v) + extra;
    assert(seq![v][0] == v);
    match v {
        ValueModel::UInt32(n) => {
            lemma_be_round_trip(n);
            lemma_be_value_prefix(b, be_bytes(n));
        },
        ValueModel::Utf8String(s) => {
            let e = encode_utf8(s);
            let len = e.len() as u32;
            assert(e.len() <= u32::MAX);
            lemma_be_round_trip(len);
            lemma_be_value_prefix(b, be_bytes(len));
            assert(b.subrange(4, 4 + e.len() as int) =~= e);
        },
        ValueModel::Absent => {},
    }
}

/// The encoding of `vs` is that of its first `i` fields followed by that of
/// the rest.
pub proof fn lemma_encode_split(ts: Seq<FieldType>, vs: Seq<ValueModel>, i: int)
    requires
        ts.len() == vs.len(),
        0 <= i <= ts.len(),
    ensures
        encode_fields(ts, vs) == encode_fields(ts.take(i), vs.take(i)) + encode_fields(
            ts.skip(i),
            vs.skip(i),
        ),
    decreases ts.len(),
{
    if i == ts.len() {
        assert(ts.take(i) =~= ts);
        assert(vs.take(i) =~= vs);
        assert(ts.skip(i).len() == 0);
        assert(encode_fields(ts, vs) + Seq::<u8>::empty() =~= encode_fields(ts, vs));
    } else {
        lemma_encode_split(ts.drop_last(), vs.drop_last(), i);
        assert(ts.drop_last().take(i) =~= ts.take(i));
        assert(vs.drop_last().take(i) =~= vs.take(i));
        let ts2 = ts.skip(i);
        let vs2 = vs.skip(i);
        assert(ts2.drop_last() =~= ts.drop_last().skip(i));
        assert(vs2.drop_last() =~= vs.drop_last().skip(i));
        assert(ts2.last() == ts.last());
        assert(vs2.last() == vs.last());
        assert(encode_fields(ts2, vs2) == encode_fields(ts2.drop_last(), vs2.drop_last())
            + encode_field(ts2.last(), vs2.last()));
        assert(encode_fields(ts, vs) =~= encode_fields(ts.take(i), vs.take(i)) + encode_fields(
            ts.skip(i),
            vs.skip(i),
        ));
    }
}

proof fn lemma_encode_first(ts: Seq<FieldType>, vs: Seq<ValueModel>)
    requires
        ts.len() == vs.len(),
        ts.len() > 0,
    ensures
        encode_fields(ts, vs) == encode_field(ts[0], vs[0]) + encode_fields(
            ts.drop_first(),
            vs.drop_first(),
        ),
{
    lemma_encode_split(ts, vs, 1);
    let t1 = ts.take(1);
    let v1 = vs.take(1);
    assert(t1.drop_last().len() == 0);
    assert(encode_fields(t1.drop_last(), v1.drop_last()) == Seq::<u8>::empty());
    assert(t1.last() == ts[0]);
    assert(v1.last() == vs[0]);
    assert(encode_fields(t1, v1) =~= encode_field(ts[0], vs[0]));
    assert(ts.skip(1) =~= ts.drop_first());
    assert(vs.skip(1) =~= vs.drop_first());
}

proof fn lemma_fit_rest(vs: Seq<ValueModel>)
    requires
        vs.len() > 0,
        lengths_fit(vs),
    ensures
        lengths_fit(seq![vs[0]]),
        lengths_fit(vs.drop_first()),
{
    assert forall|i: int| 0 <= i < vs.len() - 1 implies match #[trigger] vs.drop_first()[i] {
        ValueModel::Utf8String(s) => encode_utf8(s).len() <= u32::MAX,
        _ => true,
    } by {
        assert(vs.drop_first()[i] == vs[i + 1]);
    }
    assert forall|i: int| 0 <= i < 1 implies match #[trigger] seq![vs[0]][i] {
        ValueModel::Utf8String(s) => encode_utf8(s).len() <= u32::MAX,
        _ => true,
    } by {
        assert(seq![vs[0]][i] == vs[0]);
    }
}

proof fn lemma_conforms_rest(ts: Seq<FieldType>, vs: Seq<ValueModel>)
    requires
        ts.len() > 0,
        conforms(ts, vs),
    ensures
        crate::schema::value_has_type(vs[0], ts[0]),
        conforms(ts.drop_first(), vs.drop_first()),
{
    assert forall|i: int| 0 <= i < ts.len() - 1 implies crate::schema::value_has_type(
        #[trigger] vs.drop_first()[i],
        ts.drop_first()[i],
    ) by {
        assert(vs.drop_first()[i] == vs[i + 1]);
    }
}

/// Decoding the encoding of a record, followed by any bytes at all, gives the
/// record back.
proof fn lemma_decode_encoded(ts: Seq<FieldType>, vs: Seq<ValueModel>, extra: Seq<u8>)
    requires
        conforms(ts, vs),
        lengths_fit(vs),
    ensures
        decoding(ts, encode_fields(ts, vs) + extra) == Ok::<Seq<ValueModel>, DecodeError>(vs),
    decreases ts.len(),
{
    if ts.len() == 0 {
        assert(vs =~= Seq::<ValueModel>::empty());
    } else {
        lemma_encode_first(ts, vs);
        lemma_conforms_rest(ts, vs);
        lemma_fit_rest(vs);
        let head = encode_field(ts[0], vs[0]);
        let tail = encode_fields(ts.drop_first(), vs.drop_first()) + extra;
        let b = encode_fields(ts, vs) + extra;
        assert(b =~= head + tail);
        lemma_decode_field_encoded(ts[0], vs[0], tail);
        assert(b.skip(head.len() as int) =~= tail);
        lemma_decode_encoded(ts.drop_first(), vs.drop_first(), extra);
        assert(seq![vs[0]] + vs.drop_first() =~= vs);
    }
}

/// Decoding any proper prefix of a record's encoding fails with
/// `OutOfBounds`.
proof fn lemma_decode_truncated(ts: Seq<FieldType>, vs: Seq<ValueModel>, k: int)
    requires
        conforms(ts, vs),
        lengths_fit(vs),
        0 <= k < encode_fields(ts, vs).len(),
    ensures
        decoding(ts, encode_fields(ts, vs).take(k)) == Err::<Seq<ValueModel>, DecodeError>(
            DecodeError::OutOfBounds,
        ),
    decreases ts.len(),
{
    assert(ts.len() > 0);
    lemma_encode_first(ts, vs);
    lemma_conforms_rest(ts, vs);
    lemma_fit_rest(vs);
    let head = encode_field(ts[0], vs[0]);
    let rest = encode_fields(ts.drop_first(), vs.drop_first());
    let b = encode_fields(ts, vs).take(k);
    if k < head.len() {
        if k >= 4 {
            assert(seq![vs[0]][0] == vs[0]);
            match vs[0] {
                ValueModel::Utf8String(s) => {
                    let len = encode_utf8(s).len() as u32;
                    lemma_be_round_trip(len);
                    lemma_be_value_prefix(b, be_bytes(len));
                },
                _ => {},
            }
        }
    } else {
        let tail = rest.take(k - head.len());
        assert(b =~= head + tail);
        lemma_decode_field_encoded(ts[0], vs[0], tail);
        assert(b.skip(head.len() as int) =~= tail);
        lemma_decode_truncated(ts.drop_first(), vs.drop_first(), k - head.len());
    }
}

/// Relies on `String::from_utf8`: it returns the string whose UTF-8 bytes
/// are exactly `v`, and fails when `v` is not valid UTF-8.
#[verifier::external_body]
fn string_from_utf8(v: Vec<u8>) -> (r: Option<String>)
    ensures
        match r {
            Some(s) => encode_utf8(s@) == v@,
            None => !valid_utf8(v@),
        },
{
    match String::from_utf8(v) {
        Ok(s) => Some(s),
        Err(_) => None,
    }
}

fn push_be(out: &mut Vec<u8>, n: u32)
    ensures
        final(out)@ == old(out)@ + be_bytes(n),
{
    out.push((n >> 24u32) as u8);
    out.push((n >> 16u32) as u8);
    out.push((n >> 8u32) as u8);
    out.push(n as u8);
    assert(final(out)@ =~= old(out)@ + be_bytes(n));
}

fn push_all(out: &mut Vec<u8>, b: &[u8])
    ensures
        final(out)@ == old(out)@ + b@,
{
    let ghost start = out@;
    let mut i: usize = 0;
    while i < b.len()
        invariant
            i <= b@.len(),
            out@ == start + b@.take(i as int),
        decreases b@.len() - i,
    {
        out.push(b[i]);
        assert(b@.take(i + 1) =~= b@.take(i as int).push(b@[i as int]));
        assert(start + b@.take(i + 1) =~= (start + b@.take(i as int)).push(b@[i as int]));
        i = i + 1;
    }
    assert(b@.take(b@.len() as int) =~= b@);
}

fn read_be(b: &[u8], pos: usize) -> (r: u32)
    requires
        pos + 4 <= b@.len(),
    ensures
        r == be_value(b@.skip(pos as int)),
{
    let ghost rem = b@.skip(pos as int);
    assert(rem[0] == b@[pos as int]);
    assert(rem[1] == b@[pos + 1]);
    assert(rem[2] == b@[pos + 2]);
    assert(rem[3] == b@[pos + 3]);
    ((b[pos] as u32) << 24u32) | ((b[pos + 1] as u32) << 16u32) | ((b[pos + 2] as u32) << 8u32)
        | (b[pos + 3] as u32)
}

proof fn lemma_decode_step(
    ts: Seq<FieldType>,
    b: Seq<u8>,
    i: int,
    pos: int,
    out: Seq<ValueModel>,
    v: ValueModel,
    n: int,
)
    requires
        0 <= i < ts.len(),
        0 <= pos,
        0 <= n,
        pos + n <= b.len(),
        decode_field(ts[i], b.skip(pos)) == Ok::<(ValueModel, int), DecodeError>((v, n)),
        decoding(ts, b) == prefixed(out, decoding(ts.skip(i), b.skip(pos))),
    ensures
        decoding(ts, b) == prefixed(out.push(v), decoding(ts.skip(i + 1), b.skip(pos + n))),
{
    let tr = ts.skip(i);
    let br = b.skip(pos);
    assert(tr[0] == ts[i]);
    assert(tr.drop_first() =~= ts.skip(i + 1));
    assert(br.skip(n) =~= b.skip(pos + n));
    match decoding(ts.skip(i + 1), b.skip(pos + n)) {
        Ok(rest) => {
            assert(out + (seq![v] + rest) =~= out.push(v) + rest);
        },
        Err(e) => {},
    }
}

proof fn lemma_decode_fail(ts: Seq<FieldType>, b: Seq<u8>, i: int, pos: int, out: Seq<ValueModel>, e: DecodeError)
    requires
        0 <= i < ts.len(),
        0 <= pos <= b.len(),
        decode_field(ts[i], b.skip(pos)) == Err::<(ValueModel, int), DecodeError>(e),
        decoding(ts, b) == prefixed(out, decoding(ts.skip(i), b.skip(pos))),
    ensures
        decoding(ts, b) == Err::<Seq<ValueModel>, DecodeError>(e),
{
    assert(ts.skip(i)[0] == ts[i]);
}

/// Encodes a record in the binary layout of its schema. The schema's types
/// alone decide the layout; names and attributes play no part.
pub fn serialize_struct(schema: &RecordSchema, record: &Vec<Value>) -> (r: Result<Vec<u8>, EncodeError>)
    requires
        conforms(field_types(schema.fields@), values_model(record@)),
    ensures
        match r {
            Ok(b) => encoding(field_types(schema.fields@), values_model(record@)) == Ok::<
                Seq<u8>,
                EncodeError,
            >(b@),
            Err(e) => encoding(field_types(schema.fields@), values_model(record@)) == Err::<
                Seq<u8>,
                EncodeError,
            >(e),
        },
{
    let ghost ts = field_types(schema.fields@);
    let ghost vs = values_model(record@);
    let mut out: Vec<u8> = Vec::new();
    let mut i: usize = 0;
    while i < record.len()
        invariant
            ts == field_types(schema.fields@),
            vs == values_model(record@),
            conforms(ts, vs),
            i <= vs.len(),
            lengths_fit(vs.take(i as int)),
            out@ == encode_fields(ts.take(i as int), vs.take(i as int)),
        decreases vs.len() - i,
    {
        let v = &record[i];
        let t = schema.fields[i].type_tag;
        assert(vs[i as int] == v@);
        assert(ts[i as int] == t);
        let ghost before = out@;
        match v {
            Value::UInt32(n) => {
                push_be(&mut out, *n);
            },
            Value::Utf8String(s) => {
                let bytes = s.as_str().as_bytes();
                let len = bytes.len();
                if len as u64 > 0xffff_ffffu64 {
                    assert(!lengths_fit(vs));
                    return Err(EncodeError::LengthOverflow);
                }
                push_be(&mut out, len as u32);
                push_all(&mut out, bytes);
            },
            Value::Absent => {
                assert(false);
            },
        }
        proof {
            let t1 = ts.take(i + 1);
            let v1 = vs.take(i + 1);
            assert(t1.drop_last() =~= ts.take(i as int));
            assert(v1.drop_last() =~= vs.take(i as int));
            assert(t1.last() == t);
            assert(v1.last() == v@);
            assert(out@ =~= before + encode_field(t, v@));
            assert forall|j: int| 0 <= j < i + 1 implies match #[trigger] v1[j] {
                ValueModel::Utf8String(s) => encode_utf8(s).len() <= u32::MAX,
                _ => true,
            } by {
                if j < i {
                    assert(v1[j] == vs.take(i as int)[j]);
                }
            }
        }
        i = i + 1;
    }
    assert(ts.take(i as int) =~= ts);
    assert(vs.take(i as int) =~= vs);
    Ok(out)
}

/// Decodes a record of the given schema from the front of `bytes`, reading
/// fields in declaration order. Bytes after the last field are ignored.
pub fn deserialize_struct(schema: &RecordSchema, bytes: &[u8]) -> (r: Result<Vec<Value>, DecodeError>)
    ensures
        match r {
            Ok(vs) => decoding(field_types(schema.fields@), bytes@) == Ok::<
                Seq<ValueModel>,
                DecodeError,
            >(values_model(vs@)),
            Err(e) => decoding(field_types(schema.fields@), bytes@) == Err::<
                Seq<ValueModel>,
                DecodeError,
            >(e),
        },
{
    let ghost ts = field_types(schema.fields@);
    let ghost b = bytes@;
    let mut out: Vec<Value> = Vec::new();
    let mut pos: usize = 0;
    let mut i: usize = 0;
    assert(ts.skip(0) =~= ts);
    assert(b.skip(0) =~= b);
    assert(values_model(out@) + Seq::<ValueModel>::empty() =~= Seq::<ValueModel>::empty());
    while i < schema.fields.len()
        invariant
            ts == field_types(schema.fields@),
            b == bytes@,
            i <= ts.len(),
            pos <= b.len(),
            decoding(ts, b) == prefixed(values_model(out@), decoding(ts.skip(i as int), b.skip(pos as int))),
        decreases ts.len() - i,
    {
        let t = schema.fields[i].type_tag;
        assert(ts[i as int] == t);
        let ghost rem = b.skip(pos as int);
        if bytes.len() - pos < 4 {
            proof {
                lemma_decode_fail(ts, b, i as int, pos as int, values_model(out@), DecodeError::OutOfBounds);
            }
            return Err(DecodeError::OutOfBounds);
        }
        let n = read_be(bytes, pos);
        match t {
            FieldType::UInt32 => {
                proof {
                    lemma_decode_step(ts, b, i as int, pos as int, values_model(out@), ValueModel::UInt32(n), 4);
                    assert(values_model(out@).push(ValueModel::UInt32(n)) =~= values_model(out@.push(Value::UInt32(n))));
                }
                out.push(Value::UInt32(n));
                pos = pos + 4;
            },
            FieldType::Utf8String => {
                let len = n as usize;
                if bytes.len() - pos - 4 < len {
                    proof {
                        lemma_decode_fail(ts, b, i as int, pos as int, values_model(out@), DecodeError::OutOfBounds);
                    }
                    return Err(DecodeError::OutOfBounds);
                }
                let start = pos + 4;
                let end = start + len;
                let mut content: Vec<u8> = Vec::new();
                let mut k: usize = 0;
                while k < len
                    invariant
                        b == bytes@,
                        start + len <= b.len(),
                        end == start + len,
                        k <= len,
                        content@ == b.subrange(start as int, start + k),
                    decreases len - k,
                {
                    content.push(bytes[start + k]);
                    assert(content@ =~= b.subrange(start as int, start + k + 1));
                    k = k + 1;
                }
                assert(content@ =~= rem.subrange(4, 4 + n));
                match string_from_utf8(content) {
                    None => {
                        proof {
                            lemma_decode_fail(ts, b, i as int, pos as int, values_model(out@), DecodeError::InvalidUtf8);
                        }
                        return Err(DecodeError::InvalidUtf8);
                    },
                    Some(s) => {
                        proof {
                            lemma_decode_step(ts, b, i as int, pos as int, values_model(out@), ValueModel::Utf8String(s@), 4 + n);
                            assert(values_model(out@).push(ValueModel::Utf8String(s@)) =~= values_model(out@.push(Value::Utf8String(s))));
                        }
                        out.push(Value::Utf8String(s));
                        pos = start + len;
                    },
                }
            },
        }
        i = i + 1;
    }
    assert(ts.skip(i as int).len() == 0);
    assert(values_model(out@) + Seq::<ValueModel>::empty() =~= values_model(out@));
    Ok(out)
}

/// Round trip: every record of a schema whose strings fit the 32-bit length
/// prefix encodes, and decoding its encoding gives the same record back,
/// field for field.
pub proof fn lemma_round_trip(schema: RecordSchema, record: Seq<ValueModel>)
    requires
        conforms(field_types(schema.fields@), record),
        lengths_fit(record),
    ensures
        encoding(field_types(schema.fields@), record) is Ok,
        decoding(field_types(schema.fields@), encoding(field_types(schema.fields@), record)->Ok_0)
            == Ok::<Seq<ValueModel>, DecodeError>(record),
{
    let ts = field_types(schema.fields@);
    lemma_decode_encoded(ts, record, Seq::empty());
    assert(encode_fields(ts, record) + Seq::<u8>::empty() =~= encode_fields(ts, record));
}

/// Decoding stops after the last field: bytes that follow a record's
/// encoding do not change what is decoded.
pub proof fn lemma_trailing_bytes_ignored(schema: RecordSchema, record: Seq<ValueModel>, extra: Seq<u8>)
    requires
        conforms(field_types(schema.fields@), record),
        lengths_fit(record),
    ensures
        decoding(field_types(schema.fields@), encode_fields(field_types(schema.fields@), record) + extra)
            == Ok::<Seq<ValueModel>, DecodeError>(record),
{
    lemma_decode_encoded(field_types(schema.fields@), record, extra);
}

/// Every buffer cut short of a record's full encoding, at any point, fails to
/// decode with `OutOfBounds`.
pub proof fn lemma_truncated_buffer(schema: RecordSchema, record: Seq<ValueModel>, k: int)
    requires
        conforms(field_types(schema.fields@), record),
        lengths_fit(record),
        0 <= k < encode_fields(field_types(schema.fields@), record).len(),
    ensures
        decoding(field_types(schema.fields@), encode_fields(field_types(schema.fields@), record).take(k))
            == Err::<Seq<ValueModel>, DecodeError>(DecodeError::OutOfBounds),
{
    lemma_decode_truncated(field_types(schema.fields@), record, k);
}

/// The binary codec depends on the field types alone: two schemas whose
/// fields have the same types in the same order, whatever their names,
/// renames, skips and conditional skips, encode every record to the same
/// bytes and decode every buffer to the same result.
pub proof fn lemma_binary_ignores_text_attributes(
    a: RecordSchema,
    b: RecordSchema,
    record: Seq<ValueModel>,
    bytes: Seq<u8>,
)
    requires
        a.fields@.len() == b.fields@.len(),
        forall|i: int| 0 <= i < a.fields@.len() ==> (#[trigger] a.fields@[i]).type_tag == b.fields@[i].type_tag,
    ensures
        encoding(field_types(a.fields@), record) == encoding(field_types(b.fields@), record),
        decoding(field_types(a.fields@), bytes) == decoding(field_types(b.fields@), bytes),
{
    assert(field_types(a.fields@) =~= field_types(b.fields@));
}

} // verus!
