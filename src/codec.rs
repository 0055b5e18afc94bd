//! Encoding records to bytes and decoding them back, both along a layout plan.
//!
//! A numeric field is its little-endian bytes (two's complement when signed); a
//! string field is its UTF-8 length as four little-endian bytes, then its UTF-8
//! bytes. Fields follow each other in schema order with nothing between them.

use vstd::prelude::*;
use vstd::slice::{slice_subrange, slice_to_vec};
use vstd::utf8::{decode_utf8, encode_utf8, valid_utf8};
use crate::layout::{LayoutPlan, Offset, has_text, offset_matches, planned_offset, total_width};
use crate::le::{le_bytes, le_value, lemma_le_value_bound, lemma_pow256_values, pow256, push_le, read_le};
use crate::schema::{FieldType, same_chars};
use crate::value::{FieldValue, Record, Value, from_bits, to_bits};

verus! {

/// Why a record could not be encoded.
#[derive(Clone, Copy, Debug, PartialEq, Eq, Structural)]
pub enum EncodeError {
    /// A string's UTF-8 length does not fit the four-byte length prefix.
    EncodingOverflow,
}

/// Why bytes could not be decoded into a record.
#[derive(Clone, Copy, Debug, PartialEq, Eq, Structural)]
pub enum DecodeError {
    /// Fewer bytes remain than a field needs.
    TruncatedInput,
    /// A string's bytes are not UTF-8.
    InvalidUtf8,
}

/// Whether a value fits the wire format: a string's UTF-8 length must fit in 32 bits.
pub open spec fn encodable(v: FieldValue) -> bool {
    v matches FieldValue::Text(s) ==> encode_utf8(s).len() <= u32::MAX
}

/// Whether `vs` are values of `types`, one for one.
pub open spec fn conforms(types: Seq<FieldType>, vs: Seq<FieldValue>) -> bool {
    &&& vs.len() == types.len()
    &&& forall|i: int| 0 <= i < vs.len() ==> (#[trigger] vs[i]).fits(types[i])
}

/// Whether `vs` are values of `types` that can all be encoded.
pub open spec fn valid_record(types: Seq<FieldType>, vs: Seq<FieldValue>) -> bool {
    &&& conforms(types, vs)
    &&& forall|i: int| 0 <= i < vs.len() ==> encodable(#[trigger] vs[i])
}

/// The bytes of one field value.
pub open spec fn encode_value(v: FieldValue) -> Seq<u8> {
    match v {
        FieldValue::Int(t, x) => le_bytes(to_bits(t, x), t.width()),
        FieldValue::Text(s) => le_bytes(encode_utf8(s).len(), 4) + encode_utf8(s),
    }
}

/// The bytes of a record: its field values' bytes, concatenated in order.
pub open spec fn encode_values(vs: Seq<FieldValue>) -> Seq<u8>
    decreases vs.len(),
{
    if vs.len() == 0 {
        Seq::empty()
    } else {
        encode_value(vs[0]) + encode_values(vs.drop_first())
    }
}

/// Reads one field of type `t` from the front of `b`: its value and how many
/// bytes it took.
pub open spec fn decode_value(t: FieldType, b: Seq<u8>) -> Result<(FieldValue, nat), DecodeError> {
    if t is Str {
        if b.len() < 4 {
            Err(DecodeError::TruncatedInput)
        } else {
            let n = le_value(b.take(4));
            if b.len() < 4 + n {
                Err(DecodeError::TruncatedInput)
            } else if valid_utf8(b.subrange(4, 4 + n as int)) {
                Ok((FieldValue::Text(decode_utf8(b.subrange(4, 4 + n as int))), 4 + n))
            } else {
                Err(DecodeError::InvalidUtf8)
            }
        }
    } else if b.len() < t.width() {
        Err(DecodeError::TruncatedInput)
    } else {
        Ok((FieldValue::Int(t, from_bits(t, le_value(b.take(t.width() as int)))), t.width()))
    }
}

/// `vs` in front of the values of `r`, or the error of `r`.
pub open spec fn prepend(
    vs: Seq<FieldValue>,
    r: Result<Seq<FieldValue>, DecodeError>,
) -> Result<Seq<FieldValue>, DecodeError> {
    match r {
        Ok(ws) => Ok(vs + ws),
        Err(e) => Err(e),
    }
}

/// Reads fields of `types` one after another from the front of `b`; stops at
/// the first that fails. Bytes after the last field are left unread.
pub open spec fn decode_values(types: Seq<FieldType>, b: Seq<u8>) -> Result<
    Seq<FieldValue>,
    DecodeError,
>
    decreases types.len(),
{
    if types.len() == 0 {
        Ok(Seq::empty())
    } else {
        match decode_value(types[0], b) {
            Err(e) => Err(e),
            Ok((v, n)) => prepend(seq![v], decode_values(types.drop_first(), b.skip(n as int))),
        }
    }
}

impl Record {
    /// Whether this record holds one value of each of `plan`'s field types, in order.
    pub fn conforms_to(&self, plan: &LayoutPlan) -> (r: bool)
        ensures
            r == conforms(plan.types(), self@),
    {
        let n = plan.fields.len();
        if self.values.len() != n {
            return false;
        }
        let mut i: usize = 0;
        while i < n
            invariant
                n == plan.fields@.len() == self.values@.len(),
                i <= n,
                forall|j: int| 0 <= j < i ==> (#[trigger] self@[j]).fits(plan.types()[j]),
            decreases n - i,
        {
            if self.values[i].field_type() != plan.fields[i].ty {
                assert(!self@[i as int].fits(plan.types()[i as int]));
                return false;
            }
            assert(self@[i as int].fits(plan.types()[i as int]));
            i = i + 1;
        }
        true
    }

    /// The value of the first field of `plan` named `name`, if there is one.
    pub fn field<'a>(&'a self, plan: &LayoutPlan, name: &str) -> (r: Option<&'a Value>)
        requires
            conforms(plan.types(), self@),
        ensures
            r is None <==> forall|i: int|
                0 <= i < plan.fields@.len() ==> (#[trigger] plan.fields@[i]).name@ != name@,
            r matches Some(v) ==> exists|i: int|
                {
                    &&& 0 <= i < plan.fields@.len()
                    &&& (#[trigger] plan.fields@[i]).name@ == name@
                    &&& *v == self.values@[i]
                    &&& forall|j: int| 0 <= j < i ==> (#[trigger] plan.fields@[j]).name@ != name@
                },
    {
        let n = plan.fields.len();
        let mut i: usize = 0;
        while i < n
            invariant
                n == plan.fields@.len() == self.values@.len(),
                i <= n,
                forall|j: int| 0 <= j < i ==> (#[trigger] plan.fields@[j]).name@ != name@,
            decreases n - i,
        {
            if same_chars(plan.fields[i].name.as_str(), name) {
                return Some(&self.values[i]);
            }
            i = i + 1;
        }
        None
    }
}

/// Relies on std's `String::from_utf8`: it succeeds exactly on valid UTF-8, and
/// the string then holds the characters that the bytes encode.
#[verifier::external_body]
fn string_from_utf8(bytes: Vec<u8>) -> (r: Option<String>)
    ensures
        r is Some <==> valid_utf8(bytes@),
        r matches Some(s) ==> s@ == decode_utf8(bytes@),
{
    match String::from_utf8(bytes) {
        Ok(s) => Some(s),
        Err(_) => None,
    }
}

fn push_bytes(out: &mut Vec<u8>, b: &[u8])
    ensures
        final(out)@ == old(out)@ + b@,
{
    let mut i: usize = 0;
    while i < b.len()
        invariant
            i <= b@.len(),
            out@ == old(out)@ + b@.take(i as int),
        decreases b@.len() - i,
    {
        out.push(b[i]);
        i = i + 1;
        assert(out@ =~= old(out)@ + b@.take(i as int));
    }
    assert(b@.take(i as int) =~= b@);
}

/// Encodes `record` along `plan`. Fails, with nothing written, when a string's
/// UTF-8 length does not fit in 32 bits.
pub fn serialise_number_struct(plan: &LayoutPlan, record: &Record) -> (r: Result<
    Vec<u8>,
    EncodeError,
>)
    requires
        conforms(plan.types(), record@),
    ensures
        r is Ok <==> valid_record(plan.types(), record@),
        r matches Ok(b) ==> b@ == encode_values(record@),
        r matches Err(e) ==> e == EncodeError::EncodingOverflow,
{
    let ghost vs = record@;
    let n = record.values.len();
    let mut out: Vec<u8> = Vec::new();
    let mut i: usize = 0;
    proof {
        assert(vs.skip(0) =~= vs);
        lemma_pow256_values();
    }
    while i < n
        invariant
            n == vs.len() == record.values@.len(),
            vs == record@,
            i <= n,
            encode_values(vs) == out@ + encode_values(vs.skip(i as int)),
            forall|j: int| 0 <= j < i ==> encodable(#[trigger] vs[j]),
            pow256(4) == 0x1_0000_0000,
            pow256(8) == 0x1_0000_0000_0000_0000,
        decreases n - i,
    {
        let ghost before = out@;
        let ghost v = vs[i as int];
        assert(vs.skip(i as int).drop_first() =~= vs.skip(i + 1));
        assert(vs.skip(i as int)[0] == v);
        match &record.values[i] {
            Value::Str(s) => {
                let bytes = s.as_str().as_bytes();
                let len = bytes.len();
                if len > 0xffff_ffff {
                    return Err(EncodeError::EncodingOverflow);
                }
                push_le(&mut out, len as u64, 4);
                push_bytes(&mut out, bytes);
                assert(out@ =~= before + encode_value(v));
            },
            other => {
                let w = other.field_type().byte_width();
                push_le(&mut out, other.int_bits(), w);
            },
        }
        i = i + 1;
    }
    assert(forall|j: int| 0 <= j < n ==> (#[trigger] vs[j]).fits(plan.types()[j]));
    Ok(out)
}

/// Decodes a record along `plan` from the front of `base`. Bytes after the last
/// field are ignored. Fails at the first field that lacks bytes or whose string
/// is not UTF-8, and then returns no record.
pub fn deserialise_number_struct(plan: &LayoutPlan, base: &[u8]) -> (r: Result<Record, DecodeError>)
    requires
        plan.wf(),
    ensures
        decode_values(plan.types(), base@) == match r {
            Ok(rec) => Ok(rec@),
            Err(e) => Err::<Seq<FieldValue>, DecodeError>(e),
        },
{
    let ghost types = plan.types();
    let ghost b = base@;
    let n = plan.fields.len();
    let len = base.len();
    let mut values: Vec<Value> = Vec::new();
    let mut cursor: usize = 0;
    let mut i: usize = 0;
    proof {
        assert(types.skip(0) =~= types);
        assert(b.skip(0) =~= b);
        assert(Seq::<FieldValue>::empty() + Seq::<FieldValue>::empty() =~= Seq::<FieldValue>::empty());
        assert((Record { values })@ =~= Seq::<FieldValue>::empty());
        assert(types.take(0) =~= Seq::<FieldType>::empty());
        lemma_pow256_values();
    }
    while i < n
        invariant
            plan.wf(),
            types == plan.types(),
            b == base@,
            n == types.len() == plan.fields@.len(),
            len == b.len(),
            i <= n,
            cursor <= len,
            decode_values(types, b) == prepend(
                (Record { values })@,
                decode_values(types.skip(i as int), b.skip(cursor as int)),
            ),
            !has_text(types.take(i as int)) ==> cursor == total_width(types.take(i as int)),
            pow256(4) == 0x1_0000_0000,
        decreases n - i,
    {
        let f = &plan.fields[i];
        let t = f.ty;
        let ghost rest = b.skip(cursor as int);
        let ghost vs = (Record { values })@;
        proof {
            assert(types[i as int] == t);
            assert(types.skip(i as int)[0] == t);
            assert(types.skip(i as int).drop_first() =~= types.skip(i + 1));
            assert(types.take(i as int) =~= types.take(i + 1).drop_last());
            if has_text(types.take(i as int)) {
                let j = choose|j: int| 0 <= j < i && types.take(i as int)[j] is Str;
                assert(types.take(i + 1)[j] is Str);
            }
        }
        let pos = match f.offset {
            Offset::Static(off) => off,
            Offset::Dynamic => cursor,
        };
        assert(pos == cursor) by {
            assert(offset_matches(plan.fields@[i as int].offset, planned_offset(types, i as int)));
        }
        let v = if t == FieldType::Str {
            if len - pos < 4 {
                return Err(DecodeError::TruncatedInput);
            }
            let sz = read_le(base, pos, 4);
            proof {
                assert(b.subrange(pos as int, pos + 4) =~= rest.take(4));
            }
            if ((len - pos - 4) as u64) < sz {
                return Err(DecodeError::TruncatedInput);
            }
            let end = pos + 4 + sz as usize;
            let payload = slice_to_vec(slice_subrange(base, pos + 4, end));
            proof {
                assert(payload@ =~= rest.subrange(4, 4 + sz as int));
            }
            match string_from_utf8(payload) {
                Some(s) => {
                    cursor = end;
                    Value::Str(s)
                },
                None => {
                    return Err(DecodeError::InvalidUtf8);
                },
            }
        } else {
            let w = t.byte_width();
            if len - pos < w {
                return Err(DecodeError::TruncatedInput);
            }
            let raw = read_le(base, pos, w);
            proof {
                assert(b.subrange(pos as int, pos + w) =~= rest.take(w as int));
                lemma_le_value_bound(rest.take(w as int));
            }
            cursor = pos + w;
            Value::from_int_bits(t, raw)
        };
        let ghost k = (cursor - pos) as nat;
        proof {
            assert(decode_value(t, rest) == Ok::<(FieldValue, nat), DecodeError>((v@, k)));
            assert(rest.skip(k as int) =~= b.skip(cursor as int));
        }
        values.push(v);
        proof {
            assert((Record { values })@ =~= vs + seq![v@]);
            let r2 = decode_values(types.skip(i + 1), b.skip(cursor as int));
            match r2 {
                Ok(ws) => {
                    assert(vs + (seq![v@] + ws) =~= (vs + seq![v@]) + ws);
                },
                Err(_) => {},
            }
            if !has_text(types.take(i + 1)) {
                assert(types.take(i + 1).last() == t);
                assert(!(t is Str)) by {
                    assert(types.take(i + 1)[i as int] == t);
                }
            }
        }
        i = i + 1;
    }
    proof {
        assert(types.skip(n as int) =~= Seq::<FieldType>::empty());
        assert((Record { values })@ + Seq::<FieldValue>::empty() =~= (Record { values })@);
    }
    Ok(Record { values })
}

} // verus!
