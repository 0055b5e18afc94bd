//! What holds of every encoding: decoding gives back what was encoded, extra
//! bytes are ignored, fixed-width schemas take a fixed number of bytes, a cut
//! encoding is reported as truncated and a corrupted string as invalid UTF-8.

use vstd::prelude::*;
use vstd::utf8::{encode_utf8, encode_utf8_decode_utf8, encode_utf8_valid_utf8, valid_utf8};
use crate::codec::{
    DecodeError, conforms, decode_value, decode_values, encodable, encode_value, encode_values,
    prepend, valid_record,
};
use crate::layout::{has_text, total_width};
use crate::le::{le_bytes, lemma_le_bytes_len, lemma_le_round_trip, lemma_pow256_values};
use crate::schema::FieldType;
use crate::value::{FieldValue, lemma_bits_round_trip, to_bits};

verus! {

/// Decoding a value's bytes, whatever follows them, gives the value back and
/// takes exactly its bytes.
pub proof fn lemma_decode_value_encoded(t: FieldType, v: FieldValue, extra: Seq<u8>)
    requires
        v.fits(t),
        encodable(v),
    ensures
        decode_value(t, encode_value(v) + extra) == Ok::<(FieldValue, nat), DecodeError>(
            (v, encode_value(v).len()),
        ),
{
    lemma_pow256_values();
    let b = encode_value(v) + extra;
    match v {
        FieldValue::Int(_, x) => {
            let w = t.width();
            lemma_bits_round_trip(t, x);
            lemma_le_bytes_len(to_bits(t, x), w);
            lemma_le_round_trip(to_bits(t, x), w);
            assert(b.take(w as int) =~= encode_value(v));
        },
        FieldValue::Text(s) => {
            let e = encode_utf8(s);
            let prefix = le_bytes(e.len(), 4);
            lemma_le_bytes_len(e.len(), 4);
            lemma_le_round_trip(e.len(), 4);
            assert(b.take(4) =~= prefix);
            assert(b.subrange(4, 4 + e.len() as int) =~= e);
            encode_utf8_valid_utf8(s);
            encode_utf8_decode_utf8(s);
        },
    }
}

/// Decoding the bytes of `vs` followed by `rest` yields `vs`, then whatever
/// the remaining field types yield from `rest`.
pub proof fn lemma_decode_encoded_prefix(types: Seq<FieldType>, vs: Seq<FieldValue>, rest: Seq<u8>)
    requires
        vs.len() <= types.len(),
        valid_record(types.take(vs.len() as int), vs),
    ensures
        decode_values(types, encode_values(vs) + rest) == prepend(
            vs,
            decode_values(types.skip(vs.len() as int), rest),
        ),
    decreases vs.len(),
{
    if vs.len() == 0 {
        assert(encode_values(vs) + rest =~= rest);
        assert(types.skip(0) =~= types);
        match decode_values(types, rest) {
            Ok(ws) => {
                assert(vs + ws =~= ws);
            },
            Err(_) => {},
        }
    } else {
        let v = vs[0];
        let tail = vs.drop_first();
        let e0 = encode_value(v);
        let bytes = encode_values(vs) + rest;
        assert(types.take(vs.len() as int)[0] == types[0]);
        assert(vs[0].fits(types.take(vs.len() as int)[0]));
        assert(bytes =~= e0 + (encode_values(tail) + rest));
        lemma_decode_value_encoded(types[0], v, encode_values(tail) + rest);
        assert(bytes.skip(e0.len() as int) =~= encode_values(tail) + rest);
        let tt = types.drop_first();
        assert(tt.take(tail.len() as int) =~= types.take(vs.len() as int).drop_first());
        assert forall|i: int| 0 <= i < tail.len() implies (#[trigger] tail[i]).fits(
            tt.take(tail.len() as int)[i],
        ) && encodable(tail[i]) by {
            assert(tail[i] == vs[i + 1]);
            assert(types.take(vs.len() as int)[i + 1] == tt.take(tail.len() as int)[i]);
        }
        lemma_decode_encoded_prefix(tt, tail, rest);
        assert(tt.skip(tail.len() as int) =~= types.skip(vs.len() as int));
        match decode_values(types.skip(vs.len() as int), rest) {
            Ok(ws) => {
                assert(seq![v] + (tail + ws) =~= vs + ws);
            },
            Err(_) => {},
        }
    }
}

/// Decoding the encoding of a valid record gives the record back.
pub proof fn lemma_round_trip(types: Seq<FieldType>, vs: Seq<FieldValue>)
    requires
        valid_record(types, vs),
    ensures
        decode_values(types, encode_values(vs)) == Ok::<Seq<FieldValue>, DecodeError>(vs),
{
    lemma_trailing_bytes(types, vs, Seq::empty());
    assert(encode_values(vs) + Seq::<u8>::empty() =~= encode_values(vs));
}

/// Bytes after the encoding of a valid record change nothing: the record is
/// decoded and the extra bytes are ignored.
pub proof fn lemma_trailing_bytes(types: Seq<FieldType>, vs: Seq<FieldValue>, extra: Seq<u8>)
    requires
        valid_record(types, vs),
    ensures
        decode_values(types, encode_values(vs) + extra) == Ok::<Seq<FieldValue>, DecodeError>(vs),
{
    assert(types.take(vs.len() as int) =~= types);
    lemma_decode_encoded_prefix(types, vs, extra);
    assert(types.skip(vs.len() as int) =~= Seq::<FieldType>::empty());
    assert(vs + Seq::<FieldValue>::empty() =~= vs);
}

proof fn lemma_total_width_front(types: Seq<FieldType>)
    requires
        types.len() > 0,
    ensures
        total_width(types) == types[0].width() + total_width(types.drop_first()),
    decreases types.len(),
{
    if types.len() > 1 {
        lemma_total_width_front(types.drop_last());
        assert(types.drop_last().drop_first() =~= types.drop_first().drop_last());
    } else {
        assert(types.drop_last() =~= Seq::<FieldType>::empty());
        assert(types.drop_first() =~= Seq::<FieldType>::empty());
    }
}

/// Without string fields, every record takes exactly the summed widths of the
/// field types.
pub proof fn lemma_fixed_size_length(types: Seq<FieldType>, vs: Seq<FieldValue>)
    requires
        conforms(types, vs),
        !has_text(types),
    ensures
        encode_values(vs).len() == total_width(types),
    decreases vs.len(),
{
    if vs.len() > 0 {
        let t = types[0];
        assert(vs[0].fits(t));
        if let FieldValue::Int(_, x) = vs[0] {
            lemma_le_bytes_len(to_bits(t, x), t.width());
        }
        assert forall|i: int| 0 <= i < vs.len() - 1 implies (#[trigger] vs.drop_first()[i]).fits(
            types.drop_first()[i],
        ) by {
            assert(vs[i + 1].fits(types[i + 1]));
        }
        assert(!has_text(types.drop_first())) by {
            if has_text(types.drop_first()) {
                let j = choose|j: int|
                    0 <= j < types.drop_first().len() && types.drop_first()[j] is Str;
                assert(types[j + 1] is Str);
            }
        }
        lemma_fixed_size_length(types.drop_first(), vs.drop_first());
        lemma_total_width_front(types);
    }
}

/// Without string fields, decoding succeeds exactly on inputs of at least the
/// summed widths of the field types, and otherwise reports truncated input.
pub proof fn lemma_fixed_size_decode(types: Seq<FieldType>, b: Seq<u8>)
    requires
        !has_text(types),
    ensures
        decode_values(types, b) is Ok <==> b.len() >= total_width(types),
        decode_values(types, b) is Err ==> decode_values(types, b) == Err::<
            Seq<FieldValue>,
            DecodeError,
        >(DecodeError::TruncatedInput),
    decreases types.len(),
{
    if types.len() > 0 {
        let t = types[0];
        assert(!(t is Str));
        let rest = types.drop_first();
        assert(!has_text(rest)) by {
            if has_text(rest) {
                let j = choose|j: int| 0 <= j < rest.len() && rest[j] is Str;
                assert(types[j + 1] is Str);
            }
        }
        lemma_total_width_front(types);
        lemma_fixed_size_decode(rest, b.skip(t.width() as int));
    }
}

/// Decoding any proper prefix of a value's bytes reports truncated input.
pub proof fn lemma_decode_value_truncated(t: FieldType, v: FieldValue, k: int)
    requires
        v.fits(t),
        encodable(v),
        0 <= k < encode_value(v).len(),
    ensures
        decode_value(t, encode_value(v).take(k)) == Err::<(FieldValue, nat), DecodeError>(
            DecodeError::TruncatedInput,
        ),
{
    lemma_pow256_values();
    match v {
        FieldValue::Int(_, x) => {
            lemma_le_bytes_len(to_bits(t, x), t.width());
        },
        FieldValue::Text(s) => {
            let e = encode_utf8(s);
            lemma_le_bytes_len(e.len(), 4);
            lemma_le_round_trip(e.len(), 4);
            if k >= 4 {
                assert(encode_value(v).take(k).take(4) =~= le_bytes(e.len(), 4));
            }
        },
    }
}

/// Decoding any proper prefix of a valid record's encoding reports truncated input.
pub proof fn lemma_truncation(types: Seq<FieldType>, vs: Seq<FieldValue>, k: int)
    requires
        valid_record(types, vs),
        0 <= k < encode_values(vs).len(),
    ensures
        decode_values(types, encode_values(vs).take(k)) == Err::<Seq<FieldValue>, DecodeError>(
            DecodeError::TruncatedInput,
        ),
    decreases vs.len(),
{
    let v = vs[0];
    let tail = vs.drop_first();
    let e0 = encode_value(v);
    let et = encode_values(tail);
    let cut = encode_values(vs).take(k);
    assert(vs[0].fits(types[0]) && encodable(vs[0]));
    if k < e0.len() {
        assert(cut =~= e0.take(k));
        lemma_decode_value_truncated(types[0], v, k);
    } else {
        let k2 = k - e0.len();
        assert(cut =~= e0 + et.take(k2));
        lemma_decode_value_encoded(types[0], v, et.take(k2));
        assert(cut.skip(e0.len() as int) =~= et.take(k2));
        assert forall|i: int| 0 <= i < tail.len() implies (#[trigger] tail[i]).fits(
            types.drop_first()[i],
        ) && encodable(tail[i]) by {
            assert(vs[i + 1].fits(types[i + 1]) && encodable(vs[i + 1]));
        }
        lemma_truncation(types.drop_first(), tail, k2);
    }
}

/// Replacing the UTF-8 bytes of string field `j` in a valid record's encoding
/// by bytes of the same length that are not UTF-8 makes decoding report
/// invalid UTF-8.
pub proof fn lemma_corrupt_string(
    types: Seq<FieldType>,
    vs: Seq<FieldValue>,
    j: int,
    payload: Seq<u8>,
)
    requires
        valid_record(types, vs),
        0 <= j < vs.len(),
        vs[j] matches FieldValue::Text(s) && payload.len() == encode_utf8(s).len(),
        !valid_utf8(payload),
    ensures
        decode_values(
            types,
            encode_values(vs.take(j)) + (le_bytes(payload.len(), 4) + payload) + encode_values(
                vs.skip(j + 1),
            ),
        ) == Err::<Seq<FieldValue>, DecodeError>(DecodeError::InvalidUtf8),
{
    lemma_pow256_values();
    let head = vs.take(j);
    let field = le_bytes(payload.len(), 4) + payload;
    let rest = field + encode_values(vs.skip(j + 1));
    assert(types.take(j).take(head.len() as int) =~= types.take(j));
    assert forall|i: int| 0 <= i < head.len() implies (#[trigger] head[i]).fits(
        types.take(j).take(head.len() as int)[i],
    ) && encodable(head[i]) by {
        assert(vs[i].fits(types[i]) && encodable(vs[i]));
    }
    assert(types.take(head.len() as int) =~= types.take(j));
    lemma_decode_encoded_prefix(types, head, rest);
    assert(encode_values(head) + rest =~= encode_values(vs.take(j)) + field + encode_values(
        vs.skip(j + 1),
    ));
    let ts = types.skip(j);
    assert(vs[j].fits(types[j]) && encodable(vs[j]));
    assert(ts[0] is Str);
    lemma_le_bytes_len(payload.len(), 4);
    lemma_le_round_trip(payload.len(), 4);
    assert(rest.take(4) =~= le_bytes(payload.len(), 4));
    assert(rest.subrange(4, 4 + payload.len() as int) =~= payload);
    assert(decode_value(ts[0], rest) == Err::<(FieldValue, nat), DecodeError>(
        DecodeError::InvalidUtf8,
    ));
}

} // verus!
