//! The format's laws, stated and proved once and for all.
//!
//! The central one is the round trip: decoding an encoding, against the
//! value's own shape, gives the value back and consumes exactly its bytes,
//! whatever follows them in the stream.

use vstd::prelude::*;

use crate::value::{ShapeModel, ValueModel};
use crate::wire::{
    conforms, dec, dec_fields, dec_many, dec_pairs, enc, enc_entries, enc_list, le32,
    Parsed, ParsedList, ParsedPairs,
};

verus! {

/// A value every machine can hold: no variable-sized payload is longer than
/// the address space. Values built from in-memory data always satisfy this.
pub open spec fn wf(v: ValueModel) -> bool
    decreases v,
{
    match v {
        ValueModel::Bytes(b) => b.len() <= usize::MAX,
        ValueModel::Text(t) => vstd::utf8::encode_utf8(t).len() <= usize::MAX,
        ValueModel::Optional(o) => match o {
            Option::None => true,
            Option::Some(inner) => wf(*inner),
        },
        ValueModel::Newtype(inner) => wf(*inner),
        ValueModel::Sequence(elems) => elems.len() <= usize::MAX && forall|i: int|
            0 <= i < elems.len() ==> wf(#[trigger] elems[i]),
        ValueModel::Tuple(fields) => forall|i: int|
            0 <= i < fields.len() ==> wf(#[trigger] fields[i]),
        ValueModel::Dict(entries) => entries.len() <= usize::MAX && forall|i: int|
            0 <= i < entries.len() ==> wf(#[trigger] entries[i].0) && wf(entries[i].1),
        ValueModel::Variant(_, fields) => forall|i: int|
            0 <= i < fields.len() ==> wf(#[trigger] fields[i]),
        _ => true,
    }
}

/// Splitting a concatenation at the seam gives the two parts back.
pub proof fn lemma_concat_split(a: Seq<u8>, b: Seq<u8>)
    ensures
        (a + b).take(a.len() as int) == a,
        (a + b).skip(a.len() as int) == b,
{
    assert((a + b).take(a.len() as int) =~= a);
    assert((a + b).skip(a.len() as int) =~= b);
}

/// The lengths and round trips of the fixed-width little-endian encodings.
proof fn lemma_le_facts()
    ensures
        forall|x: u16| (#[trigger] crate::wire::le16(x)).len() == 2
            && vstd::bytes::spec_u16_from_le_bytes(crate::wire::le16(x)) == x,
        forall|x: u32| (#[trigger] crate::wire::le32(x)).len() == 4
            && vstd::bytes::spec_u32_from_le_bytes(crate::wire::le32(x)) == x,
        forall|x: u64| (#[trigger] crate::wire::le64(x)).len() == 8
            && vstd::bytes::spec_u64_from_le_bytes(crate::wire::le64(x)) == x,
        forall|x: u128| (#[trigger] crate::wire::le128(x)).len() == 16
            && vstd::bytes::spec_u128_from_le_bytes(crate::wire::le128(x)) == x,
{
    vstd::bytes::lemma_auto_spec_u16_to_from_le_bytes();
    vstd::bytes::lemma_auto_spec_u32_to_from_le_bytes();
    vstd::bytes::lemma_auto_spec_u64_to_from_le_bytes();
    vstd::bytes::lemma_auto_spec_u128_to_from_le_bytes();
}

/// Encoding a run of fields distributes over concatenation.
pub proof fn lemma_enc_list_concat(a: Seq<ValueModel>, b: Seq<ValueModel>)
    ensures
        enc_list(a + b) == enc_list(a) + enc_list(b),
    decreases a.len(),
{
    if a.len() == 0 {
        assert(a + b =~= b);
        assert(enc_list(a) =~= Seq::<u8>::empty());
        assert(enc_list(a) + enc_list(b) =~= enc_list(b));
    } else {
        lemma_enc_list_concat(a.drop_first(), b);
        assert((a + b)[0] == a[0]);
        assert((a + b).drop_first() =~= a.drop_first() + b);
        assert(enc_list(a + b) =~= enc_list(a) + enc_list(b));
    }
}

/// Prefix stability: a compound's bytes are the concatenation of its
/// fields' bytes in declaration order, with a prefix only where the format
/// calls for one — a 64-bit length before sequences, maps, and strings, a
/// 32-bit discriminator before a variant's fields, and nothing at all
/// before a tuple's or a struct's fields.
pub proof fn lemma_prefix_stability(fields: Seq<ValueModel>, more: Seq<ValueModel>)
    ensures
        enc(ValueModel::Tuple(fields)) == enc_list(fields),
        enc(ValueModel::Tuple(fields + more)) == enc(ValueModel::Tuple(fields)) + enc(
            ValueModel::Tuple(more),
        ),
        forall|tag: u32| #[trigger] enc(ValueModel::Variant(tag, fields)) == le32(tag)
            + enc_list(fields),
        forall|elems: Seq<ValueModel>| #[trigger] enc(ValueModel::Sequence(elems))
            == crate::wire::len_prefix(elems.len()) + enc_list(elems),
{
    lemma_enc_list_concat(fields, more);
}

/// A scalar character encodes in four bytes.
proof fn lemma_char_width(c: char)
    ensures
        enc(ValueModel::Char(c)).len() == 4,
{
    vstd::bytes::lemma_auto_spec_u32_to_from_le_bytes();
    assert(enc(ValueModel::Char(c)) == crate::wire::le32(c as u32));
}

/// Byte-exact primitives: every primitive encodes at its natural width,
/// little-endian. The one-byte encodings are spelled out; for the 64-bit
/// width each byte of the encoding is the corresponding byte of the value.
pub proof fn lemma_byte_exact_primitives()
    ensures
        forall|b: bool| #[trigger] enc(ValueModel::Bool(b)) == seq![
            if b {
                1u8
            } else {
                0u8
            },
        ],
        forall|x: u8| #[trigger] enc(ValueModel::U8(x)) == seq![x],
        forall|x: i8| #[trigger] enc(ValueModel::I8(x)) == seq![crate::wire::bits_of_i8(x)],
        forall|x: u16| (#[trigger] enc(ValueModel::U16(x))).len() == 2,
        forall|x: u32| (#[trigger] enc(ValueModel::U32(x))).len() == 4,
        forall|x: u64| (#[trigger] enc(ValueModel::U64(x))).len() == 8,
        forall|x: u128| (#[trigger] enc(ValueModel::U128(x))).len() == 16,
        forall|x: i16| (#[trigger] enc(ValueModel::I16(x))).len() == 2,
        forall|x: i32| (#[trigger] enc(ValueModel::I32(x))).len() == 4,
        forall|x: i64| (#[trigger] enc(ValueModel::I64(x))).len() == 8,
        forall|x: i128| (#[trigger] enc(ValueModel::I128(x))).len() == 16,
        forall|x: u32| (#[trigger] enc(ValueModel::F32Bits(x))).len() == 4,
        forall|x: u64| (#[trigger] enc(ValueModel::F64Bits(x))).len() == 8,
        forall|c: char| (#[trigger] enc(ValueModel::Char(c))).len() == 4,
        forall|x: u64| #[trigger] enc(ValueModel::U64(x))
            == vstd::bytes::spec_u64_to_le_bytes_open(x),
{
    lemma_le_facts();
    assert forall|c: char| (#[trigger] enc(ValueModel::Char(c))).len() == 4 by {
        lemma_char_width(c);
    }
    assert forall|x: u64| #[trigger] enc(ValueModel::U64(x))
        == vstd::bytes::spec_u64_to_le_bytes_open(x) by {
        vstd::bytes::spec_u64_to_le_bytes_to_open(x);
    }
}

/// Round trip: decoding the encoding of a value of the matching shape yields
/// that value back, consuming exactly the encoding, whatever bytes follow.
pub proof fn lemma_round_trip(v: ValueModel, s: ShapeModel, rest: Seq<u8>)
    requires
        conforms(v, s),
        wf(v),
    ensures
        dec(s, enc(v) + rest) == Parsed::Done(v, enc(v).len() as int),
    decreases v, 0nat,
{
    lemma_le_facts();
    let input = enc(v) + rest;
    match v {
        ValueModel::Bool(b) => {
            assert(input[0] == if b { 1u8 } else { 0u8 });
        },
        ValueModel::U8(x) => {
            assert(input[0] == x);
        },
        ValueModel::U16(x) => {
            lemma_concat_split(crate::wire::le16(x), rest);
        },
        ValueModel::U32(x) => {
            lemma_concat_split(crate::wire::le32(x), rest);
        },
        ValueModel::U64(x) => {
            lemma_concat_split(crate::wire::le64(x), rest);
        },
        ValueModel::U128(x) => {
            lemma_concat_split(crate::wire::le128(x), rest);
        },
        ValueModel::I8(x) => {
            assert(input[0] == crate::wire::bits_of_i8(x));
            assert(crate::wire::i8_of_bits(crate::wire::bits_of_i8(x)) == x);
        },
        ValueModel::I16(x) => {
            lemma_concat_split(crate::wire::le16(crate::wire::bits_of_i16(x)), rest);
            assert(crate::wire::i16_of_bits(crate::wire::bits_of_i16(x)) == x);
        },
        ValueModel::I32(x) => {
            lemma_concat_split(crate::wire::le32(crate::wire::bits_of_i32(x)), rest);
            assert(crate::wire::i32_of_bits(crate::wire::bits_of_i32(x)) == x);
        },
        ValueModel::I64(x) => {
            lemma_concat_split(crate::wire::le64(crate::wire::bits_of_i64(x)), rest);
            assert(crate::wire::i64_of_bits(crate::wire::bits_of_i64(x)) == x);
        },
        ValueModel::I128(x) => {
            lemma_concat_split(crate::wire::le128(crate::wire::bits_of_i128(x)), rest);
            assert(crate::wire::i128_of_bits(crate::wire::bits_of_i128(x)) == x);
        },
        ValueModel::F32Bits(x) => {
            lemma_concat_split(crate::wire::le32(x), rest);
        },
        ValueModel::F64Bits(x) => {
            lemma_concat_split(crate::wire::le64(x), rest);
        },
        ValueModel::Char(c) => {
            lemma_concat_split(le32(c as u32), rest);
            vstd::utf8::char_is_scalar(c);
            vstd::utf8::char_u32_cast(c, c as u32);
        },
        ValueModel::Bytes(b) => {
            let prefix = crate::wire::len_prefix(b.len());
            assert(enc(v) + rest =~= prefix + (b + rest));
            lemma_concat_split(prefix, b + rest);
            let n = b.len() as u64;
            assert(input.take(8) == prefix);
            assert(input.subrange(8, 8 + n as int) =~= b);
        },
        ValueModel::Text(t) => {
            let payload = vstd::utf8::encode_utf8(t);
            let prefix = crate::wire::len_prefix(payload.len());
            assert(enc(v) + rest =~= prefix + (payload + rest));
            lemma_concat_split(prefix, payload + rest);
            let n = payload.len() as u64;
            assert(input.take(8) == prefix);
            assert(input.subrange(8, 8 + n as int) =~= payload);
            broadcast use vstd::utf8::encode_utf8_valid_utf8;
            broadcast use vstd::utf8::encode_utf8_decode_utf8;

            assert(vstd::utf8::decode_utf8(payload) == t);
        },
        ValueModel::Optional(o) => {
            match o {
                Option::None => {
                    assert(input[0] == 0u8);
                },
                Option::Some(inner) => {
                    assert(input[0] == 1u8);
                    assert(input.drop_first() =~= enc(*inner) + rest);
                    lemma_round_trip(*inner, *s->Optional_0, rest);
                },
            }
        },
        ValueModel::Unit => {
            assert(enc(v) + rest =~= rest);
        },
        ValueModel::Newtype(inner) => {
            lemma_round_trip(*inner, *s->Newtype_0, rest);
        },
        ValueModel::Sequence(elems) => {
            let prefix = crate::wire::len_prefix(elems.len());
            let body = enc_list(elems);
            assert(enc(v) + rest =~= prefix + (body + rest));
            lemma_concat_split(prefix, body + rest);
            assert(input.take(8) == prefix);
            assert(input.skip(8) == body + rest);
            lemma_round_trip_list(elems, *s->Sequence_0, rest);
        },
        ValueModel::Tuple(fields) => {
            lemma_round_trip_fields(fields, s->Tuple_0, rest);
        },
        ValueModel::Dict(entries) => {
            let prefix = crate::wire::len_prefix(entries.len());
            let body = enc_entries(entries);
            assert(enc(v) + rest =~= prefix + (body + rest));
            lemma_concat_split(prefix, body + rest);
            assert(input.take(8) == prefix);
            assert(input.skip(8) == body + rest);
            assert forall|i: int| 0 <= i < entries.len() implies conforms(
                #[trigger] entries[i].0,
                *s->Dict_0,
            ) && wf(entries[i].0) && conforms(entries[i].1, *s->Dict_1) && wf(
                entries[i].1,
            ) by {
                assert(conforms(entries[i].0, *s->Dict_0));
                assert(wf(entries[i].0));
            }
            lemma_round_trip_pairs(entries, *s->Dict_0, *s->Dict_1, rest);
        },
        ValueModel::Variant(tag, fields) => {
            let prefix = le32(tag);
            let body = enc_list(fields);
            assert(enc(v) + rest =~= prefix + (body + rest));
            lemma_concat_split(prefix, body + rest);
            assert(input.take(4) == prefix);
            assert(input.skip(4) == body + rest);
            lemma_round_trip_fields(fields, s->Sum_0[tag as int], rest);
        },
    }
}

/// Round trip for a run of same-shaped elements, as a sequence's body.
pub proof fn lemma_round_trip_list(vs: Seq<ValueModel>, elem: ShapeModel, rest: Seq<u8>)
    requires
        forall|i: int| 0 <= i < vs.len() ==> conforms(#[trigger] vs[i], elem) && wf(vs[i]),
    ensures
        dec_many(elem, vs.len(), enc_list(vs) + rest) == ParsedList::Done(
            vs,
            enc_list(vs).len() as int,
        ),
    decreases vs, 1nat,
{
    if vs.len() == 0 {
        assert(dec_many(elem, 0, enc_list(vs) + rest) == ParsedList::Done(
            Seq::<ValueModel>::empty(),
            0int,
        ));
        assert(vs =~= Seq::<ValueModel>::empty());
    } else {
        let head = vs[0];
        let tail = vs.drop_first();
        let input = enc_list(vs) + rest;
        assert(input =~= enc(head) + (enc_list(tail) + rest));
        lemma_round_trip(head, elem, enc_list(tail) + rest);
        lemma_concat_split(enc(head), enc_list(tail) + rest);
        assert(input.skip(enc(head).len() as int) == enc_list(tail) + rest);
        assert(forall|i: int|
            0 <= i < tail.len() ==> conforms(#[trigger] tail[i], elem) && wf(tail[i]));
        lemma_round_trip_list(tail, elem, rest);
        assert(seq![head] + tail =~= vs);
    }
}

/// Round trip for a run of key/value pairs, as a map's body.
pub proof fn lemma_round_trip_pairs(
    es: Seq<(ValueModel, ValueModel)>,
    ks: ShapeModel,
    vs: ShapeModel,
    rest: Seq<u8>,
)
    requires
        forall|i: int|
            0 <= i < es.len() ==> conforms(#[trigger] es[i].0, ks) && wf(es[i].0)
                && conforms(es[i].1, vs) && wf(es[i].1),
    ensures
        dec_pairs(ks, vs, es.len(), enc_entries(es) + rest) == ParsedPairs::Done(
            es,
            enc_entries(es).len() as int,
        ),
    decreases es, 1nat,
{
    if es.len() == 0 {
        assert(es =~= Seq::<(ValueModel, ValueModel)>::empty());
    } else {
        let k0 = es[0].0;
        let v0 = es[0].1;
        let tail = es.drop_first();
        let input = enc_entries(es) + rest;
        let after_k = enc(v0) + (enc_entries(tail) + rest);
        assert(input =~= enc(k0) + after_k);
        lemma_round_trip(k0, ks, after_k);
        lemma_concat_split(enc(k0), after_k);
        assert(input.skip(enc(k0).len() as int) == after_k);
        lemma_round_trip(v0, vs, enc_entries(tail) + rest);
        lemma_concat_split(enc(v0), enc_entries(tail) + rest);
        assert(after_k.skip(enc(v0).len() as int) == enc_entries(tail) + rest);
        assert(input.skip((enc(k0).len() + enc(v0).len()) as int) =~= enc_entries(tail) + rest);
        assert(forall|i: int|
            0 <= i < tail.len() ==> conforms(#[trigger] tail[i].0, ks) && wf(tail[i].0)
                && conforms(tail[i].1, vs) && wf(tail[i].1));
        lemma_round_trip_pairs(tail, ks, vs, rest);
        assert(seq![(k0, v0)] + tail =~= es);
        assert((k0, v0) == es[0]);
    }
}

/// Round trip for the fields of a product or a sum's variant, one shape each.
pub proof fn lemma_round_trip_fields(
    vs: Seq<ValueModel>,
    shapes: Seq<ShapeModel>,
    rest: Seq<u8>,
)
    requires
        vs.len() == shapes.len(),
        forall|i: int|
            0 <= i < vs.len() ==> conforms(#[trigger] vs[i], shapes[i]) && wf(vs[i]),
    ensures
        dec_fields(shapes, enc_list(vs) + rest) == ParsedList::Done(
            vs,
            enc_list(vs).len() as int,
        ),
    decreases vs, 1nat,
{
    if vs.len() == 0 {
        assert(vs =~= Seq::<ValueModel>::empty());
    } else {
        let head = vs[0];
        let tail = vs.drop_first();
        let input = enc_list(vs) + rest;
        assert(input =~= enc(head) + (enc_list(tail) + rest));
        lemma_round_trip(head, shapes[0], enc_list(tail) + rest);
        lemma_concat_split(enc(head), enc_list(tail) + rest);
        assert(input.skip(enc(head).len() as int) == enc_list(tail) + rest);
        assert(forall|i: int|
            0 <= i < tail.len() ==> conforms(#[trigger] tail[i], shapes.drop_first()[i])
                && wf(tail[i]));
        lemma_round_trip_fields(tail, shapes.drop_first(), rest);
        assert(seq![head] + tail =~= vs);
    }
}

} // verus!
