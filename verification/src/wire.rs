//! The wire format, as mathematics.
//!
//! `enc` gives the exact byte sequence a value serializes to: every multi-byte
//! integer is little-endian at its natural width, length prefixes are 64-bit,
//! variant discriminators 32-bit, optionals carry a one-byte tag, and product
//! types are plain concatenations of their fields.
//!
//! `dec` gives the exact result of decoding a byte stream against a shape:
//! the decoded value and how many bytes it consumed, or the failure the
//! decoder owes for that stream. Every contract of the executable encoder and
//! decoder is stated against these two functions.

use vstd::prelude::*;

use crate::value::{ShapeModel, ValueModel};

verus! {

/// Little-endian bytes of a 16-bit unsigned integer.
pub open spec fn le16(x: u16) -> Seq<u8> {
    vstd::bytes::spec_u16_to_le_bytes(x)
}

/// Little-endian bytes of a 32-bit unsigned integer.
pub open spec fn le32(x: u32) -> Seq<u8> {
    vstd::bytes::spec_u32_to_le_bytes(x)
}

/// Little-endian bytes of a 64-bit unsigned integer.
pub open spec fn le64(x: u64) -> Seq<u8> {
    vstd::bytes::spec_u64_to_le_bytes(x)
}

/// Little-endian bytes of a 128-bit unsigned integer.
pub open spec fn le128(x: u128) -> Seq<u8> {
    vstd::bytes::spec_u128_to_le_bytes(x)
}

/// The 64-bit length prefix written before a variable-sized container.
pub open spec fn len_prefix(n: nat) -> Seq<u8>
    recommends
        n <= u64::MAX,
{
    le64(n as u64)
}

/// The two's-complement bit pattern of a signed 8-bit integer.
pub open spec fn bits_of_i8(x: i8) -> u8 {
    if x >= 0 {
        x as u8
    } else {
        (x + 0x100) as u8
    }
}

/// The two's-complement bit pattern of a signed 16-bit integer.
pub open spec fn bits_of_i16(x: i16) -> u16 {
    if x >= 0 {
        x as u16
    } else {
        (x + 0x1_0000) as u16
    }
}

/// The two's-complement bit pattern of a signed 32-bit integer.
pub open spec fn bits_of_i32(x: i32) -> u32 {
    if x >= 0 {
        x as u32
    } else {
        (x + 0x1_0000_0000) as u32
    }
}

/// The two's-complement bit pattern of a signed 64-bit integer.
pub open spec fn bits_of_i64(x: i64) -> u64 {
    if x >= 0 {
        x as u64
    } else {
        (x + 0x1_0000_0000_0000_0000) as u64
    }
}

/// The two's-complement bit pattern of a signed 128-bit integer.
pub open spec fn bits_of_i128(x: i128) -> u128 {
    if x >= 0 {
        x as u128
    } else {
        (x + 0x1_0000_0000_0000_0000_0000_0000_0000_0000) as u128
    }
}

/// The signed 8-bit integer with the given two's-complement bit pattern.
pub open spec fn i8_of_bits(u: u8) -> i8 {
    if u <= i8::MAX as u8 {
        u as i8
    } else {
        (u - 0x100) as i8
    }
}

/// The signed 16-bit integer with the given two's-complement bit pattern.
pub open spec fn i16_of_bits(u: u16) -> i16 {
    if u <= i16::MAX as u16 {
        u as i16
    } else {
        (u - 0x1_0000) as i16
    }
}

/// The signed 32-bit integer with the given two's-complement bit pattern.
pub open spec fn i32_of_bits(u: u32) -> i32 {
    if u <= i32::MAX as u32 {
        u as i32
    } else {
        (u - 0x1_0000_0000) as i32
    }
}

/// The signed 64-bit integer with the given two's-complement bit pattern.
pub open spec fn i64_of_bits(u: u64) -> i64 {
    if u <= i64::MAX as u64 {
        u as i64
    } else {
        (u - 0x1_0000_0000_0000_0000) as i64
    }
}

/// The signed 128-bit integer with the given two's-complement bit pattern.
pub open spec fn i128_of_bits(u: u128) -> i128 {
    if u <= i128::MAX as u128 {
        u as i128
    } else {
        (u - 0x1_0000_0000_0000_0000_0000_0000_0000_0000) as i128
    }
}

/// The two's-complement bit pattern of a signed 8-bit integer, computed.
pub fn i8_bits(x: i8) -> (r: u8)
    ensures
        r == bits_of_i8(x),
{
    if x >= 0 {
        x as u8
    } else {
        ((x as i16) + 0x100) as u8
    }
}

/// The two's-complement bit pattern of a signed 16-bit integer, computed.
pub fn i16_bits(x: i16) -> (r: u16)
    ensures
        r == bits_of_i16(x),
{
    if x >= 0 {
        x as u16
    } else {
        ((x as i32) + 0x1_0000) as u16
    }
}

/// The two's-complement bit pattern of a signed 32-bit integer, computed.
pub fn i32_bits(x: i32) -> (r: u32)
    ensures
        r == bits_of_i32(x),
{
    if x >= 0 {
        x as u32
    } else {
        ((x as i64) + 0x1_0000_0000) as u32
    }
}

/// The two's-complement bit pattern of a signed 64-bit integer, computed.
pub fn i64_bits(x: i64) -> (r: u64)
    ensures
        r == bits_of_i64(x),
{
    if x >= 0 {
        x as u64
    } else {
        let y = (-(x + 1)) as u64;
        u64::MAX - y
    }
}

/// The two's-complement bit pattern of a signed 128-bit integer, computed.
pub fn i128_bits(x: i128) -> (r: u128)
    ensures
        r == bits_of_i128(x),
{
    if x >= 0 {
        x as u128
    } else {
        let y = (-(x + 1)) as u128;
        u128::MAX - y
    }
}

/// The signed 8-bit integer with the given bit pattern, computed.
pub fn i8_from_bits(u: u8) -> (r: i8)
    ensures
        r == i8_of_bits(u),
{
    if u <= 0x7f {
        u as i8
    } else {
        ((u as i16) - 0x100) as i8
    }
}

/// The signed 16-bit integer with the given bit pattern, computed.
pub fn i16_from_bits(u: u16) -> (r: i16)
    ensures
        r == i16_of_bits(u),
{
    if u <= 0x7fff {
        u as i16
    } else {
        ((u as i32) - 0x1_0000) as i16
    }
}

/// The signed 32-bit integer with the given bit pattern, computed.
pub fn i32_from_bits(u: u32) -> (r: i32)
    ensures
        r == i32_of_bits(u),
{
    if u <= 0x7fff_ffff {
        u as i32
    } else {
        ((u as i64) - 0x1_0000_0000) as i32
    }
}

/// The signed 64-bit integer with the given bit pattern, computed.
pub fn i64_from_bits(u: u64) -> (r: i64)
    ensures
        r == i64_of_bits(u),
{
    if u <= 0x7fff_ffff_ffff_ffff {
        u as i64
    } else {
        let y = u64::MAX - u;
        -(y as i64) - 1
    }
}

/// The signed 128-bit integer with the given bit pattern, computed.
pub fn i128_from_bits(u: u128) -> (r: i128)
    ensures
        r == i128_of_bits(u),
{
    if u <= 0x7fff_ffff_ffff_ffff_ffff_ffff_ffff_ffff {
        u as i128
    } else {
        let y = u128::MAX - u;
        -(y as i128) - 1
    }
}

/// The canonical encoding of a value.
pub open spec fn enc(v: ValueModel) -> Seq<u8>
    decreases v,
{
    match v {
        ValueModel::Bool(b) => seq![if b { 1u8 } else { 0u8 }],
        ValueModel::U8(x) => seq![x],
        ValueModel::U16(x) => le16(x),
        ValueModel::U32(x) => le32(x),
        ValueModel::U64(x) => le64(x),
        ValueModel::U128(x) => le128(x),
        ValueModel::I8(x) => seq![bits_of_i8(x)],
        ValueModel::I16(x) => le16(bits_of_i16(x)),
        ValueModel::I32(x) => le32(bits_of_i32(x)),
        ValueModel::I64(x) => le64(bits_of_i64(x)),
        ValueModel::I128(x) => le128(bits_of_i128(x)),
        ValueModel::F32Bits(x) => le32(x),
        ValueModel::F64Bits(x) => le64(x),
        ValueModel::Char(c) => le32(c as u32),
        ValueModel::Bytes(b) => len_prefix(b.len()) + b,
        ValueModel::Text(t) => {
            let payload = vstd::utf8::encode_utf8(t);
            len_prefix(payload.len()) + payload
        },
        ValueModel::Optional(o) => match o {
            Option::None => seq![0u8],
            Option::Some(inner) => seq![1u8] + enc(*inner),
        },
        ValueModel::Unit => Seq::empty(),
        ValueModel::Newtype(inner) => enc(*inner),
        ValueModel::Sequence(elems) => len_prefix(elems.len()) + enc_list(elems),
        ValueModel::Tuple(fields) => enc_list(fields),
        ValueModel::Dict(entries) => len_prefix(entries.len()) + enc_entries(entries),
        ValueModel::Variant(tag, fields) => le32(tag) + enc_list(fields),
    }
}

/// The concatenation of the encodings of a list of values, in order.
pub open spec fn enc_list(vs: Seq<ValueModel>) -> Seq<u8>
    decreases vs,
{
    if vs.len() == 0 {
        Seq::empty()
    } else {
        enc(vs[0]) + enc_list(vs.drop_first())
    }
}

/// The concatenation of the encodings of a list of map entries, key before
/// value, in order.
pub open spec fn enc_entries(es: Seq<(ValueModel, ValueModel)>) -> Seq<u8>
    decreases es,
{
    if es.len() == 0 {
        Seq::empty()
    } else {
        enc(es[0].0) + enc(es[0].1) + enc_entries(es.drop_first())
    }
}

/// Extending an encoded prefix of a list by its next element.
pub proof fn lemma_enc_list_snoc(vs: Seq<ValueModel>, i: int)
    requires
        0 <= i < vs.len(),
    ensures
        enc_list(vs.take(i + 1)) == enc_list(vs.take(i)) + enc(vs[i]),
    decreases i,
{
    if i == 0 {
        assert(vs.take(1) =~= seq![vs[0]]);
        assert(vs.take(1).drop_first() =~= Seq::<ValueModel>::empty());
        assert(vs.take(0) =~= Seq::<ValueModel>::empty());
        assert(enc_list(vs.take(1)) =~= enc_list(vs.take(0)) + enc(vs[0]));
    } else {
        let tail = vs.drop_first();
        lemma_enc_list_snoc(tail, i - 1);
        assert(vs.take(i + 1)[0] == vs[0]);
        assert(vs.take(i + 1).drop_first() =~= tail.take(i));
        assert(vs.take(i)[0] == vs[0]);
        assert(vs.take(i).drop_first() =~= tail.take(i - 1));
        assert(tail[i - 1] == vs[i]);
        assert(enc_list(vs.take(i + 1)) == enc(vs[0]) + enc_list(tail.take(i)));
        assert(enc_list(vs.take(i)) == enc(vs[0]) + enc_list(tail.take(i - 1)));
        assert(enc_list(vs.take(i + 1)) =~= enc_list(vs.take(i)) + enc(vs[i]));
    }
}

/// Extending an encoded prefix of a run of map entries by its next entry.
pub proof fn lemma_enc_entries_snoc(es: Seq<(ValueModel, ValueModel)>, i: int)
    requires
        0 <= i < es.len(),
    ensures
        enc_entries(es.take(i + 1)) == enc_entries(es.take(i)) + enc(es[i].0) + enc(
            es[i].1,
        ),
    decreases i,
{
    if i == 0 {
        assert(es.take(1) =~= seq![es[0]]);
        assert(es.take(1).drop_first() =~= Seq::<(ValueModel, ValueModel)>::empty());
        assert(es.take(0) =~= Seq::<(ValueModel, ValueModel)>::empty());
        assert(enc_entries(es.take(1)) =~= enc_entries(es.take(0)) + enc(es[0].0) + enc(
            es[0].1,
        ));
    } else {
        let tail = es.drop_first();
        lemma_enc_entries_snoc(tail, i - 1);
        assert(es.take(i + 1)[0] == es[0]);
        assert(es.take(i + 1).drop_first() =~= tail.take(i));
        assert(es.take(i)[0] == es[0]);
        assert(es.take(i).drop_first() =~= tail.take(i - 1));
        assert(tail[i - 1] == es[i]);
        assert(enc_entries(es.take(i + 1)) == enc(es[0].0) + enc(es[0].1) + enc_entries(
            tail.take(i),
        ));
        assert(enc_entries(es.take(i)) == enc(es[0].0) + enc(es[0].1) + enc_entries(
            tail.take(i - 1),
        ));
        assert(enc_entries(es.take(i + 1)) =~= enc_entries(es.take(i)) + enc(es[i].0)
            + enc(es[i].1));
    }
}

/// Whether a value has the given shape, so that a decoder driven by the shape
/// can reproduce it.
pub open spec fn conforms(v: ValueModel, s: ShapeModel) -> bool
    decreases v,
{
    match v {
        ValueModel::Bool(_) => s is Bool,
        ValueModel::U8(_) => s is U8,
        ValueModel::U16(_) => s is U16,
        ValueModel::U32(_) => s is U32,
        ValueModel::U64(_) => s is U64,
        ValueModel::U128(_) => s is U128,
        ValueModel::I8(_) => s is I8,
        ValueModel::I16(_) => s is I16,
        ValueModel::I32(_) => s is I32,
        ValueModel::I64(_) => s is I64,
        ValueModel::I128(_) => s is I128,
        ValueModel::F32Bits(_) => s is F32,
        ValueModel::F64Bits(_) => s is F64,
        ValueModel::Char(_) => s is Char,
        ValueModel::Bytes(_) => s is Bytes,
        ValueModel::Text(_) => s is Text,
        ValueModel::Optional(o) => s is Optional && match o {
            Option::None => true,
            Option::Some(inner) => conforms(*inner, *s->Optional_0),
        },
        ValueModel::Unit => s is Unit,
        ValueModel::Newtype(inner) => s is Newtype && conforms(*inner, *s->Newtype_0),
        ValueModel::Sequence(elems) => s is Sequence && forall|i: int|
            0 <= i < elems.len() ==> conforms(#[trigger] elems[i], *s->Sequence_0),
        ValueModel::Tuple(fields) => s is Tuple && fields.len() == s->Tuple_0.len()
            && forall|i: int|
                0 <= i < fields.len() ==> conforms(#[trigger] fields[i], s->Tuple_0[i]),
        ValueModel::Dict(entries) => s is Dict && forall|i: int|
            0 <= i < entries.len() ==> conforms(#[trigger] entries[i].0, *s->Dict_0)
                && conforms(entries[i].1, *s->Dict_1),
        ValueModel::Variant(tag, fields) => s is Sum && tag < s->Sum_0.len()
            && fields.len() == s->Sum_0[tag as int].len() && forall|i: int|
                0 <= i < fields.len() ==> conforms(
                    #[trigger] fields[i],
                    s->Sum_0[tag as int][i],
                ),
    }
}

/// A decode failure, with what provoked it.
pub enum Failure {
    /// The stream ended before the shape's next demand was met.
    Eof,
    /// A `char` payload that is not a Unicode scalar value.
    BadChar(u32),
    /// A text payload that is not valid UTF-8.
    BadUtf8,
    /// A length prefix beyond what this machine can address.
    TooBig(u64),
    /// A discriminator with no matching variant.
    BadTag(u32),
}

/// The outcome of decoding one value: the value and the bytes consumed, or a
/// failure.
pub enum Parsed {
    Done(ValueModel, int),
    Fail(Failure),
}

/// The outcome of decoding a run of values.
pub enum ParsedList {
    Done(Seq<ValueModel>, int),
    Fail(Failure),
}

/// The outcome of decoding a run of key/value pairs.
pub enum ParsedPairs {
    Done(Seq<(ValueModel, ValueModel)>, int),
    Fail(Failure),
}

/// A structural size for shapes; the decoding functions recurse along it.
pub open spec fn size_of(s: ShapeModel) -> nat
    decreases s,
{
    match s {
        ShapeModel::Optional(inner) => 1 + size_of(*inner),
        ShapeModel::Newtype(inner) => 1 + size_of(*inner),
        ShapeModel::Sequence(inner) => 1 + size_of(*inner),
        ShapeModel::Tuple(fields) => 1 + size_list(fields),
        ShapeModel::Dict(k, v) => 1 + size_of(*k) + size_of(*v),
        ShapeModel::Sum(arms) => 1 + size_arms(arms),
        _ => 1,
    }
}

/// The summed size of a list of shapes.
pub open spec fn size_list(fs: Seq<ShapeModel>) -> nat
    decreases fs,
{
    if fs.len() == 0 {
        0
    } else {
        size_of(fs[0]) + size_list(fs.drop_first())
    }
}

/// The summed size of the arms of a sum.
pub open spec fn size_arms(arms: Seq<Seq<ShapeModel>>) -> nat
    decreases arms,
{
    if arms.len() == 0 {
        0
    } else {
        size_list(arms[0]) + size_arms(arms.drop_first())
    }
}

/// Every shape has positive size.
pub proof fn lemma_size_of_pos(s: ShapeModel)
    ensures
        size_of(s) >= 1,
{
}

/// A member of a shape list contributes no more than the list's size.
pub proof fn lemma_size_list_elem(fs: Seq<ShapeModel>, i: int)
    requires
        0 <= i < fs.len(),
    ensures
        size_of(fs[i]) <= size_list(fs),
    decreases fs.len(),
{
    if i == 0 {
    } else {
        lemma_size_list_elem(fs.drop_first(), i - 1);
        assert(fs.drop_first()[i - 1] == fs[i]);
    }
}

/// One arm's summed size contributes no more than all arms' summed size.
pub proof fn lemma_size_arms_elem(arms: Seq<Seq<ShapeModel>>, i: int)
    requires
        0 <= i < arms.len(),
    ensures
        size_list(arms[i]) <= size_arms(arms),
    decreases arms.len(),
{
    if i == 0 {
    } else {
        lemma_size_arms_elem(arms.drop_first(), i - 1);
        assert(arms.drop_first()[i - 1] == arms[i]);
    }
}

/// What decoding one value of shape `s` from the front of `input` yields.
pub open spec fn dec(s: ShapeModel, input: Seq<u8>) -> Parsed
    decreases size_of(s), 0nat, 0nat,
    via dec_decreases
{
    match s {
        ShapeModel::Bool => {
            if input.len() < 1 {
                Parsed::Fail(Failure::Eof)
            } else {
                Parsed::Done(ValueModel::Bool(input[0] != 0), 1)
            }
        },
        ShapeModel::U8 => {
            if input.len() < 1 {
                Parsed::Fail(Failure::Eof)
            } else {
                Parsed::Done(ValueModel::U8(input[0]), 1)
            }
        },
        ShapeModel::U16 => {
            if input.len() < 2 {
                Parsed::Fail(Failure::Eof)
            } else {
                Parsed::Done(
                    ValueModel::U16(vstd::bytes::spec_u16_from_le_bytes(input.take(2))),
                    2,
                )
            }
        },
        ShapeModel::U32 => {
            if input.len() < 4 {
                Parsed::Fail(Failure::Eof)
            } else {
                Parsed::Done(
                    ValueModel::U32(vstd::bytes::spec_u32_from_le_bytes(input.take(4))),
                    4,
                )
            }
        },
        ShapeModel::U64 => {
            if input.len() < 8 {
                Parsed::Fail(Failure::Eof)
            } else {
                Parsed::Done(
                    ValueModel::U64(vstd::bytes::spec_u64_from_le_bytes(input.take(8))),
                    8,
                )
            }
        },
        ShapeModel::U128 => {
            if input.len() < 16 {
                Parsed::Fail(Failure::Eof)
            } else {
                Parsed::Done(
                    ValueModel::U128(vstd::bytes::spec_u128_from_le_bytes(input.take(16))),
                    16,
                )
            }
        },
        ShapeModel::I8 => {
            if input.len() < 1 {
                Parsed::Fail(Failure::Eof)
            } else {
                Parsed::Done(ValueModel::I8(i8_of_bits(input[0])), 1)
            }
        },
        ShapeModel::I16 => {
            if input.len() < 2 {
                Parsed::Fail(Failure::Eof)
            } else {
                Parsed::Done(
                    ValueModel::I16(
                        i16_of_bits(vstd::bytes::spec_u16_from_le_bytes(input.take(2))),
                    ),
                    2,
                )
            }
        },
        ShapeModel::I32 => {
            if input.len() < 4 {
                Parsed::Fail(Failure::Eof)
            } else {
                Parsed::Done(
                    ValueModel::I32(
                        i32_of_bits(vstd::bytes::spec_u32_from_le_bytes(input.take(4))),
                    ),
                    4,
                )
            }
        },
        ShapeModel::I64 => {
            if input.len() < 8 {
                Parsed::Fail(Failure::Eof)
            } else {
                Parsed::Done(
                    ValueModel::I64(
                        i64_of_bits(vstd::bytes::spec_u64_from_le_bytes(input.take(8))),
                    ),
                    8,
                )
            }
        },
        ShapeModel::I128 => {
            if input.len() < 16 {
                Parsed::Fail(Failure::Eof)
            } else {
                Parsed::Done(
                    ValueModel::I128(
                        i128_of_bits(vstd::bytes::spec_u128_from_le_bytes(input.take(16))),
                    ),
                    16,
                )
            }
        },
        ShapeModel::F32 => {
            if input.len() < 4 {
                Parsed::Fail(Failure::Eof)
            } else {
                Parsed::Done(
                    ValueModel::F32Bits(vstd::bytes::spec_u32_from_le_bytes(input.take(4))),
                    4,
                )
            }
        },
        ShapeModel::F64 => {
            if input.len() < 8 {
                Parsed::Fail(Failure::Eof)
            } else {
                Parsed::Done(
                    ValueModel::F64Bits(vstd::bytes::spec_u64_from_le_bytes(input.take(8))),
                    8,
                )
            }
        },
        ShapeModel::Char => {
            if input.len() < 4 {
                Parsed::Fail(Failure::Eof)
            } else {
                let u = vstd::bytes::spec_u32_from_le_bytes(input.take(4));
                if vstd::utf8::is_scalar(u) {
                    Parsed::Done(ValueModel::Char(u as char), 4)
                } else {
                    Parsed::Fail(Failure::BadChar(u))
                }
            }
        },
        ShapeModel::Bytes => {
            if input.len() < 8 {
                Parsed::Fail(Failure::Eof)
            } else {
                let n = vstd::bytes::spec_u64_from_le_bytes(input.take(8));
                if n > usize::MAX as u64 {
                    Parsed::Fail(Failure::TooBig(n))
                } else if input.len() < 8 + n {
                    Parsed::Fail(Failure::Eof)
                } else {
                    Parsed::Done(
                        ValueModel::Bytes(input.subrange(8, 8 + n as int)),
                        8 + n as int,
                    )
                }
            }
        },
        ShapeModel::Text => {
            if input.len() < 8 {
                Parsed::Fail(Failure::Eof)
            } else {
                let n = vstd::bytes::spec_u64_from_le_bytes(input.take(8));
                if n > usize::MAX as u64 {
                    Parsed::Fail(Failure::TooBig(n))
                } else if input.len() < 8 + n {
                    Parsed::Fail(Failure::Eof)
                } else {
                    let payload = input.subrange(8, 8 + n as int);
                    if vstd::utf8::valid_utf8(payload) {
                        Parsed::Done(
                            ValueModel::Text(vstd::utf8::decode_utf8(payload)),
                            8 + n as int,
                        )
                    } else {
                        Parsed::Fail(Failure::BadUtf8)
                    }
                }
            }
        },
        ShapeModel::Unit => Parsed::Done(ValueModel::Unit, 0),
        ShapeModel::Optional(inner) => {
            if input.len() < 1 {
                Parsed::Fail(Failure::Eof)
            } else if input[0] == 0 {
                Parsed::Done(ValueModel::Optional(Option::None), 1)
            } else {
                match dec(*inner, input.drop_first()) {
                    Parsed::Done(v, used) => Parsed::Done(
                        ValueModel::Optional(Option::Some(Box::new(v))),
                        1 + used,
                    ),
                    Parsed::Fail(f) => Parsed::Fail(f),
                }
            }
        },
        ShapeModel::Newtype(inner) => match dec(*inner, input) {
            Parsed::Done(v, used) => Parsed::Done(
                ValueModel::Newtype(Box::new(v)),
                used,
            ),
            Parsed::Fail(f) => Parsed::Fail(f),
        },
        ShapeModel::Sequence(inner) => {
            if input.len() < 8 {
                Parsed::Fail(Failure::Eof)
            } else {
                let n = vstd::bytes::spec_u64_from_le_bytes(input.take(8));
                if n > usize::MAX as u64 {
                    Parsed::Fail(Failure::TooBig(n))
                } else {
                    match dec_many(*inner, n as nat, input.skip(8)) {
                        ParsedList::Done(vs, used) => Parsed::Done(
                            ValueModel::Sequence(vs),
                            8 + used,
                        ),
                        ParsedList::Fail(f) => Parsed::Fail(f),
                    }
                }
            }
        },
        ShapeModel::Tuple(fields) => {
            match dec_fields(fields, input) {
                ParsedList::Done(vs, used) => Parsed::Done(ValueModel::Tuple(vs), used),
                ParsedList::Fail(f) => Parsed::Fail(f),
            }
        },
        ShapeModel::Dict(k, v) => {
            if input.len() < 8 {
                Parsed::Fail(Failure::Eof)
            } else {
                let n = vstd::bytes::spec_u64_from_le_bytes(input.take(8));
                if n > usize::MAX as u64 {
                    Parsed::Fail(Failure::TooBig(n))
                } else {
                    match dec_pairs(*k, *v, n as nat, input.skip(8)) {
                        ParsedPairs::Done(ps, used) => Parsed::Done(
                            ValueModel::Dict(ps),
                            8 + used,
                        ),
                        ParsedPairs::Fail(f) => Parsed::Fail(f),
                    }
                }
            }
        },
        ShapeModel::Sum(arms) => {
            if input.len() < 4 {
                Parsed::Fail(Failure::Eof)
            } else {
                let tag = vstd::bytes::spec_u32_from_le_bytes(input.take(4));
                if tag >= arms.len() {
                    Parsed::Fail(Failure::BadTag(tag))
                } else {
                    match dec_fields(arms[tag as int], input.skip(4)) {
                        ParsedList::Done(vs, used) => Parsed::Done(
                            ValueModel::Variant(tag, vs),
                            4 + used,
                        ),
                        ParsedList::Fail(f) => Parsed::Fail(f),
                    }
                }
            }
        },
    }
}

#[via_fn]
proof fn dec_decreases(s: ShapeModel, input: Seq<u8>) {
    match s {
        ShapeModel::Sum(arms) => {
            if input.len() >= 4 {
                let tag = vstd::bytes::spec_u32_from_le_bytes(input.take(4));
                if tag < arms.len() {
                    lemma_size_arms_elem(arms, tag as int);
                }
            }
        },
        _ => {},
    }
}

/// What decoding exactly `count` values of shape `elem` yields.
pub open spec fn dec_many(elem: ShapeModel, count: nat, input: Seq<u8>) -> ParsedList
    decreases size_of(elem), count, 1nat,
{
    if count == 0 {
        ParsedList::Done(Seq::empty(), 0)
    } else {
        match dec(elem, input) {
            Parsed::Done(v, used) => {
                match dec_many(elem, (count - 1) as nat, input.skip(used)) {
                    ParsedList::Done(vs, used2) => ParsedList::Done(
                        seq![v] + vs,
                        used + used2,
                    ),
                    ParsedList::Fail(f) => ParsedList::Fail(f),
                }
            },
            Parsed::Fail(f) => ParsedList::Fail(f),
        }
    }
}

/// What decoding exactly `count` key/value pairs yields.
pub open spec fn dec_pairs(
    k: ShapeModel,
    v: ShapeModel,
    count: nat,
    input: Seq<u8>,
) -> ParsedPairs
    decreases size_of(k) + size_of(v), count, 1nat,
    via dec_pairs_decreases
{
    if count == 0 {
        ParsedPairs::Done(Seq::empty(), 0)
    } else {
        match dec(k, input) {
            Parsed::Done(kv, used_k) => {
                match dec(v, input.skip(used_k)) {
                    Parsed::Done(vv, used_v) => {
                        match dec_pairs(
                            k,
                            v,
                            (count - 1) as nat,
                            input.skip(used_k + used_v),
                        ) {
                            ParsedPairs::Done(ps, used2) => ParsedPairs::Done(
                                seq![(kv, vv)] + ps,
                                used_k + used_v + used2,
                            ),
                            ParsedPairs::Fail(f) => ParsedPairs::Fail(f),
                        }
                    },
                    Parsed::Fail(f) => ParsedPairs::Fail(f),
                }
            },
            Parsed::Fail(f) => ParsedPairs::Fail(f),
        }
    }
}

#[via_fn]
proof fn dec_pairs_decreases(k: ShapeModel, v: ShapeModel, count: nat, input: Seq<u8>) {
    lemma_size_of_pos(k);
    lemma_size_of_pos(v);
}

/// What decoding one value per listed shape, in order, yields.
pub open spec fn dec_fields(shapes: Seq<ShapeModel>, input: Seq<u8>) -> ParsedList
    decreases size_list(shapes), 0nat, 1nat,
    via dec_fields_decreases
{
    if shapes.len() == 0 {
        ParsedList::Done(Seq::empty(), 0)
    } else {
        match dec(shapes[0], input) {
            Parsed::Done(v, used) => {
                match dec_fields(shapes.drop_first(), input.skip(used)) {
                    ParsedList::Done(vs, used2) => ParsedList::Done(
                        seq![v] + vs,
                        used + used2,
                    ),
                    ParsedList::Fail(f) => ParsedList::Fail(f),
                }
            },
            Parsed::Fail(f) => ParsedList::Fail(f),
        }
    }
}

#[via_fn]
proof fn dec_fields_decreases(shapes: Seq<ShapeModel>, input: Seq<u8>) {
    if shapes.len() > 0 {
        lemma_size_of_pos(shapes[0]);
    }
}

} // verus!
