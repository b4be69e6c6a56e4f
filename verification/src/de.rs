//! Deserialization: sources, the buffer source, and the decoder that
//! rebuilds a value from a byte stream, driven by a shape.
//!
//! A source hands out bytes; `taken()` is everything it has delivered so
//! far. A source over a buffer also knows its whole future (`determined()`,
//! `ahead()`), and against such a source the decoder's outcome is pinned
//! exactly by the `dec` function of the wire format. Against a streaming
//! source the future depends on the peer; the decoder then still guarantees
//! that whatever value comes out is `dec` of the bytes that were delivered.

use vstd::prelude::*;

use crate::value::{Arm, Shape, Value, MapEntry};
use crate::wire::{dec, dec_fields, dec_many, dec_pairs, Failure, Parsed, ParsedList,
    ParsedPairs};

verus! {

broadcast use vstd::std_specs::vec::group_vec_axioms;

/// A deserialization failure.
#[derive(Debug)]
pub enum Error {
    /// The decoder was asked to deduce the shape from the stream itself.
    UnsupportedAny,
    /// The input ended before the shape's next demand was met.
    PrematureEof,
    /// Decoding finished but input remained, starting with this byte.
    ExpectedEof(u8),
    /// A cross-thread queue closed while bytes were still owed.
    Disconnected,
    /// A length prefix beyond what this machine can address.
    ExcessiveSize(u64),
    /// A size difference beyond what this machine can address.
    ExcessiveSizeDiff(i64),
    /// A `char` payload that is not a Unicode scalar value.
    InvalidCodePoint(u32),
    /// A text payload that is not valid UTF-8.
    Utf8,
    /// The byte transport failed.
    IO,
    /// An error surfaced by a caller-supplied traversal.
    Custom(String),
}

/// Whether a concrete error reports the given decode failure.
pub open spec fn err_matches(e: Error, f: Failure) -> bool {
    match f {
        Failure::Eof => e is PrematureEof,
        Failure::BadChar(u) => e == Error::InvalidCodePoint(u),
        Failure::BadUtf8 => e is Utf8,
        Failure::TooBig(n) => e == Error::ExcessiveSize(n),
        Failure::BadTag(_) => e is Custom && e->Custom_0@ == "no such variant"@,
    }
}

/// The byte suppliers the decoder can drive: an in-memory buffer or a
/// cross-thread request/response queue pair.
pub trait DeserializationSource: Sized {
    /// The source's internal well-formedness.
    spec fn inv(&self) -> bool;

    /// Every byte delivered so far, in order.
    spec fn taken(&self) -> Seq<u8>;

    /// Whether the source's future bytes are already fixed.
    spec fn determined(&self) -> bool;

    /// The bytes still to come, when they are fixed.
    spec fn ahead(&self) -> Seq<u8>;

    /// Delivers exactly `count` bytes, or fails without delivering.
    fn recv_raw_data(&mut self, count: usize) -> (r: Result<Vec<u8>, Error>)
        requires
            old(self).inv(),
        ensures
            final(self).inv(),
            final(self).determined() == old(self).determined(),
            r is Ok ==> r->Ok_0@.len() == count
                && final(self).taken() == old(self).taken() + r->Ok_0@,
            r is Err ==> final(self).taken() == old(self).taken(),
            r is Err ==> (r->Err_0 is PrematureEof || r->Err_0 is Disconnected),
            old(self).determined() ==> (r is Ok <==> count <= old(self).ahead().len()),
            old(self).determined() && r is Ok ==> r->Ok_0@ == old(self).ahead().take(
                count as int,
            ) && final(self).ahead() == old(self).ahead().skip(count as int),
            old(self).determined() && r is Err ==> r->Err_0 is PrematureEof
                && final(self).ahead() == old(self).ahead(),
    ;
}

/// A source that reads from a byte buffer it owns, front to back.
#[derive(Debug)]
pub struct BufferSource {
    buffer: Vec<u8>,
    cursor: usize,
}

impl BufferSource {
    /// A source over the given bytes.
    pub fn new(buffer: Vec<u8>) -> (r: BufferSource)
        ensures
            r.inv(),
            r.taken() == Seq::<u8>::empty(),
            r.determined(),
            r.ahead() == buffer@,
    {
        BufferSource { buffer, cursor: 0 }
    }

    /// Succeeds only if every byte has been consumed; otherwise reports the
    /// first byte still waiting.
    pub fn ensure_eof(&self) -> (r: Result<(), Error>)
        requires
            self.inv(),
        ensures
            r is Ok <==> self.ahead().len() == 0,
            r is Err ==> r->Err_0 == Error::ExpectedEof(self.ahead()[0]),
    {
        if self.cursor < self.buffer.len() {
            Err(Error::ExpectedEof(self.buffer[self.cursor]))
        } else {
            Ok(())
        }
    }
}

impl DeserializationSource for BufferSource {
    closed spec fn inv(&self) -> bool {
        self.cursor <= self.buffer@.len()
    }

    closed spec fn taken(&self) -> Seq<u8> {
        self.buffer@.take(self.cursor as int)
    }

    closed spec fn determined(&self) -> bool {
        true
    }

    closed spec fn ahead(&self) -> Seq<u8> {
        self.buffer@.skip(self.cursor as int)
    }

    fn recv_raw_data(&mut self, count: usize) -> (r: Result<Vec<u8>, Error>) {
        if count > self.buffer.len() - self.cursor {
            return Err(Error::PrematureEof);
        }
        let mut out: Vec<u8> = Vec::new();
        let mut j: usize = 0;
        while j < count
            invariant
                j <= count,
                self.cursor + count <= self.buffer@.len(),
                out@.len() == j,
                out@ == self.buffer@.subrange(
                    self.cursor as int,
                    self.cursor + j as int,
                ),
                self == old(self),
            decreases count - j,
        {
            proof {
                vstd::std_specs::vec::axiom_spec_len(&self.buffer);
            }
            out.push(self.buffer[self.cursor + j]);
            j = j + 1;
        }
        let ghost pre = *self;
        self.cursor = self.cursor + count;
        proof {
            assert(out@ =~= pre.ahead().take(count as int));
            assert(self.taken() =~= pre.taken() + out@);
            assert(self.ahead() =~= pre.ahead().skip(count as int));
        }
        Ok(out)
    }
}

/// The streaming source: each read sends a pull request carrying the wanted
/// byte count over one cross-thread queue and waits for the payload on
/// another. What arrives is up to the peer, so this source's future is not
/// fixed; a closed queue, or a payload of the wrong size, reads as the input
/// ending early.
pub struct ChannelSource {
    request_sender: tokio::sync::mpsc::Sender<usize>,
    response_receiver: tokio::sync::mpsc::Receiver<Vec<u8>>,
    received: Ghost<Seq<u8>>,
}

impl ChannelSource {
    /// A streaming source over a request/response queue pair.
    pub fn new(
        request_sender: tokio::sync::mpsc::Sender<usize>,
        response_receiver: tokio::sync::mpsc::Receiver<Vec<u8>>,
    ) -> (r: ChannelSource)
        ensures
            r.inv(),
            r.taken() == Seq::<u8>::empty(),
            !r.determined(),
    {
        ChannelSource { request_sender, response_receiver, received: Ghost(Seq::empty()) }
    }
}

impl DeserializationSource for ChannelSource {
    closed spec fn inv(&self) -> bool {
        true
    }

    closed spec fn taken(&self) -> Seq<u8> {
        self.received@
    }

    closed spec fn determined(&self) -> bool {
        false
    }

    closed spec fn ahead(&self) -> Seq<u8> {
        Seq::empty()
    }

    fn recv_raw_data(&mut self, count: usize) -> (r: Result<Vec<u8>, Error>)
        ensures
            r is Err ==> r->Err_0 is PrematureEof,
    {
        match crate::chan::send_count(&self.request_sender, count) {
            Ok(()) => {},
            Err(_) => {
                return Err(Error::PrematureEof);
            },
        }
        let chunk = match crate::chan::recv_chunk(&mut self.response_receiver) {
            Option::Some(c) => c,
            Option::None => {
                return Err(Error::PrematureEof);
            },
        };
        if chunk.len() != count {
            return Err(Error::PrematureEof);
        }
        proof {
            self.received@ = self.received@ + chunk@;
        }
        Ok(chunk)
    }
}

/// The bytes a step delivered: what it added to the taken stream.
pub open spec fn delta_of(pre: Seq<u8>, post: Seq<u8>) -> Seq<u8> {
    post.skip(pre.len() as int)
}

/// Relies on `char::from_u32`: `Some` exactly when the value is a Unicode
/// scalar value, and then that scalar itself.
#[verifier::external_body]
fn char_from_u32(u: u32) -> (r: Option<char>)
    ensures
        vstd::utf8::is_scalar(u) ==> r == Option::Some(u as char),
        !vstd::utf8::is_scalar(u) ==> r is None,
{
    char::from_u32(u)
}

/// Relies on `String::from_utf8`: succeeds exactly when the bytes are valid
/// UTF-8, and then returns the string reading them as UTF-8.
#[verifier::external_body]
fn string_from_utf8(bytes: Vec<u8>) -> (r: Option<String>)
    ensures
        vstd::utf8::valid_utf8(bytes@) ==> r is Some
            && r->0@ == vstd::utf8::decode_utf8(bytes@),
        !vstd::utf8::valid_utf8(bytes@) ==> r is None,
{
    String::from_utf8(bytes).ok()
}


/// One map entry extends the mid-run invariant: its key's bytes, then its
/// value's bytes.
proof fn lemma_pairs_step(
    km: crate::value::ShapeModel,
    wm: crate::value::ShapeModel,
    n: nat,
    i: nat,
    ps0: Seq<(crate::value::ValueModel, crate::value::ValueModel)>,
    bd0: Seq<u8>,
    dk: Seq<u8>,
    dv: Seq<u8>,
    kv: crate::value::ValueModel,
    vv: crate::value::ValueModel,
)
    requires
        i < n,
        pairs_continues(km, wm, n, i, ps0, bd0),
        forall|rest: Seq<u8>|
            (#[trigger] dec(km, dk + rest)) == Parsed::Done(kv, dk.len() as int),
        forall|rest: Seq<u8>|
            (#[trigger] dec(wm, dv + rest)) == Parsed::Done(vv, dv.len() as int),
    ensures
        pairs_continues(km, wm, n, (i + 1) as nat, ps0 + seq![(kv, vv)], bd0 + (dk + dv)),
{
    let bd = bd0 + (dk + dv);
    let ps = ps0 + seq![(kv, vv)];
    assert forall|tail: Seq<u8>|
        (#[trigger] dec_pairs(km, wm, n, bd + tail)) == (match dec_pairs(
            km,
            wm,
            (n - (i + 1)) as nat,
            tail,
        ) {
            ParsedPairs::Done(ps2, u2) => ParsedPairs::Done(ps + ps2, bd.len() + u2),
            ParsedPairs::Fail(f) => ParsedPairs::Fail(f),
        }) by {
        assert(bd + tail =~= bd0 + ((dk + dv) + tail));
        assert((dk + dv) + tail =~= dk + (dv + tail));
        assert(dec(km, dk + (dv + tail)) == Parsed::Done(kv, dk.len() as int));
        assert((dk + (dv + tail)).skip(dk.len() as int) =~= dv + tail);
        assert(dec(wm, dv + tail) == Parsed::Done(vv, dv.len() as int));
        assert(((dk + dv) + tail).skip(dk.len() as int + dv.len() as int) =~= tail);
        match dec_pairs(km, wm, (n - (i + 1)) as nat, tail) {
            ParsedPairs::Done(ps2, u2) => {
                assert(dec_pairs(km, wm, (n - i) as nat, (dk + dv) + tail)
                    == ParsedPairs::Done(
                    seq![(kv, vv)] + ps2,
                    dk.len() + dv.len() + u2,
                ));
                assert(dec_pairs(km, wm, n, bd0 + ((dk + dv) + tail))
                    == ParsedPairs::Done(
                    ps0 + (seq![(kv, vv)] + ps2),
                    bd0.len() + (dk.len() + dv.len() + u2),
                ));
                assert(ps0 + (seq![(kv, vv)] + ps2) =~= ps + ps2);
            },
            ParsedPairs::Fail(f) => {
                assert(dec_pairs(km, wm, (n - i) as nat, (dk + dv) + tail)
                    == ParsedPairs::Fail(f));
                assert(dec_pairs(km, wm, n, bd0 + ((dk + dv) + tail))
                    == ParsedPairs::Fail(f));
            },
        }
    }
}

/// Rebuilds values from a deserialization source, driven by shapes.
#[derive(Debug)]
pub struct Deserializer<S> {
    source: S,
}

impl<S: DeserializationSource> Deserializer<S> {
    /// The underlying source's well-formedness.
    pub closed spec fn inv(&self) -> bool {
        self.source.inv()
    }

    /// Every byte delivered so far.
    pub closed spec fn taken(&self) -> Seq<u8> {
        self.source.taken()
    }

    /// Whether the remaining bytes are already fixed.
    pub closed spec fn determined(&self) -> bool {
        self.source.determined()
    }

    /// The bytes still to come, when they are fixed.
    pub closed spec fn ahead(&self) -> Seq<u8> {
        self.source.ahead()
    }

    /// A deserializer over the given source.
    pub fn new(source: S) -> (r: Deserializer<S>)
        ensures
            r.inv() == source.inv(),
            r.taken() == source.taken(),
            r.determined() == source.determined(),
            r.ahead() == source.ahead(),
    {
        Deserializer { source }
    }

    /// A look at the underlying source.
    pub fn source(&self) -> (r: &S)
        ensures
            r.inv() == self.inv(),
            r.taken() == self.taken(),
            r.determined() == self.determined(),
            r.ahead() == self.ahead(),
    {
        &self.source
    }

    /// Reads a 64-bit little-endian unsigned integer.
    pub fn recv_u64(&mut self) -> (r: Result<u64, Error>)
        requires
            old(self).inv(),
        ensures
            final(self).inv(),
            final(self).determined() == old(self).determined(),
            old(self).taken().is_prefix_of(final(self).taken()),
            r is Ok ==> {
                let delta = delta_of(old(self).taken(), final(self).taken());
                &&& delta.len() == 8
                &&& final(self).taken() == old(self).taken() + delta
                &&& r->Ok_0 == vstd::bytes::spec_u64_from_le_bytes(delta)
            },
            r is Err ==> final(self).taken() == old(self).taken() && (r->Err_0
                is PrematureEof || r->Err_0 is Disconnected),
            old(self).determined() ==> {
                if old(self).ahead().len() < 8 {
                    r is Err && r->Err_0 is PrematureEof && final(self).ahead() == old(self).ahead()
                } else {
                    r is Ok && r->Ok_0 == vstd::bytes::spec_u64_from_le_bytes(
                        old(self).ahead().take(8),
                    ) && final(self).ahead() == old(self).ahead().skip(8)
                        && final(self).taken() == old(self).taken() + old(self).ahead().take(8)
                }
            },
    {
        let bytes = match self.source.recv_raw_data(8) {
            Ok(b) => b,
            Err(e) => {
                proof {
                    assert(old(self).taken().is_prefix_of(final(self).taken()));
                }
                return Err(e);
            },
        };
        let x = vstd::bytes::u64_from_le_bytes(bytes.as_slice());
        proof {
            assert(delta_of(old(self).taken(), self.taken()) =~= bytes@);
            assert(old(self).taken().is_prefix_of(self.taken()));
        }
        Ok(x)
    }

    /// Reads a 64-bit little-endian signed integer.
    pub fn recv_i64(&mut self) -> (r: Result<i64, Error>)
        requires
            old(self).inv(),
        ensures
            final(self).inv(),
            final(self).determined() == old(self).determined(),
            old(self).taken().is_prefix_of(final(self).taken()),
            r is Ok ==> {
                let delta = delta_of(old(self).taken(), final(self).taken());
                &&& delta.len() == 8
                &&& final(self).taken() == old(self).taken() + delta
                &&& r->Ok_0 == crate::wire::i64_of_bits(
                    vstd::bytes::spec_u64_from_le_bytes(delta),
                )
            },
            r is Err ==> final(self).taken() == old(self).taken() && (r->Err_0
                is PrematureEof || r->Err_0 is Disconnected),
            old(self).determined() ==> {
                if old(self).ahead().len() < 8 {
                    r is Err && r->Err_0 is PrematureEof && final(self).ahead() == old(self).ahead()
                } else {
                    r is Ok && r->Ok_0 == crate::wire::i64_of_bits(
                        vstd::bytes::spec_u64_from_le_bytes(old(self).ahead().take(8)),
                    ) && final(self).ahead() == old(self).ahead().skip(8)
                        && final(self).taken() == old(self).taken() + old(self).ahead().take(8)
                }
            },
    {
        let bits = self.recv_u64()?;
        Ok(crate::wire::i64_from_bits(bits))
    }

    /// Reads a 64-bit length and narrows it to this machine's size range,
    /// failing with `ExcessiveSize` when it does not fit.
    pub fn recv_usize(&mut self) -> (r: Result<usize, Error>)
        requires
            old(self).inv(),
        ensures
            final(self).inv(),
            final(self).determined() == old(self).determined(),
            old(self).taken().is_prefix_of(final(self).taken()),
            r is Ok ==> {
                let delta = delta_of(old(self).taken(), final(self).taken());
                &&& delta.len() == 8
                &&& final(self).taken() == old(self).taken() + delta
                &&& r->Ok_0 as u64 == vstd::bytes::spec_u64_from_le_bytes(delta)
            },
            r is Err ==> match r->Err_0 {
                Error::ExcessiveSize(n) => {
                    let delta = delta_of(old(self).taken(), final(self).taken());
                    &&& delta.len() == 8
                    &&& final(self).taken() == old(self).taken() + delta
                    &&& n == vstd::bytes::spec_u64_from_le_bytes(delta)
                    &&& n > usize::MAX as u64
                },
                Error::PrematureEof => final(self).taken() == old(self).taken(),
                Error::Disconnected => final(self).taken() == old(self).taken(),
                _ => false,
            },
            old(self).determined() ==> {
                if old(self).ahead().len() < 8 {
                    r is Err && r->Err_0 is PrematureEof && final(self).ahead() == old(self).ahead()
                } else {
                    let n = vstd::bytes::spec_u64_from_le_bytes(old(self).ahead().take(8));
                    if n > usize::MAX as u64 {
                        r is Err && r->Err_0 == Error::ExcessiveSize(n) && final(self).ahead() == old(self).ahead().skip(8) && final(self).taken() == old(self).taken()
                            + old(self).ahead().take(8)
                    } else {
                        r is Ok && r->Ok_0 == n as usize && final(self).ahead() == old(self).ahead().skip(8) && final(self).taken() == old(self).taken()
                            + old(self).ahead().take(8)
                    }
                }
            },
    {
        let bits = self.recv_u64()?;
        if bits > usize::MAX as u64 {
            return Err(Error::ExcessiveSize(bits));
        }
        Ok(bits as usize)
    }

    /// Reads a 64-bit signed size and narrows it to this machine's range,
    /// failing with `ExcessiveSizeDiff` when it does not fit.
    pub fn recv_isize(&mut self) -> (r: Result<isize, Error>)
        requires
            old(self).inv(),
        ensures
            final(self).inv(),
            final(self).determined() == old(self).determined(),
            old(self).taken().is_prefix_of(final(self).taken()),
            r is Ok ==> {
                let delta = delta_of(old(self).taken(), final(self).taken());
                &&& delta.len() == 8
                &&& final(self).taken() == old(self).taken() + delta
                &&& r->Ok_0 as i64 == crate::wire::i64_of_bits(
                    vstd::bytes::spec_u64_from_le_bytes(delta),
                )
            },
            r is Err ==> match r->Err_0 {
                Error::ExcessiveSizeDiff(w) => {
                    let delta = delta_of(old(self).taken(), final(self).taken());
                    &&& delta.len() == 8
                    &&& final(self).taken() == old(self).taken() + delta
                    &&& w == crate::wire::i64_of_bits(
                        vstd::bytes::spec_u64_from_le_bytes(delta),
                    )
                    &&& (w < isize::MIN as i64 || w > isize::MAX as i64)
                },
                Error::PrematureEof => final(self).taken() == old(self).taken(),
                Error::Disconnected => final(self).taken() == old(self).taken(),
                _ => false,
            },
            old(self).determined() ==> {
                if old(self).ahead().len() < 8 {
                    r is Err && r->Err_0 is PrematureEof && final(self).ahead() == old(self).ahead()
                } else {
                    let w = crate::wire::i64_of_bits(
                        vstd::bytes::spec_u64_from_le_bytes(old(self).ahead().take(8)),
                    );
                    if w < isize::MIN as i64 || w > isize::MAX as i64 {
                        r is Err && r->Err_0 == Error::ExcessiveSizeDiff(w) && final(self).ahead() == old(self).ahead().skip(8) && final(self).taken() == old(self).taken()
                            + old(self).ahead().take(8)
                    } else {
                        r is Ok && r->Ok_0 as i64 == w && final(self).ahead() == old(self).ahead().skip(8) && final(self).taken() == old(self).taken()
                            + old(self).ahead().take(8)
                    }
                }
            },
    {
        let wide = self.recv_i64()?;
        if wide < isize::MIN as i64 || wide > isize::MAX as i64 {
            return Err(Error::ExcessiveSizeDiff(wide));
        }
        Ok(wide as isize)
    }
}

/// The shape model of a homogeneous sequence of the inner shape.
pub open spec fn seq_model(inner: &Shape) -> crate::value::ShapeModel {
    crate::value::ShapeModel::Sequence(Box::new(crate::value::sm(*inner)))
}

/// The shape model of a keyed map with the given key and value shapes.
pub open spec fn dict_model(kshape: &Shape, vshape: &Shape) -> crate::value::ShapeModel {
    crate::value::ShapeModel::Dict(
        Box::new(crate::value::sm(*kshape)),
        Box::new(crate::value::sm(*vshape)),
    )
}

/// Mid-run invariant for decoding a sequence: `delta` already carried
/// `done` of the `total` elements, whatever bytes follow.
pub open spec fn list_continues(
    em: crate::value::ShapeModel,
    total: nat,
    done: nat,
    vs: Seq<crate::value::ValueModel>,
    delta: Seq<u8>,
) -> bool {
    forall|tail: Seq<u8>|
        (#[trigger] dec_many(em, total, delta + tail)) == (match dec_many(
            em,
            (total - done) as nat,
            tail,
        ) {
            ParsedList::Done(vs2, u2) => ParsedList::Done(vs + vs2, delta.len() + u2),
            ParsedList::Fail(f) => ParsedList::Fail(f),
        })
}

/// Mid-run invariant for decoding a map's entries.
pub open spec fn pairs_continues(
    km: crate::value::ShapeModel,
    vm_s: crate::value::ShapeModel,
    total: nat,
    done: nat,
    ps: Seq<(crate::value::ValueModel, crate::value::ValueModel)>,
    delta: Seq<u8>,
) -> bool {
    forall|tail: Seq<u8>|
        (#[trigger] dec_pairs(km, vm_s, total, delta + tail)) == (match dec_pairs(
            km,
            vm_s,
            (total - done) as nat,
            tail,
        ) {
            ParsedPairs::Done(ps2, u2) => ParsedPairs::Done(ps + ps2, delta.len() + u2),
            ParsedPairs::Fail(f) => ParsedPairs::Fail(f),
        })
}

/// Mid-run invariant for decoding a run of fields, one shape each.
pub open spec fn fields_continue(
    shapes: Seq<crate::value::ShapeModel>,
    done: int,
    vs: Seq<crate::value::ValueModel>,
    delta: Seq<u8>,
) -> bool {
    forall|tail: Seq<u8>|
        (#[trigger] dec_fields(shapes, delta + tail)) == (match dec_fields(
            shapes.skip(done),
            tail,
        ) {
            ParsedList::Done(vs2, u2) => ParsedList::Done(vs + vs2, delta.len() + u2),
            ParsedList::Fail(f) => ParsedList::Fail(f),
        })
}

impl<S: DeserializationSource> Deserializer<S> {
    /// The bookkeeping shared by every fixed-width read: once the first
    /// bytes of the input determine the decode, the taken and ahead streams
    /// line up on both sides.
    proof fn prim_post(
        &self,
        pre: Self,
        bytes: Seq<u8>,
        w: crate::value::ValueModel,
        shape: Shape,
    )
        requires
            self.taken() == pre.taken() + bytes,
            self.determined() == pre.determined(),
            pre.determined() ==> bytes.len() <= pre.ahead().len() && bytes == pre.ahead().take(bytes.len() as int) && self.ahead() == pre.ahead().skip(
                bytes.len() as int,
            ),
            forall|input: Seq<u8>|
                input.len() >= bytes.len() && (#[trigger] input.take(bytes.len() as int))
                    == bytes ==> dec(crate::value::sm(shape), input) == Parsed::Done(
                    w,
                    bytes.len() as int,
                ),
        ensures
            ({
                let delta = delta_of(pre.taken(), self.taken());
                &&& self.taken() == pre.taken() + delta
                &&& forall|rest: Seq<u8>|
                    (#[trigger] dec(crate::value::sm(shape), delta + rest))
                        == Parsed::Done(w, delta.len() as int)
            }),
            pre.determined() ==> dec(crate::value::sm(shape), pre.ahead())
                == Parsed::Done(w, bytes.len() as int) && self.ahead() == pre.ahead().skip(bytes.len() as int) && self.taken() == pre.taken() + pre.ahead().take(
                bytes.len() as int,
            ),
    {
        let delta = delta_of(pre.taken(), self.taken());
        assert(delta =~= bytes);
        assert forall|rest: Seq<u8>|
            (#[trigger] dec(crate::value::sm(shape), delta + rest)) == Parsed::Done(
                w,
                delta.len() as int,
            ) by {
            assert((delta + rest).take(bytes.len() as int) =~= bytes);
            assert((delta + rest).len() >= bytes.len());
        }
        if pre.determined() {
            assert(pre.ahead().take(bytes.len() as int) == bytes);
            assert(pre.ahead().len() >= bytes.len());
        }
    }


    /// Whether a shape is a fixed-width scalar.
    pub open spec fn scalar_shape(s: Shape) -> bool {
        ||| s is Bool
        ||| s is U8
        ||| s is U16
        ||| s is U32
        ||| s is U64
        ||| s is U128
        ||| s is I8
        ||| s is I16
        ||| s is I32
        ||| s is I64
        ||| s is I128
        ||| s is F32
        ||| s is F64
        ||| s is Char
    }

    /// Reads one fixed-width scalar of the given shape.
    #[verifier::rlimit(100)]
    fn decode_scalar(&mut self, shape: &Shape) -> (r: Result<Value, Error>)
        requires
            old(self).inv(),
            Self::scalar_shape(*shape),
        ensures
            final(self).inv(),
            final(self).determined() == old(self).determined(),
            r is Ok ==> ({
                let delta = delta_of(old(self).taken(), final(self).taken());
                &&& final(self).taken() == old(self).taken() + delta
                &&& forall|rest: Seq<u8>|
                    (#[trigger] dec(crate::value::sm(*shape), delta + rest))
                        == Parsed::Done(crate::value::vm(r->Ok_0), delta.len() as int)
            }),
            old(self).determined() ==> (match dec(
                crate::value::sm(*shape),
                old(self).ahead(),
            ) {
                Parsed::Done(w, u) => r is Ok && crate::value::vm(r->Ok_0) == w
                    && 0 <= u <= old(self).ahead().len()
                    && final(self).ahead() == old(self).ahead().skip(u)
                    && final(self).taken() == old(self).taken() + old(self).ahead().take(u),
                Parsed::Fail(f) => r is Err && err_matches(r->Err_0, f),
            }),
            old(self).determined() && *shape is Char && r is Err && r->Err_0
                is InvalidCodePoint ==> old(self).ahead().len() >= 4
                && final(self).taken() == old(self).taken() + old(self).ahead().take(4)
                && final(self).ahead() == old(self).ahead().skip(4),
    {
        let ghost pre = *self;
        match shape {
            Shape::Bool => {
                let bytes = self.source.recv_raw_data(1)?;
                let out = Value::Bool(bytes[0] != 0);
                proof {
                    self.prim_post(pre, bytes@, crate::value::vm(out), *shape);
                }
                Ok(out)
            },
            Shape::U8 => {
                let bytes = self.source.recv_raw_data(1)?;
                let out = Value::U8(bytes[0]);
                proof {
                    self.prim_post(pre, bytes@, crate::value::vm(out), *shape);
                }
                Ok(out)
            },
            Shape::U16 => {
                let bytes = self.source.recv_raw_data(2)?;
                let x = vstd::bytes::u16_from_le_bytes(bytes.as_slice());
                let out = Value::U16(x);
                proof {
                    self.prim_post(pre, bytes@, crate::value::vm(out), *shape);
                }
                Ok(out)
            },
            Shape::U32 => {
                let bytes = self.source.recv_raw_data(4)?;
                let x = vstd::bytes::u32_from_le_bytes(bytes.as_slice());
                let out = Value::U32(x);
                proof {
                    self.prim_post(pre, bytes@, crate::value::vm(out), *shape);
                }
                Ok(out)
            },
            Shape::U64 => {
                let bytes = self.source.recv_raw_data(8)?;
                let x = vstd::bytes::u64_from_le_bytes(bytes.as_slice());
                let out = Value::U64(x);
                proof {
                    self.prim_post(pre, bytes@, crate::value::vm(out), *shape);
                }
                Ok(out)
            },
            Shape::U128 => {
                let bytes = self.source.recv_raw_data(16)?;
                let x = vstd::bytes::u128_from_le_bytes(bytes.as_slice());
                let out = Value::U128(x);
                proof {
                    self.prim_post(pre, bytes@, crate::value::vm(out), *shape);
                }
                Ok(out)
            },
            Shape::I8 => {
                let bytes = self.source.recv_raw_data(1)?;
                let out = Value::I8(crate::wire::i8_from_bits(bytes[0]));
                proof {
                    self.prim_post(pre, bytes@, crate::value::vm(out), *shape);
                }
                Ok(out)
            },
            Shape::I16 => {
                let bytes = self.source.recv_raw_data(2)?;
                let x = vstd::bytes::u16_from_le_bytes(bytes.as_slice());
                let out = Value::I16(crate::wire::i16_from_bits(x));
                proof {
                    self.prim_post(pre, bytes@, crate::value::vm(out), *shape);
                }
                Ok(out)
            },
            Shape::I32 => {
                let bytes = self.source.recv_raw_data(4)?;
                let x = vstd::bytes::u32_from_le_bytes(bytes.as_slice());
                let out = Value::I32(crate::wire::i32_from_bits(x));
                proof {
                    self.prim_post(pre, bytes@, crate::value::vm(out), *shape);
                }
                Ok(out)
            },
            Shape::I64 => {
                let bytes = self.source.recv_raw_data(8)?;
                let x = vstd::bytes::u64_from_le_bytes(bytes.as_slice());
                let out = Value::I64(crate::wire::i64_from_bits(x));
                proof {
                    self.prim_post(pre, bytes@, crate::value::vm(out), *shape);
                }
                Ok(out)
            },
            Shape::I128 => {
                let bytes = self.source.recv_raw_data(16)?;
                let x = vstd::bytes::u128_from_le_bytes(bytes.as_slice());
                let out = Value::I128(crate::wire::i128_from_bits(x));
                proof {
                    self.prim_post(pre, bytes@, crate::value::vm(out), *shape);
                }
                Ok(out)
            },
            Shape::F32 => {
                let bytes = self.source.recv_raw_data(4)?;
                let x = vstd::bytes::u32_from_le_bytes(bytes.as_slice());
                let out = Value::F32Bits(x);
                proof {
                    self.prim_post(pre, bytes@, crate::value::vm(out), *shape);
                }
                Ok(out)
            },
            Shape::F64 => {
                let bytes = self.source.recv_raw_data(8)?;
                let x = vstd::bytes::u64_from_le_bytes(bytes.as_slice());
                let out = Value::F64Bits(x);
                proof {
                    self.prim_post(pre, bytes@, crate::value::vm(out), *shape);
                }
                Ok(out)
            },
            Shape::Char => {
                let bytes = self.source.recv_raw_data(4)?;
                let u = vstd::bytes::u32_from_le_bytes(bytes.as_slice());
                match char_from_u32(u) {
                    Option::Some(c) => {
                        let out = Value::Char(c);
                        proof {
                            self.prim_post(pre, bytes@, crate::value::vm(out), *shape);
                        }
                        Ok(out)
                    },
                    Option::None => {
                        proof {
                            if pre.determined() {
                                assert(pre.ahead().take(4) =~= bytes@);
                            }
                        }
                        Err(Error::InvalidCodePoint(u))
                    },
                }
            },
            _ => {
                proof {
                    assert(false);
                }
                Err(Error::UnsupportedAny)
            },
        }
    }

    /// Reads a byte string or a text string: a 64-bit length, then that many
    /// payload bytes, validated as UTF-8 for text.
    #[verifier::rlimit(100)]
    fn decode_blob(&mut self, shape: &Shape) -> (r: Result<Value, Error>)
        requires
            old(self).inv(),
            *shape is Bytes || *shape is Text,
        ensures
            final(self).inv(),
            final(self).determined() == old(self).determined(),
            r is Ok ==> ({
                let delta = delta_of(old(self).taken(), final(self).taken());
                &&& final(self).taken() == old(self).taken() + delta
                &&& forall|rest: Seq<u8>|
                    (#[trigger] dec(crate::value::sm(*shape), delta + rest))
                        == Parsed::Done(crate::value::vm(r->Ok_0), delta.len() as int)
            }),
            old(self).determined() ==> (match dec(
                crate::value::sm(*shape),
                old(self).ahead(),
            ) {
                Parsed::Done(w, u) => r is Ok && crate::value::vm(r->Ok_0) == w
                    && 0 <= u <= old(self).ahead().len()
                    && final(self).ahead() == old(self).ahead().skip(u)
                    && final(self).taken() == old(self).taken() + old(self).ahead().take(u),
                Parsed::Fail(f) => r is Err && err_matches(r->Err_0, f),
            }),
            old(self).determined() && r is Err ==> ({
                let a = old(self).ahead();
                &&& (r->Err_0 is ExcessiveSize ==> a.len() >= 8 && final(self).taken()
                    == old(self).taken() + a.take(8) && final(self).ahead() == a.skip(8))
                &&& (r->Err_0 is Utf8 ==> ({
                    let n = vstd::bytes::spec_u64_from_le_bytes(a.take(8)) as int;
                    &&& a.len() >= 8 + n
                    &&& final(self).taken() == old(self).taken() + a.take(8 + n)
                    &&& final(self).ahead() == a.skip(8 + n)
                }))
                &&& (r->Err_0 is PrematureEof && a.len() >= 8 ==> final(self).taken()
                    == old(self).taken() + a.take(8) && final(self).ahead() == a.skip(8))
            }),
    {
        let ghost pre = *self;
        match shape {
            Shape::Bytes => {
                let n = self.recv_usize()?;
                let ghost d1 = delta_of(pre.taken(), self.taken());
                let ghost mid = *self;
                let payload = self.source.recv_raw_data(n)?;
                let ghost pay = payload@;
                let out = Value::Bytes(payload);
                proof {
                    let delta = delta_of(pre.taken(), self.taken());
                    assert(delta =~= d1 + pay);
                    assert(self.taken() =~= pre.taken() + delta);
                    assert forall|rest: Seq<u8>|
                        (#[trigger] dec(crate::value::sm(*shape), delta + rest))
                            == Parsed::Done(crate::value::vm(out), delta.len() as int) by {
                        let input = delta + rest;
                        assert(input.take(8) =~= d1);
                        assert(input.len() >= 8 + n);
                        assert(input.subrange(8, 8 + n as int) =~= pay);
                    }
                    if pre.determined() {
                        assert(d1 =~= pre.ahead().take(8));
                        assert(pay =~= mid.ahead().take(n as int));
                        let u = 8 + n as int;
                        assert(pre.ahead().len() >= u);
                        assert(pre.ahead().take(8) =~= d1);
                        assert(pre.ahead().subrange(8, u) =~= pay);
                        assert(pre.ahead().take(u) =~= d1 + pay);
                        assert(pre.ahead().skip(u) =~= mid.ahead().skip(n as int));
                        assert(self.taken() =~= pre.taken() + pre.ahead().take(u));
                    }
                }
                Ok(out)
            },
            Shape::Text => {
                let n = self.recv_usize()?;
                let ghost d1 = delta_of(pre.taken(), self.taken());
                let ghost mid = *self;
                let payload = self.source.recv_raw_data(n)?;
                let ghost pay = payload@;
                match string_from_utf8(payload) {
                    Option::Some(s) => {
                        let out = Value::Text(s);
                        proof {
                            let delta = delta_of(pre.taken(), self.taken());
                            assert(delta =~= d1 + pay);
                            assert(self.taken() =~= pre.taken() + delta);
                            assert forall|rest: Seq<u8>|
                                (#[trigger] dec(crate::value::sm(*shape), delta + rest))
                                    == Parsed::Done(
                                    crate::value::vm(out),
                                    delta.len() as int,
                                ) by {
                                let input = delta + rest;
                                assert(input.take(8) =~= d1);
                                assert(input.len() >= 8 + n);
                                assert(input.subrange(8, 8 + n as int) =~= pay);
                            }
                            if pre.determined() {
                                assert(d1 =~= pre.ahead().take(8));
                                assert(pay =~= mid.ahead().take(n as int));
                                let u = 8 + n as int;
                                assert(pre.ahead().len() >= u);
                                assert(pre.ahead().take(8) =~= d1);
                                assert(pre.ahead().subrange(8, u) =~= pay);
                                assert(pre.ahead().take(u) =~= d1 + pay);
                                assert(pre.ahead().skip(u) =~= mid.ahead().skip(
                                    n as int,
                                ));
                                assert(self.taken() =~= pre.taken() + pre.ahead().take(
                                    u,
                                ));
                            }
                        }
                        Ok(out)
                    },
                    Option::None => {
                        proof {
                            if pre.determined() {
                                assert(d1 =~= pre.ahead().take(8));
                                assert(pay =~= mid.ahead().take(n as int));
                                assert(pre.ahead().len() >= 8 + n);
                                assert(pre.ahead().subrange(8, 8 + n as int) =~= pay);
                            }
                        }
                        Err(Error::Utf8)
                    },
                }
            },
            _ => {
                proof {
                    assert(false);
                }
                Err(Error::UnsupportedAny)
            },
        }
    }

    /// Reads one value of the given shape.
    ///
    /// Against a source whose future is fixed, the outcome is exactly what
    /// `dec` says of those bytes, error for error. Against any source, a
    /// value that comes out is `dec` of the bytes that were delivered for
    /// it, whatever would have followed them.
    #[verifier::loop_isolation(false)]
    #[verifier::rlimit(100)]
    pub fn decode_value(&mut self, shape: &Shape) -> (r: Result<Value, Error>)
        requires
            old(self).inv(),
        ensures
            final(self).inv(),
            final(self).determined() == old(self).determined(),
            r is Ok ==> ({
                let delta = delta_of(old(self).taken(), final(self).taken());
                &&& final(self).taken() == old(self).taken() + delta
                &&& forall|rest: Seq<u8>|
                    (#[trigger] dec(crate::value::sm(*shape), delta + rest))
                        == Parsed::Done(crate::value::vm(r->Ok_0), delta.len() as int)
            }),
            old(self).determined() ==> (match dec(
                crate::value::sm(*shape),
                old(self).ahead(),
            ) {
                Parsed::Done(w, u) => r is Ok && crate::value::vm(r->Ok_0) == w
                    && 0 <= u <= old(self).ahead().len()
                    && final(self).ahead() == old(self).ahead().skip(u)
                    && final(self).taken() == old(self).taken() + old(self).ahead().take(u),
                Parsed::Fail(f) => r is Err && err_matches(r->Err_0, f),
            }),
            old(self).determined() && *shape is Char && r is Err && r->Err_0
                is InvalidCodePoint ==> old(self).ahead().len() >= 4
                && final(self).taken() == old(self).taken() + old(self).ahead().take(4)
                && final(self).ahead() == old(self).ahead().skip(4),
            old(self).determined() && (*shape is Bytes || *shape is Text) && r is Err
                ==> ({
                let a = old(self).ahead();
                &&& (r->Err_0 is ExcessiveSize ==> a.len() >= 8 && final(self).taken()
                    == old(self).taken() + a.take(8) && final(self).ahead() == a.skip(8))
                &&& (r->Err_0 is Utf8 ==> ({
                    let n = vstd::bytes::spec_u64_from_le_bytes(a.take(8)) as int;
                    &&& a.len() >= 8 + n
                    &&& final(self).taken() == old(self).taken() + a.take(8 + n)
                    &&& final(self).ahead() == a.skip(8 + n)
                }))
                &&& (r->Err_0 is PrematureEof && a.len() >= 8 ==> final(self).taken()
                    == old(self).taken() + a.take(8) && final(self).ahead() == a.skip(8))
            }),
        decreases crate::wire::size_of(crate::value::sm(*shape)), 0nat, 0nat,
    {
        let ghost pre = *self;
        match shape {
            Shape::Bool | Shape::U8 | Shape::U16 | Shape::U32 | Shape::U64
                | Shape::U128 | Shape::I8 | Shape::I16 | Shape::I32 | Shape::I64
                | Shape::I128 | Shape::F32 | Shape::F64 | Shape::Char => self
                .decode_scalar(shape),
            Shape::Bytes | Shape::Text => self.decode_blob(shape),
            Shape::Unit => {
                let out = Value::Unit;
                proof {
                    let delta = delta_of(pre.taken(), self.taken());
                    assert(delta =~= Seq::<u8>::empty());
                    assert(self.taken() =~= pre.taken() + delta);
                    assert forall|rest: Seq<u8>|
                        (#[trigger] dec(crate::value::sm(*shape), delta + rest))
                            == Parsed::Done(crate::value::vm(out), delta.len() as int) by {
                        assert(delta + rest =~= rest);
                    }
                    if pre.determined() {
                        assert(pre.ahead().skip(0) =~= pre.ahead());
                        assert(pre.ahead().take(0) =~= Seq::<u8>::empty());
                        assert(self.taken() =~= pre.taken() + pre.ahead().take(0));
                    }
                }
                Ok(out)
            },
            Shape::Optional(inner) => {
                let bytes = self.source.recv_raw_data(1)?;
                let ghost mid = *self;
                if bytes[0] == 0 {
                    let out = Value::Optional(Option::None);
                    proof {
                        let delta = delta_of(pre.taken(), self.taken());
                        assert(delta =~= bytes@);
                        assert forall|rest: Seq<u8>|
                            (#[trigger] dec(crate::value::sm(*shape), delta + rest))
                                == Parsed::Done(crate::value::vm(out), delta.len() as int)
                            by {
                            assert((delta + rest)[0] == 0);
                        }
                        if pre.determined() {
                            assert(pre.ahead().take(1) =~= bytes@);
                            assert(pre.ahead()[0] == 0);
                        }
                    }
                    Ok(out)
                } else {
                    let v = self.decode_value(inner)?;
                    let ghost dc = delta_of(mid.taken(), self.taken());
                    let out = Value::Optional(Option::Some(Box::new(v)));
                    proof {
                        let delta = delta_of(pre.taken(), self.taken());
                        assert(delta =~= bytes@ + dc);
                        assert forall|rest: Seq<u8>|
                            (#[trigger] dec(crate::value::sm(*shape), delta + rest))
                                == Parsed::Done(crate::value::vm(out), delta.len() as int)
                            by {
                            assert((delta + rest)[0] == bytes@[0]);
                            assert((delta + rest).drop_first() =~= dc + rest);
                            assert(dec(crate::value::sm(**inner), dc + rest)
                                == Parsed::Done(crate::value::vm(v), dc.len() as int));
                        }
                        if pre.determined() {
                            assert(pre.ahead().take(1) =~= bytes@);
                            assert(pre.ahead()[0] == bytes@[0]);
                            assert(pre.ahead().drop_first() =~= mid.ahead());
                            match dec(crate::value::sm(**inner), mid.ahead()) {
                                Parsed::Done(w, u) => {
                                    assert(pre.ahead().take(1 + u) =~= pre.ahead().take(1)
                                        + mid.ahead().take(u));
                                    assert(pre.ahead().skip(1 + u) =~= mid.ahead().skip(
                                        u,
                                    ));
                                },
                                Parsed::Fail(_) => {},
                            }
                        }
                    }
                    Ok(out)
                }
            },
            Shape::Newtype(inner) => {
                let v = self.decode_value(inner)?;
                let out = Value::Newtype(Box::new(v));
                proof {
                    let delta = delta_of(pre.taken(), self.taken());
                    assert forall|rest: Seq<u8>|
                        (#[trigger] dec(crate::value::sm(*shape), delta + rest))
                            == Parsed::Done(crate::value::vm(out), delta.len() as int) by {
                        assert(dec(crate::value::sm(**inner), delta + rest)
                            == Parsed::Done(crate::value::vm(v), delta.len() as int));
                    }
                }
                Ok(out)
            },
            Shape::Sequence(inner) => self.decode_sequence_run(inner),

            Shape::Tuple(fields) => {
                let vs = self.decode_field_run(fields)?;
                let out = Value::Tuple(vs);
                proof {
                    let delta = delta_of(pre.taken(), self.taken());
                    assert forall|rest: Seq<u8>|
                        (#[trigger] dec(crate::value::sm(*shape), delta + rest))
                            == Parsed::Done(crate::value::vm(out), delta.len() as int) by {
                        assert(dec_fields(crate::value::view_shapes(fields@), delta + rest)
                            == ParsedList::Done(
                            crate::value::view_list(out->Tuple_0@),
                            delta.len() as int,
                        ));
                    }
                }
                Ok(out)
            },
            Shape::Dict(kshape, vshape) => self.decode_dict_run(kshape, vshape),

            Shape::Sum(arms) => {
                let bytes = self.source.recv_raw_data(4)?;
                let tag = vstd::bytes::u32_from_le_bytes(bytes.as_slice());
                let ghost mid = *self;
                if (tag as usize) >= arms.len() {
                    proof {
                        reveal_strlit("no such variant");
                        assert(crate::value::view_arms(arms@).len() == arms@.len());
                        if pre.determined() {
                            assert(pre.ahead().take(4) =~= bytes@);
                        }
                    }
                    return Err(Error::Custom("no such variant".to_owned()));
                }
                proof {
                    assert(crate::value::view_arms(arms@)[tag as int]
                        == crate::value::view_shapes(arms@[tag as int].fields@));
                    crate::wire::lemma_size_arms_elem(
                        crate::value::view_arms(arms@),
                        tag as int,
                    );
                }
                let vs = self.decode_field_run(&arms[tag as usize].fields)?;
                let ghost dc = delta_of(mid.taken(), self.taken());
                let out = Value::Variant(tag, vs);
                proof {
                    let delta = delta_of(pre.taken(), self.taken());
                    assert(delta =~= bytes@ + dc);
                    assert forall|rest: Seq<u8>|
                        (#[trigger] dec(crate::value::sm(*shape), delta + rest))
                            == Parsed::Done(crate::value::vm(out), delta.len() as int) by {
                        assert((delta + rest).take(4) =~= bytes@);
                        assert((delta + rest).skip(4) =~= dc + rest);
                        assert(dec_fields(
                            crate::value::view_shapes(arms@[tag as int].fields@),
                            dc + rest,
                        ) == ParsedList::Done(
                            crate::value::view_list(out->Variant_1@),
                            dc.len() as int,
                        ));
                    }
                    if pre.determined() {
                        assert(pre.ahead().take(4) =~= bytes@);
                        assert(pre.ahead().skip(4) =~= mid.ahead());
                        match dec_fields(
                            crate::value::view_shapes(arms@[tag as int].fields@),
                            mid.ahead(),
                        ) {
                            ParsedList::Done(w, u) => {
                                assert(pre.ahead().take(4 + u) =~= pre.ahead().take(4)
                                    + mid.ahead().take(u));
                                assert(pre.ahead().skip(4 + u) =~= mid.ahead().skip(u));
                            },
                            ParsedList::Fail(_) => {},
                        }
                    }
                }
                Ok(out)
            },
        }
    }


    /// Reads a homogeneous sequence: its 64-bit length, then that many
    /// elements of the inner shape.
    #[verifier::loop_isolation(false)]
    #[verifier::rlimit(100)]
    fn decode_sequence_run(&mut self, inner: &Shape) -> (r: Result<Value, Error>)
        requires
            old(self).inv(),
        ensures
            final(self).inv(),
            final(self).determined() == old(self).determined(),
            r is Ok ==> ({
                let delta = delta_of(old(self).taken(), final(self).taken());
                &&& final(self).taken() == old(self).taken() + delta
                &&& forall|rest: Seq<u8>|
                    (#[trigger] dec(seq_model(inner), delta + rest))
                        == Parsed::Done(crate::value::vm(r->Ok_0), delta.len() as int)
            }),
            old(self).determined() ==> (match dec(seq_model(inner), old(self).ahead()) {
                Parsed::Done(w, u) => r is Ok && crate::value::vm(r->Ok_0) == w
                    && 0 <= u <= old(self).ahead().len()
                    && final(self).ahead() == old(self).ahead().skip(u)
                    && final(self).taken() == old(self).taken() + old(self).ahead().take(u),
                Parsed::Fail(f) => r is Err && err_matches(r->Err_0, f),
            }),
        decreases crate::wire::size_of(crate::value::sm(*inner)), 0nat, 1nat,
    {
        let ghost pre = *self;
        let n = self.recv_usize()?;
        let ghost d1 = delta_of(pre.taken(), self.taken());
        let ghost mid = *self;
        let ghost em = crate::value::sm(*inner);
        let mut out: Vec<Value> = Vec::new();
        let mut i: usize = 0;
        proof {
            assert forall|tail: Seq<u8>|
                (#[trigger] dec_many(em, n as nat, Seq::<u8>::empty() + tail))
                    == (match dec_many(em, (n - 0) as nat, tail) {
                    ParsedList::Done(vs2, u2) => ParsedList::Done(
                        crate::value::view_list(out@) + vs2,
                        Seq::<u8>::empty().len() + u2,
                    ),
                    ParsedList::Fail(f) => ParsedList::Fail(f),
                }) by {
                assert(Seq::<u8>::empty() + tail =~= tail);
                match dec_many(em, n as nat, tail) {
                    ParsedList::Done(vs2, u2) => {
                        assert(crate::value::view_list(out@) + vs2 =~= vs2);
                    },
                    ParsedList::Fail(_) => {},
                }
            }
        }
        let ghost mut bd: Seq<u8> = Seq::empty();
        while i < n
            invariant
                self.inv(),
                self.determined() == pre.determined(),
                i <= n,
                out@.len() == i,
                self.taken() == mid.taken() + bd,
                list_continues(
                    em,
                    n as nat,
                    i as nat,
                    crate::value::view_list(out@),
                    bd,
                ),
                pre.determined() ==> mid.ahead() == bd + self.ahead(),
            decreases n - i,
        {
            let ghost self0 = *self;
            let ghost bd0 = bd;
            let ghost out0 = out@;
            proof {
                assert(crate::wire::size_of(em) < crate::wire::size_of(
                    seq_model(inner),
                ));
            }
            let v = match self.decode_value(inner) {
                Ok(v) => v,
                Err(e) => {
                    proof {
                        if pre.determined() {
                            let tail0 = self0.ahead();
                            match dec(em, tail0) {
                                Parsed::Done(_, _) => {
                                    assert(false);
                                },
                                Parsed::Fail(f) => {
                                    assert(dec_many(em, (n - i) as nat, tail0)
                                        == ParsedList::Fail(f));
                                    assert(dec_many(em, n as nat, bd0 + tail0)
                                        == ParsedList::Fail(f));
                                    assert(mid.ahead() =~= bd0 + tail0);
                                    assert(dec_many(em, n as nat, mid.ahead())
                                        == ParsedList::Fail(f));
                                    assert(d1 =~= pre.ahead().take(8));
                                    assert(pre.ahead().len() >= 8);
                                },
                            }
                        }
                    }
                    return Err(e);
                },
            };
            let ghost dc = delta_of(self0.taken(), self.taken());
            out.push(v);
            proof {
                bd = bd0 + dc;
                assert(self.taken() =~= mid.taken() + bd);
                assert(crate::value::view_list(out@) =~= crate::value::view_list(
                    out0,
                ) + seq![crate::value::vm(v)]);
                assert forall|tail: Seq<u8>|
                    (#[trigger] dec_many(em, n as nat, bd + tail)) == (match
                    dec_many(em, (n - i - 1) as nat, tail) {
                        ParsedList::Done(vs2, u2) => ParsedList::Done(
                            crate::value::view_list(out@) + vs2,
                            bd.len() + u2,
                        ),
                        ParsedList::Fail(f) => ParsedList::Fail(f),
                    }) by {
                    assert(bd + tail =~= bd0 + (dc + tail));
                    assert(dec(em, dc + tail) == Parsed::Done(
                        crate::value::vm(v),
                        dc.len() as int,
                    ));
                    assert((dc + tail).skip(dc.len() as int) =~= tail);
                    match dec_many(em, (n - i - 1) as nat, tail) {
                        ParsedList::Done(vs2, u2) => {
                            assert(dec_many(em, (n - i) as nat, dc + tail)
                                == ParsedList::Done(
                                seq![crate::value::vm(v)] + vs2,
                                dc.len() + u2,
                            ));
                            assert(dec_many(em, n as nat, bd0 + (dc + tail))
                                == ParsedList::Done(
                                crate::value::view_list(out0) + (seq![
                                    crate::value::vm(v),
                                ] + vs2),
                                bd0.len() + (dc.len() + u2),
                            ));
                            assert(crate::value::view_list(out0) + (seq![
                                crate::value::vm(v),
                            ] + vs2) =~= crate::value::view_list(out@) + vs2);
                        },
                        ParsedList::Fail(f) => {
                            assert(dec_many(em, (n - i) as nat, dc + tail)
                                == ParsedList::Fail(f));
                            assert(dec_many(em, n as nat, bd0 + (dc + tail))
                                == ParsedList::Fail(f));
                        },
                    }
                }
                if pre.determined() {
                    assert(mid.ahead() =~= bd + self.ahead());
                }
            }
            i = i + 1;
        }
        let ghost vs_all = crate::value::view_list(out@);
        let outv = Value::Sequence(out);
        proof {
            let delta = delta_of(pre.taken(), self.taken());
            assert(delta =~= d1 + bd);
            assert(self.taken() =~= pre.taken() + delta);
            assert forall|rest: Seq<u8>|
                (#[trigger] dec(seq_model(inner), delta + rest))
                    == Parsed::Done(crate::value::vm(outv), delta.len() as int)
                by {
                let input = delta + rest;
                assert(input.take(8) =~= d1);
                assert(input.skip(8) =~= bd + rest);
                assert(dec_many(em, n as nat, bd + rest) == ParsedList::Done(
                    vs_all + Seq::<crate::value::ValueModel>::empty(),
                    bd.len() as int + 0,
                ));
                assert(vs_all + Seq::<crate::value::ValueModel>::empty()
                    =~= vs_all);
            }
            if pre.determined() {
                let tail_now = self.ahead();
                assert(dec_many(em, n as nat, bd + tail_now) == ParsedList::Done(
                    vs_all + Seq::<crate::value::ValueModel>::empty(),
                    bd.len() as int + 0,
                ));
                assert(vs_all + Seq::<crate::value::ValueModel>::empty()
                    =~= vs_all);
                assert(mid.ahead() =~= bd + tail_now);
                assert(dec_many(em, n as nat, mid.ahead()) == ParsedList::Done(
                    vs_all,
                    bd.len() as int,
                ));
                assert(d1 =~= pre.ahead().take(8));
                assert(pre.ahead().len() >= 8);
                let u = 8 + bd.len() as int;
                assert(pre.ahead().skip(8) == mid.ahead());
                assert(pre.ahead().take(u) =~= d1 + mid.ahead().take(
                    bd.len() as int,
                ));
                assert(mid.ahead().take(bd.len() as int) =~= bd);
                assert(pre.ahead().skip(u) =~= mid.ahead().skip(bd.len() as int));
                assert(mid.ahead().skip(bd.len() as int) =~= tail_now);
                assert(self.taken() =~= pre.taken() + pre.ahead().take(u));
            }
        }
        Ok(outv)
    }

    /// Reads a keyed map: its 64-bit length, then that many key/value pairs.
    #[verifier::loop_isolation(false)]
    #[verifier::rlimit(100)]
    fn decode_dict_run(&mut self, kshape: &Shape, vshape: &Shape) -> (r: Result<
        Value,
        Error,
    >)
        requires
            old(self).inv(),
        ensures
            final(self).inv(),
            final(self).determined() == old(self).determined(),
            r is Ok ==> ({
                let delta = delta_of(old(self).taken(), final(self).taken());
                &&& final(self).taken() == old(self).taken() + delta
                &&& forall|rest: Seq<u8>|
                    (#[trigger] dec(dict_model(kshape, vshape), delta + rest))
                        == Parsed::Done(crate::value::vm(r->Ok_0), delta.len() as int)
            }),
            old(self).determined() ==> (match dec(
                dict_model(kshape, vshape),
                old(self).ahead(),
            ) {
                Parsed::Done(w, u) => r is Ok && crate::value::vm(r->Ok_0) == w
                    && 0 <= u <= old(self).ahead().len()
                    && final(self).ahead() == old(self).ahead().skip(u)
                    && final(self).taken() == old(self).taken() + old(self).ahead().take(u),
                Parsed::Fail(f) => r is Err && err_matches(r->Err_0, f),
            }),
        decreases crate::wire::size_of(crate::value::sm(*kshape)) + crate::wire::size_of(
            crate::value::sm(*vshape),
        ), 0nat, 1nat,
    {
        let ghost pre = *self;
        let n = self.recv_usize()?;
        let ghost d1 = delta_of(pre.taken(), self.taken());
        let ghost mid = *self;
        let ghost km = crate::value::sm(*kshape);
        let ghost wm = crate::value::sm(*vshape);
        let mut out: Vec<MapEntry> = Vec::new();
        let mut i: usize = 0;
        proof {
            assert forall|tail: Seq<u8>|
                (#[trigger] dec_pairs(km, wm, n as nat, Seq::<u8>::empty() + tail))
                    == (match dec_pairs(km, wm, (n - 0) as nat, tail) {
                    ParsedPairs::Done(ps2, u2) => ParsedPairs::Done(
                        crate::value::view_entries(out@) + ps2,
                        Seq::<u8>::empty().len() + u2,
                    ),
                    ParsedPairs::Fail(f) => ParsedPairs::Fail(f),
                }) by {
                assert(Seq::<u8>::empty() + tail =~= tail);
                match dec_pairs(km, wm, n as nat, tail) {
                    ParsedPairs::Done(ps2, u2) => {
                        assert(crate::value::view_entries(out@) + ps2 =~= ps2);
                    },
                    ParsedPairs::Fail(_) => {},
                }
            }
        }
        let ghost mut bd: Seq<u8> = Seq::empty();
        while i < n
            invariant
                self.inv(),
                self.determined() == pre.determined(),
                i <= n,
                out@.len() == i,
                self.taken() == mid.taken() + bd,
                pairs_continues(
                    km,
                    wm,
                    n as nat,
                    i as nat,
                    crate::value::view_entries(out@),
                    bd,
                ),
                pre.determined() ==> mid.ahead() == bd + self.ahead(),
            decreases n - i,
        {
            let ghost self0 = *self;
            let ghost bd0 = bd;
            let ghost out0 = out@;
            proof {
                assert(crate::wire::size_of(km) < crate::wire::size_of(
                    dict_model(kshape, vshape),
                ));
                assert(crate::wire::size_of(wm) < crate::wire::size_of(
                    dict_model(kshape, vshape),
                ));
            }
            let k = match self.decode_value(kshape) {
                Ok(v) => v,
                Err(e) => {
                    proof {
                        if pre.determined() {
                            let tail0 = self0.ahead();
                            match dec(km, tail0) {
                                Parsed::Done(_, _) => {
                                    assert(false);
                                },
                                Parsed::Fail(f) => {
                                    assert(dec_pairs(km, wm, (n - i) as nat,
                                        tail0) == ParsedPairs::Fail(f));
                                    assert(dec_pairs(km, wm, n as nat, bd0
                                        + tail0) == ParsedPairs::Fail(f));
                                    assert(mid.ahead() =~= bd0 + tail0);
                                    assert(dec_pairs(km, wm, n as nat,
                                        mid.ahead()) == ParsedPairs::Fail(f));
                                    assert(d1 =~= pre.ahead().take(8));
                                    assert(pre.ahead().len() >= 8);
                                },
                            }
                        }
                    }
                    return Err(e);
                },
            };
            let ghost dk = delta_of(self0.taken(), self.taken());
            let ghost selfk = *self;
            let v = match self.decode_value(vshape) {
                Ok(v) => v,
                Err(e) => {
                    proof {
                        if pre.determined() {
                            let tail0 = self0.ahead();
                            let tailk = selfk.ahead();
                            match dec(wm, tailk) {
                                Parsed::Done(_, _) => {
                                    assert(false);
                                },
                                Parsed::Fail(f) => {
                                    assert(dec(km, tail0) == Parsed::Done(
                                        crate::value::vm(k),
                                        dk.len() as int,
                                    ));
                                    assert(tail0 =~= dk + tailk);
                                    assert((dk + tailk).skip(dk.len() as int)
                                        =~= tailk);
                                    assert(dec(km, dk + tailk) == Parsed::Done(
                                        crate::value::vm(k),
                                        dk.len() as int,
                                    ));
                                    assert(dec_pairs(km, wm, (n - i) as nat,
                                        tail0) == ParsedPairs::Fail(f));
                                    assert(dec_pairs(km, wm, n as nat, bd0
                                        + tail0) == ParsedPairs::Fail(f));
                                    assert(mid.ahead() =~= bd0 + tail0);
                                    assert(dec_pairs(km, wm, n as nat,
                                        mid.ahead()) == ParsedPairs::Fail(f));
                                    assert(d1 =~= pre.ahead().take(8));
                                    assert(pre.ahead().len() >= 8);
                                },
                            }
                        }
                    }
                    return Err(e);
                },
            };
            let ghost dv = delta_of(selfk.taken(), self.taken());
            out.push(MapEntry { key: k, value: v });
            proof {
                bd = bd0 + (dk + dv);
                assert(self.taken() =~= mid.taken() + bd);
                assert(crate::value::view_entries(out@)
                    =~= crate::value::view_entries(out0) + seq![
                    (crate::value::vm(k), crate::value::vm(v)),
                ]);
                lemma_pairs_step(
                    km,
                    wm,
                    n as nat,
                    i as nat,
                    crate::value::view_entries(out0),
                    bd0,
                    dk,
                    dv,
                    crate::value::vm(k),
                    crate::value::vm(v),
                );
                assert(crate::value::view_entries(out0) + seq![
                    (crate::value::vm(k), crate::value::vm(v)),
                ] =~= crate::value::view_entries(out@));

                if pre.determined() {
                    assert(mid.ahead() =~= bd + self.ahead());
                }
            }
            i = i + 1;
        }
        let ghost ps_all = crate::value::view_entries(out@);
        let outv = Value::Dict(out);
        proof {
            let delta = delta_of(pre.taken(), self.taken());
            assert(delta =~= d1 + bd);
            assert(self.taken() =~= pre.taken() + delta);
            assert forall|rest: Seq<u8>|
                (#[trigger] dec(dict_model(kshape, vshape), delta + rest))
                    == Parsed::Done(crate::value::vm(outv), delta.len() as int)
                by {
                let input = delta + rest;
                assert(input.take(8) =~= d1);
                assert(input.skip(8) =~= bd + rest);
                assert(dec_pairs(km, wm, n as nat, bd + rest)
                    == ParsedPairs::Done(
                    ps_all + Seq::<(
                        crate::value::ValueModel,
                        crate::value::ValueModel,
                    )>::empty(),
                    bd.len() as int + 0,
                ));
                assert(ps_all + Seq::<(
                    crate::value::ValueModel,
                    crate::value::ValueModel,
                )>::empty() =~= ps_all);
            }
            if pre.determined() {
                let tail_now = self.ahead();
                assert(dec_pairs(km, wm, n as nat, bd + tail_now)
                    == ParsedPairs::Done(
                    ps_all + Seq::<(
                        crate::value::ValueModel,
                        crate::value::ValueModel,
                    )>::empty(),
                    bd.len() as int + 0,
                ));
                assert(ps_all + Seq::<(
                    crate::value::ValueModel,
                    crate::value::ValueModel,
                )>::empty() =~= ps_all);
                assert(mid.ahead() =~= bd + tail_now);
                assert(dec_pairs(km, wm, n as nat, mid.ahead())
                    == ParsedPairs::Done(ps_all, bd.len() as int));
                assert(d1 =~= pre.ahead().take(8));
                assert(pre.ahead().len() >= 8);
                let u = 8 + bd.len() as int;
                assert(pre.ahead().skip(8) == mid.ahead());
                assert(pre.ahead().take(u) =~= d1 + mid.ahead().take(
                    bd.len() as int,
                ));
                assert(mid.ahead().take(bd.len() as int) =~= bd);
                assert(pre.ahead().skip(u) =~= mid.ahead().skip(bd.len() as int));
                assert(mid.ahead().skip(bd.len() as int) =~= tail_now);
                assert(self.taken() =~= pre.taken() + pre.ahead().take(u));
            }
        }
        Ok(outv)
    }

    /// Reads one value per listed shape, in order, with no framing.
    #[verifier::loop_isolation(false)]
    #[verifier::rlimit(100)]
    pub fn decode_field_run(&mut self, shapes: &Vec<Shape>) -> (r: Result<
        Vec<Value>,
        Error,
    >)
        requires
            old(self).inv(),
        ensures
            final(self).inv(),
            final(self).determined() == old(self).determined(),
            r is Ok ==> ({
                let delta = delta_of(old(self).taken(), final(self).taken());
                &&& final(self).taken() == old(self).taken() + delta
                &&& r->Ok_0@.len() == shapes@.len()
                &&& forall|rest: Seq<u8>|
                    (#[trigger] dec_fields(
                        crate::value::view_shapes(shapes@),
                        delta + rest,
                    )) == ParsedList::Done(
                        crate::value::view_list(r->Ok_0@),
                        delta.len() as int,
                    )
            }),
            old(self).determined() ==> (match dec_fields(
                crate::value::view_shapes(shapes@),
                old(self).ahead(),
            ) {
                ParsedList::Done(w, u) => r is Ok && crate::value::view_list(r->Ok_0@)
                    == w && 0 <= u <= old(self).ahead().len()
                    && final(self).ahead() == old(self).ahead().skip(u)
                    && final(self).taken() == old(self).taken() + old(self).ahead().take(u),
                ParsedList::Fail(f) => r is Err && err_matches(r->Err_0, f),
            }),
        decreases crate::wire::size_list(crate::value::view_shapes(shapes@)), 1nat, 0nat,
    {
        let ghost pre = *self;
        let ghost sms = crate::value::view_shapes(shapes@);
        let n = shapes.len();
        let mut out: Vec<Value> = Vec::new();
        let mut i: usize = 0;
        proof {
            assert forall|tail: Seq<u8>|
                (#[trigger] dec_fields(sms, Seq::<u8>::empty() + tail)) == (match
                dec_fields(sms.skip(0), tail) {
                    ParsedList::Done(vs2, u2) => ParsedList::Done(
                        crate::value::view_list(out@) + vs2,
                        Seq::<u8>::empty().len() + u2,
                    ),
                    ParsedList::Fail(f) => ParsedList::Fail(f),
                }) by {
                assert(Seq::<u8>::empty() + tail =~= tail);
                assert(sms.skip(0) =~= sms);
                match dec_fields(sms, tail) {
                    ParsedList::Done(vs2, u2) => {
                        assert(crate::value::view_list(out@) + vs2 =~= vs2);
                    },
                    ParsedList::Fail(_) => {},
                }
            }
        }
        let ghost mut bd: Seq<u8> = Seq::empty();
        while i < n
            invariant
                self.inv(),
                self.determined() == pre.determined(),
                i <= n,
                out@.len() == i,
                self.taken() == pre.taken() + bd,
                fields_continue(sms, i as int, crate::value::view_list(out@), bd),
                pre.determined() ==> pre.ahead() == bd + self.ahead(),
            decreases n - i,
        {
            let ghost self0 = *self;
            let ghost bd0 = bd;
            let ghost out0 = out@;
            proof {
                assert(sms[i as int] == crate::value::sm(shapes@[i as int]));
                crate::wire::lemma_size_list_elem(sms, i as int);
            }
            let v = match self.decode_value(&shapes[i]) {
                Ok(v) => v,
                Err(e) => {
                    proof {
                        if pre.determined() {
                            let tail0 = self0.ahead();
                            match dec(sms[i as int], tail0) {
                                Parsed::Done(_, _) => {
                                    assert(false);
                                },
                                Parsed::Fail(f) => {
                                    assert(sms.skip(i as int)[0] == sms[i as int]);
                                    assert(dec_fields(sms.skip(i as int), tail0)
                                        == ParsedList::Fail(f));
                                    assert(bd0 + tail0 =~= bd0 + tail0);
                                    assert(dec_fields(sms, bd0 + tail0)
                                        == ParsedList::Fail(f));
                                    assert(pre.ahead() =~= bd0 + tail0);
                                },
                            }
                        }
                    }
                    return Err(e);
                },
            };
            let ghost dc = delta_of(self0.taken(), self.taken());
            out.push(v);
            proof {
                bd = bd0 + dc;
                assert(self.taken() =~= pre.taken() + bd);
                assert(crate::value::view_list(out@) =~= crate::value::view_list(out0)
                    + seq![crate::value::vm(v)]);
                assert forall|tail: Seq<u8>|
                    (#[trigger] dec_fields(sms, bd + tail)) == (match dec_fields(
                        sms.skip(i + 1),
                        tail,
                    ) {
                        ParsedList::Done(vs2, u2) => ParsedList::Done(
                            crate::value::view_list(out@) + vs2,
                            bd.len() + u2,
                        ),
                        ParsedList::Fail(f) => ParsedList::Fail(f),
                    }) by {
                    assert(bd + tail =~= bd0 + (dc + tail));
                    assert(sms.skip(i as int)[0] == sms[i as int]);
                    assert(dec(sms[i as int], dc + tail) == Parsed::Done(
                        crate::value::vm(v),
                        dc.len() as int,
                    ));
                    assert((dc + tail).skip(dc.len() as int) =~= tail);
                    assert(sms.skip(i as int).drop_first() =~= sms.skip(i + 1));
                    match dec_fields(sms.skip(i + 1), tail) {
                        ParsedList::Done(vs2, u2) => {
                            assert(dec_fields(sms.skip(i as int), dc + tail)
                                == ParsedList::Done(
                                seq![crate::value::vm(v)] + vs2,
                                dc.len() + u2,
                            ));
                            assert(dec_fields(sms, bd0 + (dc + tail)) == ParsedList::Done(
                                crate::value::view_list(out0) + (seq![crate::value::vm(v)]
                                    + vs2),
                                bd0.len() + (dc.len() + u2),
                            ));
                            assert(crate::value::view_list(out0) + (seq![
                                crate::value::vm(v),
                            ] + vs2) =~= crate::value::view_list(out@) + vs2);
                        },
                        ParsedList::Fail(f) => {
                            assert(dec_fields(sms.skip(i as int), dc + tail)
                                == ParsedList::Fail(f));
                            assert(dec_fields(sms, bd0 + (dc + tail))
                                == ParsedList::Fail(f));
                        },
                    }
                }
                if pre.determined() {
                    assert(pre.ahead() =~= bd + self.ahead());
                }
            }
            i = i + 1;
        }
        proof {
            assert(sms.skip(n as int) =~= Seq::<crate::value::ShapeModel>::empty());
            let delta = delta_of(pre.taken(), self.taken());
            assert(delta =~= bd);
            assert forall|rest: Seq<u8>|
                (#[trigger] dec_fields(sms, delta + rest)) == ParsedList::Done(
                    crate::value::view_list(out@),
                    delta.len() as int,
                ) by {
                assert(dec_fields(sms.skip(n as int), rest) == ParsedList::Done(
                    Seq::<crate::value::ValueModel>::empty(),
                    0int,
                ));
                assert(crate::value::view_list(out@)
                    + Seq::<crate::value::ValueModel>::empty() =~= crate::value::view_list(
                    out@,
                ));
                assert(bd + rest == delta + rest);
            }
            if pre.determined() {
                let tail_now = self.ahead();
                assert(dec_fields(sms.skip(n as int), tail_now) == ParsedList::Done(
                    Seq::<crate::value::ValueModel>::empty(),
                    0int,
                ));
                assert(dec_fields(sms, bd + tail_now) == ParsedList::Done(
                    crate::value::view_list(out@),
                    bd.len() as int,
                ));
                assert(pre.ahead() =~= bd + tail_now);
                assert(pre.ahead().take(bd.len() as int) =~= bd);
                assert(pre.ahead().skip(bd.len() as int) =~= tail_now);
                assert(self.taken() =~= pre.taken() + pre.ahead().take(bd.len() as int));
            }
        }
        Ok(out)
    }
}

/// A bad deserialization setting.
#[derive(Debug)]
pub enum ConfigError {
    /// A buffer limit that cannot hold one byte.
    BufLimitTooLow(usize),
}

/// Settings for deserialization: whether leftover input is an error, and
/// how deep the streaming path's queues are. The buffer path uses only
/// `hard_eof`; the decoded value is the same under every configuration.
#[derive(Debug, Clone)]
pub struct Config {
    hard_eof: bool,
    request_channel_limit: usize,
    response_channel_limit: usize,
}

impl Config {
    /// Whether input left over after a decode is rejected.
    pub closed spec fn spec_hard_eof(&self) -> bool {
        self.hard_eof
    }

    /// The capacity of the pull-request queue.
    pub closed spec fn spec_request_channel_limit(&self) -> usize {
        self.request_channel_limit
    }

    /// The capacity of the response queue.
    pub closed spec fn spec_response_channel_limit(&self) -> usize {
        self.response_channel_limit
    }

    /// The default settings, explicitly.
    pub fn new() -> (r: Config)
        ensures
            !r.spec_hard_eof(),
            r.spec_request_channel_limit() == 1,
            r.spec_response_channel_limit() == 1,
    {
        Config { hard_eof: false, request_channel_limit: 1, response_channel_limit: 1 }
    }

    /// Demands that decoding consume the input exactly.
    pub fn with_hard_eof(&mut self)
        ensures
            final(self).spec_hard_eof(),
            final(self).spec_request_channel_limit() == old(
                self,
            ).spec_request_channel_limit(),
            final(self).spec_response_channel_limit() == old(
                self,
            ).spec_response_channel_limit(),
    {
        self.hard_eof = true;
    }

    /// Sets the pull-request queue capacity.
    pub fn with_request_channel_limit(&mut self, limit: usize)
        ensures
            final(self).spec_request_channel_limit() == limit,
            final(self).spec_hard_eof() == old(self).spec_hard_eof(),
            final(self).spec_response_channel_limit() == old(
                self,
            ).spec_response_channel_limit(),
    {
        self.request_channel_limit = limit;
    }

    /// Sets the response queue capacity.
    pub fn with_response_channel_limit(&mut self, limit: usize)
        ensures
            final(self).spec_response_channel_limit() == limit,
            final(self).spec_hard_eof() == old(self).spec_hard_eof(),
            final(self).spec_request_channel_limit() == old(
                self,
            ).spec_request_channel_limit(),
    {
        self.response_channel_limit = limit;
    }

    /// The read-out of the hard-EOF policy.
    pub fn hard_eof(&self) -> (r: bool)
        ensures
            r == self.spec_hard_eof(),
    {
        self.hard_eof
    }

    /// The read-out of the pull-request queue capacity.
    pub fn request_channel_limit(&self) -> (r: usize)
        ensures
            r == self.spec_request_channel_limit(),
    {
        self.request_channel_limit
    }

    /// The read-out of the response queue capacity.
    pub fn response_channel_limit(&self) -> (r: usize)
        ensures
            r == self.spec_response_channel_limit(),
    {
        self.response_channel_limit
    }

    /// Decodes one value of the given shape from the front of a buffer:
    /// exactly what `dec` says of those bytes. Under `hard_eof`, input left
    /// over after the value is an error naming its first byte.
    pub fn deserialize_buffer(&self, buf: &[u8], shape: &Shape) -> (r: Result<
        Value,
        Error,
    >)
        ensures
            match dec(crate::value::sm(*shape), buf@) {
                Parsed::Done(w, u) => {
                    if self.spec_hard_eof() && u < buf@.len() {
                        r is Err && r->Err_0 == Error::ExpectedEof(buf@[u])
                    } else {
                        r is Ok && crate::value::vm(r->Ok_0) == w
                    }
                },
                Parsed::Fail(f) => r is Err && err_matches(r->Err_0, f),
            },
    {
        let owned = vstd::slice::slice_to_vec(buf);
        let source = BufferSource::new(owned);
        let mut reader = Deserializer::new(source);
        let value = match reader.decode_value(shape) {
            Ok(v) => v,
            Err(e) => {
                return Err(e);
            },
        };
        if self.hard_eof {
            match reader.source().ensure_eof() {
                Ok(()) => {},
                Err(e) => {
                    proof {
                        match dec(crate::value::sm(*shape), buf@) {
                            Parsed::Done(w, u) => {
                                assert(reader.ahead() == buf@.skip(u));
                                assert(buf@.skip(u)[0] == buf@[u]);
                            },
                            Parsed::Fail(_) => {},
                        }
                    }
                    return Err(e);
                },
            }
        }
        Ok(value)
    }
}

impl Default for Config {
    /// The default settings: the same values `new` gives.
    fn default() -> (r: Config)
        ensures
            !r.spec_hard_eof(),
            r.spec_request_channel_limit() == 1,
            r.spec_response_channel_limit() == 1,
    {
        Config::new()
    }
}

/// Decodes one value of the given shape from a buffer with the default
/// settings: leftover input is tolerated.
pub fn deserialize_buffer(buf: &[u8], shape: &Shape) -> (r: Result<Value, Error>)
    ensures
        match dec(crate::value::sm(*shape), buf@) {
            Parsed::Done(w, _) => r is Ok && crate::value::vm(r->Ok_0) == w,
            Parsed::Fail(f) => r is Err && err_matches(r->Err_0, f),
        },
{
    Config::new().deserialize_buffer(buf, shape)
}

} // verus!
