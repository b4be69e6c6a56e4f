//! Serialization: sinks, the buffer sink with its back-patching routine
//! stack, and the encoder that drives a sink from a value.
//!
//! A sink's behaviour is captured by a `SinkModel`: the bytes already
//! committed to the output, plus a stack of still-open variable-sized
//! containers whose final lengths are not yet known. Each sink operation is
//! specified as a pure transition on that model, so the one encoder proof
//! covers every sink.

use vstd::prelude::*;

use crate::value::{MapEntry, Value};
use crate::wire::{enc, enc_entries, enc_list, le64, len_prefix, lemma_enc_entries_snoc, lemma_enc_list_snoc};

verus! {

broadcast use vstd::std_specs::vec::group_vec_axioms;

/// A serialization failure.
#[derive(Debug)]
pub enum Error {
    /// The receiving half of the outbound queue is gone.
    Disconnected,
    /// A size too large for the wire's 64-bit length field.
    ExcessiveSize(usize),
    /// A size difference too large in magnitude for the wire.
    ExcessiveSizeDiff(isize),
    /// A request to omit a field, which the format cannot express.
    SkipNotAllowed,
    /// The byte transport failed.
    IO,
    /// An error surfaced by a caller-supplied traversal.
    Custom(String),
}

/// One still-open variable-sized container of unknown length.
#[verifier::ext_equal]
pub struct FrameModel {
    /// Elements announced so far.
    pub count: nat,
    /// Known-length containers opened inside this one and not yet closed.
    pub known: nat,
    /// Bytes written inside this container so far, after its length slot.
    pub bytes: Seq<u8>,
}

/// The abstract state of a sink.
#[verifier::ext_equal]
pub struct SinkModel {
    /// Bytes whose final values are settled, in output order.
    pub done: Seq<u8>,
    /// Known-length containers open at the top level.
    pub root_known: nat,
    /// Open unknown-length containers, outermost first.
    pub frames: Seq<FrameModel>,
    /// Bytes ahead of the write position in a caller-supplied buffer, still
    /// to be overwritten; empty for sinks that only append.
    pub residual: Seq<u8>,
}

/// What is left of a residual after writing `n` bytes over its front.
pub open spec fn chop(r: Seq<u8>, n: nat) -> Seq<u8> {
    if n <= r.len() {
        r.skip(n as int)
    } else {
        Seq::empty()
    }
}

impl SinkModel {
    /// A sink over a buffer holding `residual`, with nothing written yet.
    pub open spec fn fresh(residual: Seq<u8>) -> SinkModel {
        SinkModel { done: Seq::empty(), root_known: 0, frames: Seq::empty(), residual }
    }

    /// Appends bytes at the write position: into the innermost open
    /// container, or the settled output if none is open.
    pub open spec fn after_raw(self, d: Seq<u8>) -> SinkModel {
        let residual = chop(self.residual, d.len());
        if self.frames.len() == 0 {
            SinkModel { done: self.done + d, residual, ..self }
        } else {
            let last = self.frames.len() - 1;
            let f = self.frames[last];
            SinkModel {
                frames: self.frames.update(last, FrameModel { bytes: f.bytes + d, ..f }),
                residual,
                ..self
            }
        }
    }

    /// Appends already-written bytes whose value was just settled; the write
    /// position does not move, so the residual is untouched.
    pub open spec fn commit(self, d: Seq<u8>) -> SinkModel {
        if self.frames.len() == 0 {
            SinkModel { done: self.done + d, ..self }
        } else {
            let last = self.frames.len() - 1;
            let f = self.frames[last];
            SinkModel {
                frames: self.frames.update(last, FrameModel { bytes: f.bytes + d, ..f }),
                ..self
            }
        }
    }

    /// Opens a variable-sized container. A known length is written at once;
    /// an unknown one opens a frame whose length stays pending.
    pub open spec fn after_start(self, size: Option<usize>) -> SinkModel {
        match size {
            Option::Some(n) => {
                let m = self.after_raw(len_prefix(n as nat));
                if m.frames.len() == 0 {
                    SinkModel { root_known: m.root_known + 1, ..m }
                } else {
                    let last = m.frames.len() - 1;
                    let f = m.frames[last];
                    SinkModel {
                        frames: m.frames.update(
                            last,
                            FrameModel { known: f.known + 1, ..f },
                        ),
                        ..m
                    }
                }
            },
            Option::None => SinkModel {
                frames: self.frames.push(
                    FrameModel { count: 0, known: 0, bytes: Seq::empty() },
                ),
                residual: chop(self.residual, 8),
                ..self
            },
        }
    }

    /// Announces one more element of the innermost pending container.
    pub open spec fn after_advance(self) -> SinkModel {
        if self.frames.len() > 0 && self.frames.last().known == 0 {
            let last = self.frames.len() - 1;
            let f = self.frames[last];
            SinkModel {
                frames: self.frames.update(last, FrameModel { count: f.count + 1, ..f }),
                ..self
            }
        } else {
            self
        }
    }

    /// Whether one more element can be announced without exceeding the
    /// machine's count range.
    pub open spec fn can_advance(self) -> bool {
        self.frames.len() > 0 && self.frames.last().known == 0
            ==> self.frames.last().count < usize::MAX
    }

    /// Closes the most recently opened container. Closing a pending one
    /// settles its length and folds its bytes into the enclosing context.
    pub open spec fn after_end(self) -> SinkModel {
        if self.frames.len() == 0 {
            SinkModel {
                root_known: if self.root_known > 0 { (self.root_known - 1) as nat } else { 0 },
                ..self
            }
        } else {
            let last = self.frames.len() - 1;
            let f = self.frames[last];
            if f.known > 0 {
                SinkModel {
                    frames: self.frames.update(
                        last,
                        FrameModel { known: (f.known - 1) as nat, ..f },
                    ),
                    ..self
                }
            } else {
                let popped = SinkModel { frames: self.frames.drop_last(), ..self };
                popped.commit(len_prefix(f.count) + f.bytes)
            }
        }
    }

    /// No container is open: every written byte is settled.
    pub open spec fn closed(self) -> bool {
        self.frames.len() == 0 && self.root_known == 0
    }
}

/// Writing twice appends once.
pub proof fn lemma_after_raw_compose(m: SinkModel, a: Seq<u8>, b: Seq<u8>)
    ensures
        m.after_raw(a).after_raw(b) == m.after_raw(a + b),
{
    let lhs = m.after_raw(a).after_raw(b);
    let rhs = m.after_raw(a + b);
    assert(chop(chop(m.residual, a.len()), b.len()) =~= chop(m.residual, a.len() + b.len()));
    if m.frames.len() == 0 {
        assert(lhs =~~= rhs);
    } else {
        let last = m.frames.len() - 1;
        assert(lhs.frames[last].bytes =~= rhs.frames[last].bytes);
        assert(lhs.frames =~~= rhs.frames);
        assert(lhs =~~= rhs);
    }
}

/// Writing nothing changes nothing.
pub proof fn lemma_after_raw_empty(m: SinkModel)
    ensures
        m.after_raw(Seq::empty()) == m,
{
    let lhs = m.after_raw(Seq::empty());
    assert(chop(m.residual, 0) =~= m.residual);
    if m.frames.len() == 0 {
        assert(lhs.done =~= m.done);
        assert(lhs =~~= m);
    } else {
        let last = m.frames.len() - 1;
        assert(lhs.frames[last].bytes =~= m.frames[last].bytes);
        assert(lhs.frames =~~= m.frames);
        assert(lhs =~~= m);
    }
}

/// Opening a known-length container, writing its body and closing it is one
/// plain write: the length prefix followed by the body.
pub proof fn lemma_known_container(m: SinkModel, n: usize, body: Seq<u8>)
    ensures
        m.after_start(Option::Some(n)).after_raw(body).after_end() == m.after_raw(
            len_prefix(n as nat) + body,
        ),
{
    let opened = m.after_start(Option::Some(n));
    let written = opened.after_raw(body);
    lemma_after_raw_compose(m, len_prefix(n as nat), body);
    let flat = m.after_raw(len_prefix(n as nat) + body);
    if m.frames.len() == 0 {
        assert(written.after_end() =~~= flat);
    } else {
        let last = m.frames.len() - 1;
        assert(written.after_end().frames[last].bytes =~= flat.frames[last].bytes);
        assert(written.after_end().frames =~~= flat.frames);
        assert(written.after_end() =~~= flat);
    }
}

/// The sink state in the middle of writing a variable-sized container that
/// began at `m0`: its body so far and its element count so far.
pub open spec fn seq_mid(
    m0: SinkModel,
    hint: Option<usize>,
    body: Seq<u8>,
    count: nat,
) -> SinkModel {
    match hint {
        Option::Some(_) => m0.after_start(hint).after_raw(body),
        Option::None => SinkModel {
            done: m0.done,
            root_known: m0.root_known,
            frames: m0.frames.push(FrameModel { count, known: 0, bytes: body }),
            residual: chop(m0.residual, 8 + body.len()),
        },
    }
}

/// Opening with an unknown length is the empty middle state.
pub proof fn lemma_seq_mid_open(m0: SinkModel)
    ensures
        m0.after_start(Option::None) == seq_mid(m0, Option::None, Seq::empty(), 0),
{
    assert(chop(m0.residual, 8 + Seq::<u8>::empty().len()) =~= chop(m0.residual, 8));
    assert(m0.after_start(Option::None) =~~= seq_mid(m0, Option::None, Seq::empty(), 0));
}

/// Opening with a known length is the empty middle state too.
pub proof fn lemma_seq_mid_open_known(m0: SinkModel, n: usize)
    ensures
        m0.after_start(Option::Some(n)) == seq_mid(
            m0,
            Option::Some(n),
            Seq::empty(),
            0,
        ),
{
    lemma_after_raw_empty(m0.after_start(Option::Some(n)));
}

/// One element step: announce it, then write its bytes.
pub proof fn lemma_seq_mid_step(
    m0: SinkModel,
    hint: Option<usize>,
    body: Seq<u8>,
    count: nat,
    d: Seq<u8>,
)
    requires
        count < usize::MAX,
    ensures
        seq_mid(m0, hint, body, count).can_advance(),
        seq_mid(m0, hint, body, count).after_advance().after_raw(d) == seq_mid(
            m0,
            hint,
            body + d,
            count + 1,
        ),
{
    let mid = seq_mid(m0, hint, body, count);
    match hint {
        Option::Some(n) => {
            let opened = m0.after_start(hint);
            if m0.frames.len() == 0 {
                assert(mid.frames.len() == 0);
                assert(mid.after_advance() == mid);
            } else {
                assert(mid.frames.last().known > 0);
                assert(mid.after_advance() == mid);
            }
            lemma_after_raw_compose(opened, body, d);
        },
        Option::None => {
            let stepped = mid.after_advance().after_raw(d);
            let target = seq_mid(m0, hint, body + d, count + 1);
            assert(chop(chop(m0.residual, 8 + body.len()), d.len()) =~= chop(
                m0.residual,
                8 + (body + d).len(),
            ));
            assert(stepped.frames =~~= target.frames);
            assert(stepped =~~= target);
        },
    }
}

/// Closing the container settles its length: the whole thing collapses to
/// one plain write of the length prefix and the body.
pub proof fn lemma_seq_mid_end(
    m0: SinkModel,
    hint: Option<usize>,
    body: Seq<u8>,
    count: nat,
)
    requires
        count <= usize::MAX,
        match hint {
            Option::Some(n) => n == count,
            Option::None => true,
        },
    ensures
        seq_mid(m0, hint, body, count).after_end() == m0.after_raw(
            len_prefix(count) + body,
        ),
{
    vstd::bytes::lemma_auto_spec_u64_to_from_le_bytes();
    match hint {
        Option::Some(n) => {
            lemma_known_container(m0, n, body);
        },
        Option::None => {
            let mid = seq_mid(m0, hint, body, count);
            let ended = mid.after_end();
            let target = m0.after_raw(len_prefix(count) + body);
            assert(mid.frames.last() == FrameModel { count, known: 0, bytes: body });
            assert(mid.frames.drop_last() =~~= m0.frames);
            assert(chop(m0.residual, 8 + body.len()) =~= chop(
                m0.residual,
                (len_prefix(count) + body).len(),
            ));
            if m0.frames.len() == 0 {
                assert(ended =~~= target);
            } else {
                let last = m0.frames.len() - 1;
                assert(ended.frames[last].bytes =~= target.frames[last].bytes);
                assert(ended.frames =~~= target.frames);
                assert(ended =~~= target);
            }
        },
    }
}

/// The serialization targets the encoder can drive: a growable buffer or a
/// cross-thread byte queue, seen through one abstract model.
pub trait SerializationSink: Sized {
    /// The sink's abstract state.
    spec fn model(&self) -> SinkModel;

    /// The sink's internal well-formedness.
    spec fn inv(&self) -> bool;

    /// Whether this sink's operations always succeed.
    spec fn infallible(&self) -> bool;

    /// Writes raw bytes at the current position.
    fn send_raw_data(&mut self, data: &[u8]) -> (r: Result<(), Error>)
        requires
            old(self).inv(),
        ensures
            final(self).inv(),
            final(self).infallible() == old(self).infallible(),
            r is Ok ==> final(self).model() == old(self).model().after_raw(data@),
            old(self).infallible() ==> r is Ok,
            r is Err ==> r->Err_0 is Disconnected,
    ;

    /// Opens a variable-sized container, announcing its length if known.
    fn start_var_sized(&mut self, size: Option<usize>) -> (r: Result<(), Error>)
        requires
            old(self).inv(),
        ensures
            final(self).inv(),
            final(self).infallible() == old(self).infallible(),
            r is Ok ==> final(self).model() == old(self).model().after_start(size),
            old(self).infallible() ==> r is Ok,
            r is Err ==> r->Err_0 is Disconnected,
    ;

    /// Announces one more element of the innermost pending container.
    fn advance_var_sized(&mut self) -> (r: Result<(), Error>)
        requires
            old(self).inv(),
            old(self).model().can_advance(),
        ensures
            final(self).inv(),
            final(self).infallible() == old(self).infallible(),
            r is Ok ==> final(self).model() == old(self).model().after_advance(),
            old(self).infallible() ==> r is Ok,
            r is Err ==> r->Err_0 is Disconnected,
    ;

    /// Closes the most recently opened container.
    fn end_var_sized(&mut self) -> (r: Result<(), Error>)
        requires
            old(self).inv(),
        ensures
            final(self).inv(),
            final(self).infallible() == old(self).infallible(),
            r is Ok ==> final(self).model() == old(self).model().after_end(),
            old(self).infallible() ==> r is Ok,
            r is Err ==> r->Err_0 is Disconnected,
    ;
}

/// The byte layout of the open frames inside a buffer: an eight-byte length
/// slot (zero until settled) followed by the frame's bytes, innermost last.
pub open spec fn frames_flat(fs: Seq<FrameModel>) -> Seq<u8>
    decreases fs,
{
    if fs.len() == 0 {
        Seq::empty()
    } else {
        le64(0u64) + fs[0].bytes + frames_flat(fs.drop_first())
    }
}

/// The frame layout, split at the last frame.
pub proof fn lemma_flat_snoc(fs: Seq<FrameModel>)
    requires
        fs.len() > 0,
    ensures
        frames_flat(fs) == frames_flat(fs.drop_last()) + le64(0u64) + fs.last().bytes,
        frames_flat(fs).len() == frames_flat(fs.drop_last()).len() + 8
            + fs.last().bytes.len(),
    decreases fs.len(),
{
    vstd::bytes::lemma_auto_spec_u64_to_from_le_bytes();
    if fs.len() == 1 {
        assert(fs.drop_first() =~= Seq::<FrameModel>::empty());
        assert(fs.drop_last() =~= Seq::<FrameModel>::empty());
        assert(frames_flat(fs) =~= frames_flat(fs.drop_last()) + le64(0u64) + fs.last().bytes);
    } else {
        let tail = fs.drop_first();
        lemma_flat_snoc(tail);
        assert(tail.drop_last() =~= fs.drop_last().drop_first());
        assert(tail.last() == fs.last());
        assert(fs.drop_last()[0] == fs[0]);
        assert(fs.drop_last().len() > 0);
        assert(frames_flat(fs.drop_last()) == le64(0u64) + fs.drop_last()[0].bytes
            + frames_flat(fs.drop_last().drop_first()));
        assert(frames_flat(fs) =~= frames_flat(fs.drop_last()) + le64(0u64) + fs.last().bytes);
    }
}

/// One pending or settled container on the routine stack.
#[derive(Debug, Clone, Copy)]
enum Routine {
    /// A run of known-length containers: just how many are open.
    Resolved { seqs: usize },
    /// A pending-length container: where its length slot sits, and how many
    /// elements it has seen.
    Resolving { cursor: usize, seq_size: usize },
}

/// The byte offset of the innermost frame's length slot.
pub open spec fn top_off(done: Seq<u8>, frames: Seq<FrameModel>) -> int {
    (done.len() + frames_flat(frames.drop_last()).len()) as int
}

/// Whether a routine stack faithfully records the open frames: settled bytes
/// `done`, open frames `frames`, and `rk` known-length containers open at the
/// top level.
spec fn corr(stack: Seq<Routine>, done: Seq<u8>, frames: Seq<FrameModel>, rk: nat) -> bool
    decreases frames.len(), (if frames.len() > 0 {
        frames.last().known
    } else {
        rk
    }),
{
    if frames.len() == 0 {
        if rk > 0 {
            &&& rk <= usize::MAX
            &&& 8 * rk <= done.len()
            &&& stack == seq![Routine::Resolved { seqs: rk as usize }]
        } else {
            stack.len() == 0
        }
    } else {
        let last = frames.len() - 1;
        let f = frames[last];
        if f.known > 0 {
            &&& f.known <= usize::MAX
            &&& 8 * f.known <= f.bytes.len()
            &&& stack.len() >= 1
            &&& stack.last() == Routine::Resolved { seqs: f.known as usize }
            &&& corr(
                stack.drop_last(),
                done,
                frames.update(last, FrameModel { known: 0, ..f }),
                rk,
            )
        } else {
            &&& f.count <= usize::MAX
            &&& 0 <= top_off(done, frames) && top_off(done, frames) + 8 + f.bytes.len()
                <= usize::MAX
            &&& stack.len() >= 1
            &&& stack.last() == Routine::Resolving {
                cursor: top_off(done, frames) as usize,
                seq_size: f.count as usize,
            }
            &&& corr(stack.drop_last(), done, frames.drop_last(), rk)
        }
    }
}

/// As `corr`, with the idle stack holding its one empty marker.
spec fn corr_top(stack: Seq<Routine>, m: SinkModel) -> bool {
    if m.frames.len() == 0 && m.root_known == 0 {
        stack == seq![Routine::Resolved { seqs: 0usize }]
    } else {
        corr(stack, m.done, m.frames, m.root_known)
    }
}

/// A sink that writes into a growable byte buffer it owns, back-patching the
/// length slots of pending containers once their element counts settle.
pub struct BufferSink {
    buffer: Vec<u8>,
    cursor: usize,
    current_routine: Routine,
    parent_routines: Vec<Routine>,
    abs: Ghost<SinkModel>,
}

impl BufferSink {
    /// The whole underlying buffer, as it stands.
    pub closed spec fn contents(&self) -> Seq<u8> {
        self.buffer@
    }

    /// A sink over a fresh, empty buffer.
    pub fn new() -> (r: BufferSink)
        ensures
            r.inv(),
            r.model() == SinkModel::fresh(Seq::<u8>::empty()),
            r.infallible(),
            r.contents() == Seq::<u8>::empty(),
    {
        BufferSink::with_buffer(Vec::new())
    }

    /// A sink over a caller-supplied buffer; writing starts at its front,
    /// overwriting what is there and growing it past the end.
    pub fn with_buffer(buffer: Vec<u8>) -> (r: BufferSink)
        ensures
            r.inv(),
            r.model() == SinkModel::fresh(buffer@),
            r.infallible(),
            r.contents() == buffer@,
    {
        let r = BufferSink {
            buffer,
            cursor: 0,
            current_routine: Routine::Resolved { seqs: 0 },
            parent_routines: Vec::new(),
            abs: Ghost(SinkModel::fresh(buffer@)),
        };
        proof {
            assert(r.parent_routines@.push(r.current_routine) =~= seq![
                Routine::Resolved { seqs: 0usize },
            ]);
            assert(r.buffer@ =~= r.abs@.done + frames_flat(r.abs@.frames) + r.abs@.residual);
        }
        r
    }

    /// The buffer so far, settled bytes first.
    pub fn as_slice(&self) -> (r: &[u8])
        ensures
            r@ == self.contents(),
    {
        self.buffer.as_slice()
    }

    /// Gives the buffer back, consuming the sink.
    pub fn into_buffer(self) -> (r: Vec<u8>)
        ensures
            r@ == self.contents(),
    {
        self.buffer
    }

    /// Empties the buffer and forgets any open containers.
    pub fn clear(&mut self)
        ensures
            final(self).inv(),
            final(self).model() == SinkModel::fresh(Seq::<u8>::empty()),
            final(self).infallible(),
            final(self).contents() == Seq::<u8>::empty(),
    {
        self.buffer.clear();
        self.cursor = 0;
        self.current_routine = Routine::Resolved { seqs: 0 };
        self.parent_routines.clear();
        proof {
            self.abs@ = SinkModel::fresh(Seq::<u8>::empty());
        }
        proof {
            assert(self.parent_routines@.push(self.current_routine) =~= seq![
                Routine::Resolved { seqs: 0usize },
            ]);
            assert(self.buffer@ =~= self.abs@.done + frames_flat(self.abs@.frames)
                + self.abs@.residual);
        }
    }

    /// When nothing is pending, the buffer is the settled output followed by
    /// whatever tail of the original buffer was never reached.
    pub proof fn lemma_contents(&self)
        requires
            self.inv(),
            self.model().frames.len() == 0,
        ensures
            self.contents() == self.model().done + self.model().residual,
    {
        assert(self.contents() =~= self.model().done + self.model().residual);
    }

    /// Whether exactly one pending container is open and nothing else: the
    /// state in which closing it settles the whole buffer.
    pub fn at_single_pending(&self) -> (r: bool)
        requires
            self.inv(),
        ensures
            r == (self.model().frames.len() == 1 && self.model().frames.last().known == 0
                && self.model().root_known == 0),
    {
        let single = self.parent_routines.len() == 0;
        let pending = match self.current_routine {
            Routine::Resolving { .. } => true,
            Routine::Resolved { .. } => false,
        };
        proof {
            let m = self.abs@;
            let stack = self.parent_routines@.push(self.current_routine);
            assert(stack.last() == self.current_routine);
            if single && pending {
                assert(stack.len() == 1);
                assert(m.frames.len() > 0 && m.frames.last().known == 0);
                assert(corr(stack.drop_last(), m.done, m.frames.drop_last(),
                    m.root_known));
                assert(stack.drop_last().len() == 0);
                assert(m.frames.drop_last().len() == 0 && m.root_known == 0);
            } else {
                if m.frames.len() == 1 && m.frames.last().known == 0 && m.root_known
                    == 0 {
                    assert(corr(stack, m.done, m.frames, m.root_known));
                    assert(stack.last() == Routine::Resolving {
                        cursor: top_off(m.done, m.frames) as usize,
                        seq_size: m.frames.last().count as usize,
                    });
                    assert(corr(stack.drop_last(), m.done, m.frames.drop_last(),
                        m.root_known));
                    assert(stack.drop_last().len() == 0);
                    assert(pending && single);
                }
            }
        }
        single && pending
    }

    /// Writes bytes at the cursor: over the buffer while it lasts, growing it
    /// past the end. Touches no ghost state.
    fn splice_raw(&mut self, data: &[u8])
        requires
            old(self).cursor <= old(self).buffer@.len(),
        ensures
            final(self).cursor == old(self).cursor + data@.len(),
            final(self).cursor <= final(self).buffer@.len(),
            final(self).buffer@ == old(self).buffer@.take(old(self).cursor as int) + data@
                + (if old(self).cursor + data@.len() <= old(self).buffer@.len() {
                    old(self).buffer@.skip((old(self).cursor + data@.len()) as int)
                } else {
                    Seq::<u8>::empty()
                }),
            final(self).current_routine == old(self).current_routine,
            final(self).parent_routines == old(self).parent_routines,
            final(self).abs == old(self).abs,
    {
        let ghost buf0 = self.buffer@;
        let ghost c0 = self.cursor as int;
        let mut j: usize = 0;
        while j < data.len()
            invariant
                j <= data@.len(),
                c0 <= buf0.len(),
                self.cursor as int == c0 + j,
                self.cursor <= self.buffer@.len(),
                self.buffer@.len() == (if c0 + j <= buf0.len() {
                    buf0.len() as int
                } else {
                    c0 + j
                }),
                self.buffer@ == buf0.take(c0) + data@.take(j as int) + (if c0 + j
                    <= buf0.len() {
                    buf0.skip(c0 + j)
                } else {
                    Seq::<u8>::empty()
                }),
                self.current_routine == old(self).current_routine,
                self.parent_routines == old(self).parent_routines,
                self.abs == old(self).abs,
            decreases data@.len() - j,
        {
            let b = data[j];
            if self.cursor < self.buffer.len() {
                let c = self.cursor;
                self.buffer[c] = b;
                self.cursor = c + 1;
                proof {
                    assert(self.buffer@ =~= buf0.take(c0) + data@.take(j + 1) + (if c0 + j
                        + 1 <= buf0.len() {
                        buf0.skip(c0 + j + 1)
                    } else {
                        Seq::<u8>::empty()
                    }));
                }
            } else {
                self.buffer.push(b);
                self.cursor = self.buffer.len();
                proof {
                    assert(self.buffer@ =~= buf0.take(c0) + data@.take(j + 1)
                        + Seq::<u8>::empty());
                }
            }
            j = j + 1;
        }
                proof {
            assert(data@.take(data@.len() as int) =~= data@);
        }
    }
}

impl SerializationSink for BufferSink {
    closed spec fn model(&self) -> SinkModel {
        self.abs@
    }

    closed spec fn inv(&self) -> bool {
        let m = self.abs@;
        &&& corr_top(self.parent_routines@.push(self.current_routine), m)
        &&& self.cursor as int == m.done.len() + frames_flat(m.frames).len()
        &&& self.buffer@ == m.done + frames_flat(m.frames) + m.residual
    }

    closed spec fn infallible(&self) -> bool {
        true
    }

    fn send_raw_data(&mut self, data: &[u8]) -> (r: Result<(), Error>) {
        let ghost m0 = self.abs@;
        let ghost stack = self.parent_routines@.push(self.current_routine);
        self.splice_raw(data);
        proof {
            let m1 = m0.after_raw(data@);
            self.abs@ = m1;
            vstd::std_specs::vec::axiom_spec_len(&self.buffer);
            assert(self.buffer@.len() <= usize::MAX);
            if m0.frames.len() == 0 {
                assert(self.buffer@ =~= m1.done + frames_flat(m1.frames) + m1.residual);
                if m0.root_known > 0 {
                    assert(corr(stack, m1.done, m1.frames, m1.root_known));
                }
            } else {
                let last = m0.frames.len() - 1;
                lemma_flat_snoc(m0.frames);
                lemma_flat_snoc(m1.frames);
                assert(m1.frames.drop_last() =~~= m0.frames.drop_last());
                assert(frames_flat(m1.frames) =~= frames_flat(m0.frames) + data@);
                assert(self.buffer@ =~= m1.done + frames_flat(m1.frames) + m1.residual);
                let f0 = m0.frames[last];
                let f1 = m1.frames[last];
                if f0.known > 0 {
                    let peeled0 = m0.frames.update(last, FrameModel { known: 0, ..f0 });
                    let peeled1 = m1.frames.update(last, FrameModel { known: 0, ..f1 });
                    assert(corr(stack.drop_last(), m0.done, peeled0, m0.root_known));
                    assert(peeled1.drop_last() =~~= peeled0.drop_last());
                    assert(self.cursor as int == m1.done.len() + frames_flat(
                        m1.frames,
                    ).len());
                    assert(peeled1.drop_last() =~~= m1.frames.drop_last());
                    lemma_flat_snoc(peeled1);
                    lemma_flat_snoc(m1.frames);
                    assert(self.cursor as int == top_off(m1.done, peeled1) + 8
                        + f1.bytes.len());
                    assert(corr(
                        stack.drop_last().drop_last(),
                        m0.done,
                        peeled0.drop_last(),
                        m0.root_known,
                    ));
                    assert(peeled1.drop_last() =~~= peeled0.drop_last());
                    assert(corr(
                        stack.drop_last().drop_last(),
                        m1.done,
                        peeled1.drop_last(),
                        m1.root_known,
                    ));
                    assert(corr(stack.drop_last(), m1.done, peeled1, m1.root_known));
                    assert(corr(stack, m1.done, m1.frames, m1.root_known));
                } else {
                    assert(top_off(m1.done, m1.frames) == top_off(m0.done, m0.frames));
                    assert(self.cursor as int == m1.done.len() + frames_flat(
                        m1.frames,
                    ).len());
                    assert(self.cursor as int == top_off(m1.done, m1.frames) + 8
                        + f1.bytes.len()) by {
                        lemma_flat_snoc(m1.frames);
                    }
                    assert(corr(
                        stack.drop_last(),
                        m0.done,
                        m0.frames.drop_last(),
                        m0.root_known,
                    ));
                    assert(corr(
                        stack.drop_last(),
                        m1.done,
                        m1.frames.drop_last(),
                        m1.root_known,
                    ));
                    assert(corr(stack, m1.done, m1.frames, m1.root_known));
                }
            }
        }
        Ok(())
    }

    fn start_var_sized(&mut self, size: Option<usize>) -> (r: Result<(), Error>) {
        let ghost m0 = self.abs@;
        match size {
            Option::Some(n) => {
                let prefix = vstd::bytes::u64_to_le_bytes(n as u64);
                let sent = self.send_raw_data(prefix.as_slice());
                proof {
                    vstd::bytes::lemma_auto_spec_u64_to_from_le_bytes();
                }
                let ghost m1 = self.abs@;
                let ghost stack = self.parent_routines@.push(self.current_routine);
                match self.current_routine {
                    Routine::Resolved { seqs } => {
                        proof {
                            if m1.frames.len() == 0 {
                                assert(seqs == m1.root_known);
                                assert(8 * m1.root_known <= m0.done.len());
                                assert(m1.done.len() == m0.done.len() + 8);
                            } else {
                                let last = m1.frames.len() - 1;
                                let f1 = m1.frames[last];
                                assert(f1.known > 0 && seqs == f1.known);
                                assert(8 * m0.frames[last].known
                                    <= m0.frames[last].bytes.len());
                                assert(f1.bytes.len() == m0.frames[last].bytes.len() + 8);
                                lemma_flat_snoc(m1.frames);
                                assert(f1.bytes.len() <= self.buffer@.len());
                            }
                            assert(seqs < usize::MAX);
                        }
                        self.current_routine = Routine::Resolved { seqs: seqs + 1 };
                    },
                    Routine::Resolving { .. } => {
                        self.parent_routines.push(self.current_routine);
                        self.current_routine = Routine::Resolved { seqs: 1 };
                    },
                }
                proof {
                    let m2 = m0.after_start(size);
                    self.abs@ = m2;
                    assert(m2.done =~= m1.done);
                    assert(m2.residual =~= m1.residual);
                    let stack2 = self.parent_routines@.push(self.current_routine);
                    if m1.frames.len() == 0 {
                        assert(m2.frames =~~= m1.frames);
                        assert(stack2 =~= seq![
                            Routine::Resolved { seqs: m2.root_known as usize },
                        ]);
                        assert(corr(stack2, m2.done, m2.frames, m2.root_known));
                    } else {
                        let last = m1.frames.len() - 1;
                        let f1 = m1.frames[last];
                        let f2 = m2.frames[last];
                        assert(f2 == FrameModel { known: f1.known + 1, ..f1 });
                        assert(stack2.drop_last() =~= (if f1.known > 0 {
                            stack.drop_last()
                        } else {
                            stack
                        }));
                        let peeled2 = m2.frames.update(last, FrameModel { known: 0, ..f2 });
                        if f1.known > 0 {
                            let peeled1 = m1.frames.update(
                                last,
                                FrameModel { known: 0, ..f1 },
                            );
                            assert(corr(
                                stack.drop_last(),
                                m1.done,
                                peeled1,
                                m1.root_known,
                            ));
                            assert(peeled2 =~~= peeled1);
                        } else {
                            assert(peeled2 =~~= m1.frames);
                        }
                        assert(corr(stack2.drop_last(), m2.done, peeled2, m2.root_known));
                        assert(8 * f2.known <= f2.bytes.len());
                        assert(corr(stack2, m2.done, m2.frames, m2.root_known));
                        assert(frames_flat(m2.frames) == frames_flat(m1.frames)) by {
                            lemma_flat_snoc(m1.frames);
                            lemma_flat_snoc(m2.frames);
                            assert(m2.frames.drop_last() =~~= m1.frames.drop_last());
                        }
                    }
                }
                Ok(())
            },
            Option::None => {
                let off = self.cursor;
                let zeros = vstd::bytes::u64_to_le_bytes(0);
                self.splice_raw(zeros.as_slice());
                proof {
                    vstd::bytes::lemma_auto_spec_u64_to_from_le_bytes();
                }
                match self.current_routine {
                    Routine::Resolved { seqs: 0 } => {},
                    _ => {
                        self.parent_routines.push(self.current_routine);
                    },
                }
                self.current_routine = Routine::Resolving { cursor: off, seq_size: 0 };
                proof {
                    let ghost stack = old(self).parent_routines@.push(
                        old(self).current_routine,
                    );
                    let m2 = m0.after_start(size);
                    self.abs@ = m2;
                    let stack2 = self.parent_routines@.push(self.current_routine);
                    let last = m2.frames.len() - 1;
                    assert(m2.frames.last() == FrameModel {
                        count: 0,
                        known: 0,
                        bytes: Seq::<u8>::empty(),
                    });
                    assert(m2.frames.drop_last() =~~= m0.frames);
                    assert(frames_flat(m2.frames) =~= frames_flat(m0.frames) + le64(0u64))
                        by {
                        lemma_flat_snoc(m2.frames);
                    }
                    assert(top_off(m2.done, m2.frames) == off as int);
                    assert(self.cursor as int == m2.done.len() + frames_flat(
                        m2.frames,
                    ).len());
                    assert(self.buffer@ =~= m2.done + frames_flat(m2.frames)
                        + m2.residual);
                    if m0.frames.len() == 0 && m0.root_known == 0 {
                        assert(stack =~= seq![Routine::Resolved { seqs: 0usize }]);
                        assert(stack.last() == old(self).current_routine);
                        assert(old(self).current_routine == Routine::Resolved {
                            seqs: 0usize,
                        });
                        assert(old(self).parent_routines@.len() == 0);
                        assert(stack2 =~= seq![self.current_routine]);
                        assert(stack2.drop_last() =~= Seq::<Routine>::empty());
                        assert(corr(stack2.drop_last(), m2.done, m2.frames.drop_last(),
                            m2.root_known));
                    } else {
                        assert(stack.last() == old(self).current_routine);
                        if m0.frames.len() == 0 {
                            assert(old(self).current_routine == Routine::Resolved {
                                seqs: m0.root_known as usize,
                            });
                        }
                        assert(stack2.drop_last() =~= stack);
                        assert(corr(stack2.drop_last(), m2.done, m2.frames.drop_last(),
                            m2.root_known));
                    }
                    assert(corr(stack2, m2.done, m2.frames, m2.root_known));
                }
                Ok(())
            },
        }
    }

    fn advance_var_sized(&mut self) -> (r: Result<(), Error>) {
        let ghost m0 = self.abs@;
        let ghost stack = self.parent_routines@.push(self.current_routine);
        match self.current_routine {
            Routine::Resolving { cursor, seq_size } => {
                proof {
                    let last = m0.frames.len() - 1;
                    assert(m0.frames.last().known == 0);
                    assert(seq_size == m0.frames.last().count);
                    assert(m0.frames.last().count < usize::MAX);
                }
                self.current_routine = Routine::Resolving { cursor, seq_size: seq_size + 1 };
                proof {
                    let m1 = m0.after_advance();
                    self.abs@ = m1;
                    let last = m0.frames.len() - 1;
                    let stack1 = self.parent_routines@.push(self.current_routine);
                    assert(m1.frames.drop_last() =~~= m0.frames.drop_last());
                    assert(frames_flat(m1.frames) == frames_flat(m0.frames)) by {
                        lemma_flat_snoc(m0.frames);
                        lemma_flat_snoc(m1.frames);
                    }
                    assert(top_off(m1.done, m1.frames) == top_off(m0.done, m0.frames));
                    assert(stack1.drop_last() =~= stack.drop_last());
                    assert(corr(stack1.drop_last(), m1.done, m1.frames.drop_last(),
                        m1.root_known));
                    assert(corr(stack1, m1.done, m1.frames, m1.root_known));
                    assert(self.buffer@ =~= m1.done + frames_flat(m1.frames)
                        + m1.residual);
                }
            },
            Routine::Resolved { .. } => {
                proof {
                    let m1 = m0.after_advance();
                    assert(m1 =~~= m0);
                }
            },
        }
        Ok(())
    }

    #[verifier::rlimit(60)]
    fn end_var_sized(&mut self) -> (r: Result<(), Error>) {
        let ghost m0 = self.abs@;
        let ghost stack = self.parent_routines@.push(self.current_routine);
        match self.current_routine {
            Routine::Resolved { seqs } => {
                if seqs == 0 {
                    proof {
                        let m1 = m0.after_end();
                        assert(m0.frames.len() == 0 && m0.root_known == 0);
                        assert(m1 =~~= m0);
                    }
                } else if seqs == 1 {
                    match self.parent_routines.pop() {
                        Option::Some(routine) => {
                            self.current_routine = routine;
                        },
                        Option::None => {
                            self.current_routine = Routine::Resolved { seqs: 0 };
                        },
                    }
                    proof {
                        let m1 = m0.after_end();
                        self.abs@ = m1;
                        let stack1 = self.parent_routines@.push(self.current_routine);
                        if m0.frames.len() == 0 {
                            assert(m0.root_known == 1);
                            assert(stack =~= seq![Routine::Resolved { seqs: 1usize }]);
                            assert(stack1 =~= seq![Routine::Resolved { seqs: 0usize }]);
                            assert(m1.frames =~~= m0.frames);
                            assert(corr_top(stack1, m1));
                        } else {
                            let last = m0.frames.len() - 1;
                            let f0 = m0.frames[last];
                            assert(f0.known == 1);
                            let peeled0 = m0.frames.update(
                                last,
                                FrameModel { known: 0, ..f0 },
                            );
                            assert(corr(stack.drop_last(), m0.done, peeled0,
                                m0.root_known));
                            assert(stack.drop_last().len() >= 1);
                            assert(stack1 =~= stack.drop_last());
                            assert(m1.frames =~~= peeled0);
                            assert(corr(stack1, m1.done, m1.frames, m1.root_known));
                            assert(frames_flat(m1.frames) == frames_flat(m0.frames)) by {
                                lemma_flat_snoc(m0.frames);
                                lemma_flat_snoc(m1.frames);
                                assert(m1.frames.drop_last() =~~= m0.frames.drop_last());
                            }
                            assert(self.buffer@ =~= m1.done + frames_flat(m1.frames)
                                + m1.residual);
                        }
                    }
                } else {
                    self.current_routine = Routine::Resolved { seqs: seqs - 1 };
                    proof {
                        let m1 = m0.after_end();
                        self.abs@ = m1;
                        let stack1 = self.parent_routines@.push(self.current_routine);
                        if m0.frames.len() == 0 {
                            assert(seqs == m0.root_known);
                            assert(m1.frames =~~= m0.frames);
                            assert(stack1 =~= seq![
                                Routine::Resolved { seqs: (seqs - 1) as usize },
                            ]);
                            assert(corr_top(stack1, m1));
                        } else {
                            let last = m0.frames.len() - 1;
                            let f0 = m0.frames[last];
                            assert(seqs == f0.known);
                            let f1 = m1.frames[last];
                            assert(f1 == FrameModel { known: (f0.known - 1) as nat, ..f0 });
                            let peeled0 = m0.frames.update(
                                last,
                                FrameModel { known: 0, ..f0 },
                            );
                            let peeled1 = m1.frames.update(
                                last,
                                FrameModel { known: 0, ..f1 },
                            );
                            assert(peeled1 =~~= peeled0);
                            assert(stack1.drop_last() =~= stack.drop_last());
                            assert(corr(stack1.drop_last(), m1.done, peeled1,
                                m1.root_known));
                            assert(corr(stack1, m1.done, m1.frames, m1.root_known));
                            assert(frames_flat(m1.frames) == frames_flat(m0.frames)) by {
                                lemma_flat_snoc(m0.frames);
                                lemma_flat_snoc(m1.frames);
                                assert(m1.frames.drop_last() =~~= m0.frames.drop_last());
                            }
                            assert(self.buffer@ =~= m1.done + frames_flat(m1.frames)
                                + m1.residual);
                        }
                    }
                }
            },
            Routine::Resolving { cursor: off, seq_size } => {
                proof {
                    let last = m0.frames.len() - 1;
                    let f0 = m0.frames[last];
                    assert(corr_top(stack, m0));
                    assert(stack.last() == self.current_routine);
                    assert(self.current_routine == Routine::Resolving {
                        cursor: off,
                        seq_size,
                    });
                    assert(m0.frames.len() > 0);
                    assert(f0.known == 0);
                    assert(off as int == top_off(m0.done, m0.frames));
                    assert(seq_size == f0.count);
                    lemma_flat_snoc(m0.frames);
                    assert(self.cursor as int == off + 8 + f0.bytes.len());
                    assert(corr(stack.drop_last(), m0.done, m0.frames.drop_last(),
                        m0.root_known));
                    assert(stack.drop_last() == self.parent_routines@);
                }
                match self.parent_routines.pop() {
                    Option::Some(routine) => {
                        self.current_routine = routine;
                    },
                    Option::None => {
                        self.current_routine = Routine::Resolved { seqs: 0 };
                    },
                }
                let prev = self.cursor;
                self.cursor = off;
                let patch = vstd::bytes::u64_to_le_bytes(seq_size as u64);
                self.splice_raw(patch.as_slice());
                self.cursor = prev;
                proof {
                    vstd::bytes::lemma_auto_spec_u64_to_from_le_bytes();
                    let last = m0.frames.len() - 1;
                    let f0 = m0.frames[last];
                    let m1 = m0.after_end();
                    self.abs@ = m1;
                    let stack1 = self.parent_routines@.push(self.current_routine);
                    let rest = m0.frames.drop_last();
                    let body = len_prefix(f0.count) + f0.bytes;
                    // The patched buffer: settled prefix, the settled length
                    // over the old slot, the frame's bytes, then the rest.
                    let buf0 = m0.done + frames_flat(m0.frames) + m0.residual;
                    assert(buf0.take(off as int) =~= m0.done + frames_flat(rest));
                    assert(buf0.skip(off as int + 8) =~= f0.bytes + m0.residual);
                    assert(patch@ == le64(f0.count as u64));
                    assert(len_prefix(f0.count) == le64(f0.count as u64));
                    assert(self.buffer@ =~= m0.done + frames_flat(rest) + body
                        + m0.residual);
                    assert(m1.residual == m0.residual);
                    if rest.len() == 0 {
                        assert(m1.done =~= m0.done + body);
                        assert(m1.frames =~~= rest);
                        assert(self.buffer@ =~= m1.done + frames_flat(m1.frames)
                            + m1.residual);
                        assert(self.cursor as int == m1.done.len() + frames_flat(
                            m1.frames,
                        ).len());
                        if m0.root_known == 0 {
                            assert(corr(stack.drop_last(), m0.done, rest, m0.root_known));
                            assert(stack.drop_last().len() == 0);
                            assert(stack1 =~= seq![Routine::Resolved { seqs: 0usize }]);
                            assert(corr_top(stack1, m1));
                        } else {
                            assert(corr(stack.drop_last(), m0.done, rest, m0.root_known));
                            assert(stack1 =~= stack.drop_last());
                            assert(8 * m1.root_known <= m1.done.len());
                            assert(corr(stack1, m1.done, m1.frames, m1.root_known));
                        }
                    } else {
                        let plast = rest.len() - 1;
                        let p0 = rest[plast];
                        let p1 = m1.frames[plast];
                        assert(m1.done == m0.done);
                        assert(m1.frames =~~= rest.update(
                            plast,
                            FrameModel { bytes: p0.bytes + body, ..p0 },
                        ));
                        assert(frames_flat(m1.frames) =~= frames_flat(rest) + body) by {
                            lemma_flat_snoc(rest);
                            lemma_flat_snoc(m1.frames);
                            assert(m1.frames.drop_last() =~~= rest.drop_last());
                        }
                        assert(self.buffer@ =~= m1.done + frames_flat(m1.frames)
                            + m1.residual);
                        assert(self.cursor as int == m1.done.len() + frames_flat(
                            m1.frames,
                        ).len());
                        assert(corr(stack.drop_last(), m0.done, rest, m0.root_known));
                        assert(stack.drop_last().len() >= 1);
                        assert(stack1 =~= stack.drop_last());
                        assert(corr(stack1, m0.done, rest, m0.root_known));
                        assert(corr(stack1, m1.done, m1.frames, m1.root_known)) by {
                            lemma_corr_grow_top(stack1, m0.done, rest, m0.root_known,
                                body, self.cursor as int);
                        }
                    }
                }
            },
        }
        Ok(())
    }
}

/// The streaming sink: bytes flow straight onto the outbound cross-thread
/// queue until a container of unknown length begins. From then on they
/// gather in an internal buffer sink; when the outermost such container
/// ends, its settled length and the gathered bytes flush to the queue in
/// order, and the sink returns to pass-through.
pub struct ChannelSink {
    sender: tokio::sync::mpsc::Sender<u8>,
    fallback_buffer: BufferSink,
    buffering: bool,
    sent: Ghost<Seq<u8>>,
    pending_known: Ghost<nat>,
}

impl ChannelSink {
    /// Every byte handed to the queue so far, in order.
    pub closed spec fn sent_bytes(&self) -> Seq<u8> {
        self.sent@
    }

    /// A streaming sink over the sending half of a byte queue.
    pub fn new(sender: tokio::sync::mpsc::Sender<u8>) -> (r: ChannelSink)
        ensures
            r.inv(),
            r.model() == SinkModel::fresh(Seq::<u8>::empty()),
            !r.infallible(),
            r.sent_bytes() == Seq::<u8>::empty(),
    {
        let r = ChannelSink {
            sender,
            fallback_buffer: BufferSink::new(),
            buffering: false,
            sent: Ghost(Seq::empty()),
            pending_known: Ghost(0nat),
        };
        proof {
            assert(r.model() =~~= SinkModel::fresh(Seq::<u8>::empty()));
        }
        r
    }

    /// Sends bytes one by one onto the queue.
    fn stream_bytes(&mut self, data: &[u8]) -> (r: Result<(), Error>)
        requires
            old(self).inv(),
            !old(self).buffering,
        ensures
            final(self).inv(),
            !final(self).buffering,
            final(self).fallback_buffer == old(self).fallback_buffer,
            final(self).pending_known == old(self).pending_known,
            r is Ok ==> final(self).sent@ == old(self).sent@ + data@,
            r is Err ==> r->Err_0 is Disconnected,
    {
        let mut j: usize = 0;
        while j < data.len()
            invariant
                j <= data@.len(),
                self.inv(),
                !self.buffering,
                self.fallback_buffer == old(self).fallback_buffer,
                self.pending_known == old(self).pending_known,
                self.sender == old(self).sender,
                self.sent@ == old(self).sent@ + data@.take(j as int),
            decreases data@.len() - j,
        {
            match crate::chan::send_byte(&self.sender, data[j]) {
                Ok(()) => {},
                Err(_) => {
                    return Err(Error::Disconnected);
                },
            }
            proof {
                self.sent@ = self.sent@.push(data@[j as int]);
                assert(self.sent@ =~= old(self).sent@ + data@.take(j + 1));
            }
            j = j + 1;
        }
        proof {
            assert(data@.take(data@.len() as int) =~= data@);
        }
        Ok(())
    }
}

impl SerializationSink for ChannelSink {
    closed spec fn model(&self) -> SinkModel {
        SinkModel {
            done: self.sent@,
            root_known: self.pending_known@,
            frames: if self.buffering {
                self.fallback_buffer.model().frames
            } else {
                Seq::empty()
            },
            residual: Seq::empty(),
        }
    }

    closed spec fn inv(&self) -> bool {
        &&& self.fallback_buffer.inv()
        &&& if self.buffering {
            &&& self.fallback_buffer.model().frames.len() >= 1
            &&& self.fallback_buffer.model().done == Seq::<u8>::empty()
            &&& self.fallback_buffer.model().root_known == 0
            &&& self.fallback_buffer.model().residual == Seq::<u8>::empty()
        } else {
            self.fallback_buffer.model() == SinkModel::fresh(Seq::<u8>::empty())
        }
    }

    closed spec fn infallible(&self) -> bool {
        false
    }

    fn send_raw_data(&mut self, data: &[u8]) -> (r: Result<(), Error>)
        ensures
            old(self).model().frames.len() > 0 ==> r is Ok,
    {
        let ghost m0 = self.model();
        if self.buffering {
            let r = self.fallback_buffer.send_raw_data(data);
            proof {
                assert(chop(Seq::<u8>::empty(), data@.len()) =~= Seq::<u8>::empty());
                assert(self.model() =~~= m0.after_raw(data@));
            }
            r
        } else {
            let r = self.stream_bytes(data);
            proof {
                if r is Ok {
                    assert(chop(Seq::<u8>::empty(), data@.len()) =~= Seq::<u8>::empty());
                    assert(self.model() =~~= m0.after_raw(data@));
                }
            }
            r
        }
    }

    fn start_var_sized(&mut self, size: Option<usize>) -> (r: Result<(), Error>)
        ensures
            size is None || old(self).model().frames.len() > 0 ==> r is Ok,
    {
        let ghost m0 = self.model();
        match size {
            Option::Some(n) => {
                if self.buffering {
                    let r = self.fallback_buffer.start_var_sized(size);
                    proof {
                        assert(chop(Seq::<u8>::empty(), 8) =~= Seq::<u8>::empty());
                        assert(self.model() =~~= m0.after_start(size));
                    }
                    r
                } else {
                    let prefix = vstd::bytes::u64_to_le_bytes(n as u64);
                    let r = self.stream_bytes(prefix.as_slice());
                    match r {
                        Ok(()) => {},
                        Err(e) => {
                            return Err(e);
                        },
                    }
                    proof {
                        self.pending_known@ = self.pending_known@ + 1;
                        assert(chop(Seq::<u8>::empty(), 8) =~= Seq::<u8>::empty());
                        assert(self.model() =~~= m0.after_start(size));
                    }
                    Ok(())
                }
            },
            Option::None => {
                let r = self.fallback_buffer.start_var_sized(size);
                match r {
                    Ok(()) => {},
                    Err(e) => {
                        return Err(e);
                    },
                }
                self.buffering = true;
                proof {
                    assert(chop(Seq::<u8>::empty(), 8) =~= Seq::<u8>::empty());
                    assert(self.model().frames =~~= m0.after_start(size).frames);
                    assert(self.model() =~~= m0.after_start(size));
                }
                Ok(())
            },
        }
    }

    fn advance_var_sized(&mut self) -> (r: Result<(), Error>)
        ensures
            r is Ok,
    {
        let ghost m0 = self.model();
        if self.buffering {
            proof {
                assert(self.fallback_buffer.model().can_advance());
            }
            let r = self.fallback_buffer.advance_var_sized();
            proof {
                assert(self.model() =~~= m0.after_advance());
            }
            r
        } else {
            proof {
                assert(self.model() =~~= m0.after_advance());
            }
            Ok(())
        }
    }

    fn end_var_sized(&mut self) -> (r: Result<(), Error>)
        ensures
            old(self).model().frames.len() != 1 || old(self).model().frames.last().known
                != 0 ==> r is Ok,
    {
        let ghost m0 = self.model();
        if !self.buffering {
            proof {
                let rk = self.pending_known@;
                self.pending_known@ = if rk > 0 {
                    (rk - 1) as nat
                } else {
                    0
                };
                assert(self.model() =~~= m0.after_end());
            }
            Ok(())
        } else if self.fallback_buffer.at_single_pending() {
            let ghost f = self.fallback_buffer.model().frames.last();
            let r1 = self.fallback_buffer.end_var_sized();
            match r1 {
                Ok(()) => {},
                Err(e) => {
                    return Err(e);
                },
            }
            proof {
                self.fallback_buffer.lemma_contents();
                assert(self.fallback_buffer.model().done =~= len_prefix(f.count)
                    + f.bytes);
                assert(self.fallback_buffer.contents() =~= len_prefix(f.count) + f.bytes);
            }
            let chunk = vstd::slice::slice_to_vec(self.fallback_buffer.as_slice());
            self.fallback_buffer.clear();
            self.buffering = false;
            let r2 = self.stream_bytes(chunk.as_slice());
            match r2 {
                Ok(()) => {},
                Err(e) => {
                    return Err(e);
                },
            }
            proof {
                assert(m0.frames.len() == 1 && m0.frames.last().known == 0);
                assert(m0.frames.drop_last() =~~= Seq::<FrameModel>::empty());
                assert(m0.after_end() =~~= SinkModel {
                    done: m0.done + (len_prefix(f.count) + f.bytes),
                    root_known: m0.root_known,
                    frames: Seq::empty(),
                    residual: Seq::empty(),
                });
                assert(self.model() =~~= m0.after_end());
            }
            Ok(())
        } else {
            let ghost fm0 = self.fallback_buffer.model();
            let r = self.fallback_buffer.end_var_sized();
            proof {
                let fm1 = self.fallback_buffer.model();
                if fm0.frames.last().known > 0 {
                    assert(fm1.frames.len() >= 1);
                    assert(fm1.done =~= Seq::<u8>::empty());
                } else {
                    assert(fm0.frames.len() >= 2);
                    assert(fm1.frames.len() == fm0.frames.len() - 1);
                    assert(fm1.done =~= Seq::<u8>::empty());
                }
                assert(self.model() =~~= m0.after_end());
            }
            r
        }
    }
}

/// Drives a serialization sink from values: every visitor event of the
/// format becomes one or more sink operations.
pub struct Serializer<S> {
    sink: S,
}

impl<S: SerializationSink> Serializer<S> {
    /// The abstract state of the underlying sink.
    pub closed spec fn model(&self) -> SinkModel {
        self.sink.model()
    }

    /// The underlying sink's well-formedness.
    pub closed spec fn inv(&self) -> bool {
        self.sink.inv()
    }

    /// Whether the underlying sink always succeeds.
    pub closed spec fn infallible(&self) -> bool {
        self.sink.infallible()
    }

    /// A serializer over the given sink.
    pub fn new(sink: S) -> (r: Serializer<S>)
        ensures
            r.model() == sink.model(),
            r.inv() == sink.inv(),
            r.infallible() == sink.infallible(),
    {
        Serializer { sink }
    }

    /// Gives the sink back, consuming the serializer.
    pub fn into_sink(self) -> (r: S)
        ensures
            r.model() == self.model(),
            r.inv() == self.inv(),
    {
        self.sink
    }

    /// Writes one byte.
    pub fn send_u8(&mut self, value: u8) -> (r: Result<(), Error>)
        requires
            old(self).inv(),
        ensures
            final(self).inv(),
            final(self).infallible() == old(self).infallible(),
            r is Ok ==> final(self).model() == old(self).model().after_raw(seq![value]),
            old(self).infallible() ==> r is Ok,
            r is Err ==> r->Err_0 is Disconnected,
    {
        let mut data: Vec<u8> = Vec::new();
        data.push(value);
        proof {
            assert(data@ =~= seq![value]);
        }
        self.sink.send_raw_data(data.as_slice())
    }

    /// Writes a boolean as one byte, one for true.
    pub fn send_bool(&mut self, value: bool) -> (r: Result<(), Error>)
        requires
            old(self).inv(),
        ensures
            final(self).inv(),
            final(self).infallible() == old(self).infallible(),
            r is Ok ==> final(self).model() == old(self).model().after_raw(
                seq![if value { 1u8 } else { 0u8 }],
            ),
            old(self).infallible() ==> r is Ok,
            r is Err ==> r->Err_0 is Disconnected,
    {
        self.send_u8(if value { 1 } else { 0 })
    }

    /// Writes a 16-bit unsigned integer, little-endian.
    pub fn send_u16(&mut self, value: u16) -> (r: Result<(), Error>)
        requires
            old(self).inv(),
        ensures
            final(self).inv(),
            final(self).infallible() == old(self).infallible(),
            r is Ok ==> final(self).model() == old(self).model().after_raw(
                crate::wire::le16(value),
            ),
            old(self).infallible() ==> r is Ok,
            r is Err ==> r->Err_0 is Disconnected,
    {
        let data = vstd::bytes::u16_to_le_bytes(value);
        self.sink.send_raw_data(data.as_slice())
    }

    /// Writes a 32-bit unsigned integer, little-endian.
    pub fn send_u32(&mut self, value: u32) -> (r: Result<(), Error>)
        requires
            old(self).inv(),
        ensures
            final(self).inv(),
            final(self).infallible() == old(self).infallible(),
            r is Ok ==> final(self).model() == old(self).model().after_raw(
                crate::wire::le32(value),
            ),
            old(self).infallible() ==> r is Ok,
            r is Err ==> r->Err_0 is Disconnected,
    {
        let data = vstd::bytes::u32_to_le_bytes(value);
        self.sink.send_raw_data(data.as_slice())
    }

    /// Writes a 64-bit unsigned integer, little-endian.
    pub fn send_u64(&mut self, value: u64) -> (r: Result<(), Error>)
        requires
            old(self).inv(),
        ensures
            final(self).inv(),
            final(self).infallible() == old(self).infallible(),
            r is Ok ==> final(self).model() == old(self).model().after_raw(le64(value)),
            old(self).infallible() ==> r is Ok,
            r is Err ==> r->Err_0 is Disconnected,
    {
        let data = vstd::bytes::u64_to_le_bytes(value);
        self.sink.send_raw_data(data.as_slice())
    }

    /// Writes a 128-bit unsigned integer, little-endian.
    pub fn send_u128(&mut self, value: u128) -> (r: Result<(), Error>)
        requires
            old(self).inv(),
        ensures
            final(self).inv(),
            final(self).infallible() == old(self).infallible(),
            r is Ok ==> final(self).model() == old(self).model().after_raw(
                crate::wire::le128(value),
            ),
            old(self).infallible() ==> r is Ok,
            r is Err ==> r->Err_0 is Disconnected,
    {
        let data = vstd::bytes::u128_to_le_bytes(value);
        self.sink.send_raw_data(data.as_slice())
    }

    /// Writes a platform-sized count widened to 64 bits, little-endian.
    pub fn send_usize(&mut self, value: usize) -> (r: Result<(), Error>)
        requires
            old(self).inv(),
        ensures
            final(self).inv(),
            final(self).infallible() == old(self).infallible(),
            r is Ok ==> final(self).model() == old(self).model().after_raw(
                len_prefix(value as nat),
            ),
            old(self).infallible() ==> r is Ok,
            r is Err ==> r->Err_0 is Disconnected,
    {
        self.send_u64(value as u64)
    }

    /// Writes a platform-sized signed integer widened to 64 bits,
    /// little-endian.
    pub fn send_isize(&mut self, value: isize) -> (r: Result<(), Error>)
        requires
            old(self).inv(),
        ensures
            final(self).inv(),
            final(self).infallible() == old(self).infallible(),
            r is Ok ==> final(self).model() == old(self).model().after_raw(
                le64(crate::wire::bits_of_i64(value as i64)),
            ),
            old(self).infallible() ==> r is Ok,
            r is Err ==> r->Err_0 is Disconnected,
    {
        self.send_u64(crate::wire::i64_bits(value as i64))
    }

    /// Writes a Unicode scalar value as 32 bits, little-endian.
    pub fn send_char(&mut self, value: char) -> (r: Result<(), Error>)
        requires
            old(self).inv(),
        ensures
            final(self).inv(),
            final(self).infallible() == old(self).infallible(),
            r is Ok ==> final(self).model() == old(self).model().after_raw(
                crate::wire::le32(value as u32),
            ),
            old(self).infallible() ==> r is Ok,
            r is Err ==> r->Err_0 is Disconnected,
    {
        self.send_u32(value as u32)
    }

    /// Writes a byte string: its 64-bit length, then its bytes.
    pub fn send_bytes(&mut self, value: &[u8]) -> (r: Result<(), Error>)
        requires
            old(self).inv(),
        ensures
            final(self).inv(),
            final(self).infallible() == old(self).infallible(),
            r is Ok ==> final(self).model() == old(self).model().after_raw(
                len_prefix(value@.len()) + value@,
            ),
            old(self).infallible() ==> r is Ok,
            r is Err ==> r->Err_0 is Disconnected,
    {
        self.send_usize(value.len())?;
        self.sink.send_raw_data(value)?;
        proof {
            lemma_after_raw_compose(old(self).model(), len_prefix(value@.len()), value@);
        }
        Ok(())
    }

    /// Writes a text string: the 64-bit length of its UTF-8 form, then that
    /// form's bytes.
    pub fn send_str(&mut self, value: &str) -> (r: Result<(), Error>)
        requires
            old(self).inv(),
        ensures
            final(self).inv(),
            final(self).infallible() == old(self).infallible(),
            r is Ok ==> final(self).model() == old(self).model().after_raw(
                len_prefix(vstd::utf8::encode_utf8(value@).len())
                    + vstd::utf8::encode_utf8(value@),
            ),
            old(self).infallible() ==> r is Ok,
            r is Err ==> r->Err_0 is Disconnected,
    {
        let data = value.as_bytes();
        self.send_bytes(data)
    }

    /// Writes a value in the wire format.
    pub fn encode_value(&mut self, v: &Value) -> (r: Result<(), Error>)
        requires
            old(self).inv(),
        ensures
            final(self).inv(),
            final(self).infallible() == old(self).infallible(),
            r is Ok ==> final(self).model() == old(self).model().after_raw(
                enc(crate::value::vm(*v)),
            ),
            old(self).infallible() ==> r is Ok,
            r is Err ==> r->Err_0 is Disconnected,
        decreases *v, 0nat,
    {
        match v {
            Value::Bool(b) => self.send_bool(*b),
            Value::U8(x) => self.send_u8(*x),
            Value::U16(x) => self.send_u16(*x),
            Value::U32(x) => self.send_u32(*x),
            Value::U64(x) => self.send_u64(*x),
            Value::U128(x) => self.send_u128(*x),
            Value::I8(x) => self.send_u8(crate::wire::i8_bits(*x)),
            Value::I16(x) => self.send_u16(crate::wire::i16_bits(*x)),
            Value::I32(x) => self.send_u32(crate::wire::i32_bits(*x)),
            Value::I64(x) => self.send_u64(crate::wire::i64_bits(*x)),
            Value::I128(x) => self.send_u128(crate::wire::i128_bits(*x)),
            Value::F32Bits(x) => self.send_u32(*x),
            Value::F64Bits(x) => self.send_u64(*x),
            Value::Char(c) => self.send_char(*c),
            Value::Bytes(b) => self.send_bytes(b.as_slice()),
            Value::Text(t) => self.send_str(t.as_str()),
            Value::Optional(o) => match o {
                Option::None => self.send_u8(0),
                Option::Some(inner) => {
                    self.send_u8(1)?;
                    let r = self.encode_value(inner);
                    proof {
                        if r is Ok {
                            lemma_after_raw_compose(
                                old(self).model(),
                                seq![1u8],
                                enc(crate::value::vm(**inner)),
                            );
                        }
                    }
                    r
                },
            },
            Value::Unit => {
                proof {
                    lemma_after_raw_empty(old(self).model());
                }
                Ok(())
            },
            Value::Newtype(inner) => self.encode_value(inner),
            Value::Sequence(elems) => self.encode_sequence(elems, true),
            Value::Tuple(fields) => self.encode_fields(fields),
            Value::Dict(entries) => self.encode_dict(entries, true),
            Value::Variant(tag, fields) => {
                self.send_u32(*tag)?;
                let r = self.encode_fields(fields);
                proof {
                    if r is Ok {
                        lemma_after_raw_compose(
                            old(self).model(),
                            crate::wire::le32(*tag),
                            enc_list(crate::value::view_list(fields@)),
                        );
                    }
                }
                r
            },
        }
    }

    /// Writes a run of fields back to back, with no framing: the body of a
    /// tuple, a struct, or a variant's payload.
    pub fn encode_fields(&mut self, fields: &Vec<Value>) -> (r: Result<(), Error>)
        requires
            old(self).inv(),
        ensures
            final(self).inv(),
            final(self).infallible() == old(self).infallible(),
            r is Ok ==> final(self).model() == old(self).model().after_raw(
                enc_list(crate::value::view_list(fields@)),
            ),
            old(self).infallible() ==> r is Ok,
            r is Err ==> r->Err_0 is Disconnected,
        decreases *fields, 1nat,
    {
        let ghost m0 = self.model();
        let ghost lst = crate::value::view_list(fields@);
        let n = fields.len();
        let mut i: usize = 0;
        while i < n
            invariant
                old(self).inv(),
                self.inv(),
                self.infallible() == old(self).infallible(),
                i <= n,
                n == fields@.len(),
                lst == crate::value::view_list(fields@),
                self.model() == m0.after_raw(enc_list(lst.take(i as int))),
                m0 == old(self).model(),
            decreases n - i,
        {
            proof {
                assert(decreases_to!(*fields => fields@));
                assert(decreases_to!(fields@ => fields@[i as int]));
            }
            let r = self.encode_value(&fields[i]);
            match r {
                Ok(()) => {},
                Err(e) => {
                    return Err(e);
                },
            }
            proof {
                lemma_enc_list_snoc(lst, i as int);
                lemma_after_raw_compose(m0, enc_list(lst.take(i as int)), enc(lst[i as int]));
            }
            i = i + 1;
        }
        proof {
            assert(lst.take(n as int) =~= lst);
        }
        Ok(())
    }

    /// Writes a homogeneous sequence: its 64-bit length, then its elements.
    /// The bytes are the same whether or not the length was announced up
    /// front; an unannounced length is settled when the sequence ends.
    pub fn encode_sequence(&mut self, elems: &Vec<Value>, len_known: bool) -> (r: Result<
        (),
        Error,
    >)
        requires
            old(self).inv(),
        ensures
            final(self).inv(),
            final(self).infallible() == old(self).infallible(),
            r is Ok ==> final(self).model() == old(self).model().after_raw(
                enc(crate::value::ValueModel::Sequence(crate::value::view_list(elems@))),
            ),
            old(self).infallible() ==> r is Ok,
            r is Err ==> r->Err_0 is Disconnected,
        decreases *elems, 1nat,
    {
        let ghost m0 = self.model();
        let ghost lst = crate::value::view_list(elems@);
        let n = elems.len();
        let hint = if len_known {
            Option::Some(n)
        } else {
            Option::<usize>::None
        };
        self.sink.start_var_sized(hint)?;
        proof {
            if len_known {
                lemma_seq_mid_open_known(m0, n);
            } else {
                lemma_seq_mid_open(m0);
            }
        }
        let mut i: usize = 0;
        while i < n
            invariant
                old(self).inv(),
                self.inv(),
                self.infallible() == old(self).infallible(),
                i <= n,
                n == elems@.len(),
                lst == crate::value::view_list(elems@),
                hint == (if len_known {
                    Option::Some(n)
                } else {
                    Option::<usize>::None
                }),
                self.model() == seq_mid(m0, hint, enc_list(lst.take(i as int)), i as nat),
                m0 == old(self).model(),
            decreases n - i,
        {
            proof {
                lemma_seq_mid_step(
                    m0,
                    hint,
                    enc_list(lst.take(i as int)),
                    i as nat,
                    enc(lst[i as int]),
                );
            }
            let ra = self.sink.advance_var_sized();
            match ra {
                Ok(()) => {},
                Err(e) => {
                    return Err(e);
                },
            }
            proof {
                assert(decreases_to!(*elems => elems@));
                assert(decreases_to!(elems@ => elems@[i as int]));
            }
            let r = self.encode_value(&elems[i]);
            match r {
                Ok(()) => {},
                Err(e) => {
                    return Err(e);
                },
            }
            proof {
                lemma_enc_list_snoc(lst, i as int);
            }
            i = i + 1;
        }
        let re = self.sink.end_var_sized();
        match re {
            Ok(()) => {},
            Err(e) => {
                return Err(e);
            },
        }
        proof {
            assert(lst.take(n as int) =~= lst);
            lemma_seq_mid_end(m0, hint, enc_list(lst), n as nat);
        }
        Ok(())
    }

    /// Writes a keyed map: its 64-bit length, then each entry's key and
    /// value in turn. As with sequences, an unannounced length is settled
    /// when the map ends.
    pub fn encode_dict(&mut self, entries: &Vec<MapEntry>, len_known: bool) -> (r: Result<
        (),
        Error,
    >)
        requires
            old(self).inv(),
        ensures
            final(self).inv(),
            final(self).infallible() == old(self).infallible(),
            r is Ok ==> final(self).model() == old(self).model().after_raw(
                enc(crate::value::ValueModel::Dict(crate::value::view_entries(entries@))),
            ),
            old(self).infallible() ==> r is Ok,
            r is Err ==> r->Err_0 is Disconnected,
        decreases *entries, 1nat,
    {
        let ghost m0 = self.model();
        let ghost lst = crate::value::view_entries(entries@);
        let n = entries.len();
        let hint = if len_known {
            Option::Some(n)
        } else {
            Option::<usize>::None
        };
        self.sink.start_var_sized(hint)?;
        proof {
            if len_known {
                lemma_seq_mid_open_known(m0, n);
            } else {
                lemma_seq_mid_open(m0);
            }
        }
        let mut i: usize = 0;
        while i < n
            invariant
                old(self).inv(),
                self.inv(),
                self.infallible() == old(self).infallible(),
                i <= n,
                n == entries@.len(),
                lst == crate::value::view_entries(entries@),
                hint == (if len_known {
                    Option::Some(n)
                } else {
                    Option::<usize>::None
                }),
                self.model() == seq_mid(
                    m0,
                    hint,
                    enc_entries(lst.take(i as int)),
                    i as nat,
                ),
                m0 == old(self).model(),
            decreases n - i,
        {
            proof {
                lemma_seq_mid_step(
                    m0,
                    hint,
                    enc_entries(lst.take(i as int)),
                    i as nat,
                    enc(lst[i as int].0) + enc(lst[i as int].1),
                );
            }
            let ra = self.sink.advance_var_sized();
            match ra {
                Ok(()) => {},
                Err(e) => {
                    return Err(e);
                },
            }
            proof {
                assert(decreases_to!(*entries => entries@));
                assert(decreases_to!(entries@ => entries@[i as int]));
                assert(decreases_to!(entries@[i as int] => entries@[i as int].key));
            }
            let rk = self.encode_value(&entries[i].key);
            match rk {
                Ok(()) => {},
                Err(e) => {
                    return Err(e);
                },
            }
            proof {
                assert(decreases_to!(entries@[i as int] => entries@[i as int].value));
            }
            let rv = self.encode_value(&entries[i].value);
            match rv {
                Ok(()) => {},
                Err(e) => {
                    return Err(e);
                },
            }
            proof {
                lemma_enc_entries_snoc(lst, i as int);
                let mid = seq_mid(m0, hint, enc_entries(lst.take(i as int)), i as nat);
                lemma_after_raw_compose(
                    mid.after_advance(),
                    enc(lst[i as int].0),
                    enc(lst[i as int].1),
                );
                assert(enc_entries(lst.take(i + 1)) =~= enc_entries(lst.take(i as int))
                    + (enc(lst[i as int].0) + enc(lst[i as int].1)));
            }
            i = i + 1;
        }
        let re = self.sink.end_var_sized();
        match re {
            Ok(()) => {},
            Err(e) => {
                return Err(e);
            },
        }
        proof {
            assert(lst.take(n as int) =~= lst);
            lemma_seq_mid_end(m0, hint, enc_entries(lst), n as nat);
        }
        Ok(())
    }
}

/// A bad serialization setting.
#[derive(Debug)]
pub enum ConfigError {
    /// The write batch limit must accommodate at least one byte.
    BufLimitTooLow(usize),
}

/// Settings for serialization: how the streaming path batches and queues
/// bytes. The buffer path ignores them; the bytes produced are the same
/// under every configuration.
#[derive(Debug, Clone)]
pub struct Config {
    batch_limit: usize,
    channel_limit: usize,
}

impl Config {
    /// The most bytes the write backend sends to the device at once.
    pub closed spec fn spec_batch_limit(&self) -> usize {
        self.batch_limit
    }

    /// The capacity of the outbound byte queue.
    pub closed spec fn spec_channel_limit(&self) -> usize {
        self.channel_limit
    }

    /// The default settings, explicitly.
    pub fn new() -> (r: Config)
        ensures
            r.spec_batch_limit() == 64,
            r.spec_channel_limit() == 64,
    {
        Config { batch_limit: 64, channel_limit: 64 }
    }

    /// Sets the write batch limit; zero is refused, as nothing could ever
    /// be written.
    pub fn with_batch_limit(&mut self, byte_count: usize) -> (r: Result<(), ConfigError>)
        ensures
            r is Ok <==> byte_count != 0,
            r is Ok ==> final(self).spec_batch_limit() == byte_count
                && final(self).spec_channel_limit() == old(self).spec_channel_limit(),
            r is Err ==> r->Err_0 == ConfigError::BufLimitTooLow(byte_count)
                && *final(self) == *old(self),
    {
        if byte_count == 0 {
            return Err(ConfigError::BufLimitTooLow(byte_count));
        }
        self.batch_limit = byte_count;
        Ok(())
    }

    /// Sets the outbound queue capacity.
    pub fn with_channel_limit(&mut self, byte_count: usize)
        ensures
            final(self).spec_channel_limit() == byte_count,
            final(self).spec_batch_limit() == old(self).spec_batch_limit(),
    {
        self.channel_limit = byte_count;
    }

    /// The read-out of the write batch limit.
    pub fn batch_limit(&self) -> (r: usize)
        ensures
            r == self.spec_batch_limit(),
    {
        self.batch_limit
    }

    /// The read-out of the outbound queue capacity.
    pub fn channel_limit(&self) -> (r: usize)
        ensures
            r == self.spec_channel_limit(),
    {
        self.channel_limit
    }

    /// Encodes a value into a fresh byte buffer: exactly its wire encoding,
    /// under any configuration.
    pub fn serialize_into_buffer(&self, value: &Value) -> (r: Result<Vec<u8>, Error>)
        ensures
            r is Ok,
            r is Ok ==> r->Ok_0@ == enc(crate::value::vm(*value)),
    {
        let mut buffer = Vec::new();
        match self.serialize_on_buffer(&mut buffer, value) {
            Ok(()) => {},
            Err(e) => {
                return Err(e);
            },
        }
        Ok(buffer)
    }

    /// Encodes a value over the front of a caller-supplied buffer: the wire
    /// encoding, then whatever tail of the original buffer it never reached.
    pub fn serialize_on_buffer(&self, buffer: &mut Vec<u8>, value: &Value) -> (r: Result<
        (),
        Error,
    >)
        ensures
            r is Ok,
            final(buffer)@ == enc(crate::value::vm(*value)) + chop(
                old(buffer)@,
                enc(crate::value::vm(*value)).len(),
            ),
    {
        let ghost orig = buffer@;
        let mut owned: Vec<u8> = Vec::new();
        core::mem::swap(buffer, &mut owned);
        let sink = BufferSink::with_buffer(owned);
        let mut serializer = Serializer::new(sink);
        match serializer.encode_value(value) {
            Ok(()) => {},
            Err(e) => {
                return Err(e);
            },
        }
        let done = serializer.into_sink();
        proof {
            assert(done.model() == SinkModel::fresh(orig).after_raw(
                enc(crate::value::vm(*value)),
            ));
            done.lemma_contents();
            assert(done.contents() =~= enc(crate::value::vm(*value)) + chop(
                orig,
                enc(crate::value::vm(*value)).len(),
            ));
        }
        let out = done.into_buffer();
        *buffer = out;
        Ok(())
    }
}

impl Default for Config {
    /// The default settings: the same values `new` gives.
    fn default() -> (r: Config)
        ensures
            r.spec_batch_limit() == 64,
            r.spec_channel_limit() == 64,
    {
        Config::new()
    }
}

/// Encodes a value into a fresh byte buffer with the default settings.
pub fn serialize_into_buffer(value: &Value) -> (r: Result<Vec<u8>, Error>)
    ensures
        r is Ok,
        r is Ok ==> r->Ok_0@ == enc(crate::value::vm(*value)),
{
    Config::new().serialize_into_buffer(value)
}

/// Encodes a value over the front of a caller-supplied buffer with the
/// default settings.
pub fn serialize_on_buffer(buffer: &mut Vec<u8>, value: &Value) -> (r: Result<(), Error>)
    ensures
        r is Ok,
        final(buffer)@ == enc(crate::value::vm(*value)) + chop(
            old(buffer)@,
            enc(crate::value::vm(*value)).len(),
        ),
{
    Config::new().serialize_on_buffer(buffer, value)
}

/// Growing the innermost frame's bytes preserves the stack correspondence,
/// as long as the grown layout still fits the machine.
proof fn lemma_corr_grow_top(
    stack: Seq<Routine>,
    done: Seq<u8>,
    frames: Seq<FrameModel>,
    rk: nat,
    d: Seq<u8>,
    cursor: int,
)
    requires
        frames.len() > 0,
        corr(stack, done, frames, rk),
        cursor <= usize::MAX,
        cursor == done.len() + frames_flat(frames.update(
            frames.len() - 1,
            FrameModel {
                bytes: frames.last().bytes + d,
                ..frames.last()
            },
        )).len(),
    ensures
        corr(
            stack,
            done,
            frames.update(
                frames.len() - 1,
                FrameModel { bytes: frames.last().bytes + d, ..frames.last() },
            ),
            rk,
        ),
    decreases frames.last().known,
{
    let last = frames.len() - 1;
    let f0 = frames[last];
    let f1 = FrameModel { bytes: f0.bytes + d, ..f0 };
    let grown = frames.update(last, f1);
    assert(grown.drop_last() =~~= frames.drop_last());
    assert(frames_flat(grown) == frames_flat(frames) + d) by {
        lemma_flat_snoc(frames);
        lemma_flat_snoc(grown);
    }
    if f0.known > 0 {
        let peeled0 = frames.update(last, FrameModel { known: 0, ..f0 });
        let peeled1 = grown.update(last, FrameModel { known: 0, ..f1 });
        assert(corr(stack.drop_last(), done, peeled0, rk));
        assert(peeled1 =~~= peeled0.update(
            last,
            FrameModel { bytes: peeled0.last().bytes + d, ..peeled0.last() },
        ));
        assert(frames_flat(peeled1) == frames_flat(peeled0) + d) by {
            lemma_flat_snoc(peeled0);
            lemma_flat_snoc(peeled1);
            assert(peeled1.drop_last() =~~= peeled0.drop_last());
        }
        assert(frames_flat(peeled1) == frames_flat(grown)) by {
            lemma_flat_snoc(peeled1);
            lemma_flat_snoc(grown);
            assert(peeled1.drop_last() =~~= grown.drop_last());
        }
        assert(cursor == done.len() + frames_flat(peeled1).len());
        lemma_corr_grow_top(stack.drop_last(), done, peeled0, rk, d, cursor);
        assert(corr(stack.drop_last(), done, peeled1, rk));
        assert(corr(stack, done, grown, rk));
    } else {
        assert(top_off(done, grown) == top_off(done, frames));
        assert(top_off(done, grown) + 8 + f1.bytes.len() == cursor) by {
            lemma_flat_snoc(grown);
        }
        assert(corr(stack.drop_last(), done, grown.drop_last(), rk));
        assert(corr(stack, done, grown, rk));
    }
}

} // verus!
