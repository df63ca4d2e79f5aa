//! A stream of chunks between a writer, which fills them, and a reader, which delivers them.
//!
//! The reader holds what the two share. A caller that uses them from different places keeps the
//! reader behind a lock. `E` is the error that a writer can abort the stream with, `W` what the
//! task that polls the reader is woken by: the caller wakes the ones that the writer returns.

use crate::body::{views, SizeHint};
use std::collections::VecDeque;
use vstd::prelude::*;
use vstd::slice::slice_subrange;

verus! {

/// The state that a writer and a reader share.
enum SharedState<E> {
    /// Chunks may follow.
    Open {
        ready: VecDeque<Vec<u8>>,
        /// Current total size of the ready queue.
        ready_bytes: usize,
        writer_dropped: bool,
    },
    /// The writer aborted the stream.
    Failed(E),
    /// The reader has delivered the end of the stream.
    ReaderFused,
}

/// What a reader holds.
pub enum Channel<E> {
    /// Chunks that were flushed and not delivered yet, and whether the writer is gone.
    Open { ready: Seq<Seq<u8>>, writer_dropped: bool },
    /// The writer aborted the stream.
    Failed(E),
    /// The reader has delivered the end of the stream.
    Fused,
}

/// The receiving end of a stream.
pub struct Reader<E, W> {
    state: SharedState<E>,
    /// The waker to notify when the receiver should be polled again.
    waker: Option<W>,
}

/// What a poll of a reader gives.
pub enum ReaderPoll<E> {
    /// Nothing yet.
    Pending,
    /// A chunk.
    Chunk(Vec<u8>),
    /// The error that the stream was aborted with.
    Failed(E),
    /// The end of the stream.
    End,
}

impl<E> ReaderPoll<E> {
    /// What the poll gave, with the bytes of the chunk.
    pub open spec fn polling(self) -> Polling<E> {
        match self {
            ReaderPoll::Pending => Polling::Pending,
            ReaderPoll::Chunk(chunk) => Polling::Chunk(chunk@),
            ReaderPoll::Failed(e) => Polling::Failed(e),
            ReaderPoll::End => Polling::End,
        }
    }
}

/// What a poll of a reader comes to.
pub enum Polling<E> {
    Pending,
    Chunk(Seq<u8>),
    Failed(E),
    End,
}

/// What a poll of a reader gives, and what the reader holds afterwards.
pub open spec fn poll_effect<E>(channel: Channel<E>) -> (Polling<E>, Channel<E>) {
    match channel {
        Channel::Open { ready, writer_dropped } => if ready.len() > 0 {
            let after = if ready.len() == 1 && writer_dropped {
                Channel::Fused
            } else {
                Channel::Open { ready: ready.drop_first(), writer_dropped }
            };
            (Polling::Chunk(ready[0]), after)
        } else if writer_dropped {
            (Polling::End, Channel::Fused)
        } else {
            (Polling::Pending, channel)
        },
        Channel::Failed(e) => (Polling::Failed(e), Channel::Fused),
        Channel::Fused => (Polling::End, Channel::Fused),
    }
}

/// The bytes of a sequence of chunks.
pub open spec fn joined(chunks: Seq<Seq<u8>>) -> Seq<u8>
    decreases chunks.len(),
{
    if chunks.len() == 0 {
        Seq::empty()
    } else {
        chunks[0] + joined(chunks.drop_first())
    }
}

/// A chunk at the end adds its bytes at the end.
pub proof fn lemma_joined_push(chunks: Seq<Seq<u8>>, chunk: Seq<u8>)
    ensures
        joined(chunks.push(chunk)) == joined(chunks) + chunk,
    decreases chunks.len(),
{
    if chunks.len() == 0 {
        assert(chunks.push(chunk).drop_first() =~= chunks);
        assert(joined(chunks) =~= Seq::empty());
        assert(joined(chunks.push(chunk)) =~= chunk);
        assert(joined(chunks) + chunk =~= chunk);
    } else {
        assert(chunks.push(chunk).drop_first() =~= chunks.drop_first().push(chunk));
        lemma_joined_push(chunks.drop_first(), chunk);
        assert(joined(chunks.push(chunk)) =~= joined(chunks) + chunk);
    }
}

/// Whether no chunk is empty.
pub open spec fn none_empty(chunks: Seq<Seq<u8>>) -> bool {
    forall|i: int| 0 <= i < chunks.len() ==> (#[trigger] chunks[i]).len() > 0
}

/// The bytes that were flushed and not delivered yet, while the stream is open.
pub open spec fn ready_content<E>(channel: Channel<E>) -> Seq<u8> {
    match channel {
        Channel::Open { ready, .. } => joined(ready),
        _ => Seq::empty(),
    }
}

impl<E, W> View for Reader<E, W> {
    type V = Channel<E>;

    closed spec fn view(&self) -> Channel<E> {
        match self.state {
            SharedState::Open { ready, ready_bytes, writer_dropped } => Channel::Open {
                ready: views(ready@),
                writer_dropped,
            },
            SharedState::Failed(e) => Channel::Failed(e),
            SharedState::ReaderFused => Channel::Fused,
        }
    }
}

impl<E, W> Reader<E, W> {
    /// The waker to notify when the receiver should be polled again.
    pub closed spec fn registered(&self) -> Option<W> {
        self.waker
    }

    /// The number of bytes that were flushed and not delivered yet.
    pub open spec fn ready_len(&self) -> nat {
        ready_content(self@).len()
    }

    /// Whether the chunks are in order: none is empty, and their total size is known.
    pub closed spec fn wf(&self) -> bool {
        match self.state {
            SharedState::Open { ready, ready_bytes, .. } => {
                &&& none_empty(views(ready@))
                &&& ready_bytes == joined(views(ready@)).len()
            },
            _ => true,
        }
    }

    /// Returns how many bytes are still to come: at least those that were flushed, and no more
    /// if the writer is gone.
    pub fn size_hint(&self) -> (r: SizeHint)
        requires
            self.wf(),
        ensures
            r == match self@ {
                Channel::Open { ready, writer_dropped } => SizeHint {
                    lower: joined(ready).len() as u64,
                    upper: if writer_dropped {
                        Some(joined(ready).len() as u64)
                    } else {
                        None
                    },
                },
                _ => SizeHint { lower: 0, upper: None },
            },
            r.lower == self.ready_len(),
    {
        match &self.state {
            SharedState::Open { ready_bytes, writer_dropped, .. } => {
                let n: u64 = *ready_bytes as u64;
                SizeHint {
                    lower: n,
                    upper: if *writer_dropped {
                        Some(n)
                    } else {
                        None
                    },
                }
            },
            _ => SizeHint { lower: 0, upper: None },
        }
    }

    /// Returns whether nothing more is to come, not even an error.
    pub fn is_end_stream(&self) -> (r: bool)
        requires
            self.wf(),
        ensures
            r == match self@ {
                Channel::Open { ready, writer_dropped } => ready.len() == 0 && writer_dropped,
                Channel::Failed(_) => false,
                Channel::Fused => true,
            },
    {
        match &self.state {
            SharedState::Open { ready, ready_bytes, writer_dropped } => {
                assert(ready_bytes == 0 <==> views(ready@).len() == 0) by {
                    if views(ready@).len() > 0 {
                        assert(views(ready@)[0].len() > 0);
                    }
                }
                *ready_bytes == 0 && *writer_dropped
            },
            SharedState::Failed(_) => false,
            SharedState::ReaderFused => true,
        }
    }

    /// Delivers what comes next. Where nothing is there yet, `waker` is kept to be returned by the
    /// writer when there is, and nothing else changes. After an error or the end, there is nothing
    /// but the end.
    pub fn poll_next(&mut self, waker: W) -> (r: ReaderPoll<E>)
        requires
            old(self).wf(),
        ensures
            final(self).wf(),
            (r.polling(), final(self)@) == poll_effect(old(self)@),
            final(self).registered() == if r is Pending {
                Some(waker)
            } else {
                old(self).registered()
            },
            ready_content(old(self)@) == match r {
                ReaderPoll::Chunk(chunk) => chunk@ + ready_content(final(self)@),
                _ => Seq::empty(),
            },
    {
        let mut state: SharedState<E> = SharedState::ReaderFused;
        core::mem::swap(&mut state, &mut self.state);
        match state {
            SharedState::Open { mut ready, mut ready_bytes, writer_dropped } => {
                let ghost before = views(ready@);
                match ready.pop_front() {
                    Some(c) => {
                        proof {
                            assert(views(ready@) =~= before.drop_first());
                            assert(before[0] == c@);
                            if ready@.len() == 0 {
                                assert(joined(before.drop_first()) =~= Seq::empty());
                            }
                        }
                        ready_bytes = ready_bytes - c.len();
                        if ready.len() > 0 || !writer_dropped {
                            // more chunks may follow.
                            self.state = SharedState::Open { ready, ready_bytes, writer_dropped };
                        }
                        ReaderPoll::Chunk(c)
                    },
                    None => {
                        if writer_dropped {
                            return ReaderPoll::End;
                        }
                        self.waker = Some(waker);
                        assert(views(ready@) =~= before);
                        self.state = SharedState::Open { ready, ready_bytes, writer_dropped };
                        ReaderPoll::Pending
                    },
                }
            },
            SharedState::Failed(e) => ReaderPoll::Failed(e),
            SharedState::ReaderFused => ReaderPoll::End,
        }
    }
}

/// Why bytes could not be written.
#[derive(Clone, Copy, Debug, PartialEq, Eq, Structural)]
pub enum WriteError {
    /// The receiver was dropped, or the stream was aborted.
    ReceiverDropped,
    /// A previous call found that no more data should be sent.
    BodyDead,
    /// The bytes that wait to be delivered are too many to be counted.
    QueueFull,
    /// The encoder failed.
    EncoderFailed,
}

impl WriteError {
    /// The error as text.
    pub fn message(self) -> (r: &'static str)
        ensures
            r == match self {
                WriteError::ReceiverDropped => "receiver was dropped",
                WriteError::BodyDead => "body is dead",
                WriteError::QueueFull => "too many bytes wait to be delivered",
                WriteError::EncoderFailed => "encoder failed",
            },
    {
        match self {
            WriteError::ReceiverDropped => "receiver was dropped",
            WriteError::BodyDead => "body is dead",
            WriteError::QueueFull => "too many bytes wait to be delivered",
            WriteError::EncoderFailed => "encoder failed",
        }
    }
}

/// The sending end of a stream.
/// Raw in the sense that it doesn't apply content encoding and isn't particularly user-friendly.
///
/// Currently the chunks are all of the capacity given in the constructor. On flush, chunks may
/// satisfy `0 < len < capacity`; otherwise they will satisfy `0 < len == capacity`.
///
/// The stream is infinitely buffered; calls to `write` and `flush` never block. `flush` thus is a
/// hint that data should be sent to the client as soon as possible, but this shouldn't be expected
/// to happen before it returns.
pub struct Writer {
    /// The next buffer to use.
    buf: Vec<u8>,
    /// Desired capacity of each buffer.
    cap: usize,
}

/// The bytes that a writer was given and that were not delivered yet, while the stream is open.
pub open spec fn undelivered<E, W>(writer: Writer, reader: Reader<E, W>) -> Seq<u8> {
    match reader@ {
        Channel::Open { ready, .. } => joined(ready) + writer.buffered(),
        _ => Seq::empty(),
    }
}

/// Whether the two ends of a stream are in order: while it is open, less than a full chunk is held
/// back.
pub open spec fn in_order<E, W>(writer: Writer, reader: Reader<E, W>) -> bool {
    &&& writer.wf()
    &&& reader.wf()
    &&& reader@ is Open ==> writer.buffered().len() < writer.chunk_size()
}

/// Whether `more` bytes can be written to a stream, with the number of bytes that wait in it still
/// to be counted.
pub open spec fn has_room_for<E, W>(writer: Writer, reader: Reader<E, W>, more: nat) -> bool {
    reader.ready_len() + writer.buffered().len() + writer.chunk_size() + more <= usize::MAX
}

/// Whether chunks were added to a queue, each of exactly `cap` bytes; where a flush or the end of
/// the stream has cut the last of them, that may be shorter.
pub open spec fn has_grown(
    ready: Seq<Seq<u8>>,
    ready_after: Seq<Seq<u8>>,
    cap: nat,
    cut: bool,
) -> bool {
    &&& ready.is_prefix_of(ready_after)
    &&& forall|i: int|
        ready.len() <= i < ready_after.len() ==> if cut && i == ready_after.len() - 1 {
            0 < (#[trigger] ready_after[i]).len() <= cap
        } else {
            ready_after[i].len() == cap
        }
}

/// A chunk that is cut may follow full ones.
pub proof fn lemma_grown_and_cut(
    ready: Seq<Seq<u8>>,
    between: Seq<Seq<u8>>,
    last: Seq<u8>,
    cap: nat,
)
    requires
        has_grown(ready, between, cap, false),
        0 < cap,
        last.len() <= cap,
    ensures
        has_grown(ready, between, cap, true),
        last.len() > 0 ==> has_grown(ready, between.push(last), cap, true),
{
    let after = between.push(last);
    assert forall|i: int| ready.len() <= i < after.len() - 1 implies (#[trigger] after[i]).len()
        == cap by {
        assert(after[i] == between[i]);
    }
    assert(after.take(ready.len() as int) =~= between.take(ready.len() as int));
}

/// What a flush or a write does to a stream.
#[verifier::ext_equal]
pub struct Effect<E> {
    /// How many bytes were taken, if the receiver was still there to take them.
    pub taken: Option<int>,
    /// What is held back afterwards.
    pub buffered: Seq<u8>,
    /// What the reader holds afterwards.
    pub channel: Channel<E>,
    /// Whether the task that polls the reader is to be woken.
    pub notify: bool,
}

/// What it does to a stream to flush what is held back, or to end the stream.
pub open spec fn flush_effect<E>(buffered: Seq<u8>, channel: Channel<E>, dropping: bool) -> Effect<
    E,
> {
    match channel {
        Channel::Open { ready, writer_dropped } => if buffered.len() == 0 && !dropping {
            Effect { taken: Some(0), buffered, channel, notify: false }
        } else {
            Effect {
                taken: Some(0),
                buffered: Seq::empty(),
                channel: Channel::Open {
                    ready: if buffered.len() == 0 {
                        ready
                    } else {
                        ready.push(buffered)
                    },
                    writer_dropped: dropping,
                },
                notify: true,
            }
        },
        _ => Effect {
            taken: if buffered.len() == 0 {
                Some(0)
            } else {
                None
            },
            buffered,
            channel,
            notify: false,
        },
    }
}

/// What it does to a stream with chunks of size `cap` to write `data`: as much of it is taken as
/// the chunk that is being filled has room for, and a full chunk is flushed.
pub open spec fn write_effect<E>(
    buffered: Seq<u8>,
    cap: nat,
    channel: Channel<E>,
    data: Seq<u8>,
) -> Effect<E> {
    let room = cap - buffered.len();
    if data.len() < room {
        Effect {
            taken: Some(data.len() as int),
            buffered: buffered + data,
            channel,
            notify: false,
        }
    } else {
        let flushed = flush_effect(buffered + data.take(room), channel, false);
        Effect {
            taken: if flushed.taken is Some {
                Some(room)
            } else {
                None
            },
            ..flushed
        }
    }
}

/// Whether an effect is what a stream, with the waker that was registered, went through.
pub open spec fn has_effect<E, W>(
    effect: Effect<E>,
    before: (Writer, Reader<E, W>),
    after: (Writer, Reader<E, W>),
    waker: Option<W>,
) -> bool {
    &&& after.0.wf()
    &&& after.1.wf()
    &&& after.0.chunk_size() == before.0.chunk_size()
    &&& after.0.buffered() == effect.buffered
    &&& after.1@ == effect.channel
    &&& if effect.notify {
        waker == before.1.registered() && after.1.registered() is None
    } else {
        waker is None && after.1.registered() == before.1.registered()
    }
}

impl Writer {
    /// The bytes that are held back until there is a chunk of them.
    pub closed spec fn buffered(&self) -> Seq<u8> {
        self.buf@
    }

    /// The size of the chunks.
    pub closed spec fn chunk_size(&self) -> nat {
        self.cap as nat
    }

    /// Whether no more is held back than a chunk.
    pub open spec fn wf(&self) -> bool {
        0 < self.chunk_size() && self.buffered().len() <= self.chunk_size()
    }

    /// Makes the two ends of a stream with chunks of the given size.
    pub fn with_chunk_size<E, W>(cap: usize) -> (r: (Writer, Reader<E, W>))
        requires
            cap > 0,
        ensures
            in_order(r.0, r.1),
            r.0.chunk_size() == cap,
            r.0.buffered().len() == 0,
            r.1@ == (Channel::<E>::Open { ready: Seq::empty(), writer_dropped: false }),
            r.1.registered() is None,
    {
        let ready: VecDeque<Vec<u8>> = VecDeque::new();
        assert(views(ready@) =~= Seq::empty());
        let state = SharedState::Open { ready, ready_bytes: 0, writer_dropped: false };
        (Writer { buf: Vec::new(), cap }, Reader { state, waker: None })
    }

    /// Whether `more` bytes can be written.
    pub(crate) fn has_room<E, W>(&self, reader: &Reader<E, W>, more: usize) -> (r: bool)
        requires
            self.wf(),
            reader.wf(),
        ensures
            r == has_room_for(*self, *reader, more as nat),
    {
        let waiting: u128 = reader.size_hint().lower as u128 + self.buf.len() as u128;
        waiting + self.cap as u128 + more as u128 <= usize::MAX as u128
    }

    /// Causes the stream to end abruptly with the given error, in place of what was not delivered
    /// yet. Returns the waker to notify. A stream that is aborted or has ended stays as it is.
    pub fn abort<E, W>(&mut self, reader: &mut Reader<E, W>, error: E) -> (r: Option<W>)
        requires
            old(reader).wf(),
        ensures
            final(reader).wf(),
            *final(self) == *old(self),
            if old(reader)@ is Open {
                &&& final(reader)@ == Channel::Failed(error)
                &&& final(reader).registered() is None
                &&& r == old(reader).registered()
            } else {
                *final(reader) == *old(reader) && r is None
            },
    {
        match &reader.state {
            SharedState::Open { .. } => {},
            _ => return None,
        }
        reader.state = SharedState::Failed(error);
        let mut waker: Option<W> = None;
        core::mem::swap(&mut waker, &mut reader.waker);
        waker
    }

    /// Hands what is held back to the reader as a chunk, and notes whether the writer is going.
    /// Returns the waker to notify.
    pub fn flush_helper<E, W>(&mut self, reader: &mut Reader<E, W>, dropping: bool) -> (r: Result<
        Option<W>,
        (),
    >)
        requires
            old(self).wf(),
            old(reader).wf(),
            old(reader).ready_len() + old(self).buffered().len() <= usize::MAX,
        ensures
            r is Ok <==> flush_effect(old(self).buffered(), old(reader)@, dropping).taken is Some,
            has_effect(
                flush_effect(old(self).buffered(), old(reader)@, dropping),
                (*old(self), *old(reader)),
                (*final(self), *final(reader)),
                match r {
                    Ok(waker) => waker,
                    Err(_) => None,
                },
            ),
            old(reader)@ is Open ==> undelivered(*final(self), *final(reader)) == undelivered(
                *old(self),
                *old(reader),
            ),
    {
        if self.buf.len() == 0 && !dropping {
            return Ok(None);
        }
        let ghost before = undelivered(*self, *reader);
        let mut state: SharedState<E> = SharedState::ReaderFused;
        core::mem::swap(&mut state, &mut reader.state);
        match state {
            SharedState::Open { mut ready, mut ready_bytes, .. } => {
                let ghost chunks = views(ready@);
                if self.buf.len() > 0 {
                    let mut full_buf: Vec<u8> = Vec::new();
                    core::mem::swap(&mut full_buf, &mut self.buf);
                    ready_bytes = ready_bytes + full_buf.len();
                    proof {
                        lemma_joined_push(chunks, full_buf@);
                    }
                    ready.push_back(full_buf);
                    assert(views(ready@) =~= chunks.push(full_buf@));
                }
                reader.state = SharedState::Open { ready, ready_bytes, writer_dropped: dropping };
                let mut waker: Option<W> = None;
                core::mem::swap(&mut waker, &mut reader.waker);
                proof {
                    assert(self.buf@ =~= Seq::empty());
                    assert(undelivered(*self, *reader) =~= before);
                }
                Ok(waker)
            },
            other => {
                reader.state = other;
                if self.buf.len() > 0 {
                    Err(())
                } else {
                    Ok(None)
                }
            },
        }
    }

    /// Writes a prefix of `data`: as much as the chunk that is being filled takes. A chunk that is
    /// full is handed to the reader. Returns the number of bytes that were taken, and the waker to
    /// notify.
    pub fn write<E, W>(&mut self, reader: &mut Reader<E, W>, data: &[u8]) -> (r: Result<
        (usize, Option<W>),
        WriteError,
    >)
        requires
            old(self).wf(),
            old(reader).wf(),
            data@.len() >= old(self).chunk_size() - old(self).buffered().len() ==> old(
                reader,
            ).ready_len() + old(self).chunk_size() <= usize::MAX,
        ensures
            ({
                let effect = write_effect(
                    old(self).buffered(),
                    old(self).chunk_size(),
                    old(reader)@,
                    data@,
                );
                &&& match r {
                    Ok((n, waker)) => effect.taken == Some(n as int) && has_effect(
                        effect,
                        (*old(self), *old(reader)),
                        (*final(self), *final(reader)),
                        waker,
                    ),
                    Err(e) => e == WriteError::ReceiverDropped && effect.taken is None
                        && has_effect(
                        effect,
                        (*old(self), *old(reader)),
                        (*final(self), *final(reader)),
                        None,
                    ),
                }
            }),
            in_order(*old(self), *old(reader)) ==> in_order(*final(self), *final(reader)),
            r matches Ok((n, _)) ==> n <= data@.len() && (old(reader)@ is Open ==> undelivered(
                *final(self),
                *final(reader),
            ) == undelivered(*old(self), *old(reader)) + data@.take(n as int)),
    {
        let remaining: usize = self.cap - self.buf.len();
        let full: bool = remaining <= data.len();
        let bytes: usize = if full {
            remaining
        } else {
            data.len()
        };
        let ghost before = undelivered(*self, *reader);
        let prefix = slice_subrange(data, 0, bytes);
        assert(prefix@ =~= data@.take(bytes as int));
        self.buf.extend_from_slice(prefix);
        assert(self.buf@ =~= old(self).buffered() + data@.take(bytes as int));
        assert(reader@ is Open ==> undelivered(*self, *reader) =~= before + data@.take(
            bytes as int,
        ));
        if full {
            match self.flush(reader) {
                Ok(waker) => Ok((bytes, waker)),
                Err(e) => Err(e),
            }
        } else {
            assert(data@.take(bytes as int) =~= data@);
            Ok((bytes, None))
        }
    }

    /// Hands what is held back to the reader as a chunk. Returns the waker to notify.
    pub fn flush<E, W>(&mut self, reader: &mut Reader<E, W>) -> (r: Result<Option<W>, WriteError>)
        requires
            old(self).wf(),
            old(reader).wf(),
            old(reader).ready_len() + old(self).buffered().len() <= usize::MAX,
        ensures
            r is Ok <==> flush_effect(old(self).buffered(), old(reader)@, false).taken is Some,
            r matches Err(e) ==> e == WriteError::ReceiverDropped,
            has_effect(
                flush_effect(old(self).buffered(), old(reader)@, false),
                (*old(self), *old(reader)),
                (*final(self), *final(reader)),
                match r {
                    Ok(waker) => waker,
                    Err(_) => None,
                },
            ),
            in_order(*old(self), *old(reader)) ==> in_order(*final(self), *final(reader)),
            old(reader)@ is Open ==> undelivered(*final(self), *final(reader)) == undelivered(
                *old(self),
                *old(reader),
            ),
    {
        match self.flush_helper(reader, false) {
            Ok(waker) => Ok(waker),
            Err(_) => Err(WriteError::ReceiverDropped),
        }
    }

    /// Ends the stream: hands what is held back to the reader as the last chunk. Returns the waker
    /// to notify.
    pub fn close<E, W>(self, reader: &mut Reader<E, W>) -> (r: Option<W>)
        requires
            self.wf(),
            old(reader).wf(),
            old(reader).ready_len() + self.buffered().len() <= usize::MAX,
        ensures
            final(reader).wf(),
            ({
                let effect = flush_effect(self.buffered(), old(reader)@, true);
                &&& final(reader)@ == effect.channel
                &&& if effect.notify {
                    r == old(reader).registered() && final(reader).registered() is None
                } else {
                    r is None && final(reader).registered() == old(reader).registered()
                }
            }),
            final(reader)@ matches Channel::Open { ready, .. } ==> joined(ready) == undelivered(
                self,
                *old(reader),
            ),
    {
        let mut writer = self;
        match writer.flush_helper(reader, true) {
            Ok(waker) => {
                assert(reader@ matches Channel::Open { ready, .. } ==> joined(ready)
                    =~= undelivered(writer, *reader));
                waker
            },
            Err(_) => None,
        }
    }

    /// Writes all of `data`. Returns the waker to notify.
    pub fn write_all<E, W>(&mut self, reader: &mut Reader<E, W>, data: &[u8]) -> (r: (
        Result<(), WriteError>,
        Option<W>,
    ))
        requires
            in_order(*old(self), *old(reader)),
            old(reader).ready_len() + old(self).chunk_size() + data@.len() <= usize::MAX,
        ensures
            in_order(*final(self), *final(reader)),
            final(self).chunk_size() == old(self).chunk_size(),
            match (old(reader)@, final(reader)@) {
                (
                    Channel::Open { ready, writer_dropped },
                    Channel::Open { ready: ready_after, writer_dropped: dropped_after },
                ) => {
                    &&& r.0 is Ok
                    &&& undelivered(*final(self), *final(reader)) == undelivered(
                        *old(self),
                        *old(reader),
                    ) + data@
                    &&& has_grown(ready, ready_after, old(self).chunk_size(), false)
                    &&& if ready_after.len() > ready.len() {
                        &&& !dropped_after
                        &&& r.1 == old(reader).registered()
                        &&& final(reader).registered() is None
                    } else {
                        &&& final(reader)@ == old(reader)@
                        &&& r.1 is None
                        &&& final(reader).registered() == old(reader).registered()
                    }
                },
                (channel, after) => {
                    let room = old(self).chunk_size() - old(self).buffered().len();
                    &&& after == channel
                    &&& r.1 is None
                    &&& final(reader).registered() == old(reader).registered()
                    &&& r.0 == if data@.len() == 0 || data@.len() < room {
                        Ok::<(), WriteError>(())
                    } else {
                        Err::<(), WriteError>(WriteError::ReceiverDropped)
                    }
                    &&& final(self).buffered() == old(self).buffered() + if r.0 is Ok {
                        data@
                    } else {
                        data@.take(room)
                    }
                },
            },
    {
        let mut rest: &[u8] = data;
        let mut waker: Option<W> = None;
        assert(data@.skip(0) =~= data@);
        let ghost mut done: int = 0;
        proof {
            if let Channel::Open { ready, .. } = reader@ {
                assert(undelivered(*self, *reader) + data@.take(0) =~= undelivered(
                    *self,
                    *reader,
                ));
            }
            assert(self.buffered() + data@.take(0) =~= self.buffered());
        }
        while rest.len() > 0
            invariant
                0 <= done <= data@.len(),
                rest@ == data@.skip(done),
                in_order(*self, *reader),
                self.chunk_size() == old(self).chunk_size(),
                match (old(reader)@, reader@) {
                    (
                        Channel::Open { ready, writer_dropped },
                        Channel::Open { ready: ready_after, writer_dropped: dropped_after },
                    ) => {
                        &&& undelivered(*self, *reader) == undelivered(*old(self), *old(reader))
                            + data@.take(done)
                        &&& has_grown(ready, ready_after, old(self).chunk_size(), false)
                        &&& if ready_after.len() > ready.len() {
                            &&& !dropped_after
                            &&& waker == old(reader).registered()
                            &&& reader.registered() is None
                        } else {
                            &&& reader@ == old(reader)@
                            &&& waker is None
                            &&& reader.registered() == old(reader).registered()
                        }
                    },
                    (channel, after) => {
                        &&& after == channel
                        &&& done == 0 || (rest@.len() == 0 && data@.len() < old(self).chunk_size()
                            - old(self).buffered().len())
                        &&& self.buffered() == old(self).buffered() + data@.take(done)
                        &&& waker is None
                        &&& reader.registered() == old(reader).registered()
                    },
                },
                old(reader).ready_len() + old(self).chunk_size() + data@.len() <= usize::MAX,
                in_order(*old(self), *old(reader)),
            decreases rest@.len(),
        {
            proof {
                assert(reader@ is Open ==> undelivered(*self, *reader).len() == reader.ready_len()
                    + self.buffered().len());
                assert(old(reader)@ is Open ==> undelivered(*old(self), *old(reader)).len()
                    == old(reader).ready_len() + old(self).buffered().len());
            }
            match self.write(reader, rest) {
                Err(e) => {
                    return (Err(e), waker);
                },
                Ok((n, w)) => {
                    if waker.is_none() {
                        waker = w;
                    }
                    proof {
                        done = done + n;
                    }
                    let tail = slice_subrange(rest, n, rest.len());
                    assert(tail@ =~= data@.skip(done));
                    rest = tail;
                },
            }
        }
        assert(data@.take(done) =~= data@);
        (Ok(()), waker)
    }

    /// Truncates the output buffer.
    pub fn truncate(&mut self)
        ensures
            old(self).wf() ==> final(self).wf(),
            final(self).chunk_size() == old(self).chunk_size(),
            final(self).buffered().len() == 0,
    {
        self.buf.clear()
    }
}

/// While a stream is open, a write takes all that it is offered up to a full chunk; what it takes
/// goes behind what was written before, and a flush or the end of the stream loses nothing.
pub proof fn law_nothing_is_lost<E>(
    buffered: Seq<u8>,
    cap: nat,
    channel: Channel<E>,
    data: Seq<u8>,
    dropping: bool,
)
    requires
        channel is Open,
        buffered.len() < cap,
    ensures
        ({
            let written = write_effect(buffered, cap, channel, data);
            let flushed = flush_effect(buffered, channel, dropping);
            &&& written.taken is Some
            &&& data.len() > 0 ==> written.taken->0 > 0
            &&& ready_content(written.channel) + written.buffered == ready_content(channel)
                + buffered + data.take(written.taken->0)
            &&& ready_content(flushed.channel) + flushed.buffered == ready_content(channel)
                + buffered
        }),
{
    let room = cap - buffered.len();
    if let Channel::Open { ready, .. } = channel {
        lemma_joined_push(ready, buffered);
        let flushed = flush_effect(buffered, channel, dropping);
        assert(ready_content(flushed.channel) + flushed.buffered =~= ready_content(channel)
            + buffered);
        let written = write_effect(buffered, cap, channel, data);
        if data.len() < room {
            assert(data.take(data.len() as int) =~= data);
        } else {
            lemma_joined_push(ready, buffered + data.take(room));
        }
        assert(ready_content(written.channel) + written.buffered =~= ready_content(channel)
            + buffered + data.take(written.taken->0));
    }
}

/// A write hands over chunks of exactly the given size, a flush chunks of less than that, and
/// neither hands over an empty one.
pub proof fn law_chunk_sizes<E>(
    buffered: Seq<u8>,
    cap: nat,
    channel: Channel<E>,
    data: Seq<u8>,
    dropping: bool,
)
    requires
        channel is Open,
        buffered.len() < cap,
    ensures
        match (channel, write_effect(buffered, cap, channel, data).channel) {
            (Channel::Open { ready, .. }, Channel::Open { ready: after, .. }) => after == ready || (
            after.len() == ready.len() + 1 && after.drop_last() == ready && after.last().len()
                == cap),
            _ => false,
        },
        match (channel, flush_effect(buffered, channel, dropping).channel) {
            (Channel::Open { ready, .. }, Channel::Open { ready: after, .. }) => after == ready || (
            after.len() == ready.len() + 1 && after.drop_last() == ready && 0 < after.last().len()
                < cap),
            _ => false,
        },
{
    if let Channel::Open { ready, .. } = channel {
        let chunk = buffered + data.take(cap - buffered.len());
        assert(ready.push(chunk).drop_last() =~= ready);
        assert(ready.push(buffered).drop_last() =~= ready);
    }
}

/// A write to an open stream takes as much of the data as the chunk that is being filled has room
/// for. A chunk that is full goes to the end of the queue at once, and the reader is woken.
pub proof fn law_write<E>(buffered: Seq<u8>, cap: nat, ready: Seq<Seq<u8>>, data: Seq<u8>)
    requires
        buffered.len() < cap,
    ensures
        ({
            let open = Channel::<E>::Open { ready, writer_dropped: false };
            let effect = write_effect(buffered, cap, open, data);
            if buffered.len() + data.len() < cap {
                &&& effect.taken == Some(data.len() as int)
                &&& effect.buffered == buffered + data
                &&& effect.channel == open
                &&& !effect.notify
            } else {
                let chunk = (buffered + data).take(cap as int);
                &&& effect.taken == Some(cap - buffered.len())
                &&& effect.buffered.len() == 0
                &&& effect.channel == Channel::<E>::Open {
                    ready: ready.push(chunk),
                    writer_dropped: false,
                }
                &&& effect.notify
            }
        }),
{
    let room = cap - buffered.len();
    if data.len() >= room {
        assert(buffered + data.take(room) =~= (buffered + data).take(cap as int));
    }
}

/// A flush of an open stream, or its end, leaves nothing behind: what was held back goes to the end
/// of the queue. The reader is woken where there is something new for it, and is told of the end.
pub proof fn law_flush<E>(buffered: Seq<u8>, ready: Seq<Seq<u8>>, dropping: bool)
    ensures
        ({
            let open = Channel::<E>::Open { ready, writer_dropped: false };
            let effect = flush_effect(buffered, open, dropping);
            &&& effect.taken is Some
            &&& effect.buffered.len() == 0
            &&& effect.channel == Channel::<E>::Open {
                ready: if buffered.len() > 0 {
                    ready.push(buffered)
                } else {
                    ready
                },
                writer_dropped: dropping,
            }
            &&& effect.notify <==> buffered.len() > 0 || dropping
        }),
{
}

/// Nothing that a writer does changes a stream that was aborted or has ended, and nobody is woken. A
/// writer finds that out when it has bytes to hand over, and not before.
pub proof fn law_receiver_gone<E>(
    buffered: Seq<u8>,
    cap: nat,
    channel: Channel<E>,
    data: Seq<u8>,
    dropping: bool,
)
    requires
        buffered.len() < cap,
        !(channel is Open),
    ensures
        ({
            let written = write_effect(buffered, cap, channel, data);
            let flushed = flush_effect(buffered, channel, dropping);
            &&& written.channel == channel && flushed.channel == channel
            &&& !written.notify && !flushed.notify
            &&& written.taken == if buffered.len() + data.len() < cap {
                Some(data.len() as int)
            } else {
                None
            }
            &&& flushed.taken is Some <==> buffered.len() == 0
        }),
{
}

/// A reader gives the chunks in the order in which they came, and the end only when there are no
/// more and the writer is gone. It waits for what is to come, gives an error once, and nothing but
/// the end after that.
pub proof fn law_poll<E>(first: Seq<u8>, rest: Seq<Seq<u8>>, dropped: bool, e: E)
    ensures
        poll_effect(
            (Channel::<E>::Open { ready: seq![first] + rest, writer_dropped: dropped }),
        ).0 == Polling::<E>::Chunk(first),
        rest.len() > 0 || !dropped ==> poll_effect(
            (Channel::<E>::Open { ready: seq![first] + rest, writer_dropped: dropped }),
        ).1 == (Channel::<E>::Open { ready: rest, writer_dropped: dropped }),
        poll_effect(
            (Channel::<E>::Open { ready: seq![first], writer_dropped: true }),
        ).1 == Channel::<E>::Fused,
        poll_effect((Channel::<E>::Open { ready: Seq::empty(), writer_dropped: dropped })) == if dropped {
            (Polling::<E>::End, Channel::<E>::Fused)
        } else {
            (
                Polling::<E>::Pending,
                (Channel::<E>::Open { ready: Seq::empty(), writer_dropped: false }),
            )
        },
        poll_effect(Channel::<E>::Failed(e)) == (Polling::<E>::Failed(e), Channel::<E>::Fused),
        poll_effect(Channel::<E>::Fused) == (Polling::<E>::End, Channel::<E>::Fused),
{
    assert((seq![first] + rest).drop_first() =~= rest);
    assert(seq![first] + Seq::<Seq<u8>>::empty() =~= seq![first]);
}

/// A stream has room for as many bytes as can be counted.
pub proof fn law_room<E, W>(writer: Writer, reader: Reader<E, W>, more: nat)
    ensures
        has_room_for(writer, reader, more) <==> ready_content(reader@).len()
            + writer.buffered().len() + writer.chunk_size() + more <= usize::MAX,
{
}

/// What a poll gives is described by itself.
pub proof fn law_polling<E>(chunk: Vec<u8>, e: E)
    ensures
        ReaderPoll::<E>::Pending.polling() == Polling::<E>::Pending,
        ReaderPoll::<E>::Chunk(chunk).polling() == Polling::<E>::Chunk(chunk@),
        ReaderPoll::Failed(e).polling() == Polling::Failed(e),
        ReaderPoll::<E>::End.polling() == Polling::<E>::End,
{
}

/// What a stream goes through is the whole of an effect: what is held back, what the reader holds,
/// and whether the task that waits is returned to be woken, or goes on to wait.
pub proof fn law_effect<E, W>(
    effect: Effect<E>,
    before: (Writer, Reader<E, W>),
    after: (Writer, Reader<E, W>),
    waker: Option<W>,
)
    requires
        has_effect(effect, before, after, waker),
    ensures
        after.0.buffered() == effect.buffered,
        after.0.chunk_size() == before.0.chunk_size(),
        after.1@ == effect.channel,
        effect.notify ==> waker == before.1.registered() && after.1.registered() is None,
        !effect.notify ==> waker is None && after.1.registered() == before.1.registered(),
{
}

/// A queue that has grown begins with what it held. Of the chunks that are new, none is longer than
/// the size of chunks, and none but one that was cut, which is the last, is shorter.
pub proof fn law_grown_queue(
    ready: Seq<Seq<u8>>,
    ready_after: Seq<Seq<u8>>,
    cap: nat,
    cut: bool,
    i: int,
)
    requires
        has_grown(ready, ready_after, cap, cut),
        0 <= i < ready_after.len(),
    ensures
        ready.len() <= ready_after.len(),
        i < ready.len() ==> ready_after[i] == ready[i],
        i >= ready.len() ==> ready_after[i].len() <= cap,
        i >= ready.len() && (!cut || i < ready_after.len() - 1) ==> ready_after[i].len() == cap,
        i >= ready.len() && cap > 0 ==> ready_after[i].len() > 0,
{
    if i < ready.len() {
        assert(ready_after.take(ready.len() as int)[i] == ready_after[i]);
    }
}

/// The two ends of a stream are in order while less than a chunk is held back.
pub proof fn law_in_order<E, W>(writer: Writer, reader: Reader<E, W>)
    requires
        in_order(writer, reader),
    ensures
        reader@ is Open ==> writer.buffered().len() < writer.chunk_size(),
        writer.chunk_size() > 0,
{
}

} // verus!
