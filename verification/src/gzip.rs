//! Streams with a content coding.

use crate::chunker::{
    flush_effect, has_effect, has_grown, has_room_for, in_order, joined, lemma_grown_and_cut,
    ready_content, undelivered, write_effect, Channel, Reader, WriteError, Writer,
};
use crate::encoding::{prefers_gzip, should_gzip};
use crate::headers::{
    add_new, first_value, header_entries, header_value, lemma_visible_text, new_map, Headers,
};
use flate2::write::GzEncoder;
use flate2::Compression;
use http::header::{HeaderMap, HeaderValue};
use std::io::Write;
use vstd::prelude::*;
use vstd::string::StringSliceAdditionalSpecFns;

verus! {

/// The error of an input or output operation.
#[verifier::external_type_specification]
#[verifier::external_body]
pub struct ExIoError(std::io::Error);

/// A gzip encoder, which gives its output back piece by piece.
#[verifier::external_body]
pub struct GzStream {
    inner: GzEncoder<Vec<u8>>,
}

/// The compression level that an encoder was made with.
pub uninterp spec fn gz_level(stream: GzStream) -> u32;

/// The bytes that an encoder was given.
pub uninterp spec fn gz_input(stream: GzStream) -> Seq<u8>;

/// The bytes that an encoder has put out.
pub uninterp spec fn gz_emitted(stream: GzStream) -> Seq<u8>;

/// What a write to an encoder comes to: how many of the bytes it takes and what it puts out, or
/// `None` if it fails. It is what `GzEncoder::write` makes of the encoder's state and the bytes.
pub uninterp spec fn gz_write(stream: GzStream, data: Seq<u8>) -> Option<(nat, Seq<u8>)>;

/// What an encoder puts out when it is flushed, or `None` if that fails. It is what
/// `GzEncoder::flush` makes of the encoder's state.
pub uninterp spec fn gz_flush(stream: GzStream) -> Option<Seq<u8>>;

/// What an encoder puts out at the end of its stream, or `None` if it fails. It is what
/// `GzEncoder::finish` makes of the encoder's state.
pub uninterp spec fn gz_finish(stream: GzStream) -> Option<Seq<u8>>;

/// The bytes that a gzip decoder, such as `flate2::write::GzDecoder`, makes of a stream, or of the
/// beginning of one.
pub uninterp spec fn gunzipped(stream: Seq<u8>) -> Seq<u8>;

/// Whether a stream begins as a gzip stream does.
pub open spec fn has_gzip_magic(stream: Seq<u8>) -> bool {
    stream.len() >= 2 && stream[0] == 0x1f && stream[1] == 0x8b
}

impl GzStream {
    /// `GzEncoder::new` makes an encoder for a compression level from 0 to 9, which has put out
    /// nothing yet.
    #[verifier::external_body]
    pub(crate) fn new(level: u32) -> (r: GzStream)
        requires
            level <= 9,
        ensures
            gz_level(r) == level,
            gz_input(r) == Seq::<u8>::empty(),
            gz_emitted(r) == Seq::<u8>::empty(),
    {
        GzStream { inner: GzEncoder::new(Vec::new(), Compression::new(level)) }
    }

    /// `GzEncoder::write` takes a prefix of the data, which is not empty unless the data is, and
    /// puts out what it has to, or fails: the state of the encoder and the data decide. What has
    /// come out decodes to the beginning of what went in.
    #[verifier::external_body]
    pub(crate) fn write(&mut self, data: &[u8]) -> (r: Result<(usize, Vec<u8>), std::io::Error>)
        ensures
            gz_level(*final(self)) == gz_level(*old(self)),
            match r {
                Ok((n, out)) => {
                    &&& gz_write(*old(self), data@) == Some((n as nat, out@))
                    &&& n <= data@.len()
                    &&& data@.len() > 0 ==> n > 0
                    &&& gz_input(*final(self)) == gz_input(*old(self)) + data@.take(n as int)
                    &&& gz_emitted(*final(self)) == gz_emitted(*old(self)) + out@
                    &&& gunzipped(gz_emitted(*final(self))).is_prefix_of(gz_input(*final(self)))
                },
                Err(_) => gz_write(*old(self), data@) is None,
            },
    {
        let n = self.inner.write(data)?;
        Ok((n, std::mem::take(self.inner.get_mut())))
    }

    /// `GzEncoder::flush` puts out what the encoder has ready, or fails: the state of the encoder
    /// decides. What has come out decodes to the beginning of what went in. It need not be all of
    /// it: where the encoder's output fills its buffer, the end is kept back.
    #[verifier::external_body]
    pub(crate) fn flush(&mut self) -> (r: Result<Vec<u8>, std::io::Error>)
        ensures
            gz_level(*final(self)) == gz_level(*old(self)),
            match r {
                Ok(out) => {
                    &&& gz_flush(*old(self)) == Some(out@)
                    &&& gz_input(*final(self)) == gz_input(*old(self))
                    &&& gz_emitted(*final(self)) == gz_emitted(*old(self)) + out@
                    &&& gunzipped(gz_emitted(*final(self))).is_prefix_of(gz_input(*final(self)))
                },
                Err(_) => gz_flush(*old(self)) is None,
            },
    {
        self.inner.flush()?;
        Ok(std::mem::take(self.inner.get_mut()))
    }

    /// `GzEncoder::finish` puts out the rest of the stream, from the whole of which a decoder makes
    /// what was written, or fails: the state of the encoder decides.
    #[verifier::external_body]
    pub(crate) fn finish(self) -> (r: Result<Vec<u8>, std::io::Error>)
        ensures
            match r {
                Ok(out) => {
                    &&& gz_finish(self) == Some(out@)
                    &&& gunzipped(gz_emitted(self) + out@) == gz_input(self)
                    &&& has_gzip_magic(gz_emitted(self) + out@)
                },
                Err(_) => gz_finish(self) is None,
            },
    {
        self.inner.finish()
    }
}

/// The sending end of a response body.
/// Automatically applies `gzip` content encoding if requested by the client.
///
/// The stream is infinitely buffered; calls to `write` and `flush` never block. `flush` thus is a
/// hint that data should be sent to the client as soon as possible, but this shouldn't be expected
/// to happen before it returns. `write` and `flush` may return error; this indicates that the
/// client certainly won't receive any additional bytes, so the calling code should stop producing
/// them.
///
/// The infinite buffering avoids the need for calling code to deal with backpressure via futures
/// or blocking. Many applications anyway produce output while holding a lock or database
/// transaction that should finish quickly, so backpressure must be ignored anyway.
pub enum BodyWriter {
    /// No content coding is applied.
    Raw(Writer),
    /// What is written goes through the encoder.
    Gzipped(GzStream, Writer),
    /// No more data should be sent. The stream was aborted, or a previous call discovered that the
    /// receiver has been dropped.
    Dead,
}

/// Whether an encoder of the given compression level has not been given anything yet.
pub open spec fn is_new_encoder(gz: GzStream, level: u32) -> bool {
    gz_level(gz) == level && gz_input(gz).len() == 0 && gz_emitted(gz).len() == 0
}

/// Whether a body writer and a reader are the two ends of one stream.
pub open spec fn paired<E, W>(writer: BodyWriter, reader: Reader<E, W>) -> bool {
    match writer {
        BodyWriter::Raw(w) => in_order(w, reader) && has_room_for(w, reader, 0),
        BodyWriter::Gzipped(_, w) => in_order(w, reader) && has_room_for(w, reader, 0),
        BodyWriter::Dead => reader.wf(),
    }
}

/// Why what an encoder has put out cannot be handed to a stream, if it cannot: too much waits
/// already, or a chunk is full and the receiver is gone.
pub open spec fn forward_error<E, W>(
    w: Writer,
    reader: Reader<E, W>,
    out: Seq<u8>,
) -> Option<WriteError> {
    if !has_room_for(w, reader, out.len()) {
        Some(WriteError::QueueFull)
    } else if reader@ is Open || out.len() == 0 || w.buffered().len() + out.len()
        < w.chunk_size() {
        None
    } else {
        Some(WriteError::ReceiverDropped)
    }
}

/// Why what an encoder has put out cannot be flushed through a stream, if it cannot: it cannot be
/// handed to the stream, or there is something to flush and the receiver is gone.
pub open spec fn flush_error<E, W>(
    w: Writer,
    reader: Reader<E, W>,
    out: Seq<u8>,
) -> Option<WriteError> {
    match forward_error(w, reader, out) {
        Some(e) => Some(e),
        None => if reader@ is Open || w.buffered().len() + out.len() == 0 {
            None
        } else {
            Some(WriteError::ReceiverDropped)
        },
    }
}

/// Hands what an encoder has put out to a stream. Returns the waker to notify.
pub fn forward<E, W>(writer: &mut Writer, reader: &mut Reader<E, W>, out: &[u8]) -> (r: (
    Result<(), WriteError>,
    Option<W>,
))
    requires
        in_order(*old(writer), *old(reader)),
        has_room_for(*old(writer), *old(reader), 0),
    ensures
        in_order(*final(writer), *final(reader)),
        has_room_for(*final(writer), *final(reader), 0),
        final(writer).chunk_size() == old(writer).chunk_size(),
        match forward_error(*old(writer), *old(reader), out@) {
            None => r.0 is Ok,
            Some(e) => r.0 == Err::<(), WriteError>(e),
        },
        if !has_room_for(*old(writer), *old(reader), out@.len()) {
            &&& r.1 is None
            &&& *final(writer) == *old(writer)
            &&& *final(reader) == *old(reader)
        } else {
            match (old(reader)@, final(reader)@) {
                (
                    Channel::Open { ready, writer_dropped },
                    Channel::Open { ready: ready_after, writer_dropped: dropped_after },
                ) => {
                    &&& undelivered(*final(writer), *final(reader)) == undelivered(
                        *old(writer),
                        *old(reader),
                    ) + out@
                    &&& has_grown(ready, ready_after, old(writer).chunk_size(), false)
                    &&& if ready_after.len() > ready.len() {
                        &&& !dropped_after
                        &&& r.1 == old(reader).registered()
                        &&& final(reader).registered() is None
                    } else {
                        &&& final(reader)@ == old(reader)@
                        &&& r.1 is None
                        &&& final(reader).registered() == old(reader).registered()
                    }
                },
                (channel, after) => {
                    &&& after == channel
                    &&& r.1 is None
                    &&& final(reader).registered() == old(reader).registered()
                    &&& r.0 is Ok ==> final(writer).buffered() == old(writer).buffered() + out@
                },
            }
        },
{
    if !writer.has_room(reader, out.len()) {
        return (Err(WriteError::QueueFull), None);
    }
    let r = writer.write_all(reader, out);
    proof {
        if old(reader)@ is Open {
            assert(undelivered(*writer, *reader).len() == reader.ready_len()
                + writer.buffered().len());
            assert(undelivered(*old(writer), *old(reader)).len() == old(reader).ready_len() + old(
                writer,
            ).buffered().len());
        } else {
            assert(writer.buffered().len() <= old(writer).buffered().len() + out@.len());
        }
    }
    r
}

/// Ends a stream with what an encoder has put out last, or without it if the encoder failed.
/// Returns the waker to notify.
pub fn end_encoded<E, W>(writer: Writer, reader: &mut Reader<E, W>, out: Option<&[u8]>) -> (r:
    Option<W>)
    requires
        in_order(writer, *old(reader)),
        has_room_for(writer, *old(reader), 0),
    ensures
        final(reader).wf(),
        is_notified(*old(reader), *final(reader), r),
        match (old(reader)@, final(reader)@) {
            (
                Channel::Open { ready: ready_before, .. },
                Channel::Open { ready, writer_dropped },
            ) => {
                &&& writer_dropped
                &&& has_grown(ready_before, ready, writer.chunk_size(), true)
                &&& joined(ready) == match out {
                    Some(bytes) if has_room_for(
                        writer,
                        *old(reader),
                        bytes@.len(),
                    ) => undelivered(writer, *old(reader)) + bytes@,
                    _ => undelivered(writer, *old(reader)),
                }
            },
            (channel, after) => after == channel,
        },
{
    let mut writer = writer;
    let waker: Option<W> = match out {
        Some(bytes) => forward(&mut writer, reader, bytes).1,
        None => None,
    };
    proof {
        if let (Channel::Open { ready, .. }, Channel::Open { ready: between, .. }) = (
            old(reader)@,
            reader@,
        ) {
            lemma_grown_and_cut(ready, between, writer.buffered(), writer.chunk_size());
        }
    }
    let last = writer.close(reader);
    if waker.is_some() {
        waker
    } else {
        last
    }
}

impl BodyWriter {
    /// A body without a content coding.
    pub fn raw(w: Writer) -> (r: BodyWriter)
        ensures
            r == BodyWriter::Raw(w),
    {
        BodyWriter::Raw(w)
    }

    /// A body with the `gzip` content coding, of the given compression level.
    pub fn gzipped(w: Writer, level: u32) -> (r: BodyWriter)
        requires
            level <= 9,
        ensures
            r matches BodyWriter::Gzipped(gz, writer) && writer == w && is_new_encoder(gz, level),
    {
        BodyWriter::Gzipped(GzStream::new(level), w)
    }

    /// Causes the stream to end abruptly with the given error. Returns the waker to notify.
    pub fn abort<E, W>(&mut self, reader: &mut Reader<E, W>, error: E) -> (r: Option<W>)
        requires
            old(reader).wf(),
        ensures
            final(reader).wf(),
            *final(self) == BodyWriter::Dead,
            if old(reader)@ is Open && *old(self) !is Dead {
                &&& final(reader)@ == Channel::Failed(error)
                &&& final(reader).registered() is None
                &&& r == old(reader).registered()
            } else {
                *final(reader) == *old(reader) && r is None
            },
    {
        let mut writer = BodyWriter::Dead;
        core::mem::swap(&mut writer, self);
        match writer {
            BodyWriter::Dead => None,
            BodyWriter::Raw(mut w) => w.abort(reader, error),
            BodyWriter::Gzipped(_, mut w) => w.abort(reader, error),
        }
    }

    /// Ends the stream after an error: no more data should be sent. Returns the waker to notify.
    fn die<E, W>(&mut self, reader: &mut Reader<E, W>) -> (r: Option<W>)
        requires
            paired(*old(self), *old(reader)),
        ensures
            *final(self) == BodyWriter::Dead,
            final(reader).wf(),
            match *old(self) {
                BodyWriter::Dead => r is None && *final(reader) == *old(reader),
                BodyWriter::Raw(w) => is_closed(w, *old(reader), *final(reader), r),
                BodyWriter::Gzipped(_, w) => is_closed(w, *old(reader), *final(reader), r),
            },
    {
        let mut writer = BodyWriter::Dead;
        core::mem::swap(&mut writer, self);
        match writer {
            BodyWriter::Dead => None,
            BodyWriter::Raw(w) => w.close(reader),
            BodyWriter::Gzipped(_, w) => w.close(reader),
        }
    }

    /// Writes a prefix of `data`. Returns the number of bytes that were taken, and the waker to
    /// notify. Where an encoder is in between, it takes something of the data unless it fails, and
    /// what it puts out is what the stream gets. An error ends the stream.
    pub fn write<E, W>(&mut self, reader: &mut Reader<E, W>, data: &[u8]) -> (r: (
        Result<usize, WriteError>,
        Option<W>,
    ))
        requires
            paired(*old(self), *old(reader)),
        ensures
            paired(*final(self), *final(reader)),
            is_notified(*old(reader), *final(reader), r.1),
            match *old(self) {
                BodyWriter::Dead => {
                    &&& r.0 == Err::<usize, WriteError>(WriteError::BodyDead)
                    &&& r.1 is None
                    &&& *final(self) == *old(self) && *final(reader) == *old(reader)
                },
                BodyWriter::Raw(w) => {
                    let effect = write_effect(w.buffered(), w.chunk_size(), old(reader)@, data@);
                    if !has_room_for(w, *old(reader), data@.len()) {
                        &&& r.0 == Err::<usize, WriteError>(WriteError::QueueFull)
                        &&& *final(self) == BodyWriter::Dead
                        &&& is_closed(w, *old(reader), *final(reader), r.1)
                    } else if effect.taken is Some {
                        &&& r.0 == Ok::<usize, WriteError>(effect.taken->0 as usize)
                        &&& *final(self) matches BodyWriter::Raw(w_after) && has_effect(
                            effect,
                            (w, *old(reader)),
                            (w_after, *final(reader)),
                            r.1,
                        )
                    } else {
                        &&& r.0 == Err::<usize, WriteError>(WriteError::ReceiverDropped)
                        &&& *final(self) == BodyWriter::Dead
                        &&& r.1 is None && final(reader)@ == old(reader)@
                    }
                },
                BodyWriter::Gzipped(gz, w) => match gz_write(gz, data@) {
                    None => {
                        &&& r.0 == Err::<usize, WriteError>(WriteError::EncoderFailed)
                        &&& *final(self) == BodyWriter::Dead
                        &&& is_closed(w, *old(reader), *final(reader), r.1)
                    },
                    Some((n, out)) => match forward_error(w, *old(reader), out) {
                        Some(e) => {
                            &&& r.0 == Err::<usize, WriteError>(e)
                            &&& *final(self) == BodyWriter::Dead
                            &&& is_closed(w, *old(reader), *final(reader), r.1)
                        },
                        None => {
                            &&& r.0 == Ok::<usize, WriteError>(n as usize)
                            &&& n <= data@.len()
                            &&& data@.len() > 0 ==> n > 0
                            &&& *final(self) matches BodyWriter::Gzipped(gz_after, w_after) && {
                                &&& gz_level(gz_after) == gz_level(gz)
                                &&& gz_input(gz_after) == gz_input(gz) + data@.take(n as int)
                                &&& is_forwarded(
                                    (gz, w, *old(reader)),
                                    out,
                                    (gz_after, w_after, *final(reader)),
                                    false,
                                )
                            }
                        },
                    },
                },
            },
    {
        let ghost before = *self;
        let (result, waker): (Result<usize, WriteError>, Option<W>) = match self {
            BodyWriter::Dead => return (Err(WriteError::BodyDead), None),
            BodyWriter::Raw(w) => {
                if w.has_room(reader, data.len()) {
                    match w.write(reader, data) {
                        Ok((n, waker)) => (Ok(n), waker),
                        Err(e) => (Err(e), None),
                    }
                } else {
                    (Err(WriteError::QueueFull), None)
                }
            },
            BodyWriter::Gzipped(gz, w) => match gz.write(data) {
                Err(_) => (Err(WriteError::EncoderFailed), None),
                Ok((n, out)) => match forward(w, reader, out.as_slice()) {
                    (Ok(_), waker) => (Ok(n), waker),
                    (Err(e), waker) => (Err(e), waker),
                },
            },
        };
        let ghost after = *self;
        proof {
            lemma_lengths(before, *old(reader));
            lemma_lengths(after, *reader);
        }
        match result {
            Ok(n) => (Ok(n), waker),
            Err(e) => (Err(e), self.die(reader)),
        }
    }

    /// Hands what was written to the reader. Returns the waker to notify. Where an encoder is in
    /// between, all that it puts out is handed over; it may keep back the end of what was written.
    /// An error ends the stream.
    pub fn flush<E, W>(&mut self, reader: &mut Reader<E, W>) -> (r: (
        Result<(), WriteError>,
        Option<W>,
    ))
        requires
            paired(*old(self), *old(reader)),
        ensures
            paired(*final(self), *final(reader)),
            is_notified(*old(reader), *final(reader), r.1),
            match *old(self) {
                BodyWriter::Dead => {
                    &&& r.0 == Err::<(), WriteError>(WriteError::BodyDead)
                    &&& r.1 is None
                    &&& *final(self) == *old(self) && *final(reader) == *old(reader)
                },
                BodyWriter::Raw(w) => {
                    let effect = flush_effect(w.buffered(), old(reader)@, false);
                    if effect.taken is Some {
                        &&& r.0 is Ok
                        &&& *final(self) matches BodyWriter::Raw(w_after) && has_effect(
                            effect,
                            (w, *old(reader)),
                            (w_after, *final(reader)),
                            r.1,
                        )
                    } else {
                        &&& r.0 == Err::<(), WriteError>(WriteError::ReceiverDropped)
                        &&& *final(self) == BodyWriter::Dead
                        &&& r.1 is None && final(reader)@ == old(reader)@
                    }
                },
                BodyWriter::Gzipped(gz, w) => match gz_flush(gz) {
                    None => {
                        &&& r.0 == Err::<(), WriteError>(WriteError::EncoderFailed)
                        &&& *final(self) == BodyWriter::Dead
                        &&& is_closed(w, *old(reader), *final(reader), r.1)
                    },
                    Some(out) => match flush_error(w, *old(reader), out) {
                        Some(e) => {
                            &&& r.0 == Err::<(), WriteError>(e)
                            &&& *final(self) == BodyWriter::Dead
                            &&& is_closed(w, *old(reader), *final(reader), r.1)
                        },
                        None => {
                            &&& r.0 is Ok
                            &&& *final(self) matches BodyWriter::Gzipped(gz_after, w_after) && {
                                &&& gz_level(gz_after) == gz_level(gz)
                                &&& gz_input(gz_after) == gz_input(gz)
                                &&& is_forwarded(
                                    (gz, w, *old(reader)),
                                    out,
                                    (gz_after, w_after, *final(reader)),
                                    true,
                                )
                                &&& w_after.buffered().len() == 0
                            }
                        },
                    },
                },
            },
    {
        let ghost before = *self;
        let (result, waker): (Result<(), WriteError>, Option<W>) = match self {
            BodyWriter::Dead => return (Err(WriteError::BodyDead), None),
            BodyWriter::Raw(w) => match w.flush(reader) {
                Ok(waker) => (Ok(()), waker),
                Err(e) => (Err(e), None),
            },
            BodyWriter::Gzipped(gz, w) => match gz.flush() {
                Err(_) => (Err(WriteError::EncoderFailed), None),
                Ok(out) => match forward(w, reader, out.as_slice()) {
                    (Err(e), waker) => (Err(e), waker),
                    (Ok(_), first) => {
                        proof {
                            if let (
                                Channel::Open { ready, .. },
                                Channel::Open { ready: between, .. },
                            ) = (old(reader)@, reader@) {
                                lemma_grown_and_cut(ready, between, w.buffered(), w.chunk_size());
                            }
                        }
                        match w.flush(reader) {
                            Ok(second) => (
                                Ok(()),
                                if first.is_some() {
                                    first
                                } else {
                                    second
                                },
                            ),
                            Err(e) => (Err(e), first),
                        }
                    },
                },
            },
        };
        let ghost after = *self;
        proof {
            lemma_lengths(before, *old(reader));
            lemma_lengths(after, *reader);
        }
        match result {
            Ok(_) => (Ok(()), waker),
            Err(e) => (Err(e), self.die(reader)),
        }
    }

    /// Ends the stream. For gzip, this writes a special footer. Returns the waker to notify.
    ///
    /// There's no way to know the complete stream was written successfully. It's inherent in the
    /// combination of HTTP / TCP / Unix sockets anyway that only the client knows this.
    pub fn finish<E, W>(self, reader: &mut Reader<E, W>) -> (r: Option<W>)
        requires
            paired(self, *old(reader)),
        ensures
            final(reader).wf(),
            match self {
                BodyWriter::Dead => r is None && *final(reader) == *old(reader),
                BodyWriter::Raw(w) => is_closed(w, *old(reader), *final(reader), r),
                BodyWriter::Gzipped(gz, w) => {
                    &&& is_notified(*old(reader), *final(reader), r)
                    &&& is_gzip_end(gz, w, *old(reader), *final(reader))
                },
            },
    {
        match self {
            BodyWriter::Dead => None,
            BodyWriter::Raw(w) => w.close(reader),
            BodyWriter::Gzipped(gz, w) => match gz.finish() {
                Ok(out) => end_encoded(w, reader, Some(out.as_slice())),
                Err(_) => end_encoded(w, reader, None),
            },
        }
    }

    /// Starts the body of a response to a request with the given headers: returns its sending
    /// end, its receiving end, and the headers of the response.
    pub fn new<E, W>(req_hdrs: &HeaderMap<HeaderValue>) -> (r: (
        BodyWriter,
        Reader<E, W>,
        HeaderMap<HeaderValue>,
    ))
        ensures
            paired(r.0, r.1),
            r.1@ == (Channel::<E>::Open { ready: Seq::empty(), writer_dropped: false }),
            r.1.registered() is None,
            if wants_gzip(header_entries(*req_hdrs)) {
                &&& r.0 matches BodyWriter::Gzipped(gz, w) && w.chunk_size() == 4096
                    && w.buffered().len() == 0 && is_new_encoder(gz, 1)
                &&& header_entries(r.2) == seq![
                    ("vary"@, seq!["accept-encoding".spec_bytes()]),
                    ("content-encoding"@, seq!["gzip, chunked".spec_bytes()]),
                ]
            } else {
                &&& r.0 matches BodyWriter::Raw(w) && w.chunk_size() == 4096 && w.buffered().len()
                    == 0
                &&& header_entries(r.2) == seq![("vary"@, seq!["accept-encoding".spec_bytes()])]
            },
    {
        let (raw, reader) = Writer::with_chunk_size(4096);
        assert(joined(Seq::empty()) =~= Seq::empty());
        let mut headers = start_streaming_headers();
        let writer = if should_gzip(req_hdrs) {
            proof {
                lemma_streaming_names();
                reveal_strlit("gzip, chunked");
                lemma_visible_text("gzip, chunked");
            }
            add_new(&mut headers, "content-encoding", header_value("gzip, chunked".as_bytes()));
            assert(header_entries(headers) =~= seq![
                ("vary"@, seq!["accept-encoding".spec_bytes()]),
                ("content-encoding"@, seq!["gzip, chunked".spec_bytes()]),
            ]);
            BodyWriter::gzipped(raw, 1)
        } else {
            BodyWriter::raw(raw)
        };
        (writer, reader, headers)
    }
}

/// Whether the headers of a request prefer the `gzip` content coding to none.
pub open spec fn wants_gzip(h: Headers) -> bool {
    match first_value(h, "accept-encoding"@) {
        Some(value) => prefers_gzip(value),
        None => false,
    }
}

/// The headers of a response whose content coding depends on the request.
pub(crate) fn start_streaming_headers() -> (r: HeaderMap<HeaderValue>)
    ensures
        header_entries(r) == seq![("vary"@, seq!["accept-encoding".spec_bytes()])],
{
    proof {
        reveal_strlit("accept-encoding");
        lemma_visible_text("accept-encoding");
    }
    let mut headers = new_map();
    add_new(&mut headers, "vary", header_value("accept-encoding".as_bytes()));
    assert(header_entries(headers) =~= seq![("vary"@, seq!["accept-encoding".spec_bytes()])]);
    headers
}

pub(crate) proof fn lemma_streaming_names()
    ensures
        "vary"@ != "content-encoding"@,
{
    reveal_strlit("vary");
    reveal_strlit("content-encoding");
    assert("vary"@.len() == 4);
    assert("content-encoding"@.len() == 16);
}

/// Whether a gzip stream was ended: what the encoder puts out last is what the stream got last, so
/// that a decoder makes what was written of the whole. Where the encoder fails, or too much waits
/// already, the stream got nothing more.
pub open spec fn is_gzip_end<E, W>(
    gz: GzStream,
    w: Writer,
    before: Reader<E, W>,
    after: Reader<E, W>,
) -> bool {
    &&& gz_finish(gz) matches Some(rest) ==> gunzipped(gz_emitted(gz) + rest) == gz_input(gz)
        && has_gzip_magic(gz_emitted(gz) + rest)
    &&& match (before@, after@) {
        (Channel::Open { ready: ready_before, .. }, Channel::Open { ready, writer_dropped }) => {
            &&& writer_dropped
            &&& has_grown(ready_before, ready, w.chunk_size(), true)
            &&& joined(ready) == match gz_finish(gz) {
                Some(rest) if has_room_for(w, before, rest.len()) => undelivered(w, before) + rest,
                _ => undelivered(w, before),
            }
        },
        (channel, channel_after) => channel_after == channel,
    }
}

/// Whether the sending end was closed: all that was not delivered yet is there for the reader, and
/// nothing will follow.
pub open spec fn is_closed<E, W>(
    w: Writer,
    before: Reader<E, W>,
    after: Reader<E, W>,
    waker: Option<W>,
) -> bool {
    let effect = flush_effect(w.buffered(), before@, true);
    &&& after.wf()
    &&& after@ == effect.channel
    &&& if effect.notify {
        waker == before.registered() && after.registered() is None
    } else {
        waker is None && after.registered() == before.registered()
    }
}

/// Whether the waker that was registered is returned where there is something new for the reader,
/// and is not lost otherwise.
pub open spec fn is_notified<E, W>(
    before: Reader<E, W>,
    after: Reader<E, W>,
    waker: Option<W>,
) -> bool {
    ||| waker == before.registered() && after.registered() is None
    ||| waker is None && after.registered() == before.registered() && after@ == before@
}

/// Whether `out` is what an encoder has put out from one moment to the next, and what the stream
/// got, in chunks of its size; `cut` says whether they were flushed. All that came out so far
/// decodes to the beginning of what went in.
pub open spec fn is_forwarded<E, W>(
    before: (GzStream, Writer, Reader<E, W>),
    out: Seq<u8>,
    after: (GzStream, Writer, Reader<E, W>),
    cut: bool,
) -> bool {
    &&& gz_emitted(after.0) == gz_emitted(before.0) + out
    &&& gunzipped(gz_emitted(after.0)).is_prefix_of(gz_input(after.0))
    &&& after.1.chunk_size() == before.1.chunk_size()
    &&& match (before.2@, after.2@) {
        (
            Channel::Open { ready, writer_dropped },
            Channel::Open { ready: ready_after, writer_dropped: dropped_after },
        ) => {
            &&& undelivered(after.1, after.2) == undelivered(before.1, before.2) + out
            &&& has_grown(ready, ready_after, before.1.chunk_size(), cut)
            &&& dropped_after == (writer_dropped && ready_after.len() == ready.len())
        },
        (channel, channel_after) => channel_after == channel,
    }
}

/// While a stream is open, the number of bytes not delivered yet is the sum of its parts.
proof fn lemma_lengths<E, W>(writer: BodyWriter, reader: Reader<E, W>)
    ensures
        match writer {
            BodyWriter::Raw(w) => reader@ is Open ==> undelivered(w, reader).len()
                == reader.ready_len() + w.buffered().len(),
            BodyWriter::Gzipped(_, w) => reader@ is Open ==> undelivered(w, reader).len()
                == reader.ready_len() + w.buffered().len(),
            BodyWriter::Dead => true,
        },
{
}

/// Whether what was delivered of a stream, and what is still to be, is what the encoder put out.
pub open spec fn accounts_for<E, W>(
    gz: GzStream,
    w: Writer,
    reader: Reader<E, W>,
    delivered: Seq<u8>,
) -> bool {
    reader@ is Open && delivered + undelivered(w, reader) == gz_emitted(gz)
}

/// A stream that starts with an encoder accounts for what the encoder puts out, and goes on to do
/// so when bytes are written or flushed, and when chunks are delivered.
pub proof fn law_gzip_accounting<E, W>(
    before: (GzStream, Writer, Reader<E, W>),
    after: (GzStream, Writer, Reader<E, W>),
    delivered: Seq<u8>,
    chunk: Seq<u8>,
    cut: bool,
)
    requires
        accounts_for(before.0, before.1, before.2, delivered),
    ensures
        is_forwarded(before, chunk, after, cut) ==> accounts_for(
            after.0,
            after.1,
            after.2,
            delivered,
        ),
        after.0 == before.0 && after.1 == before.1 && after.2@ is Open && ready_content(
            before.2@,
        ) == chunk + ready_content(after.2@) ==> accounts_for(
            after.0,
            after.1,
            after.2,
            delivered + chunk,
        ),
{
    if is_forwarded(before, chunk, after, cut) {
        assert(delivered + undelivered(after.1, after.2) =~= gz_emitted(before.0) + chunk);
    }
    if after.1 == before.1 && after.2@ is Open && ready_content(before.2@) == chunk
        + ready_content(after.2@) {
        assert(delivered + chunk + undelivered(after.1, after.2) =~= delivered + undelivered(
            before.1,
            before.2,
        ));
    }
}

/// What a client decodes of a stream that was finished is what was written, unless the encoder
/// failed at the end or too much waited already.
pub proof fn law_gzip_reads_back<E, W>(
    gz: GzStream,
    w: Writer,
    before: Reader<E, W>,
    after: Reader<E, W>,
    delivered: Seq<u8>,
)
    requires
        accounts_for(gz, w, before, delivered),
        is_gzip_end(gz, w, before, after),
        after@ is Open,
        gz_finish(gz) is Some,
        has_room_for(w, before, (gz_finish(gz)->0).len()),
    ensures
        gunzipped(delivered + ready_content(after@)) == gz_input(gz),
        has_gzip_magic(delivered + ready_content(after@)),
{
    assert(delivered + ready_content(after@) =~= gz_emitted(gz) + gz_finish(gz)->0);
}

/// After a flush, what a client decodes of all that is ready for it is the beginning of what was
/// written so far.
pub proof fn law_flushed_gzip_decodes_to_a_prefix<E, W>(
    before: (GzStream, Writer, Reader<E, W>),
    out: Seq<u8>,
    after: (GzStream, Writer, Reader<E, W>),
    delivered: Seq<u8>,
)
    requires
        accounts_for(before.0, before.1, before.2, delivered),
        is_forwarded(before, out, after, true),
        after.1.buffered().len() == 0,
    ensures
        gunzipped(delivered + ready_content(after.2@)).is_prefix_of(gz_input(after.0)),
{
    law_gzip_accounting(before, after, delivered, out, true);
    assert(undelivered(after.1, after.2) =~= ready_content(after.2@));
}

/// A client wants gzip iff it sends an `Accept-Encoding` that prefers it to no coding.
pub proof fn law_wants_gzip(h: Headers)
    ensures
        wants_gzip(h) <==> (first_value(h, "accept-encoding"@) matches Some(value) && prefers_gzip(
            value,
        )),
{
}

/// What an encoder puts out is handed on as long as the stream is open and has room for it. Only a
/// receiver that is gone, or bytes too many to be counted, are in the way.
pub proof fn law_output_is_handed_on<E, W>(w: Writer, reader: Reader<E, W>, out: Seq<u8>)
    requires
        w.wf(),
    ensures
        reader@ is Open && has_room_for(w, reader, out.len()) ==> forward_error(w, reader, out) is None
            && flush_error(w, reader, out) is None,
        forward_error(w, reader, out) == Some(WriteError::QueueFull) <==> !has_room_for(
            w,
            reader,
            out.len(),
        ),
        flush_error(w, reader, out) == Some(WriteError::QueueFull) <==> !has_room_for(
            w,
            reader,
            out.len(),
        ),
        forward_error(w, reader, out) == Some(WriteError::ReceiverDropped) ==> !(reader@ is Open),
        has_room_for(w, reader, out.len()) && !(reader@ is Open) ==> {
            &&& forward_error(w, reader, out) is Some <==> out.len() > 0 && w.buffered().len()
                + out.len() >= w.chunk_size()
            &&& flush_error(w, reader, out) is Some <==> w.buffered().len() + out.len() > 0
        },
{
}

/// A stream whose writer is gone ends with all that was not delivered yet, and the reader is woken.
pub proof fn law_closed_stream<E, W>(
    w: Writer,
    before: Reader<E, W>,
    after: Reader<E, W>,
    waker: Option<W>,
)
    requires
        is_closed(w, before, after, waker),
    ensures
        before@ matches Channel::Open { ready, .. } ==> {
            &&& after@ matches Channel::Open { ready: ready_after, writer_dropped } && writer_dropped
                && joined(ready_after) == joined(ready) + w.buffered()
            &&& waker == before.registered()
        },
        !(before@ is Open) ==> after@ == before@ && waker is None,
{
    if let Channel::Open { ready, .. } = before@ {
        crate::chunker::lemma_joined_push(ready, w.buffered());
        assert(joined(ready) + Seq::<u8>::empty() =~= joined(ready));
        if w.buffered().len() == 0 {
            assert(w.buffered() =~= Seq::empty());
        }
    }
}

/// Where there is something new for a reader, the task that waits for it is returned to be woken.
pub proof fn law_notified<E, W>(before: Reader<E, W>, after: Reader<E, W>, waker: Option<W>)
    requires
        is_notified(before, after, waker),
    ensures
        after@ != before@ ==> waker == before.registered(),
        waker is None ==> after.registered() == before.registered(),
        waker is Some ==> waker == before.registered() && after.registered() is None,
{
}

/// What an encoder has put out is what an open stream got behind what it had, in chunks of its size.
pub proof fn law_forwarded<E, W>(
    before: (GzStream, Writer, Reader<E, W>),
    out: Seq<u8>,
    after: (GzStream, Writer, Reader<E, W>),
    cut: bool,
)
    requires
        is_forwarded(before, out, after, cut),
    ensures
        gz_emitted(after.0) == gz_emitted(before.0) + out,
        gunzipped(gz_emitted(after.0)).is_prefix_of(gz_input(after.0)),
        after.1.chunk_size() == before.1.chunk_size(),
        before.2@ matches Channel::Open { ready, .. } ==> (after.2@ matches Channel::Open {
            ready: ready_after,
            ..
        } && {
            &&& joined(ready_after) + after.1.buffered() == joined(ready) + before.1.buffered() + out
            &&& has_grown(ready, ready_after, before.1.chunk_size(), cut)
        }),
        !(before.2@ is Open) ==> after.2@ == before.2@,
{
}

/// A gzip stream that was open ends with what the encoder puts out at its end, if there is room for
/// that, and without anything else.
pub proof fn law_gzip_end<E, W>(
    gz: GzStream,
    w: Writer,
    before: Reader<E, W>,
    after: Reader<E, W>,
    rest: Seq<u8>,
)
    requires
        is_gzip_end(gz, w, before, after),
    ensures
        before@ matches Channel::Open { ready, .. } ==> (after@ matches Channel::Open {
            ready: ready_after,
            writer_dropped,
        } && {
            &&& writer_dropped
            &&& has_grown(ready, ready_after, w.chunk_size(), true)
            &&& gz_finish(gz) == Some(rest) && has_room_for(w, before, rest.len()) ==> joined(
                ready_after,
            ) == joined(ready) + w.buffered() + rest
            &&& gz_finish(gz) is None ==> joined(ready_after) == joined(ready) + w.buffered()
        }),
        !(before@ is Open) ==> after@ == before@,
        gz_finish(gz) == Some(rest) ==> gunzipped(gz_emitted(gz) + rest) == gz_input(gz),
{
}

/// A new encoder has the level that was asked for, and neither got nor gave anything.
pub proof fn law_new_encoder(gz: GzStream, level: u32)
    requires
        is_new_encoder(gz, level),
    ensures
        gz_level(gz) == level,
        gz_input(gz) == Seq::<u8>::empty(),
        gz_emitted(gz) == Seq::<u8>::empty(),
{
    assert(gz_input(gz) =~= Seq::empty());
    assert(gz_emitted(gz) =~= Seq::empty());
}

} // verus!
