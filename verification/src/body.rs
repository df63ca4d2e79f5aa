//! Response bodies: what they hold, and how they are delivered piece by piece.
//!
//! A body never reads the entity itself. It tells its driver when to open a stream of the
//! entity's bytes and when to poll it, is told what the poll gave, and says what is to be
//! delivered.

use core::ops::Range;
use vstd::prelude::*;
use vstd::slice::slice_to_vec;
use vstd::string::StringSliceAdditionalSpecFns;

verus! {

/// A part of what a body holds: bytes of its own, or a range of the entity's bytes.
pub enum Piece {
    Bytes(Seq<u8>),
    Entity { start: u64, end: u64 },
}

/// The number of bytes in a piece.
pub open spec fn piece_len(piece: Piece) -> int {
    match piece {
        Piece::Bytes(bytes) => bytes.len() as int,
        Piece::Entity { start, end } => end - start,
    }
}

/// The number of bytes in a sequence of pieces.
pub open spec fn total_len(pieces: Seq<Piece>) -> int
    decreases pieces.len(),
{
    if pieces.len() == 0 {
        0
    } else {
        piece_len(pieces[0]) + total_len(pieces.drop_first())
    }
}

/// The bytes of a piece, where `data` is the entity's body.
pub open spec fn piece_content(piece: Piece, data: Seq<u8>) -> Seq<u8> {
    match piece {
        Piece::Bytes(bytes) => bytes,
        Piece::Entity { start, end } => data.subrange(start as int, end as int),
    }
}

/// The bytes of a sequence of pieces, where `data` is the entity's body.
pub open spec fn content(pieces: Seq<Piece>, data: Seq<u8>) -> Seq<u8>
    decreases pieces.len(),
{
    if pieces.len() == 0 {
        Seq::empty()
    } else {
        piece_content(pieces[0], data) + content(pieces.drop_first(), data)
    }
}

/// Whether every range among the pieces lies within an entity of length `len`.
pub open spec fn pieces_within(pieces: Seq<Piece>, len: int) -> bool {
    forall|i: int|
        0 <= i < pieces.len() ==> (#[trigger] pieces[i] matches Piece::Entity { start, end }
            ==> start <= end <= len)
}

/// A body holds as many bytes as its length says.
pub proof fn law_content_len(pieces: Seq<Piece>, data: Seq<u8>)
    requires
        pieces_within(pieces, data.len() as int),
    ensures
        content(pieces, data).len() == total_len(pieces),
    decreases pieces.len(),
{
    if pieces.len() > 0 {
        assert(pieces_within(pieces.drop_first(), data.len() as int)) by {
            assert forall|i: int| 0 <= i < pieces.drop_first().len() implies (
            #[trigger] pieces.drop_first()[i] matches Piece::Entity { start, end } ==> start <= end
                <= data.len()) by {
                assert(pieces.drop_first()[i] == pieces[i + 1]);
            }
        }
        law_content_len(pieces.drop_first(), data);
        assert(pieces[0] matches Piece::Entity { start, end } ==> start <= end <= data.len());
    }
}

/// What a poll of a stream of the entity's bytes gave.
#[derive(Clone, Copy, Debug, PartialEq, Eq, Structural)]
pub enum Polled {
    /// Nothing yet.
    Pending,
    /// A chunk of so many bytes.
    Chunk(u64),
    /// An error.
    Failed,
    /// The end of the stream.
    End,
}

/// The error of a stream that ended early.
#[derive(Clone, Copy, Debug, PartialEq, Eq, Structural)]
pub struct StreamTooShortError {
    /// How many bytes were still expected.
    pub remaining: u64,
}

impl StreamTooShortError {
    /// The error as text.
    pub fn message(&self) -> (r: Vec<u8>)
        ensures
            r@ == "stream ended with ".spec_bytes() + crate::text::decimal(self.remaining as nat)
                + " bytes still expected".spec_bytes(),
    {
        let mut text: Vec<u8> = Vec::new();
        crate::text::push_text(&mut text, "stream ended with ");
        crate::text::push_decimal(&mut text, self.remaining);
        crate::text::push_text(&mut text, " bytes still expected");
        text
    }
}

/// The error of a stream that returned too much.
#[derive(Clone, Copy, Debug, PartialEq, Eq, Structural)]
pub struct StreamTooLongError {
    /// How many bytes more than expected there were, at least.
    pub extra: u64,
}

impl StreamTooLongError {
    /// The error as text.
    pub fn message(&self) -> (r: Vec<u8>)
        ensures
            r@ == "stream returned (at least) ".spec_bytes() + crate::text::decimal(
                self.extra as nat,
            ) + " bytes more than expected".spec_bytes(),
    {
        let mut text: Vec<u8> = Vec::new();
        crate::text::push_text(&mut text, "stream returned (at least) ");
        crate::text::push_decimal(&mut text, self.extra);
        crate::text::push_text(&mut text, " bytes more than expected");
        text
    }
}

/// What is to be delivered after a poll.
#[derive(Clone, Copy, Debug, PartialEq, Eq, Structural)]
pub enum Delivered {
    /// Nothing yet.
    Pending,
    /// The chunk that the poll gave.
    Chunk,
    /// The error that the poll gave.
    Failed,
    /// An error, as the stream returned too much. The chunk is dropped.
    TooLong(StreamTooLongError),
    /// An error, as the stream ended early.
    TooShort(StreamTooShortError),
    /// The end.
    End,
}

/// Holds a stream to the number of bytes that it is to give.
#[derive(Debug)]
pub struct ExactLenStream {
    pub remaining: u64,
}

impl ExactLenStream {
    /// Expects a stream of `len` bytes.
    pub fn new(len: u64) -> (r: ExactLenStream)
        ensures
            r.remaining == len,
    {
        ExactLenStream { remaining: len }
    }

    /// Takes what a poll of the stream gave, and says what is to be delivered. After the stream
    /// turned out too long or too short, nothing more is expected of it.
    pub fn poll_next(&mut self, polled: Polled) -> (r: Delivered)
        ensures
            match polled {
                Polled::Pending => r == Delivered::Pending && final(self).remaining == old(
                    self,
                ).remaining,
                Polled::Failed => r == Delivered::Failed && final(self).remaining == old(
                    self,
                ).remaining,
                Polled::Chunk(n) => if n <= old(self).remaining {
                    r == Delivered::Chunk && final(self).remaining == old(self).remaining - n
                } else {
                    r == Delivered::TooLong(
                        StreamTooLongError { extra: (n - old(self).remaining) as u64 },
                    ) && final(self).remaining == 0
                },
                Polled::End => if old(self).remaining == 0 {
                    r == Delivered::End && final(self).remaining == 0
                } else {
                    r == Delivered::TooShort(
                        StreamTooShortError { remaining: old(self).remaining },
                    ) && final(self).remaining == 0
                },
            },
    {
        match polled {
            Polled::Chunk(n) => {
                if n <= self.remaining {
                    self.remaining = self.remaining - n;
                    Delivered::Chunk
                } else {
                    let extra: u64 = n - self.remaining;
                    self.remaining = 0;  // fuse.
                    Delivered::TooLong(StreamTooLongError { extra })
                }
            },
            Polled::Failed => Delivered::Failed,
            Polled::End => {
                if self.remaining != 0 {
                    let remaining: u64 = self.remaining;
                    self.remaining = 0;  // fuse.
                    return Delivered::TooShort(StreamTooShortError { remaining });
                }
                Delivered::End
            },
            Polled::Pending => Delivered::Pending,
        }
    }
}

/// The trailer after all `multipart/byteranges` body parts.
pub open spec fn part_trailer() -> Seq<u8> {
    "\r\n--B--\r\n".spec_bytes()
}

/// One step of a multipart body: bytes to deliver, or a range of the entity to read.
pub enum Part {
    Bytes(Vec<u8>),
    Entity(Range<u64>),
}

impl Part {
    /// The piece that this part is.
    pub open spec fn piece(self) -> Piece {
        match self {
            Part::Bytes(bytes) => Piece::Bytes(bytes@),
            Part::Entity(range) => Piece::Entity { start: range.start, end: range.end },
        }
    }
}

/// The bytes that each of the vectors holds.
pub open spec fn views(v: Seq<Vec<u8>>) -> Seq<Seq<u8>> {
    v.map_values(|bytes: Vec<u8>| bytes@)
}

/// What a multipart body holds from a state on: portions of `part_headers` alternate with their
/// corresponding ranges, then comes the overall trailer.
pub open spec fn parts_from(
    state: int,
    ranges: Seq<Range<u64>>,
    part_headers: Seq<Seq<u8>>,
) -> Seq<Piece>
    decreases 2 * ranges.len() + 1 - state,
{
    if state < 0 || state > 2 * ranges.len() {
        Seq::empty()
    } else {
        seq![part_at(state, ranges, part_headers)] + parts_from(state + 1, ranges, part_headers)
    }
}

/// The piece that a multipart body delivers in a state.
pub open spec fn part_at(
    state: int,
    ranges: Seq<Range<u64>>,
    part_headers: Seq<Seq<u8>>,
) -> Piece {
    let i = state / 2;
    if i == ranges.len() {
        Piece::Bytes(part_trailer())
    } else if state % 2 == 1 {
        Piece::Entity { start: ranges[i].start, end: ranges[i].end }
    } else {
        Piece::Bytes(part_headers[i])
    }
}

/// Produces a single chunk of the body and the following state.
///
/// Alternates between portions of `part_headers` and their corresponding ranges, then the overall
/// trailer, then ends. A portion of `part_headers` is handed out and leaves an empty one behind.
pub fn next_multipart_body_chunk(
    state: usize,
    ranges: &Vec<Range<u64>>,
    part_headers: &mut Vec<Vec<u8>>,
) -> (r: Option<(Part, usize)>)
    requires
        ranges@.len() == old(part_headers)@.len(),
        state <= 2 * ranges@.len() + 1 <= usize::MAX,
    ensures
        match r {
            None => state == 2 * ranges@.len() + 1,
            Some((part, next)) => {
                &&& state <= 2 * ranges@.len()
                &&& next == state + 1
                &&& part.piece() == part_at(state as int, ranges@, views(old(part_headers)@))
            },
        },
        final(part_headers)@.len() == old(part_headers)@.len(),
        forall|i: int|
            0 <= i < ranges@.len() && i != state / 2 ==> #[trigger] final(part_headers)@[i] == old(
                part_headers,
            )@[i],
        state % 2 == 1 || state == 2 * ranges@.len() ==> final(part_headers)@ == old(
            part_headers,
        )@,
        state % 2 == 0 && state < 2 * ranges@.len() ==> final(part_headers)@[state as int / 2]@.len()
            == 0,
{
    let i: usize = state / 2;
    let odd: bool = state % 2 == 1;
    if i == ranges.len() && odd {
        return None;
    }
    let part = if i == ranges.len() {
        Part::Bytes(slice_to_vec("\r\n--B--\r\n".as_bytes()))
    } else if odd {
        Part::Entity(ranges[i].start..ranges[i].end)
    } else {
        let mut v: Vec<u8> = Vec::new();
        core::mem::swap(&mut v, &mut part_headers[i]);
        Part::Bytes(v)
    };
    Some((part, state + 1))
}

/// The pieces from a state on do not depend on the headers of parts that lie behind.
proof fn lemma_parts_from(
    state: int,
    ranges: Seq<Range<u64>>,
    a: Seq<Seq<u8>>,
    b: Seq<Seq<u8>>,
)
    requires
        0 <= state,
        a.len() == b.len() == ranges.len(),
        forall|i: int|
            0 <= i < ranges.len() && state <= 2 * i ==> #[trigger] a[i] == #[trigger] b[i],
    ensures
        parts_from(state, ranges, a) == parts_from(state, ranges, b),
    decreases 2 * ranges.len() + 1 - state,
{
    if state <= 2 * ranges.len() {
        lemma_parts_from(state + 1, ranges, a, b);
    }
}

/// The pieces of a multipart body run forward if its ranges do.
pub proof fn lemma_parts_forward(state: int, ranges: Seq<Range<u64>>, part_headers: Seq<Seq<u8>>)
    requires
        0 <= state,
        all_forward(ranges),
    ensures
        pieces_within(parts_from(state, ranges, part_headers), u64::MAX as int),
    decreases 2 * ranges.len() + 1 - state,
{
    if state <= 2 * ranges.len() {
        lemma_parts_forward(state + 1, ranges, part_headers);
        let rest = parts_from(state + 1, ranges, part_headers);
        let first = part_at(state, ranges, part_headers);
        assert forall|i: int| 0 <= i < rest.len() + 1 implies (#[trigger] (seq![first] + rest)[i]
            matches Piece::Entity { start, end } ==> start <= end) by {
            if i > 0 {
                assert((seq![first] + rest)[i] == rest[i - 1]);
            }
        }
    }
}

/// Pieces that run forward have no negative length.
pub proof fn lemma_total_len(pieces: Seq<Piece>)
    requires
        pieces_within(pieces, u64::MAX as int),
    ensures
        total_len(pieces) >= 0,
    decreases pieces.len(),
{
    if pieces.len() > 0 {
        assert forall|i: int| 0 <= i < pieces.drop_first().len() implies (
        #[trigger] pieces.drop_first()[i] matches Piece::Entity { start, end } ==> start <= end) by {
            assert(pieces.drop_first()[i] == pieces[i + 1]);
        }
        lemma_total_len(pieces.drop_first());
        assert(pieces[0] matches Piece::Entity { start, end } ==> start <= end);
    }
}

/// A piece in front adds its bytes in front.
pub proof fn lemma_first_piece(piece: Piece, rest: Seq<Piece>)
    ensures
        total_len(seq![piece] + rest) == piece_len(piece) + total_len(rest),
        forall|data: Seq<u8>| #[trigger]
            content(seq![piece] + rest, data) == piece_content(piece, data) + content(rest, data),
{
    assert((seq![piece] + rest).drop_first() =~= rest);
}

/// The length of a multipart body from one part on, and from its trailer on.
pub proof fn lemma_parts_len(i: int, ranges: Seq<Range<u64>>, part_headers: Seq<Seq<u8>>)
    requires
        0 <= i <= ranges.len(),
        all_forward(ranges),
    ensures
        total_len(parts_from(2 * i, ranges, part_headers)) == if i == ranges.len() {
            part_trailer().len() as int
        } else {
            part_headers[i].len() + (ranges[i].end - ranges[i].start) + total_len(
                parts_from(2 * (i + 1), ranges, part_headers),
            )
        },
        i < ranges.len() ==> total_len(parts_from(2 * (i + 1), ranges, part_headers)) >= 0,
{
    let first = part_at(2 * i, ranges, part_headers);
    let rest = parts_from(2 * i + 1, ranges, part_headers);
    lemma_first_piece(first, rest);
    if i == ranges.len() {
        assert(rest =~= Seq::empty());
    } else {
        let last = parts_from(2 * (i + 1), ranges, part_headers);
        assert((2 * i + 1) / 2 == i);
        assert(part_at(2 * i + 1, ranges, part_headers) == entity_piece(ranges[i]));
        lemma_first_piece(entity_piece(ranges[i]), last);
        lemma_parts_forward(2 * (i + 1), ranges, part_headers);
        lemma_total_len(last);
    }
}

/// Whether no range ends before it starts.
pub open spec fn all_forward(ranges: Seq<Range<u64>>) -> bool {
    forall|i: int| 0 <= i < ranges.len() ==> (#[trigger] ranges[i]).start <= ranges[i].end
}

/// What the driver of a body is to do.
pub enum Step {
    /// Deliver these bytes.
    Chunk(Vec<u8>),
    /// Open a stream of this range of the entity's bytes, in place of the one before.
    Open(Range<u64>),
    /// Poll the stream that was opened last.
    Poll,
    /// End the body.
    End,
}

impl Step {
    /// The bytes that this step delivers.
    pub open spec fn chunk(self) -> Seq<u8> {
        match self {
            Step::Chunk(bytes) => bytes@,
            _ => Seq::empty(),
        }
    }
}

/// A range of the entity's bytes, and what is still expected of its stream.
#[derive(Debug)]
pub struct EntityStream {
    range: Range<u64>,
    opened: bool,
    stream: ExactLenStream,
}

impl EntityStream {
    /// The bytes that are still to come.
    pub closed spec fn rest(&self) -> Range<u64> {
        Range { start: (self.range.end - self.stream.remaining) as u64, end: self.range.end }
    }

    /// Whether a stream was opened.
    pub closed spec fn is_open(&self) -> bool {
        self.opened
    }

    /// Whether no more is expected than the range holds.
    pub closed spec fn wf(&self) -> bool {
        &&& self.range.start <= self.range.end
        &&& self.stream.remaining <= self.range.end - self.range.start
        &&& !self.opened ==> self.stream.remaining == self.range.end - self.range.start
    }

    /// Expects the bytes of a range.
    pub fn new(range: Range<u64>) -> (r: EntityStream)
        requires
            range.start <= range.end,
        ensures
            r.wf(),
            r.rest() == range,
            !r.is_open(),
    {
        let len: u64 = range.end - range.start;
        EntityStream { range, opened: false, stream: ExactLenStream::new(len) }
    }

    /// Returns the number of bytes still to come.
    pub fn remaining(&self) -> (r: u64)
        requires
            self.wf(),
        ensures
            r == self.rest().end - self.rest().start,
    {
        self.stream.remaining
    }

    /// Says what the driver is to do next: open the stream once, then poll it.
    pub fn next(&mut self) -> (r: Step)
        requires
            old(self).wf(),
        ensures
            final(self).wf(),
            final(self).is_open(),
            final(self).rest() == old(self).rest(),
            if old(self).is_open() {
                r is Poll && *final(self) == *old(self)
            } else {
                r == Step::Open(old(self).rest())
            },
    {
        if self.opened {
            return Step::Poll;
        }
        self.opened = true;
        Step::Open(self.range.start..self.range.end)
    }

    /// Takes what a poll of the stream gave, and says what is to be delivered.
    pub fn polled(&mut self, polled: Polled) -> (r: Delivered)
        requires
            old(self).wf(),
            old(self).is_open(),
        ensures
            final(self).wf(),
            final(self).is_open(),
            (r, final(self).rest()) == deliver(old(self).rest(), polled),
    {
        self.stream.poll_next(polled)
    }
}

/// What is delivered when a poll of the stream of a range gives `polled`, and what is then left of
/// the range.
pub open spec fn deliver(rest: Range<u64>, polled: Polled) -> (Delivered, Range<u64>) {
    let len = rest.end - rest.start;
    let nothing = Range { start: rest.end, end: rest.end };
    match polled {
        Polled::Pending => (Delivered::Pending, rest),
        Polled::Failed => (Delivered::Failed, rest),
        Polled::Chunk(n) => if n <= len {
            (Delivered::Chunk, Range { start: (rest.start + n) as u64, end: rest.end })
        } else {
            (Delivered::TooLong(StreamTooLongError { extra: (n - len) as u64 }), nothing)
        },
        Polled::End => if len == 0 {
            (Delivered::End, nothing)
        } else {
            (Delivered::TooShort(StreamTooShortError { remaining: len as u64 }), nothing)
        },
    }
}

/// The piece that a range is.
pub open spec fn entity_piece(range: Range<u64>) -> Piece {
    Piece::Entity { start: range.start, end: range.end }
}

/// Whether `step` is the next step of a body, given what the body still holds and what is to come
/// of an open stream, and what these are afterwards.
pub open spec fn is_step(
    pieces: Seq<Piece>,
    reading: Option<Range<u64>>,
    step: Step,
    pieces_after: Seq<Piece>,
    reading_after: Option<Range<u64>>,
) -> bool {
    if reading is Some {
        step is Poll && pieces_after == pieces && reading_after == reading
    } else if pieces.len() == 0 {
        step is End && pieces_after == pieces && reading_after is None
    } else {
        match pieces[0] {
            Piece::Bytes(bytes) => {
                &&& step matches Step::Chunk(chunk) && chunk@ == bytes
                &&& pieces_after == pieces.drop_first()
                &&& reading_after is None
            },
            Piece::Entity { start, end } => {
                &&& step == Step::Open(Range { start, end })
                &&& pieces_after == pieces
                &&& reading_after == Some(Range { start, end })
            },
        }
    }
}

/// Whether `r` is what is to be delivered when a poll of an open stream gives `polled`, given what
/// the body still holds and what is to come of the stream, and what these are afterwards. A body of
/// several parts goes on after the end of a stream, and holds nothing more after an error.
pub open spec fn is_polled(
    multipart: bool,
    pieces: Seq<Piece>,
    reading: Range<u64>,
    polled: Polled,
    r: Option<Delivered>,
    pieces_after: Seq<Piece>,
    reading_after: Option<Range<u64>>,
) -> bool {
    let (delivered, rest) = deliver(reading, polled);
    match delivered {
        Delivered::Pending => {
            &&& r == Some(delivered)
            &&& reading_after == Some(reading)
            &&& pieces_after == pieces
        },
        Delivered::Chunk => {
            &&& r == Some(delivered)
            &&& reading_after == Some(rest)
            &&& pieces_after == pieces.update(0, entity_piece(rest))
        },
        _ => if multipart {
            &&& r == if delivered is End {
                None
            } else {
                Some(delivered)
            }
            &&& reading_after is None
            &&& pieces_after == if delivered is End {
                pieces.drop_first()
            } else {
                Seq::empty()
            }
        } else {
            &&& r == Some(delivered)
            &&& reading_after == Some(rest)
            &&& pieces_after == seq![entity_piece(rest)]
        },
    }
}

/// The body of a `multipart/byteranges` response.
pub struct MultipartStream {
    state: usize,
    ranges: Vec<Range<u64>>,
    part_headers: Vec<Vec<u8>>,
    current: Option<EntityStream>,
    remaining: u64,
}

impl MultipartStream {
    /// What the body still holds.
    pub closed spec fn pieces(&self) -> Seq<Piece> {
        let rest = parts_from(self.state as int, self.ranges@, views(self.part_headers@));
        match self.current {
            Some(stream) => seq![entity_piece(stream.rest())] + rest,
            None => rest,
        }
    }

    /// What is still to come of the range whose stream is open.
    pub closed spec fn reading(&self) -> Option<Range<u64>> {
        match self.current {
            Some(stream) => Some(stream.rest()),
            None => None,
        }
    }

    /// Whether the parts belong together, and `remaining` is the number of bytes still to come.
    pub closed spec fn wf(&self) -> bool {
        &&& self.ranges@.len() == self.part_headers@.len()
        &&& self.state <= 2 * self.ranges@.len() + 1 <= usize::MAX
        &&& all_forward(self.ranges@)
        &&& self.current matches Some(stream) ==> stream.wf() && stream.is_open()
        &&& self.remaining == total_len(self.pieces())
    }

    /// Makes a body of ranges, each behind its header.
    pub fn new(ranges: Vec<Range<u64>>, part_headers: Vec<Vec<u8>>, len: u64) -> (r:
        MultipartStream)
        requires
            ranges@.len() == part_headers@.len(),
            2 * ranges@.len() + 1 <= usize::MAX,
            all_forward(ranges@),
            len == total_len(parts_from(0, ranges@, views(part_headers@))),
        ensures
            r.wf(),
            r.pieces() == parts_from(0, ranges@, views(part_headers@)),
            r.reading() is None,
    {
        MultipartStream { state: 0, ranges, part_headers, current: None, remaining: len }
    }

    /// Returns the number of bytes still to come.
    pub fn remaining(&self) -> (r: u64)
        requires
            self.wf(),
        ensures
            r == total_len(self.pieces()),
    {
        self.remaining
    }

    /// Says what the driver is to do next.
    pub fn next(&mut self) -> (r: Step)
        requires
            old(self).wf(),
        ensures
            final(self).wf(),
            is_step(
                old(self).pieces(),
                old(self).reading(),
                r,
                final(self).pieces(),
                final(self).reading(),
            ),
    {
        if self.current.is_some() {
            return Step::Poll;
        }
        let ghost headers = views(self.part_headers@);
        let ghost pieces = self.pieces();
        let ghost rest = parts_from(self.state + 1, self.ranges@, headers);
        match next_multipart_body_chunk(self.state, &self.ranges, &mut self.part_headers) {
            None => Step::End,
            Some((part, state)) => {
                proof {
                    assert(pieces.drop_first() =~= rest);
                    lemma_parts_from(
                        state as int,
                        self.ranges@,
                        headers,
                        views(self.part_headers@),
                    );
                    lemma_parts_forward(state as int, self.ranges@, headers);
                    lemma_total_len(rest);
                }
                self.state = state;
                match part {
                    Part::Bytes(bytes) => {
                        self.remaining = self.remaining - bytes.len() as u64;
                        Step::Chunk(bytes)
                    },
                    Part::Entity(range) => {
                        let mut stream = EntityStream::new(range);
                        let step = stream.next();
                        self.current = Some(stream);
                        assert(self.pieces() =~= pieces);
                        step
                    },
                }
            },
        }
    }

    /// Takes what a poll of the open stream gave, and says what is to be delivered, if anything:
    /// where a part has come to its end, the body goes on with the next step. An error ends the
    /// body.
    pub fn polled(&mut self, polled: Polled) -> (r: Option<Delivered>)
        requires
            old(self).wf(),
            old(self).reading() is Some,
        ensures
            final(self).wf(),
            is_polled(
                true,
                old(self).pieces(),
                old(self).reading()->0,
                polled,
                r,
                final(self).pieces(),
                final(self).reading(),
            ),
    {
        let ghost pieces = self.pieces();
        let ghost rest = parts_from(self.state as int, self.ranges@, views(self.part_headers@));
        assert(pieces.drop_first() =~= rest);
        proof {
            lemma_parts_forward(self.state as int, self.ranges@, views(self.part_headers@));
            lemma_total_len(rest);
        }
        let mut current: Option<EntityStream> = None;
        core::mem::swap(&mut current, &mut self.current);
        let mut stream = current.unwrap();
        let before: u64 = stream.remaining();
        let delivered = stream.polled(polled);
        match delivered {
            Delivered::Pending => {
                self.current = Some(stream);
                assert(self.pieces() =~= pieces);
                Some(delivered)
            },
            Delivered::Chunk => {
                self.remaining = self.remaining - (before - stream.remaining());
                self.current = Some(stream);
                proof {
                    lemma_first_piece(entity_piece(stream.rest()), rest);
                    assert(self.pieces() =~= pieces.update(0, entity_piece(stream.rest())));
                }
                Some(delivered)
            },
            Delivered::End => {
                assert(self.pieces() =~= pieces.drop_first());
                None
            },
            _ => {
                self.state = 2 * self.ranges.len() + 1;  // fuse.
                self.remaining = 0;
                Some(delivered)
            },
        }
    }
}

/// How many bytes a body will give.
#[derive(Clone, Copy, Debug, PartialEq, Eq, Structural)]
pub struct SizeHint {
    /// At least so many.
    pub lower: u64,
    /// At most so many, if that is known.
    pub upper: Option<u64>,
}

/// The body of a response, as [`serve`](crate::serving::serve) returns it.
pub enum Body {
    Once(Option<Vec<u8>>),
    ExactLen(EntityStream),
    Multipart(MultipartStream),
}

impl Body {
    /// What the body still holds.
    pub open spec fn pieces(&self) -> Seq<Piece> {
        match *self {
            Body::Once(None) => Seq::empty(),
            Body::Once(Some(bytes)) => seq![Piece::Bytes(bytes@)],
            Body::ExactLen(stream) => seq![entity_piece(stream.rest())],
            Body::Multipart(stream) => stream.pieces(),
        }
    }

    /// What is still to come of the range whose stream is open.
    pub open spec fn reading(&self) -> Option<Range<u64>> {
        match *self {
            Body::Once(_) => None,
            Body::ExactLen(stream) => if stream.is_open() {
                Some(stream.rest())
            } else {
                None
            },
            Body::Multipart(stream) => stream.reading(),
        }
    }

    /// Whether the body is in order: its length is known and is what it will give.
    pub open spec fn wf(&self) -> bool {
        match *self {
            Body::Once(_) => true,
            Body::ExactLen(stream) => stream.wf(),
            Body::Multipart(stream) => stream.wf(),
        }
    }

    /// Returns a 0-byte body.
    pub fn empty() -> (r: Body)
        ensures
            r.wf(),
            r.pieces() == Seq::<Piece>::empty(),
            r is Once,
    {
        Body::Once(None)
    }

    /// Returns how many bytes are still to come, exactly.
    pub fn size_hint(&self) -> (r: SizeHint)
        requires
            self.wf(),
        ensures
            r.lower == total_len(self.pieces()),
            r.upper == Some(r.lower),
    {
        proof {
            reveal_with_fuel(total_len, 2);
        }
        let len: u64 = match self {
            Body::Once(Some(bytes)) => bytes.len() as u64,
            Body::Once(None) => 0,
            Body::ExactLen(stream) => stream.remaining(),
            Body::Multipart(stream) => stream.remaining(),
        };
        SizeHint { lower: len, upper: Some(len) }
    }

    /// Returns whether nothing more is to come. A body of bytes that were not delivered yet is not
    /// at its end, even if there are none.
    pub fn is_end_stream(&self) -> (r: bool)
        requires
            self.wf(),
        ensures
            r == match *self {
                Body::Once(bytes) => bytes is None,
                _ => total_len(self.pieces()) == 0,
            },
    {
        proof {
            reveal_with_fuel(total_len, 2);
        }
        match self {
            Body::Once(bytes) => bytes.is_none(),
            Body::ExactLen(stream) => stream.remaining() == 0,
            Body::Multipart(stream) => stream.remaining() == 0,
        }
    }

    /// Says what the driver is to do next. What is delivered by it, and what the body holds
    /// afterwards, is together what the body held before.
    pub fn next(&mut self) -> (r: Step)
        requires
            old(self).wf(),
        ensures
            final(self).wf(),
            *final(self) is Multipart == *old(self) is Multipart,
            is_step(
                old(self).pieces(),
                old(self).reading(),
                r,
                final(self).pieces(),
                final(self).reading(),
            ),
            forall|data: Seq<u8>| #[trigger]
                content(old(self).pieces(), data) == r.chunk() + content(
                    final(self).pieces(),
                    data,
                ),
    {
        let ghost before = self.pieces();
        let step = match self {
            Body::Once(bytes) => {
                let mut taken: Option<Vec<u8>> = None;
                core::mem::swap(&mut taken, bytes);
                match taken {
                    None => Step::End,
                    Some(v) => Step::Chunk(v),
                }
            },
            Body::ExactLen(stream) => stream.next(),
            Body::Multipart(stream) => stream.next(),
        };
        proof {
            if step is Chunk {
                assert(self.pieces() =~= before.drop_first());
            }
            assert forall|data: Seq<u8>| #[trigger]
                content(before, data) == step.chunk() + content(self.pieces(), data) by {
                if let Step::Chunk(bytes) = step {
                    assert(before =~= seq![before[0]] + self.pieces());
                    lemma_first_piece(before[0], self.pieces());
                }
            }
        }
        step
    }

    /// Takes what a poll of the open stream gave, and says what is to be delivered, if anything:
    /// where a part of several has come to its end, the body goes on with the next step. A chunk
    /// that is delivered is what comes next of the entity's bytes, if the stream gives those.
    pub fn polled(&mut self, polled: Polled) -> (r: Option<Delivered>)
        requires
            old(self).wf(),
            old(self).reading() is Some,
        ensures
            final(self).wf(),
            *final(self) is Multipart == *old(self) is Multipart,
            is_polled(
                *old(self) is Multipart,
                old(self).pieces(),
                old(self).reading()->0,
                polled,
                r,
                final(self).pieces(),
                final(self).reading(),
            ),
            r == Some(Delivered::Chunk) ==> forall|data: Seq<u8>|
                (old(self).reading()->0).end <= data.len() ==> #[trigger] content(
                    old(self).pieces(),
                    data,
                ) == data.subrange(
                    (old(self).reading()->0).start as int,
                    (final(self).reading()->0).start as int,
                ) + content(final(self).pieces(), data),
    {
        let ghost before = self.pieces();
        let ghost reading = self.reading()->0;
        let r = match self {
            Body::Once(_) => None,
            Body::ExactLen(stream) => Some(stream.polled(polled)),
            Body::Multipart(stream) => stream.polled(polled),
        };
        proof {
            let (delivered, rest) = deliver(reading, polled);
            if delivered is Chunk {
                let after = self.pieces();
                assert(after =~= before.update(0, entity_piece(rest)));
                assert(before[0] == entity_piece(reading));
                let others = before.drop_first();
                assert(before =~= seq![before[0]] + others);
                assert(after =~= seq![after[0]] + others);
                lemma_first_piece(before[0], others);
                lemma_first_piece(after[0], others);
                assert forall|data: Seq<u8>| rest.end <= data.len() implies #[trigger] content(
                    before,
                    data,
                ) == data.subrange(reading.start as int, rest.start as int) + content(
                    after,
                    data,
                ) by {
                    assert(data.subrange(reading.start as int, reading.end as int)
                        =~= data.subrange(reading.start as int, rest.start as int)
                        + data.subrange(rest.start as int, rest.end as int));
                    assert(content(before, data) =~= data.subrange(
                        reading.start as int,
                        rest.start as int,
                    ) + (data.subrange(rest.start as int, rest.end as int) + content(
                        others,
                        data,
                    )));
                }
            }
        }
        r
    }
}

impl From<Vec<u8>> for Body {
    fn from(value: Vec<u8>) -> (r: Body) {
        Body::Once(Some(value))
    }
}

impl vstd::std_specs::convert::FromSpecImpl<Vec<u8>> for Body {
    open spec fn obeys_from_spec() -> bool {
        true
    }

    open spec fn from_spec(value: Vec<u8>) -> Body {
        Body::Once(Some(value))
    }
}

impl From<&'static [u8]> for Body {
    fn from(value: &'static [u8]) -> (r: Body)
        ensures
            r is Once,
            r.pieces() == seq![Piece::Bytes(value@)],
    {
        Body::Once(Some(slice_to_vec(value)))
    }
}

impl vstd::std_specs::convert::FromSpecImpl<&'static [u8]> for Body {
    open spec fn obeys_from_spec() -> bool {
        false
    }

    open spec fn from_spec(value: &'static [u8]) -> Body {
        arbitrary()
    }
}

impl From<&'static str> for Body {
    fn from(value: &'static str) -> (r: Body)
        ensures
            r is Once,
            r.pieces() == seq![Piece::Bytes(value.spec_bytes())],
    {
        Body::Once(Some(slice_to_vec(value.as_bytes())))
    }
}

impl vstd::std_specs::convert::FromSpecImpl<&'static str> for Body {
    open spec fn obeys_from_spec() -> bool {
        false
    }

    open spec fn from_spec(value: &'static str) -> Body {
        arbitrary()
    }
}

impl From<String> for Body {
    fn from(value: String) -> (r: Body)
        ensures
            r is Once,
            r.pieces() == seq![Piece::Bytes(vstd::utf8::encode_utf8(value@))],
    {
        Body::Once(Some(slice_to_vec(value.as_str().as_bytes())))
    }
}

impl vstd::std_specs::convert::FromSpecImpl<String> for Body {
    open spec fn obeys_from_spec() -> bool {
        false
    }

    open spec fn from_spec(value: String) -> Body {
        arbitrary()
    }
}

/// What comes of a poll of a stream of which the range `rest` is still to come. A chunk that is not
/// too long is delivered and shortens what is to come by its length. A longer one, and an early end,
/// are errors that say how much there was too much or too little.
pub proof fn law_deliver(rest: Range<u64>, polled: Polled)
    requires
        rest.start <= rest.end,
    ensures
        ({
            let (delivered, after) = deliver(rest, polled);
            &&& after.end == rest.end
            &&& rest.start <= after.start <= after.end
            &&& match polled {
                Polled::Pending => delivered == Delivered::Pending && after == rest,
                Polled::Failed => delivered == Delivered::Failed && after == rest,
                Polled::End => if rest.start == rest.end {
                    delivered == Delivered::End
                } else {
                    delivered matches Delivered::TooShort(e) && rest.start + e.remaining == rest.end
                        && after.start == after.end
                },
                Polled::Chunk(n) => if rest.start + n <= rest.end {
                    delivered == Delivered::Chunk && after.start == rest.start + n
                } else {
                    delivered matches Delivered::TooLong(e) && rest.end + e.extra == rest.start + n
                        && after.start == after.end
                },
            }
        }),
{
}

/// A body passes on what comes of a poll of its open stream, except for the end of one of several
/// parts, after which it goes on. Nothing is lost of the other parts unless there was an error, and
/// then there is nothing more to come, or no more than a stream that failed itself can still give.
pub proof fn law_polled_body(
    multipart: bool,
    pieces: Seq<Piece>,
    reading: Range<u64>,
    polled: Polled,
    r: Option<Delivered>,
    pieces_after: Seq<Piece>,
    reading_after: Option<Range<u64>>,
)
    requires
        is_polled(multipart, pieces, reading, polled, r, pieces_after, reading_after),
        reading.start <= reading.end,
        pieces.len() > 0,
        pieces[0] == (Piece::Entity { start: reading.start, end: reading.end }),
        multipart || pieces.len() == 1,
    ensures
        r == if multipart && polled is End && reading.start == reading.end {
            None
        } else {
            Some(deliver(reading, polled).0)
        },
        polled is Pending ==> pieces_after == pieces && reading_after == Some(reading),
        r == Some(Delivered::Chunk) ==> {
            &&& reading_after == Some(deliver(reading, polled).1)
            &&& pieces_after.len() == pieces.len()
            &&& pieces_after.drop_first() == pieces.drop_first()
        },
        r is None ==> pieces_after == pieces.drop_first() && reading_after is None,
        r matches Some(Delivered::TooLong(_)) ==> total_len(pieces_after) == 0,
        r matches Some(Delivered::TooShort(_)) ==> total_len(pieces_after) == 0,
        r == Some(Delivered::End) ==> total_len(pieces_after) == 0,
{
    reveal_with_fuel(total_len, 2);
    let rest = deliver(reading, polled).1;
    let one = seq![entity_piece(rest)];
    assert(one.drop_first() =~= Seq::empty());
    assert(pieces.update(0, entity_piece(rest)).drop_first() =~= pieces.drop_first());
}

/// What a body does next follows from what it still holds: it delivers bytes of its own, opens a
/// stream of exactly the range that comes next, polls an open one, or ends.
pub proof fn law_next_step(
    pieces: Seq<Piece>,
    reading: Option<Range<u64>>,
    step: Step,
    pieces_after: Seq<Piece>,
    reading_after: Option<Range<u64>>,
)
    requires
        is_step(pieces, reading, step, pieces_after, reading_after),
    ensures
        reading is Some <==> step is Poll,
        step is End <==> reading is None && pieces.len() == 0,
        step matches Step::Chunk(bytes) ==> pieces.len() > 0 && pieces[0] == Piece::Bytes(bytes@)
            && pieces_after == pieces.drop_first() && reading_after is None,
        step matches Step::Open(range) ==> pieces.len() > 0 && pieces[0] == (Piece::Entity {
            start: range.start,
            end: range.end,
        }) && pieces_after == pieces && reading_after == Some(range),
        step is Poll || step is End ==> pieces_after == pieces && reading_after == reading,
{
}

/// The length of pieces is the sum of their lengths.
pub proof fn law_total_len(piece: Piece, rest: Seq<Piece>)
    ensures
        total_len(Seq::empty()) == 0,
        total_len(seq![piece] + rest) == total_len(rest) + match piece {
            Piece::Bytes(bytes) => bytes.len() as int,
            Piece::Entity { start, end } => end - start,
        },
        content(Seq::empty(), Seq::empty()) == Seq::<u8>::empty(),
        forall|data: Seq<u8>| #[trigger]
            content(seq![piece] + rest, data) == match piece {
                Piece::Bytes(bytes) => bytes,
                Piece::Entity { start, end } => data.subrange(start as int, end as int),
            } + content(rest, data),
{
    lemma_first_piece(piece, rest);
}

/// What a body holds: bytes that it was given, a range of the entity, or several parts.
pub proof fn law_body_pieces(bytes: Vec<u8>, stream: EntityStream, parts: MultipartStream)
    ensures
        Body::Once(None).pieces().len() == 0,
        Body::Once(Some(bytes)).pieces() == seq![Piece::Bytes(bytes@)],
        Body::ExactLen(stream).pieces() == seq![
            (Piece::Entity { start: stream.rest().start, end: stream.rest().end }),
        ],
        Body::Multipart(parts).pieces() == parts.pieces(),
        Body::ExactLen(stream).reading() == if stream.is_open() {
            Some(stream.rest())
        } else {
            None
        },
        Body::Multipart(parts).reading() == parts.reading(),
        Body::Once(None).reading() is None && Body::Once(Some(bytes)).reading() is None,
        Part::Bytes(bytes).piece() == Piece::Bytes(bytes@),
        Step::Chunk(bytes).chunk() == bytes@,
{
}

} // verus!
