//! What is delivered of a body over a whole run, from its first step to its end.
//!
//! A run is what a driver does with a body: turn by turn it asks for the next step with
//! [`Body::next`](crate::body::Body::next), and where that is to poll, hands what the poll gave to
//! [`Body::polled`](crate::body::Body::polled).

use crate::body::{
    content, deliver, entity_piece, is_polled, is_step, law_content_len, lemma_first_piece,
    pieces_within, total_len, Delivered, Piece, Polled, Step,
};
use crate::entity::Entity;
use crate::headers::{first_value, lemma_name_index, Headers};
use crate::laws::{keeps_header, law_content_length, law_response_within_entity, lemma_one_piece};
use crate::serving::{
    base_headers, content_range, lemma_header_names, reply, verdict, Method, Verdict,
};
use crate::text::decimal;
use crate::time::Timestamp;
use core::ops::Range;
use vstd::prelude::*;

verus! {

/// What a body still holds, and what is to come of an open stream.
pub struct State {
    pub pieces: Seq<Piece>,
    pub reading: Option<Range<u64>>,
}

/// One turn of a run.
pub struct Turn {
    /// The step that the body asked for.
    pub step: Step,
    /// What the stream gave, if the step was to poll it.
    pub polled: Polled,
    /// What was then to be delivered.
    pub delivered: Option<Delivered>,
    /// The state of the body afterwards.
    pub after: State,
}

/// Whether a turn is the next of a body in the given state.
pub open spec fn is_turn(multipart: bool, before: State, turn: Turn) -> bool {
    if turn.step is Poll {
        &&& is_step(before.pieces, before.reading, turn.step, before.pieces, before.reading)
        &&& is_polled(
            multipart,
            before.pieces,
            before.reading->0,
            turn.polled,
            turn.delivered,
            turn.after.pieces,
            turn.after.reading,
        )
    } else {
        is_step(
            before.pieces,
            before.reading,
            turn.step,
            turn.after.pieces,
            turn.after.reading,
        )
    }
}

/// The state of a body after these turns.
pub open spec fn state_after(start: State, turns: Seq<Turn>) -> State {
    if turns.len() == 0 {
        start
    } else {
        turns.last().after
    }
}

/// Whether these are the turns of a run.
pub open spec fn is_run(multipart: bool, start: State, turns: Seq<Turn>) -> bool
    decreases turns.len(),
{
    turns.len() == 0 || {
        &&& is_run(multipart, start, turns.drop_last())
        &&& is_turn(multipart, state_after(start, turns.drop_last()), turns.last())
    }
}

/// What an open stream has not given yet after a turn, given what it had not given before.
pub open spec fn rest_after(rest: Range<u64>, turn: Turn) -> Range<u64> {
    match (turn.step, turn.polled) {
        (Step::Open(range), _) => range,
        (Step::Poll, Polled::Chunk(n)) => Range { start: (rest.start + n) as u64, end: rest.end },
        _ => rest,
    }
}

/// The part of the entity that the stream which was opened last has not given yet.
pub open spec fn not_given(turns: Seq<Turn>) -> Range<u64>
    decreases turns.len(),
{
    if turns.len() == 0 {
        Range { start: 0, end: 0 }
    } else {
        rest_after(not_given(turns.drop_last()), turns.last())
    }
}

/// Whether a stream that has not given `rest` yet gives no more than that when it is polled, ends
/// only when it has given all of it, and does not fail.
pub open spec fn is_exact_turn(rest: Range<u64>, turn: Turn) -> bool {
    turn.step is Poll ==> match turn.polled {
        Polled::Pending => true,
        Polled::Chunk(n) => n <= rest.end - rest.start,
        Polled::Failed => false,
        Polled::End => rest.start == rest.end,
    }
}

/// Whether every stream of the entity's bytes is exact: it gives the bytes of its range, in chunks
/// of any size, ends when it has given them all, and does not fail.
pub open spec fn is_exact(turns: Seq<Turn>) -> bool
    decreases turns.len(),
{
    turns.len() == 0 || {
        &&& is_exact(turns.drop_last())
        &&& is_exact_turn(not_given(turns.drop_last()), turns.last())
    }
}

/// The bytes that a turn delivers, where `data` is the entity's body and an open stream has not
/// given `rest` yet.
pub open spec fn turn_bytes(rest: Range<u64>, turn: Turn, data: Seq<u8>) -> Seq<u8> {
    match (turn.step, turn.polled, turn.delivered) {
        (Step::Chunk(bytes), _, _) => bytes@,
        (Step::Poll, Polled::Chunk(n), Some(Delivered::Chunk)) => data.subrange(
            rest.start as int,
            rest.start + n,
        ),
        _ => Seq::empty(),
    }
}

/// The bytes that were delivered, where `data` is the entity's body.
pub open spec fn delivered_bytes(turns: Seq<Turn>, data: Seq<u8>) -> Seq<u8>
    decreases turns.len(),
{
    if turns.len() == 0 {
        Seq::empty()
    } else {
        delivered_bytes(turns.drop_last(), data) + turn_bytes(
            not_given(turns.drop_last()),
            turns.last(),
            data,
        )
    }
}

/// Whether a turn delivers an error.
pub open spec fn is_error(turn: Turn) -> bool {
    turn.step is Poll && match turn.delivered {
        Some(Delivered::Failed) => true,
        Some(Delivered::TooLong(_)) => true,
        Some(Delivered::TooShort(_)) => true,
        _ => false,
    }
}

/// Whether no turn delivers an error.
pub open spec fn no_errors(turns: Seq<Turn>) -> bool {
    forall|i: int| 0 <= i < turns.len() ==> !is_error(#[trigger] turns[i])
}

/// Whether the body has come to its end.
pub open spec fn is_over(turns: Seq<Turn>) -> bool {
    turns.len() > 0 && (turns.last().step is End || turns.last().step is Poll
        && turns.last().delivered == Some(Delivered::End))
}

/// What a body still holds goes together with the stream that is open.
spec fn is_state(multipart: bool, state: State, rest: Range<u64>, len: int) -> bool {
    &&& pieces_within(state.pieces, len)
    &&& multipart || state.pieces.len() <= 1
    &&& state.reading matches Some(reading) ==> {
        &&& state.pieces.len() > 0
        &&& state.pieces[0] == entity_piece(reading)
        &&& reading == rest
    }
}

/// Over exact streams, what was delivered and what the body still holds is together what the body
/// held, and no error is delivered.
proof fn lemma_run(multipart: bool, start: State, turns: Seq<Turn>, data: Seq<u8>)
    requires
        is_run(multipart, start, turns),
        is_exact(turns),
        start.reading is None,
        pieces_within(start.pieces, data.len() as int),
        multipart || start.pieces.len() <= 1,
    ensures
        is_state(
            multipart,
            state_after(start, turns),
            not_given(turns),
            data.len() as int,
        ),
        delivered_bytes(turns, data) + content(state_after(start, turns).pieces, data) == content(
            start.pieces,
            data,
        ),
        no_errors(turns),
    decreases turns.len(),
{
    if turns.len() == 0 {
        assert(Seq::<u8>::empty() + content(start.pieces, data) =~= content(start.pieces, data));
    } else {
        let earlier = turns.drop_last();
        let turn = turns.last();
        let rest = not_given(earlier);
        lemma_run(multipart, start, earlier, data);
        lemma_turn(multipart, state_after(start, earlier), turn, rest, data);
        let bytes = turn_bytes(rest, turn, data);
        assert(delivered_bytes(turns, data) + content(turn.after.pieces, data)
            =~= delivered_bytes(earlier, data) + (bytes + content(turn.after.pieces, data)));
        assert forall|i: int| 0 <= i < turns.len() implies !is_error(#[trigger] turns[i]) by {
            if i < earlier.len() {
                assert(turns[i] == earlier[i]);
            }
        }
    }
}

/// A turn delivers the beginning of what a body held before it, and leaves the rest.
proof fn lemma_turn(
    multipart: bool,
    before: State,
    turn: Turn,
    rest: Range<u64>,
    data: Seq<u8>,
)
    requires
        is_state(multipart, before, rest, data.len() as int),
        is_turn(multipart, before, turn),
        is_exact_turn(rest, turn),
    ensures
        is_state(multipart, turn.after, rest_after(rest, turn), data.len() as int),
        turn_bytes(rest, turn, data) + content(turn.after.pieces, data) == content(
            before.pieces,
            data,
        ),
        !is_error(turn),
{
    let pieces = before.pieces;
    let after = turn.after.pieces;
    let nothing = Seq::<u8>::empty();
    assert(nothing + content(after, data) =~= content(after, data));
    if pieces.len() > 0 {
        let others = pieces.drop_first();
        assert(pieces =~= seq![pieces[0]] + others);
        lemma_first_piece(pieces[0], others);
        assert(pieces[0] matches Piece::Entity { start, end } ==> start <= end <= data.len());
        assert forall|i: int| 0 <= i < others.len() implies (#[trigger] others[i]
            matches Piece::Entity { start, end } ==> start <= end <= data.len()) by {
            assert(others[i] == pieces[i + 1]);
        }
        if turn.step is Poll {
            let reading = before.reading->0;
            let (delivered, left) = deliver(reading, turn.polled);
            match delivered {
                Delivered::Chunk => {
                    assert(after =~= seq![entity_piece(left)] + others);
                    lemma_first_piece(entity_piece(left), others);
                    let head = data.subrange(reading.start as int, left.start as int);
                    let tail = data.subrange(left.start as int, left.end as int);
                    assert(data.subrange(reading.start as int, reading.end as int) =~= head + tail);
                    assert(head + (tail + content(others, data)) =~= head + tail + content(
                        others,
                        data,
                    ));
                    assert forall|i: int| 0 <= i < after.len() implies (#[trigger] after[i]
                        matches Piece::Entity { start, end } ==> start <= end <= data.len()) by {
                        if i > 0 {
                            assert(after[i] == pieces[i]);
                        }
                    }
                },
                Delivered::End => {
                    let none = data.subrange(reading.start as int, reading.end as int);
                    assert(none =~= nothing);
                    assert(none + content(others, data) =~= content(others, data));
                    if !multipart {
                        assert(after =~= pieces);
                    }
                },
                _ => {},
            }
        }
    }
}

/// Driven to its end over exact streams, a body delivers all that it holds, and no error.
pub proof fn law_body_is_delivered(
    multipart: bool,
    pieces: Seq<Piece>,
    turns: Seq<Turn>,
    data: Seq<u8>,
)
    requires
        pieces_within(pieces, data.len() as int),
        multipart || pieces.len() <= 1,
        is_run(multipart, State { pieces, reading: None }, turns),
        is_exact(turns),
        is_over(turns),
    ensures
        no_errors(turns),
        delivered_bytes(turns, data) == content(pieces, data),
        delivered_bytes(turns, data).len() == total_len(pieces),
{
    let start = State { pieces, reading: None };
    lemma_run(multipart, start, turns, data);
    law_content_len(pieces, data);
    let turn = turns.last();
    let before = state_after(start, turns.drop_last());
    let left = turn.after.pieces;
    assert(is_turn(multipart, before, turn));
    lemma_run(multipart, start, turns.drop_last(), data);
    if turn.step is Poll {
        let rest = deliver(before.reading->0, turn.polled).1;
        assert(left =~= seq![entity_piece(rest)] + Seq::empty());
        lemma_first_piece(entity_piece(rest), Seq::empty());
        assert(content(Seq::empty(), data) =~= Seq::empty());
        assert(data.subrange(rest.start as int, rest.end as int) =~= Seq::empty());
    }
    assert(content(left, data) =~= Seq::empty());
    assert(delivered_bytes(turns, data) + content(left, data) =~= delivered_bytes(turns, data));
}

/// The response to a GET that serves the entity or a part of it, driven to its end over exact
/// streams, delivers no error and as many bytes as its `Content-Length` says. Without parts, they
/// are the entity's bytes in the range that `Content-Range` names, or the whole entity.
pub proof fn law_served_body<E: Entity>(
    ent: &E,
    h: Headers,
    now: Option<Timestamp>,
    multipart: bool,
    turns: Seq<Turn>,
    data: Seq<u8>,
)
    requires
        data.len() == ent.spec_len(),
        keeps_header(ent, "content-length"@),
        reply(ent, Method::Get, h, now).status == 200 || reply(ent, Method::Get, h, now).status
            == 206,
        total_len(reply(ent, Method::Get, h, now).pieces) <= u64::MAX,
        multipart || reply(ent, Method::Get, h, now).pieces.len() <= 1,
        is_run(
            multipart,
            State { pieces: reply(ent, Method::Get, h, now).pieces, reading: None },
            turns,
        ),
        is_exact(turns),
        is_over(turns),
    ensures
        no_errors(turns),
        first_value(reply(ent, Method::Get, h, now).headers, "content-length"@) == Some(
            decimal(delivered_bytes(turns, data).len()),
        ),
        delivered_bytes(turns, data) == content(reply(ent, Method::Get, h, now).pieces, data),
        match verdict(ent, Method::Get, h) {
            Verdict::Multiple(_) => true,
            Verdict::Single(range) => {
                &&& delivered_bytes(turns, data) == data.subrange(
                    range.start as int,
                    range.end as int,
                )
                &&& keeps_header(ent, "content-range"@) ==> first_value(
                    reply(ent, Method::Get, h, now).headers,
                    "content-range"@,
                ) == Some(content_range(range, ent.spec_len()))
            },
            _ => delivered_bytes(turns, data) == data,
        },
{
    let response = reply(ent, Method::Get, h, now);
    law_response_within_entity(ent, Method::Get, h, now);
    law_body_is_delivered(multipart, response.pieces, turns, data);
    law_content_length(ent, Method::Get, h, now);
    match verdict(ent, Method::Get, h) {
        Verdict::Single(range) => {
            lemma_one_piece(entity_piece(range), data);
            assert(response.pieces =~= seq![entity_piece(range)]);
            lemma_header_names();
            let base = base_headers(ent.spec_etag(), ent.spec_last_modified(), now);
            let before = base.push(("content-range"@, seq![content_range(range, ent.spec_len())]));
            let headers = before.push(
                ("content-length"@, seq![decimal((range.end - range.start) as nat)]),
            );
            assert(headers.take(base.len() as int) =~= base);
            lemma_name_index(headers, "content-range"@, base.len() as int);
        },
        Verdict::Multiple(_) => {},
        _ => {
            let whole = Piece::Entity { start: 0, end: ent.spec_len() };
            lemma_one_piece(whole, data);
            assert(response.pieces =~= seq![whole]);
            assert(data.subrange(0, data.len() as int) =~= data);
        },
    }
}

} // verus!
