//! What holds of every response: how the parts of the library play together.

use crate::body::{
    all_forward, content, deliver, entity_piece, is_step, lemma_first_piece, lemma_parts_forward,
    part_at, part_trailer, parts_from, pieces_within, total_len, Delivered, Piece, Polled, Step,
};
use crate::entity::Entity;
use crate::etag::{
    any_strong_match, any_weak_match, is_etag, is_weak, law_list_of_one_tag, none_match_verdict,
    strong_match, tags, weak_match,
};
use crate::headers::{first_value, lemma_name_index, Headers};
use crate::range::{closed_range_value, is_within, law_closed_range, law_ranges_within, resolve};
use crate::serving::{
    base_headers, content_range, date_of, date_value, dates_read_back, lemma_header_names,
    multipart_headers, multipart_pieces, part_header, part_headers_of, part_lines, part_verdict,
    partial_has_entity_headers, range_value, reply, unsatisfied_range, verdict, Method, Verdict,
};
use crate::text::{decimal, QUOTE};
use crate::time::Timestamp;
use core::ops::Range;
use vstd::prelude::*;
use vstd::string::StringSliceAdditionalSpecFns;

verus! {

/// Whether a request has none of the headers that make it conditional.
pub open spec fn is_unconditional(h: Headers) -> bool {
    &&& first_value(h, "if-match"@) is None
    &&& first_value(h, "if-none-match"@) is None
    &&& first_value(h, "if-modified-since"@) is None
    &&& first_value(h, "if-unmodified-since"@) is None
}

/// A HEAD request is answered with the status and the headers of the response to a GET request;
/// where that serves the entity, without the body.
pub proof fn law_head_mirrors_get<E: Entity>(ent: &E, h: Headers, now: Option<Timestamp>)
    ensures
        reply(ent, Method::Head, h, now).status == reply(ent, Method::Get, h, now).status,
        reply(ent, Method::Head, h, now).headers == reply(ent, Method::Get, h, now).headers,
        reply(ent, Method::Get, h, now).status < 400 ==> reply(
            ent,
            Method::Head,
            h,
            now,
        ).pieces.len() == 0,
{
}

/// Any other method is refused, whatever the entity and the headers of the request.
pub proof fn law_other_methods_refused<E: Entity>(ent: &E, h: Headers, now: Option<Timestamp>)
    ensures
        reply(ent, Method::Other, h, now).status == 405,
        first_value(reply(ent, Method::Other, h, now).headers, "allow"@) == Some(
            "get, head".spec_bytes(),
        ),
{
}

/// A request without conditions is answered with the entity or a part of it.
pub proof fn law_unconditional<E: Entity>(ent: &E, method: Method, h: Headers)
    requires
        method != Method::Other,
        is_unconditional(h),
    ensures
        verdict(ent, method, h) == part_verdict(
            range_value(ent.spec_etag(), h),
            ent.spec_len(),
        ),
{
}

/// The response to a GET without a `Range` header holds the whole entity.
pub proof fn law_whole_body<E: Entity>(
    ent: &E,
    h: Headers,
    now: Option<Timestamp>,
    data: Seq<u8>,
)
    requires
        is_unconditional(h),
        first_value(h, "range"@) is None,
        data.len() == ent.spec_len(),
    ensures
        reply(ent, Method::Get, h, now).status == 200,
        content(reply(ent, Method::Get, h, now).pieces, data) == data,
{
    let pieces = reply(ent, Method::Get, h, now).pieces;
    lemma_one_piece(pieces[0], data);
    assert(pieces =~= seq![pieces[0]]);
    assert(data.subrange(0, data.len() as int) =~= data);
}

/// The bytes of a single piece.
pub proof fn lemma_one_piece(piece: Piece, data: Seq<u8>)
    ensures
        content(seq![piece], data) == crate::body::piece_content(piece, data),
        total_len(seq![piece]) == crate::body::piece_len(piece),
{
    lemma_first_piece(piece, Seq::empty());
    assert(seq![piece] + Seq::empty() =~= seq![piece]);
    assert(content(Seq::empty(), data) =~= Seq::empty());
    assert(crate::body::piece_content(piece, data) + Seq::<u8>::empty()
        =~= crate::body::piece_content(piece, data));
}

/// The response to a GET for a single range holds the bytes of that range, and says so.
pub proof fn law_range_body<E: Entity>(
    ent: &E,
    h: Headers,
    now: Option<Timestamp>,
    first: u64,
    last: u64,
    data: Seq<u8>,
)
    requires
        is_unconditional(h),
        first_value(h, "if-range"@) is None,
        first_value(h, "range"@) == Some(closed_range_value(first, last)),
        first <= last < ent.spec_len(),
        data.len() == ent.spec_len(),
    ensures
        reply(ent, Method::Get, h, now).status == 206,
        content(reply(ent, Method::Get, h, now).pieces, data) == data.subrange(
            first as int,
            last + 1,
        ),
        verdict(ent, Method::Get, h) == Verdict::Single(
            Range { start: first, end: (last + 1) as u64 },
        ),
{
    law_closed_range(first, last, ent.spec_len());
    let range = Range { start: first, end: (last + 1) as u64 };
    assert(seq![range].len() == 1 && seq![range][0] == range);
    let pieces = reply(ent, Method::Get, h, now).pieces;
    assert(pieces =~= seq![entity_piece(range)]);
    lemma_one_piece(entity_piece(range), data);
}

/// Whether an entity leaves a header alone that a response has already.
pub open spec fn keeps_header<E: Entity>(ent: &E, name: Seq<char>) -> bool {
    forall|h: Headers|
        first_value(h, name) is Some ==> #[trigger] first_value(ent.spec_headers(h), name)
            == first_value(h, name)
}

/// A response that serves the entity or a part of it says in `Content-Length` how many bytes a
/// body has that answers a GET.
pub proof fn law_content_length<E: Entity>(
    ent: &E,
    method: Method,
    h: Headers,
    now: Option<Timestamp>,
)
    requires
        method != Method::Other,
        keeps_header(ent, "content-length"@),
        reply(ent, method, h, now).status == 200 || reply(ent, method, h, now).status == 206,
        total_len(reply(ent, Method::Get, h, now).pieces) <= u64::MAX,
    ensures
        first_value(reply(ent, method, h, now).headers, "content-length"@) == Some(
            decimal(total_len(reply(ent, Method::Get, h, now).pieces) as nat),
        ),
{
    lemma_header_names();
    let base = base_headers(ent.spec_etag(), ent.spec_last_modified(), now);
    let len = ent.spec_len();
    let range = range_value(ent.spec_etag(), h);
    if let Some(v) = range {
        law_ranges_within(v, len);
    }
    let pieces = reply(ent, Method::Get, h, now).pieces;
    let length = seq![decimal(total_len(pieces) as nat)];
    match part_verdict(range, len) {
        Verdict::Single(r) => {
            assert(is_within(r, len));
            lemma_one_piece(entity_piece(r), Seq::empty());
            let before = base.push(("content-range"@, seq![content_range(r, len)]));
            let headers = before.push(("content-length"@, length));
            assert(headers.take(before.len() as int) =~= before);
            lemma_name_index(headers, "content-length"@, before.len() as int);
        },
        Verdict::Multiple(ranges) => {
            lemma_multipart_forward(ent, ranges, len, partial_has_entity_headers(h));
            let headers = multipart_headers(base, total_len(pieces) as u64);
            assert(headers.take(base.len() as int) =~= base);
            lemma_name_index(headers, "content-length"@, base.len() as int);
        },
        _ => {
            lemma_one_piece(Piece::Entity { start: 0, end: len }, Seq::empty());
            let headers = base.push(("content-length"@, length));
            assert(headers.take(base.len() as int) =~= base);
            lemma_name_index(headers, "content-length"@, base.len() as int);
        },
    }
}

proof fn lemma_multipart_forward<E: Entity>(
    ent: &E,
    ranges: Seq<Range<u64>>,
    len: u64,
    lines: bool,
)
    requires
        forall|i: int| 0 <= i < ranges.len() ==> is_within(#[trigger] ranges[i], len),
    ensures
        total_len(multipart_pieces(ranges, len, part_lines(ent, lines))) >= 0,
{
    assert(all_forward(ranges)) by {
        assert forall|i: int| 0 <= i < ranges.len() implies (#[trigger] ranges[i]).start
            <= ranges[i].end by {
            assert(is_within(ranges[i], len));
        }
    }
    let heads = part_headers_of(ranges, len, part_lines(ent, lines));
    lemma_parts_forward(0, ranges, heads);
    crate::body::lemma_total_len(parts_from(0, ranges, heads));
}

/// A client that sends back an entity's tag in `If-None-Match` is told that the entity was not
/// modified, be the tag strong or weak.
pub proof fn law_revalidation_by_tag<E: Entity>(
    ent: &E,
    method: Method,
    h: Headers,
    now: Option<Timestamp>,
    tag: Seq<u8>,
)
    requires
        method != Method::Other,
        ent.spec_etag() == Some(tag),
        is_etag(tag),
        first_value(h, "if-none-match"@) == Some(tag),
        first_value(h, "if-match"@) is None,
        first_value(h, "if-unmodified-since"@) is None,
    ensures
        verdict(ent, method, h) == Verdict::NotModified,
        reply(ent, method, h, now).status == 304,
        reply(ent, method, h, now).pieces.len() == 0,
{
    lemma_tag_is_not_star(tag);
    law_list_of_one_tag(tag);
    assert(weak_match(tags(tag)[0], tag));
}

/// An entity tag is not the asterisk.
proof fn lemma_tag_is_not_star(tag: Seq<u8>)
    requires
        is_etag(tag),
    ensures
        tag != "*".spec_bytes(),
{
    reveal_strlit("*");
    assert("*".is_ascii());
    if tag == "*".spec_bytes() {
        assert(tag.len() == 1 && tag[0] == 0x2a);
    }
}

/// Where `If-None-Match` holds tags none of which matches the entity's, the response is never that
/// the entity was not modified, whatever `If-Modified-Since` says.
pub proof fn law_changed_tag_is_never_not_modified<E: Entity>(
    ent: &E,
    method: Method,
    h: Headers,
)
    requires
        none_match_verdict(ent.spec_etag(), first_value(h, "if-none-match"@)) == Some(true),
    ensures
        !(verdict(ent, method, h) is NotModified),
{
}

/// A client that holds an entity under another tag is served the entity that there is now, whatever
/// `If-Modified-Since` says.
pub proof fn law_changed_entity_is_served<E: Entity>(
    ent: &E,
    method: Method,
    h: Headers,
    held: Seq<u8>,
    tag: Seq<u8>,
)
    requires
        method != Method::Other,
        ent.spec_etag() == Some(tag),
        is_etag(held),
        !weak_match(held, tag),
        first_value(h, "if-none-match"@) == Some(held),
        first_value(h, "if-match"@) is None,
        first_value(h, "if-unmodified-since"@) is None,
    ensures
        verdict(ent, method, h) == part_verdict(
            range_value(ent.spec_etag(), h),
            ent.spec_len(),
        ),
{
    lemma_tag_is_not_star(held);
    law_list_of_one_tag(held);
    assert(tags(held)[0] == held);
    assert(!any_weak_match(tags(held), tag));
}

/// `If-None-Match: *` says of every entity that it was not modified.
pub proof fn law_any_tag_matches<E: Entity>(ent: &E, method: Method, h: Headers)
    requires
        method != Method::Other,
        first_value(h, "if-none-match"@) == Some("*".spec_bytes()),
        first_value(h, "if-match"@) is None,
        first_value(h, "if-unmodified-since"@) is None,
    ensures
        verdict(ent, method, h) == Verdict::NotModified,
{
}

/// A precondition that names the entity's tag in `If-Match` holds if the tag is strong, and fails
/// if it is weak.
pub proof fn law_precondition_by_tag<E: Entity>(
    ent: &E,
    method: Method,
    h: Headers,
    tag: Seq<u8>,
)
    requires
        method != Method::Other,
        ent.spec_etag() == Some(tag),
        is_etag(tag),
        first_value(h, "if-match"@) == Some(tag),
        first_value(h, "if-none-match"@) is None,
        first_value(h, "if-modified-since"@) is None,
        first_value(h, "if-unmodified-since"@) is None,
    ensures
        verdict(ent, method, h) == if is_weak(tag) {
            Verdict::PreconditionFailed
        } else {
            part_verdict(range_value(ent.spec_etag(), h), ent.spec_len())
        },
{
    lemma_tag_is_not_star(tag);
    law_list_of_one_tag(tag);
    assert(tags(tag)[0] == tag);
    assert(any_strong_match(tags(tag), tag) == strong_match(tag, tag));
}

/// A client that sends a date back in `If-Modified-Since`, and no tags, is told that the entity
/// was not modified iff it was not modified after that second.
pub proof fn law_revalidation_by_date<E: Entity>(
    ent: &E,
    method: Method,
    h: Headers,
    since: Seq<u8>,
    secs: u64,
)
    requires
        method != Method::Other,
        ent.spec_last_modified() is Some,
        first_value(h, "if-modified-since"@) == Some(since),
        date_of(since) == Some(secs),
        first_value(h, "if-none-match"@) is None,
        first_value(h, "if-match"@) is None,
        first_value(h, "if-unmodified-since"@) is None,
    ensures
        verdict(ent, method, h) is NotModified <==> !(ent.spec_last_modified()->0).is_after(secs),
{
}

/// The `Last-Modified` of a response can be sent back in `If-Modified-Since`: an entity that was
/// last modified at the beginning of a second, not in the future, was then not modified.
pub proof fn law_revalidation_by_served_date<E: Entity>(
    ent: &E,
    method: Method,
    h: Headers,
    m: Timestamp,
    now: Timestamp,
)
    requires
        method != Method::Other,
        ent.spec_last_modified() == Some(m),
        0 <= m.secs,
        m.nanos == 0,
        !m.is_later_than(now),
        dates_read_back(Some(m), Some(now)),
        first_value(h, "if-modified-since"@) == Some(date_value(m.earlier(now))),
        first_value(h, "if-none-match"@) is None,
        first_value(h, "if-match"@) is None,
        first_value(h, "if-unmodified-since"@) is None,
    ensures
        verdict(ent, method, h) == Verdict::NotModified,
{
}

/// A precondition by date fails iff the entity was modified after that second.
pub proof fn law_precondition_by_date<E: Entity>(
    ent: &E,
    method: Method,
    h: Headers,
    since: Seq<u8>,
    secs: u64,
)
    requires
        method != Method::Other,
        ent.spec_last_modified() is Some,
        first_value(h, "if-unmodified-since"@) == Some(since),
        date_of(since) == Some(secs),
        first_value(h, "if-match"@) is None,
        first_value(h, "if-none-match"@) is None,
        first_value(h, "if-modified-since"@) is None,
    ensures
        verdict(ent, method, h) is PreconditionFailed <==> (
        ent.spec_last_modified()->0).is_after(secs),
{
}

/// The `Last-Modified` of a response does not exceed its `Date`.
pub proof fn law_last_modified_not_after_date(m: Timestamp, now: Timestamp)
    requires
        0 <= m.secs,
        0 <= now.secs,
        dates_read_back(Some(m), Some(now)),
    ensures
        date_of(date_value(m.earlier(now)))->0 <= date_of(date_value(now))->0,
{
}

/// A range is honoured under an `If-Range` that holds the entity's tag, if that is strong, and the
/// partial response then leaves the entity's headers out.
pub proof fn law_if_range_holds<E: Entity>(ent: &E, h: Headers, tag: Seq<u8>)
    requires
        ent.spec_etag() == Some(tag),
        is_etag(tag),
        !is_weak(tag),
        first_value(h, "if-range"@) == Some(tag),
    ensures
        range_value(ent.spec_etag(), h) == first_value(h, "range"@),
        !partial_has_entity_headers(h),
{
    reveal_strlit("\"");
    assert("\"".is_ascii());
    assert(tag[0] == QUOTE);
    assert(tag.take(1) =~= "\"".spec_bytes());
}

/// Under any other `If-Range`, such as a weak tag, another tag or a date, the `Range` header is
/// ignored.
pub proof fn law_if_range_fails<E: Entity>(
    ent: &E,
    method: Method,
    h: Headers,
    value: Seq<u8>,
)
    requires
        method != Method::Other,
        is_unconditional(h),
        first_value(h, "if-range"@) == Some(value),
        is_weak(value) || ent.spec_etag() != Some(value),
    ensures
        verdict(ent, method, h) == Verdict::Whole,
{
}

/// The ranges of the entity that a response holds lie within the entity.
pub proof fn law_response_within_entity<E: Entity>(
    ent: &E,
    method: Method,
    h: Headers,
    now: Option<Timestamp>,
)
    ensures
        pieces_within(reply(ent, method, h, now).pieces, ent.spec_len() as int),
{
    let len = ent.spec_len();
    let range = range_value(ent.spec_etag(), h);
    if let Some(v) = range {
        law_ranges_within(v, len);
    }
    let pieces = reply(ent, method, h, now).pieces;
    match verdict(ent, method, h) {
        Verdict::Single(r) => {
            assert(is_within(r, len));
        },
        Verdict::Multiple(ranges) => {
            lemma_parts_within(
                0,
                ranges,
                part_headers_of(ranges, len, part_lines(ent, partial_has_entity_headers(h))),
                len,
            );
        },
        _ => {},
    }
}

proof fn lemma_parts_within(
    state: int,
    ranges: Seq<Range<u64>>,
    part_headers: Seq<Seq<u8>>,
    len: u64,
)
    requires
        0 <= state,
        forall|i: int| 0 <= i < ranges.len() ==> is_within(#[trigger] ranges[i], len),
    ensures
        pieces_within(parts_from(state, ranges, part_headers), len as int),
    decreases 2 * ranges.len() + 1 - state,
{
    if state <= 2 * ranges.len() {
        lemma_parts_within(state + 1, ranges, part_headers, len);
        let rest = parts_from(state + 1, ranges, part_headers);
        let first = part_at(state, ranges, part_headers);
        assert forall|i: int| 0 <= i < rest.len() + 1 implies (#[trigger] (seq![first] + rest)[i]
            matches Piece::Entity { start, end } ==> start <= end <= len) by {
            if i > 0 {
                assert((seq![first] + rest)[i] == rest[i - 1]);
            } else if state / 2 < ranges.len() {
                assert(is_within(ranges[state / 2], len));
            }
        }
    }
}

/// A multipart body gives, part by part, the part's header and then the bytes of its range, and
/// ends with the trailer.
pub proof fn law_multipart_content(
    ranges: Seq<Range<u64>>,
    len: u64,
    lines: Seq<u8>,
    data: Seq<u8>,
    i: int,
)
    requires
        0 <= i <= ranges.len(),
    ensures
        content(parts_from(2 * i, ranges, part_headers_of(ranges, len, lines)), data) == if i
            == ranges.len() {
            part_trailer()
        } else {
            part_header(ranges[i], len, lines) + data.subrange(
                ranges[i].start as int,
                ranges[i].end as int,
            ) + content(
                parts_from(2 * (i + 1), ranges, part_headers_of(ranges, len, lines)),
                data,
            )
        },
{
    let heads = part_headers_of(ranges, len, lines);
    let first = part_at(2 * i, ranges, heads);
    let rest = parts_from(2 * i + 1, ranges, heads);
    lemma_first_piece(first, rest);
    if i == ranges.len() {
        assert(rest =~= Seq::empty());
        assert(content(rest, data) =~= Seq::empty());
        assert(part_trailer() + Seq::<u8>::empty() =~= part_trailer());
    } else {
        let last = parts_from(2 * (i + 1), ranges, heads);
        assert((2 * i + 1) / 2 == i);
        assert(part_at(2 * i + 1, ranges, heads) == entity_piece(ranges[i]));
        lemma_first_piece(entity_piece(ranges[i]), last);
        assert(content(parts_from(2 * i, ranges, heads), data) =~= part_header(
            ranges[i],
            len,
            lines,
        ) + data.subrange(ranges[i].start as int, ranges[i].end as int) + content(last, data));
    }
}

/// A `Range` header that cannot be read is ignored.
pub proof fn law_unreadable_range_ignored<E: Entity>(
    ent: &E,
    method: Method,
    h: Headers,
    value: Seq<u8>,
)
    requires
        method != Method::Other,
        is_unconditional(h),
        first_value(h, "range"@) == Some(value),
        resolve(value, ent.spec_len()) is None,
    ensures
        verdict(ent, method, h) == Verdict::Whole,
{
}

/// Where none of the ranges can be satisfied, the response says so, with the length of the entity
/// and without a body.
pub proof fn law_unsatisfiable_range<E: Entity>(
    ent: &E,
    method: Method,
    h: Headers,
    now: Option<Timestamp>,
    value: Seq<u8>,
)
    requires
        method != Method::Other,
        is_unconditional(h),
        first_value(h, "if-range"@) is None,
        first_value(h, "range"@) == Some(value),
        resolve(value, ent.spec_len()) == Some(Seq::<Range<u64>>::empty()),
    ensures
        reply(ent, method, h, now).status == 416,
        reply(ent, method, h, now).pieces.len() == 0,
        first_value(reply(ent, method, h, now).headers, "content-range"@) == Some(
            unsatisfied_range(ent.spec_len()),
        ),
{
    lemma_header_names();
    let base = base_headers(ent.spec_etag(), ent.spec_last_modified(), now);
    let headers = reply(ent, method, h, now).headers;
    assert(headers.take(base.len() as int) =~= base);
    lemma_name_index(headers, "content-range"@, base.len() as int);
}

/// How much is left to be done for a body: its bytes, and the steps that its pieces take.
pub open spec fn work_left(pieces: Seq<Piece>, reading: Option<Range<u64>>) -> int {
    total_len(pieces) + 2 * pieces.len() - if reading is Some {
        1int
    } else {
        0
    }
}

/// Every step of a body that delivers bytes or opens a stream leaves less to be done, so that a
/// body comes to its end.
pub proof fn law_steps_make_progress(
    pieces: Seq<Piece>,
    reading: Option<Range<u64>>,
    step: Step,
    pieces_after: Seq<Piece>,
    reading_after: Option<Range<u64>>,
)
    requires
        is_step(pieces, reading, step, pieces_after, reading_after),
        step is Chunk || step is Open,
    ensures
        work_left(pieces_after, reading_after) < work_left(pieces, reading),
{
    if step is Chunk {
        assert(pieces =~= seq![pieces[0]] + pieces_after);
        lemma_first_piece(pieces[0], pieces_after);
    }
}

/// A stream that gives no more than its range, and all of it before it ends, meets no error of
/// length; and every chunk that is not empty leaves less to be done.
pub proof fn law_exact_stream_is_delivered(
    pieces: Seq<Piece>,
    rest: Range<u64>,
    polled: Polled,
)
    requires
        pieces.len() > 0,
        pieces[0] == entity_piece(rest),
        rest.start <= rest.end,
        polled matches Polled::Chunk(n) ==> n <= rest.end - rest.start,
        polled is End ==> rest.start == rest.end,
        !(polled is Failed),
    ensures
        match polled {
            Polled::Pending => deliver(rest, polled) == (Delivered::Pending, rest),
            Polled::Chunk(n) => {
                let (delivered, after) = deliver(rest, polled);
                &&& delivered == Delivered::Chunk
                &&& n > 0 ==> work_left(pieces.update(0, entity_piece(after)), Some(after))
                    < work_left(pieces, Some(rest))
            },
            _ => {
                &&& deliver(rest, polled).0 == Delivered::End
                &&& work_left(pieces.drop_first(), None) < work_left(pieces, Some(rest))
            },
        },
{
    let others = pieces.drop_first();
    assert(pieces =~= seq![pieces[0]] + others);
    lemma_first_piece(pieces[0], others);
    if let Polled::Chunk(n) = polled {
        let after = deliver(rest, polled).1;
        assert(pieces.update(0, entity_piece(after)) =~= seq![entity_piece(after)] + others);
        lemma_first_piece(entity_piece(after), others);
    }
}

} // verus!
