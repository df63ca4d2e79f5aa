//! What a request is answered, in terms of its headers and of the entity: which status, which
//! headers, and which bytes.

use crate::body::{content, entity_piece, parts_from, Piece};
use crate::entity::Entity;
use crate::etag::{begins_weak, is_corrupt, tags, weak_match};
use crate::headers::{
    all_visible, first_value, header_entries, is_absent, is_visible, law_new_header, pairs, Headers,
};
use crate::laws::{is_unconditional, law_multipart_content, lemma_one_piece};
use crate::range::{closed_range_value, is_within, law_closed_range, law_ranges_within, resolve};
use crate::serving::{
    base_headers, conditions, content_range, date_of, date_value, dates_read_back, dates_writable,
    estimated_len, header_lines, is_dated, lemma_header_names, multipart_pieces, part_header,
    part_headers_of, part_verdict, range_value, reply, unsatisfied_range, verdict, Method, Response,
    Verdict,
};
use crate::text::{decimal, law_decimal_read_back, number};
use crate::time::Timestamp;
use core::ops::Range;
use vstd::prelude::*;
use vstd::string::StringSliceAdditionalSpecFns;

verus! {

/// Whether an entity that was last modified at `m` was modified after the beginning of a second.
pub open spec fn modified_after(m: Timestamp, secs: u64) -> bool {
    m.secs > secs || (m.secs == secs && m.nanos > 0)
}

/// Whether an `If-Match` stands in the way: it is not `*`, and none of its tags is the entity's, or
/// that is weak.
pub open spec fn match_fails(etag: Option<Seq<u8>>, value: Option<Seq<u8>>) -> bool {
    value matches Some(list) && list != seq![0x2au8] && match etag {
        None => true,
        Some(tag) => begins_weak(tag) || !exists|i: int|
            0 <= i < tags(list).len() && #[trigger] tags(list)[i] == tag,
    }
}

/// Whether an `If-None-Match` is to be heeded: it is there, and can be read where that matters.
pub open spec fn none_match_counts(etag: Option<Seq<u8>>, value: Option<Seq<u8>>) -> bool {
    value matches Some(list) && (list == seq![0x2au8] || etag is None || !is_corrupt(list))
}

/// Whether an `If-None-Match` that is to be heeded names the entity.
pub open spec fn names_entity(etag: Option<Seq<u8>>, list: Seq<u8>) -> bool {
    list == seq![0x2au8] || (etag matches Some(tag) && exists|i: int|
        0 <= i < tags(list).len() && weak_match(#[trigger] tags(list)[i], tag))
}

/// What the conditions of a request come to. A precondition fails by `If-Match`, or else by
/// `If-Unmodified-Since`, and by nothing else. The entity is not modified by `If-None-Match`, or,
/// where there is none to be heeded, by `If-Modified-Since`, and by nothing else. Dates count only
/// for an entity that has one. What cannot be read and is needed makes the request a bad one.
pub proof fn law_conditions(etag: Option<Seq<u8>>, last_modified: Option<Timestamp>, h: Headers)
    ensures
        ({
            let if_match = first_value(h, "if-match"@);
            let if_none_match = first_value(h, "if-none-match"@);
            let unmodified_since = first_value(h, "if-unmodified-since"@);
            let modified_since = first_value(h, "if-modified-since"@);
            let dated = last_modified is Some;
            let bad_match = if_match is Some && if_match->0 != seq![0x2au8] && etag is Some
                && is_corrupt(if_match->0);
            let fails = match_fails(etag, if_match);
            let bad_unmodified = !fails && dated && unmodified_since is Some && date_of(
                unmodified_since->0,
            ) is None;
            let counts = none_match_counts(etag, if_none_match);
            let bad_modified = !counts && dated && modified_since is Some && date_of(
                modified_since->0,
            ) is None;
            conditions(etag, last_modified, h) == if bad_match {
                Err("Unparseable If-Match header")
            } else if bad_unmodified {
                Err("Unparseable If-Unmodified-Since")
            } else if bad_modified {
                Err("Unparseable If-Modified-Since")
            } else {
                Ok(
                    (
                        fails || (dated && unmodified_since is Some && modified_after(
                            last_modified->0,
                            date_of(unmodified_since->0)->0,
                        )),
                        if counts {
                            names_entity(etag, if_none_match->0)
                        } else {
                            dated && modified_since is Some && !modified_after(
                                last_modified->0,
                                date_of(modified_since->0)->0,
                            )
                        },
                    ),
                )
            }
        }),
{
    reveal_strlit("*");
    assert("*".is_ascii());
    assert("*".spec_bytes() =~= seq![0x2au8]);
    reveal_strlit("W/");
    assert("W/".is_ascii());
    if let Some(tag) = etag {
        assert(crate::etag::is_weak(tag) == begins_weak(tag)) by {
            crate::text::law_prefix(tag, "W/".spec_bytes(), Seq::empty());
            let mark = "W/".spec_bytes();
            assert(mark[0] == 0x57 && mark[1] == 0x2f);
        }
        if let Some(list) = first_value(h, "if-match"@) {
            let all = tags(list);
            if exists|i: int| 0 <= i < all.len() && #[trigger] all[i] == tag {
                let i = choose|i: int| 0 <= i < all.len() && #[trigger] all[i] == tag;
                assert(crate::etag::strong_match(all[i], tag) == !begins_weak(tag));
            }
        }
    }
}

/// The status of the response to a request. Another method than GET and HEAD is refused, then
/// conditions that cannot be read, then a failed precondition. An entity that was not modified is
/// not sent again. Only then the `Range` header counts.
pub proof fn law_status<E: Entity>(ent: &E, method: Method, h: Headers, now: Option<Timestamp>)
    ensures
        ({
            let status = reply(ent, method, h, now).status;
            if method != Method::Get && method != Method::Head {
                status == 405
            } else {
                match conditions(ent.spec_etag(), ent.spec_last_modified(), h) {
                    Err(_) => status == 400,
                    Ok((failed, not_modified)) => if failed {
                        status == 412
                    } else if not_modified {
                        status == 304
                    } else {
                        match range_value(ent.spec_etag(), h) {
                            None => status == 200,
                            Some(value) => match resolve(value, ent.spec_len()) {
                                None => status == 200,
                                Some(ranges) => if ranges.len() == 0 {
                                    status == 416
                                } else if ranges.len() == 1 {
                                    status == 206
                                } else {
                                    status == if sum_with_headers(ranges) < ent.spec_len() {
                                        206int
                                    } else {
                                        200int
                                    }
                                },
                            },
                        }
                    },
                }
            }
        }),
{
    if let Some(value) = range_value(ent.spec_etag(), h) {
        if let Some(ranges) = resolve(value, ent.spec_len()) {
            lemma_sum(ranges);
        }
    }
}

/// The number of bytes in ranges, with 80 more for each of them.
pub open spec fn sum_with_headers(ranges: Seq<Range<u64>>) -> int {
    ranges.fold_left(0int, |sum: int, range: Range<u64>| sum + 80 + (range.end - range.start))
}

proof fn lemma_sum(ranges: Seq<Range<u64>>)
    ensures
        sum_with_headers(ranges) == estimated_len(ranges),
    decreases ranges.len(),
{
    if ranges.len() > 0 {
        lemma_sum(ranges.drop_last());
        reveal_with_fuel(Seq::fold_left, 2);
    }
}

/// Without an `If-Match` and an `If-Unmodified-Since`, no precondition fails, whatever the other
/// headers say.
pub proof fn law_no_precondition_fails<E: Entity>(
    ent: &E,
    method: Method,
    h: Headers,
    now: Option<Timestamp>,
)
    requires
        first_value(h, "if-match"@) is None,
        first_value(h, "if-unmodified-since"@) is None,
    ensures
        !(verdict(ent, method, h) is PreconditionFailed),
        reply(ent, method, h, now).status != 412,
{
}

/// Without an `If-None-Match` and an `If-Modified-Since`, the response is never that the entity was
/// not modified, whatever the other headers say.
pub proof fn law_no_not_modified<E: Entity>(
    ent: &E,
    method: Method,
    h: Headers,
    now: Option<Timestamp>,
)
    requires
        first_value(h, "if-none-match"@) is None,
        first_value(h, "if-modified-since"@) is None,
    ensures
        !(verdict(ent, method, h) is NotModified),
        reply(ent, method, h, now).status != 304,
{
}

/// A request that is conditional only by a date, on an entity that was modified after that date, is
/// answered as the same request without the condition; and so is one with a date on which an entity
/// was last modified at the latest, if that is an `If-Unmodified-Since`.
pub proof fn law_condition_by_date_holds<E: Entity>(
    ent: &E,
    method: Method,
    h: Headers,
    unconditional: Headers,
    now: Option<Timestamp>,
    m: Timestamp,
)
    requires
        method != Method::Other,
        ent.spec_last_modified() == Some(m),
        first_value(h, "if-match"@) is None,
        first_value(h, "if-none-match"@) is None,
        first_value(h, "if-modified-since"@) matches Some(since) ==> (date_of(since) matches Some(
            t,
        ) && modified_after(m, t)),
        first_value(h, "if-unmodified-since"@) matches Some(since) ==> (date_of(
            since,
        ) matches Some(t) && !modified_after(m, t)),
        is_unconditional(unconditional),
        first_value(unconditional, "range"@) == first_value(h, "range"@),
        first_value(unconditional, "if-range"@) == first_value(h, "if-range"@),
    ensures
        verdict(ent, method, h) == part_verdict(range_value(ent.spec_etag(), h), ent.spec_len()),
        reply(ent, method, h, now) == reply(ent, method, unconditional, now),
{
}

/// A `Range` is honoured iff the request has no `If-Range`, or one that is the entity's tag and
/// begins with a quote: a weak tag and a date never hold.
pub proof fn law_if_range(etag: Option<Seq<u8>>, h: Headers)
    ensures
        range_value(etag, h) == match first_value(h, "if-range"@) {
            None => first_value(h, "range"@),
            Some(value) => if etag == Some(value) && value.len() > 0 && value[0] == 0x22 {
                first_value(h, "range"@)
            } else {
                None
            },
        },
{
    reveal_strlit("\"");
    reveal_strlit("W/\"");
    reveal_strlit("W/");
    assert("\"".is_ascii());
    assert("W/\"".is_ascii());
    assert("W/".is_ascii());
    if let Some(value) = first_value(h, "if-range"@) {
        let quote = "\"".spec_bytes();
        let weak_quote = "W/\"".spec_bytes();
        let mark = "W/".spec_bytes();
        assert(quote[0] == 0x22);
        assert(weak_quote[0] == 0x57 && weak_quote[1] == 0x2f && weak_quote[2] == 0x22);
        assert(mark[0] == 0x57 && mark[1] == 0x2f);
        crate::text::law_prefix(value, quote, Seq::empty());
        crate::text::law_prefix(value, weak_quote, Seq::empty());
        crate::text::law_prefix(value, mark, Seq::empty());
    }
}

/// Which part of an entity is served. It is a single range iff exactly one was selected, and several
/// are served as such iff they take less than the whole entity, with 80 bytes more for each.
pub proof fn law_which_part(value: Seq<u8>, len: u64)
    ensures
        part_verdict(None, len) == Verdict::Whole,
        match (part_verdict(Some(value), len), resolve(value, len)) {
            (Verdict::Whole, Some(ranges)) => ranges.len() >= 2 && sum_with_headers(ranges) >= len,
            (Verdict::Whole, None) => true,
            (Verdict::NotSatisfiable, Some(ranges)) => ranges.len() == 0,
            (Verdict::Single(range), Some(ranges)) => ranges == seq![range],
            (Verdict::Multiple(several), Some(ranges)) => {
                &&& several == ranges
                &&& ranges.len() >= 2
                &&& sum_with_headers(ranges) < len
            },
            _ => false,
        },
{
    if let Some(ranges) = resolve(value, len) {
        lemma_sum(ranges);
        if ranges.len() == 1 {
            assert(ranges =~= seq![ranges[0]]);
        }
    }
}

/// Whether a value is `bytes F-L/N`, where F, L and N are decimal numbers that denote a first
/// position, a last position and a length.
pub open spec fn names_positions(value: Seq<u8>, first: int, last: int, len: int) -> bool {
    exists|f: Seq<u8>, l: Seq<u8>, n: Seq<u8>|
        {
            &&& value == seq![0x62u8, 0x79u8, 0x74u8, 0x65u8, 0x73u8, 0x20u8] + f + seq![0x2du8] + l
                + seq![0x2fu8] + n
            &&& #[trigger] number(f) matches Some(x) && x == first
            &&& #[trigger] number(l) matches Some(x) && x == last
            &&& #[trigger] number(n) matches Some(x) && x == len
        }
}

/// A `Content-Range` names the first position, the last one and the length of the entity:
/// `bytes F-L/N`, each as a decimal number.
pub proof fn law_content_range_reads_back(range: Range<u64>, len: u64)
    requires
        range.start < range.end,
    ensures
        names_positions(content_range(range, len), range.start as int, range.end - 1, len as int),
        content_range(range, len) == seq![0x62u8, 0x79u8, 0x74u8, 0x65u8, 0x73u8, 0x20u8]
            + decimal(range.start as nat) + seq![0x2du8] + decimal((range.end - 1) as nat) + seq![
            0x2fu8,
        ] + decimal(len as nat),
{
    reveal_strlit("bytes ");
    reveal_strlit("-");
    reveal_strlit("/");
    assert("bytes ".is_ascii());
    assert("-".is_ascii());
    assert("/".is_ascii());
    assert("bytes ".spec_bytes() =~= seq![0x62u8, 0x79u8, 0x74u8, 0x65u8, 0x73u8, 0x20u8]);
    assert("-".spec_bytes() =~= seq![0x2du8]);
    assert("/".spec_bytes() =~= seq![0x2fu8]);
    law_decimal_read_back(range.start);
    law_decimal_read_back((range.end - 1) as u64);
    law_decimal_read_back(len);
    assert(number(decimal(range.start as nat)) == Some(range.start));
    assert(number(decimal((range.end - 1) as nat)) == Some((range.end - 1) as u64));
    assert(number(decimal(len as nat)) == Some(len));
}

/// Where no range can be satisfied, a `Content-Range` names the length of the entity:
/// `bytes */N`.
pub proof fn law_unsatisfied_range(len: u64)
    ensures
        unsatisfied_range(len) == seq![
            0x62u8,
            0x79u8,
            0x74u8,
            0x65u8,
            0x73u8,
            0x20u8,
            0x2au8,
            0x2fu8,
        ] + decimal(len as nat),
        number(unsatisfied_range(len).skip(8)) == Some(len),
{
    reveal_strlit("bytes */");
    assert("bytes */".is_ascii());
    assert("bytes */".spec_bytes() =~= seq![
        0x62u8,
        0x79u8,
        0x74u8,
        0x65u8,
        0x73u8,
        0x20u8,
        0x2au8,
        0x2fu8,
    ]);
    law_decimal_read_back(len);
    assert(unsatisfied_range(len).skip(8) =~= decimal(len as nat));
}

/// Whether a header list has these headers and no others.
pub open spec fn is_header_list(
    h: Headers,
    etag: Option<Seq<u8>>,
    last_modified: Option<Timestamp>,
    now: Option<Timestamp>,
    content_range: Option<Seq<u8>>,
    content_length: Option<Seq<u8>>,
    content_type: Option<Seq<u8>>,
) -> bool {
    let dated = last_modified is Some && now is Some;
    let m = last_modified->0;
    let d = now->0;
    let count = |present: bool|
        if present {
            1int
        } else {
            0
        };
    &&& first_value(h, "accept-ranges"@) == Some("bytes".spec_bytes())
    &&& first_value(h, "etag"@) == etag
    &&& first_value(h, "date"@) == if dated {
        Some(date_value(d))
    } else {
        None
    }
    &&& first_value(h, "last-modified"@) == if dated {
        Some(
            date_value(
                if m.secs < d.secs || (m.secs == d.secs && m.nanos <= d.nanos) {
                    m
                } else {
                    d
                },
            ),
        )
    } else {
        None
    }
    &&& first_value(h, "content-range"@) == content_range
    &&& first_value(h, "content-length"@) == content_length
    &&& first_value(h, "content-type"@) == content_type
    &&& h.len() == 1 + count(etag is Some) + 2 * count(dated) + count(content_range is Some)
        + count(content_length is Some) + count(content_type is Some)
}

/// The headers of a response for an entity that holds no part of the entity: `Accept-Ranges`, the
/// entity's tag, and, where the entity has a date, the present time and that date, or the present
/// time if that is earlier.
pub proof fn law_headers_without_content<E: Entity>(
    ent: &E,
    method: Method,
    h: Headers,
    now: Option<Timestamp>,
)
    requires
        method != Method::Other,
    ensures
        ({
            let response = reply(ent, method, h, now);
            let etag = ent.spec_etag();
            let m = ent.spec_last_modified();
            &&& response.status == 304 || response.status == 412 ==> is_header_list(
                response.headers,
                etag,
                m,
                now,
                None,
                None,
                None,
            )
            &&& response.status == 416 ==> is_header_list(
                response.headers,
                etag,
                m,
                now,
                Some(unsatisfied_range(ent.spec_len())),
                None,
                None,
            )
        }),
{
    let base = base_headers(ent.spec_etag(), ent.spec_last_modified(), now);
    lemma_base(ent.spec_etag(), ent.spec_last_modified(), now);
    lemma_pushed(base, "content-range"@, unsatisfied_range(ent.spec_len()));
}

/// What a GET is answered that serves the whole entity: its bytes, and its headers in addition to
/// `Content-Length`.
pub proof fn law_whole_entity<E: Entity>(
    ent: &E,
    h: Headers,
    now: Option<Timestamp>,
    data: Seq<u8>,
)
    requires
        reply(ent, Method::Get, h, now).status == 200,
        data.len() == ent.spec_len(),
    ensures
        content(reply(ent, Method::Get, h, now).pieces, data) == data,
        exists|before: Headers|
            {
                &&& reply(ent, Method::Get, h, now).headers == #[trigger] ent.spec_headers(before)
                &&& is_header_list(
                    before,
                    ent.spec_etag(),
                    ent.spec_last_modified(),
                    now,
                    None,
                    Some(decimal(data.len())),
                    None,
                )
            },
{
    let base = base_headers(ent.spec_etag(), ent.spec_last_modified(), now);
    lemma_base(ent.spec_etag(), ent.spec_last_modified(), now);
    lemma_header_names();
    lemma_pushed(base, "content-length"@, decimal(data.len()));
    let pieces = reply(ent, Method::Get, h, now).pieces;
    assert(pieces =~= seq![Piece::Entity { start: 0, end: ent.spec_len() }]);
    lemma_one_piece(pieces[0], data);
    assert(data.subrange(0, data.len() as int) =~= data);
    let before = base.push(("content-length"@, seq![decimal(data.len())]));
    assert(reply(ent, Method::Get, h, now).headers == ent.spec_headers(before));
}

/// What a GET is answered that serves a single range: the bytes of the range, with a
/// `Content-Range` and a `Content-Length`, and with the entity's headers iff the request has no
/// `If-Range`.
pub proof fn law_single_range<E: Entity>(
    ent: &E,
    h: Headers,
    now: Option<Timestamp>,
    value: Seq<u8>,
    range: Range<u64>,
    data: Seq<u8>,
)
    requires
        reply(ent, Method::Get, h, now).status == 206,
        range_value(ent.spec_etag(), h) == Some(value),
        resolve(value, ent.spec_len()) == Some(seq![range]),
        data.len() == ent.spec_len(),
    ensures
        range.start < range.end <= data.len(),
        content(reply(ent, Method::Get, h, now).pieces, data) == data.subrange(
            range.start as int,
            range.end as int,
        ),
        exists|before: Headers|
            {
                &&& reply(ent, Method::Get, h, now).headers == if first_value(
                    h,
                    "if-range"@,
                ) is None {
                    #[trigger] ent.spec_headers(before)
                } else {
                    before
                }
                &&& is_header_list(
                    before,
                    ent.spec_etag(),
                    ent.spec_last_modified(),
                    now,
                    Some(content_range(range, ent.spec_len())),
                    Some(decimal((range.end - range.start) as nat)),
                    None,
                )
            },
{
    let before = lemma_single_range(ent, h, now, value, range, data);
    let with_entity = ent.spec_headers(before);
}

/// What the headers of a response with a single range hold before the entity adds its own.
proof fn lemma_single_range<E: Entity>(
    ent: &E,
    h: Headers,
    now: Option<Timestamp>,
    value: Seq<u8>,
    range: Range<u64>,
    data: Seq<u8>,
) -> (before: Headers)
    requires
        reply(ent, Method::Get, h, now).status == 206,
        range_value(ent.spec_etag(), h) == Some(value),
        resolve(value, ent.spec_len()) == Some(seq![range]),
        data.len() == ent.spec_len(),
    ensures
        range.start < range.end <= data.len(),
        content(reply(ent, Method::Get, h, now).pieces, data) == data.subrange(
            range.start as int,
            range.end as int,
        ),
        reply(ent, Method::Get, h, now).headers == if first_value(h, "if-range"@) is None {
            ent.spec_headers(before)
        } else {
            before
        },
        is_header_list(
            before,
            ent.spec_etag(),
            ent.spec_last_modified(),
            now,
            Some(content_range(range, ent.spec_len())),
            Some(decimal((range.end - range.start) as nat)),
            None,
        ),
{
    law_ranges_within(value, ent.spec_len());
    assert(seq![range][0] == range);
    assert(is_within(range, ent.spec_len()));
    let base = base_headers(ent.spec_etag(), ent.spec_last_modified(), now);
    lemma_base(ent.spec_etag(), ent.spec_last_modified(), now);
    let selected = content_range(range, ent.spec_len());
    lemma_pushed(base, "content-range"@, selected);
    let between = base.push(("content-range"@, seq![selected]));
    lemma_header_names();
    let length = decimal((range.end - range.start) as nat);
    lemma_pushed(between, "content-length"@, length);
    let before = between.push(("content-length"@, seq![length]));
    let pieces = reply(ent, Method::Get, h, now).pieces;
    assert(pieces =~= seq![entity_piece(range)]);
    lemma_one_piece(pieces[0], data);
    before
}

/// A request for the bytes from one position to another, both within the entity, is answered with
/// those bytes, a `Content-Range` that names these positions, and a `Content-Length` that is their
/// number.
pub proof fn law_closed_range_is_served<E: Entity>(
    ent: &E,
    h: Headers,
    now: Option<Timestamp>,
    first: u64,
    last: u64,
    data: Seq<u8>,
)
    requires
        is_unconditional(h),
        first_value(h, "if-range"@) is None,
        first_value(h, "range"@) == Some(closed_range_value(first, last)),
        first <= last < ent.spec_len(),
        data.len() == ent.spec_len(),
    ensures
        reply(ent, Method::Get, h, now).status == 206,
        content(reply(ent, Method::Get, h, now).pieces, data) == data.subrange(
            first as int,
            last + 1,
        ),
        exists|before: Headers|
            {
                &&& reply(ent, Method::Get, h, now).headers == #[trigger] ent.spec_headers(before)
                &&& first_value(before, "content-range"@) matches Some(v) && names_positions(
                    v,
                    first as int,
                    last as int,
                    ent.spec_len() as int,
                )
                &&& first_value(before, "content-length"@) matches Some(v) && number(v) == Some(
                    (last - first + 1) as u64,
                )
            },
{
    let len = ent.spec_len();
    let range = Range { start: first, end: (last + 1) as u64 };
    law_closed_range(first, last, len);
    assert(seq![range].len() == 1 && seq![range][0] == range);
    let before = lemma_single_range(
        ent,
        h,
        now,
        closed_range_value(first, last),
        range,
        data,
    );
    law_content_range_reads_back(range, len);
    law_decimal_read_back((last - first + 1) as u64);
    assert(reply(ent, Method::Get, h, now).headers == ent.spec_headers(before));
}

/// What stands in front of a range in a body of several: a boundary, the range, the lines of other
/// headers, and an empty line.
pub open spec fn head_of(range: Range<u64>, len: u64, lines: Seq<u8>) -> Seq<u8> {
    seq![
        0x0du8,
        0x0au8,
        0x2du8,
        0x2du8,
        0x42u8,
        0x0du8,
        0x0au8,
    ] + "Content-Range: ".spec_bytes() + content_range(range, len) + seq![0x0du8, 0x0au8] + lines
        + seq![0x0du8, 0x0au8]
}

proof fn lemma_head(range: Range<u64>, len: u64, lines: Seq<u8>)
    ensures
        part_header(range, len, lines) == head_of(range, len, lines),
{
    reveal_strlit("\r\n--B\r\nContent-Range: ");
    reveal_strlit("Content-Range: ");
    reveal_strlit("\r\n");
    assert("\r\n--B\r\nContent-Range: ".is_ascii());
    assert("Content-Range: ".is_ascii());
    assert("\r\n".is_ascii());
    assert("\r\n--B\r\nContent-Range: ".spec_bytes() =~= seq![
        0x0du8,
        0x0au8,
        0x2du8,
        0x2du8,
        0x42u8,
        0x0du8,
        0x0au8,
    ] + "Content-Range: ".spec_bytes());
    assert("\r\n".spec_bytes() =~= seq![0x0du8, 0x0au8]);
}

/// The parts of a body of several ranges, one for each of them in their order.
pub open spec fn parts_of(
    ranges: Seq<Range<u64>>,
    len: u64,
    lines: Seq<u8>,
    data: Seq<u8>,
) -> Seq<u8> {
    ranges.fold_left(
        Seq::<u8>::empty(),
        |parts: Seq<u8>, range: Range<u64>|
            parts + head_of(range, len, lines) + data.subrange(
                range.start as int,
                range.end as int,
            ),
    )
}

/// One range more is one part more at the end.
proof fn lemma_one_more_part(
    ranges: Seq<Range<u64>>,
    range: Range<u64>,
    len: u64,
    lines: Seq<u8>,
    data: Seq<u8>,
)
    ensures
        parts_of(Seq::empty(), len, lines, data) == Seq::<u8>::empty(),
        parts_of(ranges.push(range), len, lines, data) == parts_of(ranges, len, lines, data)
            + head_of(range, len, lines) + data.subrange(range.start as int, range.end as int),
{
    assert(ranges.push(range).drop_last() =~= ranges);
    assert(ranges.push(range).last() == range);
}

#[verifier::spinoff_prover]
proof fn lemma_parts(
    ranges: Seq<Range<u64>>,
    len: u64,
    lines: Seq<u8>,
    data: Seq<u8>,
    k: int,
)
    requires
        0 <= k <= ranges.len(),
    ensures
        content(multipart_pieces(ranges, len, lines), data) == parts_of(
            ranges.take(k),
            len,
            lines,
            data,
        ) + content(parts_from(2 * k, ranges, part_headers_of(ranges, len, lines)), data),
    decreases k,
{
    let heads = part_headers_of(ranges, len, lines);
    let all = content(parts_from(0, ranges, heads), data);
    if k == 0 {
        lemma_one_more_part(ranges, Range { start: 0, end: 0 }, len, lines, data);
        assert(ranges.take(0) =~= Seq::empty());
        assert(Seq::<u8>::empty() + all =~= all);
    } else {
        lemma_parts(ranges, len, lines, data, k - 1);
        law_multipart_content(ranges, len, lines, data, k - 1);
        let range = ranges[k - 1];
        let before = parts_of(ranges.take(k - 1), len, lines, data);
        let head = head_of(range, len, lines);
        let bytes = data.subrange(range.start as int, range.end as int);
        let rest = content(parts_from(2 * k, ranges, heads), data);
        lemma_head(range, len, lines);
        assert(2 * (k - 1 + 1) == 2 * k);
        assert(all == before + (head + bytes + rest));
        assert(ranges.take(k) =~= ranges.take(k - 1).push(range));
        lemma_one_more_part(ranges.take(k - 1), range, len, lines, data);
        assert(before + (head + bytes + rest) =~= before + head + bytes + rest);
    }
}

/// The pieces of a body of several ranges: each range stands behind its header.
pub proof fn law_multipart_pieces(ranges: Seq<Range<u64>>, len: u64, lines: Seq<u8>, i: int)
    ensures
        multipart_pieces(ranges, len, lines).len() == 2 * ranges.len() + 1,
        0 <= i < ranges.len() ==> multipart_pieces(ranges, len, lines)[2 * i + 1]
            == (Piece::Entity { start: ranges[i].start, end: ranges[i].end }),
        0 <= i < ranges.len() ==> multipart_pieces(ranges, len, lines)[2 * i] == Piece::Bytes(
            head_of(ranges[i], len, lines),
        ),
{
    lemma_pieces(ranges, part_headers_of(ranges, len, lines), 0);
    if 0 <= i < ranges.len() {
        lemma_head(ranges[i], len, lines);
        assert((2 * i) / 2 == i && (2 * i + 1) / 2 == i);
    }
}

proof fn lemma_pieces(ranges: Seq<Range<u64>>, heads: Seq<Seq<u8>>, state: int)
    requires
        0 <= state <= 2 * ranges.len() + 1,
    ensures
        parts_from(state, ranges, heads).len() == 2 * ranges.len() + 1 - state,
        forall|j: int|
            0 <= j < 2 * ranges.len() + 1 - state ==> #[trigger] parts_from(
                state,
                ranges,
                heads,
            )[j] == crate::body::part_at(state + j, ranges, heads),
    decreases 2 * ranges.len() + 1 - state,
{
    if state <= 2 * ranges.len() {
        lemma_pieces(ranges, heads, state + 1);
        let rest = parts_from(state + 1, ranges, heads);
        assert forall|j: int| 0 <= j < 2 * ranges.len() + 1 - state implies #[trigger] parts_from(
            state,
            ranges,
            heads,
        )[j] == crate::body::part_at(state + j, ranges, heads) by {
            if j > 0 {
                assert(parts_from(state, ranges, heads)[j] == rest[j - 1]);
            }
        }
    }
}

/// The lines of the headers that each part of a body of several ranges has: those of the entity,
/// iff the request has no `If-Range`.
pub open spec fn lines_for<E: Entity>(ent: &E, h: Headers) -> Seq<u8> {
    if first_value(h, "if-range"@) is None {
        header_lines(pairs(ent.spec_headers(Seq::empty())))
    } else {
        Seq::empty()
    }
}

/// What a GET is answered for which two ranges or more were selected. Where they take less than the
/// whole entity, with 80 bytes more for each of them, the response is a multipart one: it has a part
/// for each of the ranges, in their order, with the bytes of that range, and a trailer. Otherwise it
/// is the whole entity.
pub proof fn law_several_ranges<E: Entity>(
    ent: &E,
    h: Headers,
    now: Option<Timestamp>,
    value: Seq<u8>,
    ranges: Seq<Range<u64>>,
    data: Seq<u8>,
)
    requires
        conditions(ent.spec_etag(), ent.spec_last_modified(), h) == Ok::<
            (bool, bool),
            &'static str,
        >((false, false)),
        range_value(ent.spec_etag(), h) == Some(value),
        resolve(value, ent.spec_len()) == Some(ranges),
        ranges.len() >= 2,
        data.len() == ent.spec_len(),
    ensures
        ({
            let response = reply(ent, Method::Get, h, now);
            if sum_with_headers(ranges) < ent.spec_len() {
                let lines = lines_for(ent, h);
                &&& response.status == 206
                &&& response.pieces.len() == 2 * ranges.len() + 1
                &&& content(response.pieces, data) == parts_of(ranges, ent.spec_len(), lines, data)
                    + "\r\n--B--\r\n".spec_bytes()
                &&& crate::body::total_len(response.pieces) <= u64::MAX ==> is_header_list(
                    response.headers,
                    ent.spec_etag(),
                    ent.spec_last_modified(),
                    now,
                    None,
                    Some(decimal(content(response.pieces, data).len())),
                    Some("multipart/byteranges; boundary=B".spec_bytes()),
                )
            } else {
                &&& response.status == 200
                &&& content(response.pieces, data) == data
            }
        }),
{
    lemma_sum(ranges);
    let len = ent.spec_len();
    let response = reply(ent, Method::Get, h, now);
    let lines = lines_for(ent, h);
    if sum_with_headers(ranges) < len {
        assert(verdict(ent, Method::Get, h) == Verdict::Multiple(ranges));
        assert(response.pieces == multipart_pieces(ranges, len, lines));
        law_multipart_pieces(ranges, len, lines, 0);
        let k = ranges.len() as int;
        lemma_parts(ranges, len, lines, data, k);
        law_multipart_content(ranges, len, lines, data, k);
        assert(ranges.take(k) =~= ranges);
        crate::laws::law_response_within_entity(ent, Method::Get, h, now);
        crate::body::law_content_len(response.pieces, data);
        let total = crate::body::total_len(response.pieces);
        if total <= u64::MAX {
            let base = base_headers(ent.spec_etag(), ent.spec_last_modified(), now);
            lemma_base(ent.spec_etag(), ent.spec_last_modified(), now);
            lemma_header_names();
            let length = decimal(total as nat);
            lemma_pushed(base, "content-length"@, length);
            let between = base.push(("content-length"@, seq![length]));
            lemma_pushed(
                between,
                "content-type"@,
                "multipart/byteranges; boundary=B".spec_bytes(),
            );
        }
    } else {
        law_whole_entity(ent, h, now, data);
    }
}

/// The lines of a block of headers: one for each, with a colon and a space behind the name.
pub proof fn law_header_lines(headers: Seq<(Seq<char>, Seq<u8>)>, name: Seq<char>, value: Seq<u8>)
    ensures
        header_lines(Seq::empty()) == Seq::<u8>::empty(),
        header_lines(headers.push((name, value))) == header_lines(headers)
            + vstd::utf8::encode_utf8(name) + seq![0x3au8, 0x20u8] + value + seq![0x0du8, 0x0au8],
{
    reveal_strlit(": ");
    reveal_strlit("\r\n");
    assert(": ".is_ascii());
    assert("\r\n".is_ascii());
    assert(": ".spec_bytes() =~= seq![0x3au8, 0x20u8]);
    assert("\r\n".spec_bytes() =~= seq![0x0du8, 0x0au8]);
    let longer = headers.push((name, value));
    assert(longer.drop_last() =~= headers);
    assert(longer.last() == (name, value));
}

/// What requests are answered that are not served: a text that says why.
pub proof fn law_refusals<E: Entity>(
    ent: &E,
    method: Method,
    h: Headers,
    now: Option<Timestamp>,
    data: Seq<u8>,
)
    ensures
        ({
            let response = reply(ent, method, h, now);
            let text = content(response.pieces, data);
            &&& response.status == 405 ==> {
                &&& response.headers == seq![("allow"@, seq!["get, head".spec_bytes()])]
                &&& text == "This resource only supports GET and HEAD.".spec_bytes()
            }
            &&& response.status == 400 ==> {
                &&& response.headers.len() == 0
                &&& conditions(ent.spec_etag(), ent.spec_last_modified(), h) matches Err(e) && text
                    == e.spec_bytes()
            }
            &&& response.status == 412 ==> text == "Precondition failed".spec_bytes()
            &&& response.status == 304 || response.status == 416 ==> text.len() == 0
        }),
{
    let response = reply(ent, method, h, now);
    if response.pieces.len() == 1 {
        assert(response.pieces =~= seq![response.pieces[0]]);
        lemma_one_piece(response.pieces[0], data);
    }
}

/// A HEAD is answered as a GET, but without the entity's bytes.
pub proof fn law_head_has_no_bytes<E: Entity>(ent: &E, h: Headers, now: Option<Timestamp>)
    ensures
        ({
            let head = reply(ent, Method::Head, h, now);
            let get = reply(ent, Method::Get, h, now);
            &&& head.status == get.status
            &&& head.headers == get.headers
            &&& head.pieces == if get.status == 200 || get.status == 206 {
                Seq::<Piece>::empty()
            } else {
                get.pieces
            }
        }),
{
}

proof fn lemma_pushed(h: Headers, name: Seq<char>, value: Seq<u8>)
    requires
        is_absent(h, name),
    ensures
        first_value(h.push((name, seq![value])), name) == Some(value),
        forall|other: Seq<char>|
            other != name ==> #[trigger] first_value(h.push((name, seq![value])), other)
                == first_value(h, other),
        forall|other: Seq<char>|
            other != name && is_absent(h, other) ==> #[trigger] is_absent(
                h.push((name, seq![value])),
                other,
            ),
{
    let after = h.push((name, seq![value]));
    assert forall|other: Seq<char>| other != name implies #[trigger] first_value(after, other)
        == first_value(h, other) by {
        law_new_header(h, name, value, other);
    }
    assert forall|other: Seq<char>| other != name && is_absent(h, other) implies #[trigger] is_absent(
        after,
        other,
    ) by {
        law_new_header(h, name, value, other);
    }
    let other = name.push('x');
    assert(other.len() != name.len());
    law_new_header(h, name, value, other);
}

proof fn lemma_base(etag: Option<Seq<u8>>, m: Option<Timestamp>, now: Option<Timestamp>)
    ensures
        is_header_list(base_headers(etag, m, now), etag, m, now, None, None, None),
        is_absent(base_headers(etag, m, now), "content-range"@),
        is_absent(base_headers(etag, m, now), "content-length"@),
        is_absent(base_headers(etag, m, now), "content-type"@),
        "content-range"@ != "content-length"@,
        "content-range"@ != "content-type"@,
        "content-length"@ != "content-type"@,
        "content-range"@ != "accept-ranges"@,
        "content-range"@ != "date"@,
        "content-range"@ != "last-modified"@,
        "content-range"@ != "etag"@,
{
    lemma_header_names();
    let none: Headers = Seq::empty();
    let ranges = "bytes".spec_bytes();
    lemma_pushed(none, "accept-ranges"@, ranges);
    let h1 = none.push(("accept-ranges"@, seq![ranges]));
    assert(h1 =~= seq![("accept-ranges"@, seq![ranges])]);
    lemma_nothing(none, "date"@);
    lemma_nothing(none, "last-modified"@);
    lemma_nothing(none, "etag"@);
    lemma_nothing(none, "content-range"@);
    lemma_nothing(none, "content-length"@);
    lemma_nothing(none, "content-type"@);
    let h2 = match (m, now) {
        (Some(m), Some(d)) => {
            lemma_pushed(h1, "date"@, date_value(d));
            let h = h1.push(("date"@, seq![date_value(d)]));
            lemma_pushed(h, "last-modified"@, date_value(m.earlier(d)));
            h.push(("last-modified"@, seq![date_value(m.earlier(d))]))
        },
        _ => h1,
    };
    if let Some(tag) = etag {
        lemma_pushed(h2, "etag"@, tag);
    }
}

proof fn lemma_nothing(h: Headers, name: Seq<char>)
    requires
        h.len() == 0,
    ensures
        first_value(h, name) is None,
        is_absent(h, name),
{
}

/// A response for an entity with a date needs the present time, and neither may be one that an HTTP
/// date cannot express: before the Unix epoch, or, for the present time, after the year 9999.
pub proof fn law_dates_writable(m: Option<Timestamp>, now: Option<Timestamp>, v: Verdict)
    ensures
        dates_writable(m, now) <==> m is None || (m->0.secs >= 0 && now is Some && 0 <= now->0.secs
            < 253_402_300_800),
        is_dated(v) <==> !(v is MethodNotAllowed) && !(v is BadRequest),
{
}

/// A date is written as that of its second.
pub proof fn law_date_value(t: Timestamp)
    ensures
        date_value(t) == vstd::utf8::encode_utf8(crate::time::http_date_text(t.secs as u64)),
{
}

/// A response is described by its own status, headers and body.
pub proof fn law_response(response: Response)
    ensures
        response.reply().status == response.status,
        response.reply().headers == header_entries(response.headers),
        response.reply().pieces == response.body.pieces(),
{
}

/// The value of a header denotes the date that its text denotes, if it is visible, and none
/// otherwise.
pub proof fn law_date_of(value: Seq<u8>, text: Seq<char>)
    requires
        text.len() == value.len(),
        forall|i: int| 0 <= i < text.len() ==> #[trigger] text[i] == value[i] as char,
    ensures
        date_of(value) == if forall|i: int|
            0 <= i < value.len() ==> 0x20 <= #[trigger] value[i] <= 0x7e || value[i] == 0x09 {
            crate::time::http_date(text)
        } else {
            None
        },
{
    assert(crate::headers::ascii_text(value) =~= text);
    if all_visible(value) {
        assert forall|i: int| 0 <= i < value.len() implies 0x20 <= #[trigger] value[i] <= 0x7e
            || value[i] == 0x09 by {
            assert(is_visible(value[i]));
        }
    } else {
        let i = choose|i: int| 0 <= i < value.len() && !is_visible(#[trigger] value[i]);
        assert(!(0x20 <= value[i] <= 0x7e || value[i] == 0x09));
    }
}

/// The dates of a response that read back denote the present second and that of the earlier of the
/// two times.
pub proof fn law_dates_read_back(m: Timestamp, d: Timestamp)
    requires
        dates_read_back(Some(m), Some(d)),
    ensures
        date_of(date_value(d)) == Some(d.secs as u64),
        m.secs <= d.secs && (m.secs < d.secs || m.nanos <= d.nanos) ==> date_of(date_value(m))
            == Some(m.secs as u64),
{
}

} // verus!
