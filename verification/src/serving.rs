//! Serving of GET and HEAD requests, with conditions and byte ranges.

use crate::body::{
    all_forward, entity_piece, lemma_parts_len, parts_from, total_len, views, Body, EntityStream,
    MultipartStream, Piece,
};
use crate::entity::Entity;
use crate::etag::{
    any_match, any_match_verdict, etag_bytes, none_match, none_match_verdict, strong_eq,
    strong_match,
};
use crate::headers::{
    add_new, all_visible, ascii_text, first_value, get, header_entries, header_value, is_absent,
    is_value, is_value_byte, lemma_visible_text, new_map, pairs, to_pairs, value_bytes, Headers,
    MAX_NAMES,
};
use crate::range::{
    has_room, is_within, law_ranges_within, lemma_ranges_count, parse, resolve, ResolvedRanges,
};
use crate::text::{
    decimal, has_prefix, is_digit, law_decimal_read_back, push_decimal, push_text, starts_with,
};
use crate::time::{
    fmt_http_date, http_date, http_date_text, is_http_time, now, parse_http_date, Timestamp,
    HTTP_DATE_END,
};
use core::ops::Range;
use http::header::{HeaderMap, HeaderValue};
use vstd::prelude::*;
use vstd::string::StringSliceAdditionalSpecFns;

verus! {

/// The method of a request, as far as it matters here.
#[derive(Clone, Copy, Debug, PartialEq, Eq, Structural)]
pub enum Method {
    Get,
    Head,
    Other,
}

/// A request, as far as it matters here.
pub struct Request<'a> {
    pub method: Method,
    pub headers: &'a HeaderMap<HeaderValue>,
}

/// The second that the value of a header denotes as an HTTP date.
pub open spec fn date_of(value: Seq<u8>) -> Option<u64> {
    if all_visible(value) {
        http_date(ascii_text(value))
    } else {
        None
    }
}

/// What a request's conditions say of an entity: whether a precondition failed, and whether the
/// entity was not modified; or what is wrong with the conditions.
pub open spec fn conditions(
    etag: Option<Seq<u8>>,
    last_modified: Option<Timestamp>,
    h: Headers,
) -> Result<(bool, bool), &'static str> {
    let precondition_failed = match any_match_verdict(etag, first_value(h, "if-match"@)) {
        None => Err("Unparseable If-Match header"),
        Some(false) => Ok(true),
        Some(true) => match (last_modified, first_value(h, "if-unmodified-since"@)) {
            (Some(m), Some(since)) => match date_of(since) {
                None => Err("Unparseable If-Unmodified-Since"),
                Some(t) => Ok(m.is_after(t)),
            },
            _ => Ok(false),
        },
    };
    let not_modified = match none_match_verdict(etag, first_value(h, "if-none-match"@)) {
        Some(none_match) => Ok(!none_match),
        None => match (last_modified, first_value(h, "if-modified-since"@)) {
            (Some(m), Some(since)) => match date_of(since) {
                None => Err("Unparseable If-Modified-Since"),
                Some(t) => Ok(!m.is_after(t)),
            },
            _ => Ok(false),
        },
    };
    match (precondition_failed, not_modified) {
        (Err(e), _) => Err(e),
        (_, Err(e)) => Err(e),
        (Ok(p), Ok(n)) => Ok((p, n)),
    }
}

/// Reads the value of a header as an HTTP date.
fn parse_date(value: &HeaderValue) -> (r: Option<u64>)
    ensures
        r == date_of(value_bytes(*value)),
        r matches Some(t) ==> t < HTTP_DATE_END,
{
    match value.to_str() {
        Err(_) => None,
        Ok(text) => match parse_http_date(text) {
            Err(_) => None,
            Ok(secs) => Some(secs),
        },
    }
}

/// Evaluates the conditions of a request: returns whether a precondition failed and whether the
/// entity was not modified, or what is wrong with the conditions.
pub fn parse_modified_hdrs(
    etag: &Option<HeaderValue>,
    req_hdrs: &HeaderMap<HeaderValue>,
    last_modified: Option<Timestamp>,
) -> (r: Result<(bool, bool), &'static str>)
    ensures
        r == conditions(etag_bytes(*etag), last_modified, header_entries(*req_hdrs)),
{
    let precondition_failed: bool = match any_match(etag, req_hdrs) {
        Err(e) => return Err(e),
        Ok(false) => true,
        Ok(true) => match (last_modified, get(req_hdrs, "if-unmodified-since")) {
            (Some(m), Some(since)) => match parse_date(since) {
                None => return Err("Unparseable If-Unmodified-Since"),
                Some(t) => m.after(t),
            },
            _ => false,
        },
    };
    let not_modified: bool = match none_match(etag, req_hdrs) {
        // See RFC 7233 section 14.26 <https://tools.ietf.org/html/rfc7233#section-14.26>:
        // "If none of the entity tags match, then the server MAY perform the
        // requested method as if the If-None-Match header field did not exist,
        // but MUST also ignore any If-Modified-Since header field(s) in the
        // request. That is, if no entity tags match, then the server MUST NOT
        // return a 304 (Not Modified) response."
        Some(true) => false,
        Some(false) => true,
        None => match (last_modified, get(req_hdrs, "if-modified-since")) {
            (Some(m), Some(since)) => match parse_date(since) {
                None => return Err("Unparseable If-Modified-Since"),
                Some(t) => !m.after(t),
            },
            _ => false,
        },
    };
    Ok((precondition_failed, not_modified))
}

/// Whether the value of an `If-Range` header holds of an entity: it is the entity's tag, and a
/// strong one. A date never holds, as the entity could have changed twice in a second.
pub open spec fn if_range_holds(value: Seq<u8>, etag: Option<Seq<u8>>) -> bool {
    &&& has_prefix(value, "W/\"".spec_bytes()) || has_prefix(value, "\"".spec_bytes())
    &&& etag matches Some(tag) && strong_match(value, tag)
}

/// The value of the `Range` header, if it is to be honoured.
pub open spec fn range_value(etag: Option<Seq<u8>>, h: Headers) -> Option<Seq<u8>> {
    match first_value(h, "if-range"@) {
        Some(value) if !if_range_holds(value, etag) => None,
        _ => first_value(h, "range"@),
    }
}

/// Whether a partial response has the entity's headers. See RFC 7233 section 4.1
/// <https://tools.ietf.org/html/rfc7233#section-4.1>: it should iff the client didn't specify
/// If-Range.
pub open spec fn partial_has_entity_headers(h: Headers) -> bool {
    first_value(h, "if-range"@) is None
}

/// Evaluates `If-Range`: returns the `Range` header, if it is to be honoured, and whether a
/// partial response has the entity's headers.
fn effective_range<'a>(
    etag: &Option<HeaderValue>,
    req_hdrs: &'a HeaderMap<HeaderValue>,
) -> (r: (Option<&'a HeaderValue>, bool))
    ensures
        match r.0 {
            Some(v) => range_value(etag_bytes(*etag), header_entries(*req_hdrs)) == Some(
                value_bytes(*v),
            ),
            None => range_value(etag_bytes(*etag), header_entries(*req_hdrs)) is None,
        },
        r.0 is Some ==> r.1 == partial_has_entity_headers(header_entries(*req_hdrs)),
{
    let range_hdr = get(req_hdrs, "range");
    match get(req_hdrs, "if-range") {
        None => (range_hdr, true),
        Some(v) => {
            let if_range = v.as_bytes();
            if starts_with(if_range, "W/\"".as_bytes()) || starts_with(if_range, "\"".as_bytes()) {
                // etag case.
                match etag {
                    Some(some_etag) => if strong_eq(if_range, some_etag.as_bytes()) {
                        (range_hdr, false)
                    } else {
                        (None, true)
                    },
                    None => (None, true),
                }
            } else {
                // Date case.
                // Use the strong validation rules for an origin server:
                // <https://tools.ietf.org/html/rfc7232#section-2.2.2>.
                // The resource could have changed twice in the supplied second, so never match.
                (None, true)
            }
        },
    }
}

/// The value of a `Content-Range` header: a range, and the length of the whole.
pub open spec fn content_range(range: Range<u64>, len: u64) -> Seq<u8> {
    "bytes ".spec_bytes() + decimal(range.start as nat) + "-".spec_bytes() + decimal(
        (range.end - 1) as nat,
    ) + "/".spec_bytes() + decimal(len as nat)
}

/// The value of a `Content-Range` header where no range could be satisfied.
pub open spec fn unsatisfied_range(len: u64) -> Seq<u8> {
    "bytes */".spec_bytes() + decimal(len as nat)
}

/// The value of a header that holds an HTTP date.
pub open spec fn date_value(t: Timestamp) -> Seq<u8> {
    vstd::utf8::encode_utf8(http_date_text(t.secs as u64))
}

/// Whether a header value can hold the joined bytes.
proof fn lemma_value_concat(a: Seq<u8>, b: Seq<u8>)
    requires
        is_value(a),
        is_value(b),
    ensures
        is_value(a + b),
{
    assert forall|i: int| 0 <= i < (a + b).len() implies is_value_byte(#[trigger] (a + b)[i]) by {
        if i >= a.len() {
            assert((a + b)[i] == b[i - a.len()]);
        }
    }
}

proof fn lemma_decimal_value(n: u64)
    ensures
        is_value(decimal(n as nat)),
{
    law_decimal_read_back(n);
    let d = decimal(n as nat);
    assert forall|i: int| 0 <= i < d.len() implies is_value_byte(#[trigger] d[i]) by {
        assert(is_digit(d[i]));
    }
}

fn decimal_value(n: u64) -> (r: HeaderValue)
    ensures
        value_bytes(r) == decimal(n as nat),
{
    let mut buf: Vec<u8> = Vec::new();
    push_decimal(&mut buf, n);
    proof {
        assert(buf@ =~= decimal(n as nat));
        lemma_decimal_value(n);
    }
    header_value(buf.as_slice())
}

/// Appends the value of a `Content-Range` header.
fn push_content_range(buf: &mut Vec<u8>, range: &Range<u64>, len: u64)
    requires
        range.end > 0,
    ensures
        final(buf)@ == old(buf)@ + content_range(*range, len),
{
    push_text(buf, "bytes ");
    push_decimal(buf, range.start);
    push_text(buf, "-");
    push_decimal(buf, range.end - 1);
    push_text(buf, "/");
    push_decimal(buf, len);
    assert(buf@ =~= old(buf)@ + content_range(*range, len));
}

fn content_range_value(range: &Range<u64>, len: u64) -> (r: HeaderValue)
    requires
        range.end > 0,
    ensures
        value_bytes(r) == content_range(*range, len),
{
    let mut buf: Vec<u8> = Vec::new();
    push_content_range(&mut buf, range, len);
    proof {
        reveal_strlit("bytes ");
        reveal_strlit("-");
        reveal_strlit("/");
        lemma_visible_text("bytes ");
        lemma_visible_text("-");
        lemma_visible_text("/");
        lemma_decimal_value(range.start);
        lemma_decimal_value((range.end - 1) as u64);
        lemma_decimal_value(len);
        let a = "bytes ".spec_bytes() + decimal(range.start as nat);
        lemma_value_concat("bytes ".spec_bytes(), decimal(range.start as nat));
        lemma_value_concat(a, "-".spec_bytes());
        let b = a + "-".spec_bytes();
        lemma_value_concat(b, decimal((range.end - 1) as nat));
        let c = b + decimal((range.end - 1) as nat);
        lemma_value_concat(c, "/".spec_bytes());
        lemma_value_concat(c + "/".spec_bytes(), decimal(len as nat));
        assert(buf@ =~= content_range(*range, len));
    }
    header_value(buf.as_slice())
}

fn unsatisfied_range_value(len: u64) -> (r: HeaderValue)
    ensures
        value_bytes(r) == unsatisfied_range(len),
{
    let mut buf: Vec<u8> = Vec::new();
    push_text(&mut buf, "bytes */");
    push_decimal(&mut buf, len);
    proof {
        reveal_strlit("bytes */");
        lemma_visible_text("bytes */");
        lemma_decimal_value(len);
        lemma_value_concat("bytes */".spec_bytes(), decimal(len as nat));
        assert(buf@ =~= unsatisfied_range(len));
    }
    header_value(buf.as_slice())
}

/// Writes a point in time as the value of a header, from which it reads back to the second.
fn http_date_value(t: Timestamp) -> (r: HeaderValue)
    requires
        is_http_time(t),
    ensures
        value_bytes(r) == date_value(t),
        date_of(value_bytes(r)) == Some(t.secs as u64),
{
    let text = fmt_http_date(t.secs as u64);
    let s = text.as_str();
    proof {
        lemma_visible_text(s);
    }
    header_value(s.as_bytes())
}

/// The lines of a block of headers.
pub open spec fn header_lines(headers: Seq<(Seq<char>, Seq<u8>)>) -> Seq<u8>
    decreases headers.len(),
{
    if headers.len() == 0 {
        Seq::empty()
    } else {
        header_lines(headers.drop_last()) + vstd::utf8::encode_utf8(headers.last().0)
            + ": ".spec_bytes() + headers.last().1 + "\r\n".spec_bytes()
    }
}

/// What stands in front of one part of a multipart body: the boundary, the part's range, the
/// lines of the other headers, and an empty line.
pub open spec fn part_header(range: Range<u64>, len: u64, lines: Seq<u8>) -> Seq<u8> {
    "\r\n--B\r\nContent-Range: ".spec_bytes() + content_range(range, len) + "\r\n".spec_bytes()
        + lines + "\r\n".spec_bytes()
}

/// What stands in front of each part of a multipart body.
pub open spec fn part_headers_of(ranges: Seq<Range<u64>>, len: u64, lines: Seq<u8>) -> Seq<
    Seq<u8>,
> {
    ranges.map_values(|range: Range<u64>| part_header(range, len, lines))
}

/// A multipart body: each range behind its header, and the trailer.
pub open spec fn multipart_pieces(ranges: Seq<Range<u64>>, len: u64, lines: Seq<u8>) -> Seq<
    Piece,
> {
    parts_from(0, ranges, part_headers_of(ranges, len, lines))
}

/// Writes a block of headers.
fn write_header_lines(headers: &HeaderMap<HeaderValue>) -> (r: Vec<u8>)
    ensures
        r@ == header_lines(pairs(header_entries(*headers))),
{
    let all = to_pairs(headers);
    let ghost spec = pairs(header_entries(*headers));
    let mut lines: Vec<u8> = Vec::new();
    let mut i: usize = 0;
    assert(spec.take(0) =~= Seq::empty());
    while i < all.len()
        invariant
            i <= all@.len(),
            all@.len() == spec.len(),
            forall|j: int|
                0 <= j < all@.len() ==> (#[trigger] all@[j]).0@ == spec[j].0 && all@[j].1@
                    == spec[j].1,
            lines@ == header_lines(spec.take(i as int)),
        decreases all@.len() - i,
    {
        let ghost before = lines@;
        push_text(&mut lines, all[i].0.as_str());
        push_text(&mut lines, ": ");
        lines.extend_from_slice(all[i].1.as_slice());
        push_text(&mut lines, "\r\n");
        proof {
            let taken = spec.take(i + 1);
            assert(taken.drop_last() =~= spec.take(i as int));
            assert(taken.last() == spec[i as int]);
            assert(lines@ =~= header_lines(taken));
        }
        i += 1;
    }
    assert(spec.take(i as int) =~= spec);
    lines
}

/// The header of one part of a multipart body.
fn write_part_header(range: &Range<u64>, len: u64, lines: &Vec<u8>) -> (r: Vec<u8>)
    requires
        range.end > 0,
    ensures
        r@ == part_header(*range, len, lines@),
{
    let mut buf: Vec<u8> = Vec::new();
    push_text(&mut buf, "\r\n--B\r\nContent-Range: ");
    push_content_range(&mut buf, range, len);
    push_text(&mut buf, "\r\n");
    buf.extend_from_slice(lines.as_slice());
    push_text(&mut buf, "\r\n");
    assert(buf@ =~= part_header(*range, len, lines@));
    buf
}

/// Prepares to send a `multipart/byteranges` response.
/// Adds the overall headers to those of the response, and returns each part's headers and the
/// overall length.
pub fn prepare_multipart(
    headers: &mut HeaderMap<HeaderValue>,
    ranges: &Vec<Range<u64>>,
    len: u64,
    include_entity_headers: Option<HeaderMap<HeaderValue>>,
) -> (r: (Vec<Vec<u8>>, u64))
    requires
        header_entries(*old(headers)).len() < MAX_NAMES,
        is_absent(header_entries(*old(headers)), "content-length"@),
        is_absent(header_entries(*old(headers)), "content-type"@),
        all_forward(ranges@),
        forall|i: int| 0 <= i < ranges@.len() ==> (#[trigger] ranges@[i]).end > 0,
        total_len(multipart_pieces(ranges@, len, lines_of(include_entity_headers))) <= u64::MAX,
    ensures
        views(r.0@) == part_headers_of(ranges@, len, lines_of(include_entity_headers)),
        r.1 == total_len(multipart_pieces(ranges@, len, lines_of(include_entity_headers))),
        header_entries(*final(headers)) == multipart_headers(
            header_entries(*old(headers)),
            r.1,
        ),
{
    let lines: Vec<u8> = match include_entity_headers {
        Some(h) => write_header_lines(&h),
        None => Vec::new(),
    };
    let ghost spec = part_headers_of(ranges@, len, lines@);
    let ghost all = total_len(multipart_pieces(ranges@, len, lines@));
    let mut body_len: u64 = 0;
    let mut part_headers: Vec<Vec<u8>> = Vec::new();
    let mut i: usize = 0;
    while i < ranges.len()
        invariant
            i <= ranges@.len(),
            all_forward(ranges@),
            forall|j: int| 0 <= j < ranges@.len() ==> (#[trigger] ranges@[j]).end > 0,
            spec == part_headers_of(ranges@, len, lines@),
            all <= u64::MAX,
            body_len + total_len(parts_from(2 * i, ranges@, spec)) == all,
            part_headers@.len() == i,
            forall|j: int| 0 <= j < i ==> (#[trigger] part_headers@[j])@ == spec[j],
        decreases ranges@.len() - i,
    {
        let r = &ranges[i];
        let buf = write_part_header(r, len, &lines);
        proof {
            lemma_parts_len(i as int, ranges@, spec);
            assert(spec[i as int] == buf@);
        }
        body_len = body_len + (buf.len() as u64 + (r.end - r.start));
        part_headers.push(buf);
        i += 1;
    }
    proof {
        lemma_parts_len(i as int, ranges@, spec);
        assert(views(part_headers@) =~= spec);
    }
    let trailer: &[u8] = "\r\n--B--\r\n".as_bytes();
    body_len = body_len + trailer.len() as u64;
    add_new(headers, "content-length", decimal_value(body_len));
    proof {
        lemma_header_names();
        reveal_strlit("multipart/byteranges; boundary=B");
        lemma_visible_text("multipart/byteranges; boundary=B");
    }
    add_new(
        headers,
        "content-type",
        header_value("multipart/byteranges; boundary=B".as_bytes()),
    );
    (part_headers, body_len)
}

/// The lines of the headers that each part of a multipart body has besides its range.
pub open spec fn lines_of(headers: Option<HeaderMap<HeaderValue>>) -> Seq<u8> {
    match headers {
        Some(h) => header_lines(pairs(header_entries(h))),
        None => Seq::empty(),
    }
}

/// The headers of a response with those of a multipart body of length `len`.
pub open spec fn multipart_headers(h: Headers, len: u64) -> Headers {
    h.push(("content-length"@, seq![decimal(len as nat)])).push(
        ("content-type"@, seq!["multipart/byteranges; boundary=B".spec_bytes()]),
    )
}

/// The names of the headers that a response gets are different from one another.
pub proof fn lemma_header_names()
    ensures
        "accept-ranges"@ != "date"@,
        "accept-ranges"@ != "last-modified"@,
        "accept-ranges"@ != "etag"@,
        "accept-ranges"@ != "content-range"@,
        "accept-ranges"@ != "content-length"@,
        "accept-ranges"@ != "content-type"@,
        "date"@ != "last-modified"@,
        "date"@ != "etag"@,
        "date"@ != "content-range"@,
        "date"@ != "content-length"@,
        "date"@ != "content-type"@,
        "last-modified"@ != "etag"@,
        "last-modified"@ != "content-range"@,
        "last-modified"@ != "content-length"@,
        "last-modified"@ != "content-type"@,
        "etag"@ != "content-range"@,
        "etag"@ != "content-length"@,
        "etag"@ != "content-type"@,
        "content-range"@ != "content-length"@,
        "content-range"@ != "content-type"@,
        "content-length"@ != "content-type"@,
{
    reveal_strlit("accept-ranges");
    reveal_strlit("date");
    reveal_strlit("last-modified");
    reveal_strlit("etag");
    reveal_strlit("content-range");
    reveal_strlit("content-length");
    reveal_strlit("content-type");
    assert("accept-ranges"@[0] == 'a');
    assert("last-modified"@[0] == 'l');
    assert("content-range"@[0] == 'c');
    assert("date"@[0] == 'd');
    assert("etag"@[0] == 'e');
    assert("content-range"@.len() == 13);
    assert("content-length"@.len() == 14);
    assert("content-type"@.len() == 12);
}

/// How a request is to be answered.
pub enum Verdict {
    MethodNotAllowed,
    BadRequest(&'static str),
    PreconditionFailed,
    NotModified,
    NotSatisfiable,
    Whole,
    Single(Range<u64>),
    Multiple(Seq<Range<u64>>),
}

/// An estimate of the length of a multipart body: the ranges, with 80 bytes for the header of
/// each.
pub open spec fn estimated_len(ranges: Seq<Range<u64>>) -> int
    decreases ranges.len(),
{
    if ranges.len() == 0 {
        0
    } else {
        estimated_len(ranges.drop_last()) + 80 + (ranges.last().end - ranges.last().start)
    }
}

/// Which part of an entity of length `len` is to be served, given the value of the `Range` header
/// that is to be honoured. Where several ranges would take more than the whole, that is served.
pub open spec fn part_verdict(range: Option<Seq<u8>>, len: u64) -> Verdict {
    match range {
        None => Verdict::Whole,
        Some(value) => match resolve(value, len) {
            None => Verdict::Whole,
            Some(ranges) => if ranges.len() == 0 {
                Verdict::NotSatisfiable
            } else if ranges.len() == 1 {
                Verdict::Single(ranges[0])
            } else if estimated_len(ranges) < len {
                Verdict::Multiple(ranges)
            } else {
                Verdict::Whole
            },
        },
    }
}

/// How a request for an entity is to be answered.
pub open spec fn verdict<E: Entity>(ent: &E, method: Method, h: Headers) -> Verdict {
    if method == Method::Other {
        Verdict::MethodNotAllowed
    } else {
        match conditions(ent.spec_etag(), ent.spec_last_modified(), h) {
            Err(e) => Verdict::BadRequest(e),
            Ok((true, _)) => Verdict::PreconditionFailed,
            Ok((false, true)) => Verdict::NotModified,
            Ok((false, false)) => part_verdict(range_value(ent.spec_etag(), h), ent.spec_len()),
        }
    }
}

/// Whether the dates that a response for an entity holds can be written.
pub open spec fn dates_writable(last_modified: Option<Timestamp>, now: Option<Timestamp>) -> bool {
    last_modified matches Some(m) ==> (0 <= m.secs && (now matches Some(d) && is_http_time(d)))
}

/// The headers that every response for an entity has. The Last-Modified does not exceed the Date.
pub open spec fn base_headers(
    etag: Option<Seq<u8>>,
    last_modified: Option<Timestamp>,
    now: Option<Timestamp>,
) -> Headers {
    let h: Headers = seq![("accept-ranges"@, seq!["bytes".spec_bytes()])];
    let h = match (last_modified, now) {
        (Some(m), Some(d)) => h.push(("date"@, seq![date_value(d)])).push(
            ("last-modified"@, seq![date_value(m.earlier(d))]),
        ),
        _ => h,
    };
    match etag {
        Some(tag) => h.push(("etag"@, seq![tag])),
        None => h,
    }
}

/// A response: its status, what its headers hold, and what its body holds.
pub struct Reply {
    pub status: u16,
    pub headers: Headers,
    pub pieces: Seq<Piece>,
}

/// The body of a response to the given method, where `pieces` answer a GET.
pub open spec fn pieces_for(method: Method, pieces: Seq<Piece>) -> Seq<Piece> {
    if method == Method::Head {
        Seq::empty()
    } else {
        pieces
    }
}

/// The lines of the entity's headers for each part of a multipart body, if it has them.
pub open spec fn part_lines<E: Entity>(ent: &E, include_entity_headers: bool) -> Seq<u8> {
    if include_entity_headers {
        header_lines(pairs(ent.spec_headers(Seq::empty())))
    } else {
        Seq::empty()
    }
}

/// The response that serves an entity, or the part of it that the value of the `Range` header
/// selects. `base` is what the headers of the response hold already.
pub open spec fn part_reply<E: Entity>(
    ent: &E,
    method: Method,
    range: Option<Seq<u8>>,
    include_entity_headers_on_range: bool,
    base: Headers,
) -> Reply {
    let len = ent.spec_len();
    match part_verdict(range, len) {
        Verdict::NotSatisfiable => Reply {
            status: 416,
            headers: base.push(("content-range"@, seq![unsatisfied_range(len)])),
            pieces: Seq::empty(),
        },
        Verdict::Single(range) => {
            let headers = base.push(("content-range"@, seq![content_range(range, len)])).push(
                ("content-length"@, seq![decimal((range.end - range.start) as nat)]),
            );
            Reply {
                status: 206,
                headers: if include_entity_headers_on_range {
                    ent.spec_headers(headers)
                } else {
                    headers
                },
                pieces: pieces_for(method, seq![entity_piece(range)]),
            }
        },
        Verdict::Multiple(ranges) => {
            let pieces = multipart_pieces(
                ranges,
                len,
                part_lines(ent, include_entity_headers_on_range),
            );
            Reply {
                status: 206,
                headers: multipart_headers(base, total_len(pieces) as u64),
                pieces: pieces_for(method, pieces),
            }
        },
        _ => Reply {
            status: 200,
            headers: ent.spec_headers(base.push(("content-length"@, seq![decimal(len as nat)]))),
            pieces: pieces_for(method, seq![Piece::Entity { start: 0, end: len }]),
        },
    }
}

/// The response to a request for an entity.
pub open spec fn reply<E: Entity>(
    ent: &E,
    method: Method,
    h: Headers,
    now: Option<Timestamp>,
) -> Reply {
    let base = base_headers(ent.spec_etag(), ent.spec_last_modified(), now);
    match verdict(ent, method, h) {
        Verdict::MethodNotAllowed => Reply {
            status: 405,
            headers: seq![("allow"@, seq!["get, head".spec_bytes()])],
            pieces: seq![
                Piece::Bytes("This resource only supports GET and HEAD.".spec_bytes()),
            ],
        },
        Verdict::BadRequest(e) => Reply {
            status: 400,
            headers: Seq::empty(),
            pieces: seq![Piece::Bytes(e.spec_bytes())],
        },
        Verdict::PreconditionFailed => Reply {
            status: 412,
            headers: base,
            pieces: seq![Piece::Bytes("Precondition failed".spec_bytes())],
        },
        Verdict::NotModified => Reply { status: 304, headers: base, pieces: Seq::empty() },
        _ => part_reply(
            ent,
            method,
            range_value(ent.spec_etag(), h),
            partial_has_entity_headers(h),
            base,
        ),
    }
}

/// A response.
pub struct Response {
    pub status: u16,
    pub headers: HeaderMap<HeaderValue>,
    pub body: Body,
}

impl Response {
    /// What the response is.
    pub open spec fn reply(&self) -> Reply {
        Reply {
            status: self.status,
            headers: header_entries(self.headers),
            pieces: self.body.pieces(),
        }
    }
}

/// Whether the entity's headers fit into those of a response.
pub open spec fn entity_headers_fit<E: Entity>(ent: &E) -> bool {
    forall|h: Headers| h.len() < 8 ==> #[trigger] ent.headers_fit(h)
}

/// Whether the length of a multipart body fits its header, where one is to be served.
pub open spec fn multipart_fits<E: Entity>(ent: &E, h: Headers) -> bool {
    part_verdict(range_value(ent.spec_etag(), h), ent.spec_len()) matches Verdict::Multiple(ranges)
        ==> total_len(
        multipart_pieces(
            ranges,
            ent.spec_len(),
            part_lines(ent, partial_has_entity_headers(h)),
        ),
    ) <= u64::MAX
}

/// Whether the `Range` header of a request can be read without its ranges exhausting the memory.
pub open spec fn range_fits(h: Headers) -> bool {
    first_value(h, "range"@) matches Some(v) ==> has_room(v.len())
}

/// Compares the estimated length of a multipart body with that of the entity.
fn multipart_pays(ranges: &Vec<Range<u64>>, len: u64) -> (r: bool)
    requires
        forall|i: int| 0 <= i < ranges@.len() ==> is_within(#[trigger] ranges@[i], len),
    ensures
        r == (estimated_len(ranges@) < len),
{
    let mut est_len: u64 = 0;
    let mut i: usize = 0;
    assert(ranges@.take(0) =~= Seq::empty());
    while i < ranges.len()
        invariant
            i <= ranges@.len(),
            forall|j: int| 0 <= j < ranges@.len() ==> is_within(#[trigger] ranges@[j], len),
            est_len == estimated_len(ranges@.take(i as int)),
            est_len < len || i == 0,
        decreases ranges@.len() - i,
    {
        let ghost taken = ranges@.take(i + 1);
        assert(taken.drop_last() =~= ranges@.take(i as int));
        assert(is_within(ranges@[i as int], len));
        let part: u64 = ranges[i].end - ranges[i].start;
        if part >= len - est_len || len - est_len - part <= 80 {
            proof {
                lemma_estimated_len(ranges@, i + 1);
            }
            return false;
        }
        est_len = est_len + (80 + part);
        i += 1;
    }
    assert(ranges@.take(i as int) =~= ranges@);
    est_len < len
}

proof fn lemma_estimated_len(ranges: Seq<Range<u64>>, i: int)
    requires
        0 <= i <= ranges.len(),
        all_forward(ranges),
    ensures
        estimated_len(ranges.take(i)) <= estimated_len(ranges),
    decreases ranges.len(),
{
    if i == ranges.len() {
        assert(ranges.take(i) =~= ranges);
    } else {
        assert(ranges.drop_last().take(i) =~= ranges.take(i));
        assert(all_forward(ranges.drop_last()));
        lemma_estimated_len(ranges.drop_last(), i);
        assert(ranges.last().start <= ranges.last().end);
    }
}

/// Whether a response for an entity is one that holds dates, where the entity has them.
pub open spec fn is_dated(v: Verdict) -> bool {
    !(v is MethodNotAllowed) && !(v is BadRequest)
}

/// Whether the dates of a response for an entity, read as HTTP dates, are the times that they were
/// made of, to the second.
pub open spec fn dates_read_back(
    last_modified: Option<Timestamp>,
    now: Option<Timestamp>,
) -> bool {
    match (last_modified, now) {
        (Some(m), Some(d)) => {
            &&& date_of(date_value(d)) == Some(d.secs as u64)
            &&& date_of(date_value(m.earlier(d))) == Some(m.earlier(d).secs as u64)
        },
        _ => true,
    }
}

/// Runs the inner logic for `serve`, at the time `now` (`None` if the clock shows none).
/// Returns `None` if the response holds dates that cannot be written: the entity was last
/// modified before the Unix epoch, or the clock stands outside of what an HTTP date can express.
pub fn serve_inner<E: Entity>(
    ent: &E,
    method: Method,
    req_hdrs: &HeaderMap<HeaderValue>,
    now: Option<Timestamp>,
) -> (r: Option<Response>)
    requires
        method != Method::Other ==> ent.can_tag(),
        entity_headers_fit(ent),
        range_fits(header_entries(*req_hdrs)),
        multipart_fits(ent, header_entries(*req_hdrs)),
    ensures
        r is None <==> is_dated(verdict(ent, method, header_entries(*req_hdrs)))
            && !dates_writable(ent.spec_last_modified(), now),
        r matches Some(response) ==> {
            &&& response.reply() == reply(ent, method, header_entries(*req_hdrs), now)
            &&& response.body.wf()
            &&& response.body.reading() is None
            &&& is_dated(verdict(ent, method, header_entries(*req_hdrs))) ==> dates_read_back(
                ent.spec_last_modified(),
                now,
            )
        },
{
    if method == Method::Other {
        return Some(method_not_allowed());
    }
    let last_modified = ent.last_modified();
    let etag = ent.etag();
    let (precondition_failed, not_modified): (bool, bool) = match parse_modified_hdrs(
        &etag,
        req_hdrs,
        last_modified,
    ) {
        Err(e) => {
            return Some(Response { status: 400, headers: new_map(), body: Body::from(e) });
        },
        Ok(p) => p,
    };

    // See RFC 7233 section 4.1 <https://tools.ietf.org/html/rfc7233#section-4.1>: a Partial
    // Content response should include other representation header fields (aka entity-headers in
    // RFC 2616) iff the client didn't specify If-Range.
    let (range_hdr, include_entity_headers_on_range) = effective_range(&etag, req_hdrs);
    let headers = match start_headers(etag, last_modified, now) {
        None => return None,
        Some(headers) => headers,
    };
    if precondition_failed {
        return Some(Response { status: 412, headers, body: Body::from("Precondition failed") });
    }
    if not_modified {
        return Some(Response { status: 304, headers, body: Body::empty() });
    }
    proof {
        lemma_header_names();
    }
    Some(serve_part(ent, method, range_hdr, include_entity_headers_on_range, headers))
}

/// Starts the headers of a response for an entity, unless they hold dates that cannot be written.
fn start_headers(
    etag: Option<HeaderValue>,
    last_modified: Option<Timestamp>,
    now: Option<Timestamp>,
) -> (r: Option<HeaderMap<HeaderValue>>)
    ensures
        r is Some <==> dates_writable(last_modified, now),
        r matches Some(headers) ==> {
            &&& header_entries(headers) == base_headers(etag_bytes(etag), last_modified, now)
            &&& dates_read_back(last_modified, now)
        },
{
    proof {
        lemma_header_names();
        reveal_strlit("bytes");
        lemma_visible_text("bytes");
    }
    let mut headers = new_map();
    add_new(&mut headers, "accept-ranges", header_value("bytes".as_bytes()));
    assert(header_entries(headers) =~= seq![("accept-ranges"@, seq!["bytes".spec_bytes()])]);
    if let Some(m) = last_modified {
        // See RFC 7232 section 2.2.1 <https://tools.ietf.org/html/rfc7232#section-2.2.1>: the
        // Last-Modified must not exceed the Date. To guarantee this, set the Date now rather than
        // let the server set it.
        let d = match now {
            None => return None,
            Some(d) => d,
        };
        if m.secs < 0 || d.secs < 0 || d.secs >= HTTP_DATE_END as i64 {
            return None;
        }
        let clamped_m = m.min(d);
        add_new(&mut headers, "date", http_date_value(d));
        add_new(&mut headers, "last-modified", http_date_value(clamped_m));
    }
    if let Some(e) = etag {
        add_new(&mut headers, "etag", e);
    }
    Some(headers)
}

/// Serves the part of an entity that the value of the `Range` header selects.
fn serve_part<E: Entity>(
    ent: &E,
    method: Method,
    range_hdr: Option<&HeaderValue>,
    include_entity_headers_on_range: bool,
    headers: HeaderMap<HeaderValue>,
) -> (r: Response)
    requires
        method != Method::Other,
        entity_headers_fit(ent),
        range_hdr matches Some(v) ==> has_room(value_bytes(*v).len()),
        header_entries(headers).len() <= 4,
        is_absent(header_entries(headers), "content-range"@),
        is_absent(header_entries(headers), "content-length"@),
        is_absent(header_entries(headers), "content-type"@),
        part_verdict(
            match range_hdr {
                Some(v) => Some(value_bytes(*v)),
                None => None,
            },
            ent.spec_len(),
        ) matches Verdict::Multiple(ranges) ==> total_len(
            multipart_pieces(
                ranges,
                ent.spec_len(),
                part_lines(ent, include_entity_headers_on_range),
            ),
        ) <= u64::MAX,
    ensures
        r.body.wf(),
        r.body.reading() is None,
        r.reply() == part_reply(
            ent,
            method,
            match range_hdr {
                Some(v) => Some(value_bytes(*v)),
                None => None,
            },
            include_entity_headers_on_range,
            header_entries(headers),
        ),
{
    let len: u64 = ent.len();
    let mut headers = headers;
    let ghost base = header_entries(headers);
    let ghost value = match range_hdr {
        Some(v) => Some(value_bytes(*v)),
        None => None,
    };
    proof {
        lemma_header_names();
        if let Some(v) = value {
            law_ranges_within(v, len);
            lemma_ranges_count(v, len);
        }
    }
    let (status, range, include_entity_headers): (u16, Range<u64>, bool) = match parse(
        range_hdr,
        len,
    ) {
        ResolvedRanges::Ignored => (200, 0..len, true),
        ResolvedRanges::NotSatisfiable => {
            add_new(&mut headers, "content-range", unsatisfied_range_value(len));
            return Response { status: 416, headers, body: Body::empty() };
        },
        ResolvedRanges::Satisfiable(list) => {
            let ranges = list.into_vec();
            if ranges.len() == 1 {
                assert(is_within(ranges@[0], len));
                add_new(&mut headers, "content-range", content_range_value(&ranges[0], len));
                (206, ranges[0].start..ranges[0].end, include_entity_headers_on_range)
            } else if multipart_pays(&ranges, len) {
                // Before serving multiple ranges via multipart/byteranges, estimate the total
                // length. ("80" is the RFC's estimate of the size of each part's header.) If it's
                // more than simply serving the whole entity, do that instead.
                let part_entity_headers: Option<HeaderMap<HeaderValue>> = if include_entity_headers_on_range {
                    let mut h = new_map();
                    ent.add_headers(&mut h);
                    Some(h)
                } else {
                    None
                };
                let (part_headers, body_len) = prepare_multipart(
                    &mut headers,
                    &ranges,
                    len,
                    part_entity_headers,
                );
                assert(views(part_headers@).len() == part_headers@.len());
                let body = if method == Method::Head {
                    Body::empty()
                } else {
                    Body::Multipart(MultipartStream::new(ranges, part_headers, body_len))
                };
                return Response { status: 206, headers, body };
            } else {
                (200, 0..len, true)
            }
        },
    };
    let part_len: u64 = range.end - range.start;
    add_new(&mut headers, "content-length", decimal_value(part_len));
    let body = if method == Method::Head {
        Body::empty()
    } else {
        Body::ExactLen(EntityStream::new(range))
    };
    if include_entity_headers {
        ent.add_headers(&mut headers);
    }
    Response { status, headers, body }
}

fn method_not_allowed() -> (r: Response)
    ensures
        r.body.wf(),
        r.body.reading() is None,
        r.status == 405,
        header_entries(r.headers) == seq![("allow"@, seq!["get, head".spec_bytes()])],
        r.body.pieces() == seq![
            Piece::Bytes("This resource only supports GET and HEAD.".spec_bytes()),
        ],
{
    proof {
        reveal_strlit("get, head");
        lemma_visible_text("get, head");
    }
    let mut headers = new_map();
    add_new(&mut headers, "allow", header_value("get, head".as_bytes()));
    assert(header_entries(headers) =~= seq![("allow"@, seq!["get, head".spec_bytes()])]);
    Response {
        status: 405,
        headers,
        body: Body::from("This resource only supports GET and HEAD."),
    }
}

/// Serves GET and HEAD requests for a given byte-ranged entity.
/// Handles conditional & subrange requests.
/// The caller is expected to have already determined the correct entity and appended
/// `Expires`, `Cache-Control`, and `Vary` headers if desired.
///
/// The clock is read for the dates of the response. Returns `None` if they cannot be written: the
/// entity was last modified before the Unix epoch, or the clock stands outside of what an HTTP
/// date can express.
pub fn serve<E: Entity>(entity: &E, req: &Request) -> (r: Option<Response>)
    requires
        req.method != Method::Other ==> entity.can_tag(),
        entity_headers_fit(entity),
        range_fits(header_entries(*req.headers)),
        multipart_fits(entity, header_entries(*req.headers)),
    ensures
        r is None ==> is_dated(verdict(entity, req.method, header_entries(*req.headers)))
            && entity.spec_last_modified() is Some,
        r matches Some(response) ==> {
            &&& response.body.wf()
            &&& response.body.reading() is None
            &&& exists|now: Option<Timestamp>|
                #![trigger reply(entity, req.method, header_entries(*req.headers), now)]
                {
                    &&& response.reply() == reply(
                        entity,
                        req.method,
                        header_entries(*req.headers),
                        now,
                    )
                    &&& is_dated(verdict(entity, req.method, header_entries(*req.headers))) ==> {
                        &&& dates_writable(entity.spec_last_modified(), now)
                        &&& dates_read_back(entity.spec_last_modified(), now)
                    }
                }
        },
{
    serve_inner(entity, req.method, req.headers, now())
}

} // verus!
