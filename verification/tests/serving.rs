use http::header::{HeaderMap, HeaderValue};
use http_serve::body::{Delivered, Polled, Step};
use http_serve::serving::{parse_modified_hdrs, prepare_multipart, serve_inner};
use http_serve::time::{timestamp_of, Timestamp};
use http_serve::{serve, Body, Entity, Method, Request, Response};

const BODY: &[u8] =
    b"01234567890123456789012345678901234567890123456789012345678901234567890123456789\
      01234567890123456789012345678901234567890123456789012345678901234567890123456789\
      01234567890123456789012345678901234567890123456789012345678901234567890123456789";

const SOME_DATE_STR: &str = "Sun, 06 Nov 1994 08:49:37 GMT";
const LATER_DATE_STR: &str = "Sun, 06 Nov 1994 09:49:37 GMT";
const MIME: &str = "application/octet-stream";

const SOME_DATE: Timestamp = Timestamp { secs: 784111777, nanos: 0 };

struct FakeEntity {
    etag: Option<&'static str>,
    last_modified: Option<Timestamp>,
    body: &'static [u8],
}

impl Entity for FakeEntity {
    fn len(&self) -> u64 {
        self.body.len() as u64
    }
    fn add_headers(&self, headers: &mut HeaderMap) {
        headers.insert(http::header::CONTENT_TYPE, HeaderValue::from_static(MIME));
    }
    fn etag(&self) -> Option<HeaderValue> {
        self.etag.map(HeaderValue::from_static)
    }
    fn last_modified(&self) -> Option<Timestamp> {
        self.last_modified
    }
}

const ENTITY_NO_ETAG: FakeEntity = FakeEntity {
    etag: None,
    last_modified: Some(SOME_DATE),
    body: BODY,
};
const ENTITY_STRONG_ETAG: FakeEntity = FakeEntity {
    etag: Some("\"foo\""),
    last_modified: Some(SOME_DATE),
    body: BODY,
};
const ENTITY_WEAK_ETAG: FakeEntity = FakeEntity {
    etag: Some("W/\"foo\""),
    last_modified: Some(SOME_DATE),
    body: BODY,
};

fn request_headers(headers: &[(&'static str, &str)]) -> HeaderMap {
    let mut h = HeaderMap::new();
    for (name, value) in headers {
        h.append(*name, HeaderValue::from_str(value).unwrap());
    }
    h
}

fn send(entity: &FakeEntity, method: Method, headers: &[(&'static str, &str)]) -> Response {
    let h = request_headers(headers);
    serve(entity, &Request { method, headers: &h }).unwrap()
}

fn get(entity: &FakeEntity, headers: &[(&'static str, &str)]) -> Response {
    send(entity, Method::Get, headers)
}

/// Drives a body to its end, with the entity's stream in chunks of at most the given size.
fn drive(mut body: Body, data: &[u8], chunk: usize) -> Vec<u8> {
    let mut out = Vec::new();
    let mut stream: &[u8] = &[];
    loop {
        let hint = body.size_hint();
        assert_eq!(hint.upper, Some(hint.lower));
        let before = out.len();
        match body.next() {
            Step::Chunk(bytes) => out.extend_from_slice(&bytes),
            Step::Open(range) => stream = &data[range.start as usize..range.end as usize],
            Step::End => break,
            Step::Poll => {
                assert_eq!(body.polled(Polled::Pending), Some(Delivered::Pending));
                let n = std::cmp::min(chunk, stream.len());
                if n > 0 {
                    assert_eq!(body.polled(Polled::Chunk(n as u64)), Some(Delivered::Chunk));
                    out.extend_from_slice(&stream[..n]);
                    stream = &stream[n..];
                } else {
                    match body.polled(Polled::End) {
                        None => {}
                        Some(d) => {
                            assert_eq!(d, Delivered::End);
                            break;
                        }
                    }
                }
            }
        }
        assert_eq!(hint.lower, body.size_hint().lower + (out.len() - before) as u64);
    }
    assert_eq!(body.size_hint().lower, 0);
    assert!(body.is_end_stream());
    out
}

fn bytes_of(resp: Response, entity: &FakeEntity) -> Vec<u8> {
    drive(resp.body, entity.body, 7)
}

fn header<'a>(resp: &'a Response, name: &str) -> Option<&'a str> {
    resp.headers.get(name).map(|v| v.to_str().unwrap())
}

#[test]
fn serve_without_etag() {
    let e = &ENTITY_NO_ETAG;

    // Full body.
    let resp = get(e, &[]);
    assert_eq!(200, resp.status);
    assert_eq!(header(&resp, "content-type"), Some(MIME));
    assert_eq!(header(&resp, "content-range"), None);
    assert_eq!(BODY, &bytes_of(resp, e)[..]);

    // If-Match any should still send the full body.
    let resp = get(e, &[("if-match", "*")]);
    assert_eq!(200, resp.status);
    assert_eq!(header(&resp, "content-type"), Some(MIME));
    assert_eq!(header(&resp, "content-range"), None);
    assert_eq!(BODY, &bytes_of(resp, e)[..]);

    // If-Match by etag doesn't match (as this request has no etag).
    let resp = get(e, &[("if-match", "\"foo\"")]);
    assert_eq!(412, resp.status);

    // If-None-Match any.
    let resp = get(e, &[("if-none-match", "*")]);
    assert_eq!(304, resp.status);
    assert_eq!(header(&resp, "content-range"), None);
    assert_eq!(b"", &bytes_of(resp, e)[..]);

    // If-None-Match by etag doesn't match (as this request has no etag).
    let resp = get(e, &[("if-none-match", "\"foo\"")]);
    assert_eq!(200, resp.status);
    assert_eq!(header(&resp, "content-type"), Some(MIME));
    assert_eq!(header(&resp, "content-range"), None);
    assert_eq!(BODY, &bytes_of(resp, e)[..]);

    // Unmodified since supplied date.
    let resp = get(e, &[("if-modified-since", SOME_DATE_STR)]);
    assert_eq!(304, resp.status);
    assert_eq!(header(&resp, "content-range"), None);
    assert_eq!(b"", &bytes_of(resp, e)[..]);

    // Range serving - basic case.
    let resp = get(e, &[("range", "bytes=1-3")]);
    assert_eq!(206, resp.status);
    assert_eq!(
        header(&resp, "content-range"),
        Some(&format!("bytes 1-3/{}", BODY.len())[..])
    );
    assert_eq!(b"123", &bytes_of(resp, e)[..]);

    // Range serving - multiple ranges.
    let resp = get(e, &[("range", "bytes=0-1, 3-4")]);
    assert_eq!(header(&resp, "content-range"), None);
    assert_eq!(206, resp.status);
    assert_eq!(
        header(&resp, "content-type"),
        Some("multipart/byteranges; boundary=B")
    );
    let expected = &b"\
         \r\n--B\r\n\
         Content-Range: bytes 0-1/240\r\n\
         content-type: application/octet-stream\r\n\
         \r\n\
         01\r\n\
         --B\r\n\
         Content-Range: bytes 3-4/240\r\n\
         content-type: application/octet-stream\r\n\
         \r\n\
         34\r\n\
         --B--\r\n"[..];
    assert_eq!(
        header(&resp, "content-length"),
        Some(&format!("{}", expected.len())[..])
    );
    assert_eq!(expected, &bytes_of(resp, e)[..]);

    // Range serving - multiple ranges which are less efficient than sending the whole.
    let resp = get(e, &[("range", "bytes=0-100, 120-240")]);
    assert_eq!(header(&resp, "content-range"), None);
    assert_eq!(200, resp.status);
    assert_eq!(header(&resp, "content-type"), Some(MIME));
    assert_eq!(BODY, &bytes_of(resp, e)[..]);

    // Range serving - not satisfiable.
    let resp = get(e, &[("range", "bytes=500-")]);
    assert_eq!(416, resp.status);
    assert_eq!(
        header(&resp, "content-range"),
        Some(&format!("bytes */{}", BODY.len())[..])
    );
    assert_eq!(b"", &bytes_of(resp, e)[..]);

    // Range serving - matching If-Range by date doesn't honor the range.
    let resp = get(e, &[("range", "bytes=1-3"), ("if-range", SOME_DATE_STR)]);
    assert_eq!(200, resp.status);
    assert_eq!(header(&resp, "content-type"), Some(MIME));
    assert_eq!(BODY, &bytes_of(resp, e)[..]);

    // Range serving - non-matching If-Range by date ignores the range.
    let resp = get(e, &[("range", "bytes=1-3"), ("if-range", LATER_DATE_STR)]);
    assert_eq!(200, resp.status);
    assert_eq!(header(&resp, "content-type"), Some(MIME));
    assert_eq!(header(&resp, "content-range"), None);
    assert_eq!(BODY, &bytes_of(resp, e)[..]);

    // Range serving - this resource has no etag, so any If-Range by etag ignores the range.
    let resp = get(e, &[("range", "bytes=1-3"), ("if-range", "\"foo\"")]);
    assert_eq!(200, resp.status);
    assert_eq!(header(&resp, "content-type"), Some(MIME));
    assert_eq!(header(&resp, "content-range"), None);
    assert_eq!(BODY, &bytes_of(resp, e)[..]);
}

#[test]
fn serve_with_strong_etag() {
    let e = &ENTITY_STRONG_ETAG;

    // If-Match any should still send the full body.
    let resp = get(e, &[("if-match", "*")]);
    assert_eq!(200, resp.status);
    assert_eq!(header(&resp, "content-type"), Some(MIME));
    assert_eq!(header(&resp, "content-range"), None);
    assert_eq!(BODY, &bytes_of(resp, e)[..]);

    // If-Match by matching etag should send the full body.
    let resp = get(e, &[("if-match", "\"foo\"")]);
    assert_eq!(200, resp.status);
    assert_eq!(header(&resp, "content-type"), Some(MIME));
    assert_eq!(header(&resp, "content-range"), None);
    assert_eq!(BODY, &bytes_of(resp, e)[..]);

    // If-Match by etag which doesn't match.
    let resp = get(e, &[("if-match", "\"bar\"")]);
    assert_eq!(412, resp.status);

    // If-None-Match by etag which matches.
    let resp = get(e, &[("if-none-match", "\"foo\"")]);
    assert_eq!(304, resp.status);
    assert_eq!(header(&resp, "content-range"), None);
    assert_eq!(b"", &bytes_of(resp, e)[..]);

    // If-None-Match by etag which doesn't match.
    let resp = get(e, &[("if-none-match", "\"bar\"")]);
    assert_eq!(200, resp.status);
    assert_eq!(header(&resp, "content-range"), None);
    assert_eq!(BODY, &bytes_of(resp, e)[..]);

    // Range serving - If-Range matching by etag.
    let resp = get(e, &[("range", "bytes=1-3"), ("if-range", "\"foo\"")]);
    assert_eq!(206, resp.status);
    assert_eq!(None, header(&resp, "content-type"));
    assert_eq!(
        header(&resp, "content-range"),
        Some(&format!("bytes 1-3/{}", BODY.len())[..])
    );
    assert_eq!(b"123", &bytes_of(resp, e)[..]);

    // Range serving - If-Range not matching by etag.
    let resp = get(e, &[("range", "bytes=1-3"), ("if-range", "\"bar\"")]);
    assert_eq!(200, resp.status);
    assert_eq!(header(&resp, "content-type"), Some(MIME));
    assert_eq!(header(&resp, "content-range"), None);
    assert_eq!(BODY, &bytes_of(resp, e)[..]);
}

#[test]
fn serve_with_weak_etag() {
    let e = &ENTITY_WEAK_ETAG;

    // If-Match any should still send the full body.
    let resp = get(e, &[("if-match", "*")]);
    assert_eq!(200, resp.status);
    assert_eq!(header(&resp, "content-type"), Some(MIME));
    assert_eq!(header(&resp, "content-range"), None);
    assert_eq!(BODY, &bytes_of(resp, e)[..]);

    // If-Match by etag doesn't match because matches use the strong comparison function.
    let resp = get(e, &[("if-match", "W/\"foo\"")]);
    assert_eq!(412, resp.status);

    // If-None-Match by identical weak etag is sufficient.
    let resp = get(e, &[("if-none-match", "W/\"foo\"")]);
    assert_eq!(304, resp.status);
    assert_eq!(header(&resp, "content-range"), None);
    assert_eq!(b"", &bytes_of(resp, e)[..]);

    // If-None-Match by etag which doesn't match.
    let resp = get(e, &[("if-none-match", "W/\"bar\"")]);
    assert_eq!(200, resp.status);
    assert_eq!(header(&resp, "content-range"), None);
    assert_eq!(BODY, &bytes_of(resp, e)[..]);

    // Range serving - If-Range matching by weak etag isn't sufficient.
    let resp = get(e, &[("range", "bytes=1-3"), ("if-range", "\"foo\"")]);
    assert_eq!(200, resp.status);
    assert_eq!(header(&resp, "content-type"), Some(MIME));
    assert_eq!(header(&resp, "content-range"), None);
    assert_eq!(BODY, &bytes_of(resp, e)[..]);
}

const SHORT_NO_ETAG: FakeEntity = FakeEntity {
    etag: None,
    last_modified: Some(SOME_DATE),
    body: b"01234",
};
const SHORT_STRONG_ETAG: FakeEntity = FakeEntity {
    etag: Some("\"foo\""),
    last_modified: Some(SOME_DATE),
    body: b"01234",
};

#[test]
fn acceptance_serve_without_etag() {
    let e = &SHORT_NO_ETAG;

    // Full body.
    let resp = get(e, &[]);
    assert_eq!(200, resp.status);
    assert_eq!(Some(MIME), header(&resp, "content-type"));
    assert_eq!(None, header(&resp, "content-range"));
    assert_eq!(b"01234", &bytes_of(resp, e)[..]);

    // If-Match any should still send the full body.
    let resp = get(e, &[("if-match", "*")]);
    assert_eq!(200, resp.status);
    assert_eq!(Some(MIME), header(&resp, "content-type"));
    assert_eq!(None, header(&resp, "content-range"));
    assert_eq!(b"01234", &bytes_of(resp, e)[..]);

    // If-Match by etag doesn't match (as this request has no etag).
    let resp = get(e, &[("if-match", "\"foo\"")]);
    assert_eq!(412, resp.status);

    // If-None-Match any.
    let resp = get(e, &[("if-none-match", "*")]);
    assert_eq!(304, resp.status);
    assert_eq!(None, header(&resp, "content-range"));
    assert_eq!(b"", &bytes_of(resp, e)[..]);

    // If-None-Match by etag doesn't match (as this request has no etag).
    let resp = get(e, &[("if-none-match", "\"foo\"")]);
    assert_eq!(200, resp.status);
    assert_eq!(Some(MIME), header(&resp, "content-type"));
    assert_eq!(None, header(&resp, "content-range"));
    assert_eq!(b"01234", &bytes_of(resp, e)[..]);

    // Unmodified since supplied date.
    let resp = get(e, &[("if-modified-since", SOME_DATE_STR)]);
    assert_eq!(304, resp.status);
    assert_eq!(None, header(&resp, "content-range"));
    assert_eq!(b"", &bytes_of(resp, e)[..]);

    // Range serving - basic case.
    let resp = get(e, &[("range", "bytes=1-3")]);
    assert_eq!(206, resp.status);
    assert_eq!(Some("bytes 1-3/5"), header(&resp, "content-range"));
    assert_eq!(b"123", &bytes_of(resp, e)[..]);

    // Range serving - multiple ranges. Falls back to whole range.
    let resp = get(e, &[("range", "bytes=0-1,3-4")]);
    assert_eq!(None, header(&resp, "content-range"));
    assert_eq!(200, resp.status);
    assert_eq!(b"01234", &bytes_of(resp, e)[..]);

    // Range serving - not satisfiable.
    let resp = get(e, &[("range", "bytes=500-")]);
    assert_eq!(416, resp.status);
    assert_eq!(Some("bytes */5"), header(&resp, "content-range"));
    assert_eq!(b"", &bytes_of(resp, e)[..]);

    // Range serving - non-matching If-Range by date ignores the range.
    let resp = get(e, &[("range", "bytes=1-3"), ("if-range", LATER_DATE_STR)]);
    assert_eq!(200, resp.status);
    assert_eq!(Some(MIME), header(&resp, "content-type"));
    assert_eq!(None, header(&resp, "content-range"));
    assert_eq!(b"01234", &bytes_of(resp, e)[..]);

    // Range serving - this resource has no etag, so any If-Range by etag ignores the range.
    let resp = get(e, &[("range", "bytes=1-3"), ("if-range", "\"foo\"")]);
    assert_eq!(200, resp.status);
    assert_eq!(Some(MIME), header(&resp, "content-type"));
    assert_eq!(None, header(&resp, "content-range"));
    assert_eq!(b"01234", &bytes_of(resp, e)[..]);
}

#[test]
fn acceptance_serve_with_strong_etag() {
    let e = &SHORT_STRONG_ETAG;

    // If-Match any should still send the full body.
    let resp = get(e, &[("if-match", "*")]);
    assert_eq!(200, resp.status);
    assert_eq!(Some(MIME), header(&resp, "content-type"));
    assert_eq!(None, header(&resp, "content-range"));
    assert_eq!(b"01234", &bytes_of(resp, e)[..]);

    // If-Match by matching etag should send the full body.
    let resp = get(e, &[("if-match", "\"foo\"")]);
    assert_eq!(200, resp.status);
    assert_eq!(Some(MIME), header(&resp, "content-type"));
    assert_eq!(None, header(&resp, "content-range"));
    assert_eq!(b"01234", &bytes_of(resp, e)[..]);

    // If-Match by etag which doesn't match.
    let resp = get(e, &[("if-match", "\"bar\"")]);
    assert_eq!(412, resp.status);

    // If-None-Match by etag which matches.
    let resp = get(e, &[("if-none-match", "\"foo\"")]);
    assert_eq!(304, resp.status);
    assert_eq!(None, header(&resp, "content-range"));
    assert_eq!(b"", &bytes_of(resp, e)[..]);

    // If-None-Match by etag which doesn't match.
    let resp = get(e, &[("if-none-match", "\"bar\"")]);
    assert_eq!(200, resp.status);
    assert_eq!(None, header(&resp, "content-range"));
    assert_eq!(b"01234", &bytes_of(resp, e)[..]);

    // Range serving - If-Range matching by etag.
    let resp = get(e, &[("range", "bytes=1-3"), ("if-range", "\"foo\"")]);
    assert_eq!(206, resp.status);
    assert_eq!(None, header(&resp, "content-type"));
    assert_eq!(Some("bytes 1-3/5"), header(&resp, "content-range"));
    assert_eq!(b"123", &bytes_of(resp, e)[..]);

    // Range serving - If-Range not matching by etag.
    let resp = get(e, &[("range", "bytes=1-3"), ("if-range", "\"bar\"")]);
    assert_eq!(200, resp.status);
    assert_eq!(Some(MIME), header(&resp, "content-type"));
    assert_eq!(None, header(&resp, "content-range"));
    assert_eq!(b"01234", &bytes_of(resp, e)[..]);
}

#[test]
fn acceptance_serve_with_weak_etag() {
    let e = &SHORT_STRONG_ETAG;

    // If-Match any should still send the full body.
    let resp = get(e, &[("if-match", "*")]);
    assert_eq!(200, resp.status);
    assert_eq!(Some(MIME), header(&resp, "content-type"));
    assert_eq!(None, header(&resp, "content-range"));
    assert_eq!(b"01234", &bytes_of(resp, e)[..]);

    // If-Match by etag doesn't match because matches use the strong comparison function.
    let resp = get(e, &[("if-match", "W/\"foo\"")]);
    assert_eq!(412, resp.status);

    // If-None-Match by identical weak etag is sufficient.
    let resp = get(e, &[("if-none-match", "W/\"foo\"")]);
    assert_eq!(304, resp.status);
    assert_eq!(None, header(&resp, "content-range"));
    assert_eq!(b"", &bytes_of(resp, e)[..]);

    // If-None-Match by etag which doesn't match.
    let resp = get(e, &[("if-none-match", "W/\"bar\"")]);
    assert_eq!(200, resp.status);
    assert_eq!(None, header(&resp, "content-range"));
    assert_eq!(b"01234", &bytes_of(resp, e)[..]);

    // Range serving - If-Range matching by weak etag isn't sufficient.
    let resp = get(e, &[("range", "bytes=1-3"), ("if-range", "W/\"foo\"")]);
    assert_eq!(200, resp.status);
    assert_eq!(Some(MIME), header(&resp, "content-type"));
    assert_eq!(None, header(&resp, "content-range"));
    assert_eq!(b"01234", &bytes_of(resp, e)[..]);
}

const NOW: Timestamp = Timestamp { secs: 784115377, nanos: 5 };

fn at(entity: &FakeEntity, method: Method, headers: &[(&'static str, &str)]) -> Response {
    serve_inner(entity, method, &request_headers(headers), Some(NOW)).unwrap()
}

fn all_headers(resp: &Response) -> Vec<(String, String)> {
    resp.headers
        .iter()
        .map(|(k, v)| (k.as_str().to_string(), v.to_str().unwrap().to_string()))
        .collect()
}

fn pairs(headers: &[(&str, &str)]) -> Vec<(String, String)> {
    headers
        .iter()
        .map(|(k, v)| (k.to_string(), v.to_string()))
        .collect()
}

#[test]
fn headers_in_full() {
    let e = &ENTITY_STRONG_ETAG;
    let base = [
        ("accept-ranges", "bytes"),
        ("date", LATER_DATE_STR),
        ("last-modified", SOME_DATE_STR),
        ("etag", "\"foo\""),
    ];

    let resp = at(e, Method::Get, &[]);
    let mut expected = pairs(&base);
    expected.extend(pairs(&[("content-length", "240"), ("content-type", MIME)]));
    assert_eq!(all_headers(&resp), expected);

    let resp = at(e, Method::Get, &[("range", "bytes=10-19")]);
    let mut expected = pairs(&base);
    expected.extend(pairs(&[
        ("content-range", "bytes 10-19/240"),
        ("content-length", "10"),
        ("content-type", MIME),
    ]));
    assert_eq!(all_headers(&resp), expected);

    let resp = at(e, Method::Get, &[("range", "bytes=0-0,-1"), ("if-range", "\"foo\"")]);
    let mut expected = pairs(&base);
    let body = "\r\n--B\r\nContent-Range: bytes 0-0/240\r\n\r\n0\
                \r\n--B\r\nContent-Range: bytes 239-239/240\r\n\r\n9\r\n--B--\r\n";
    expected.extend(pairs(&[
        ("content-length", &format!("{}", body.len())),
        ("content-type", "multipart/byteranges; boundary=B"),
    ]));
    assert_eq!(all_headers(&resp), expected);
    assert_eq!(body.as_bytes(), &bytes_of(resp, e)[..]);

    let resp = at(e, Method::Get, &[("range", "bytes=240-")]);
    let mut expected = pairs(&base);
    expected.extend(pairs(&[("content-range", "bytes */240")]));
    assert_eq!(all_headers(&resp), expected);

    let resp = at(e, Method::Get, &[("if-none-match", "\"foo\"")]);
    assert_eq!(all_headers(&resp), pairs(&base));

    let resp = at(e, Method::Get, &[("if-match", "\"bar\"")]);
    assert_eq!(all_headers(&resp), pairs(&base));
    assert_eq!(b"Precondition failed", &bytes_of(resp, e)[..]);
}

#[test]
fn other_methods_are_refused() {
    let resp = at(&ENTITY_STRONG_ETAG, Method::Other, &[("if-match", "bad")]);
    assert_eq!(405, resp.status);
    assert_eq!(all_headers(&resp), pairs(&[("allow", "get, head")]));
    assert_eq!(
        b"This resource only supports GET and HEAD.",
        &bytes_of(resp, &ENTITY_STRONG_ETAG)[..]
    );
}

#[test]
fn bad_requests() {
    let e = &ENTITY_STRONG_ETAG;
    for (name, value, message) in [
        ("if-match", "\"foo\", bar", "Unparseable If-Match header"),
        ("if-unmodified-since", "yesterday", "Unparseable If-Unmodified-Since"),
        ("if-modified-since", "yesterday", "Unparseable If-Modified-Since"),
    ] {
        let resp = at(e, Method::Get, &[(name, value)]);
        assert_eq!(400, resp.status);
        assert!(resp.headers.is_empty());
        assert_eq!(message.as_bytes(), &bytes_of(resp, e)[..]);
    }
    let mut h = HeaderMap::new();
    h.insert("if-modified-since", HeaderValue::from_bytes(b"\xff").unwrap());
    let resp = serve_inner(e, Method::Get, &h, Some(NOW)).unwrap();
    assert_eq!(400, resp.status);
}

#[test]
fn conditions_by_date() {
    let e = &ENTITY_NO_ETAG;
    assert_eq!(200, at(e, Method::Get, &[("if-unmodified-since", SOME_DATE_STR)]).status);
    assert_eq!(
        412,
        at(e, Method::Get, &[("if-unmodified-since", "Sun, 06 Nov 1994 08:49:36 GMT")]).status
    );
    assert_eq!(
        200,
        at(e, Method::Get, &[("if-modified-since", "Sun, 06 Nov 1994 08:49:36 GMT")]).status
    );
    // The other formats of a date.
    assert_eq!(
        304,
        at(e, Method::Get, &[("if-modified-since", "Sunday, 06-Nov-94 08:49:37 GMT")]).status
    );
    assert_eq!(
        304,
        at(e, Method::Get, &[("if-modified-since", "Sun Nov  6 08:49:37 1994")]).status
    );
    // A fraction of a second counts.
    let later = FakeEntity {
        etag: None,
        last_modified: Some(Timestamp { secs: SOME_DATE.secs, nanos: 1 }),
        body: BODY,
    };
    assert_eq!(200, at(&later, Method::Get, &[("if-modified-since", SOME_DATE_STR)]).status);
    assert_eq!(412, at(&later, Method::Get, &[("if-unmodified-since", SOME_DATE_STR)]).status);
    // Without a modification time the dates are not even read.
    let timeless = FakeEntity { etag: None, last_modified: None, body: BODY };
    assert_eq!(200, at(&timeless, Method::Get, &[("if-modified-since", "bad")]).status);
    assert_eq!(200, at(&timeless, Method::Get, &[("if-unmodified-since", "bad")]).status);
}

#[test]
fn changed_tag_is_not_hidden_by_date() {
    let resp = at(
        &ENTITY_STRONG_ETAG,
        Method::Get,
        &[("if-none-match", "\"bar\""), ("if-modified-since", LATER_DATE_STR)],
    );
    assert_eq!(200, resp.status);
    // An unreadable list of tags leaves the decision to the date.
    let resp = at(
        &ENTITY_STRONG_ETAG,
        Method::Get,
        &[("if-none-match", "bar"), ("if-modified-since", LATER_DATE_STR)],
    );
    assert_eq!(304, resp.status);
}

#[test]
fn failed_precondition_comes_first() {
    let resp = at(
        &ENTITY_STRONG_ETAG,
        Method::Get,
        &[("if-match", "\"bar\""), ("if-none-match", "\"foo\"")],
    );
    assert_eq!(412, resp.status);
    let resp = at(
        &ENTITY_STRONG_ETAG,
        Method::Get,
        &[("if-match", "\"bar\""), ("if-modified-since", "bad")],
    );
    assert_eq!(400, resp.status);
}

#[test]
fn parse_modified_hdrs_values() {
    let tag = Some(HeaderValue::from_static("\"foo\""));
    let h = request_headers(&[("if-match", "\"bar\""), ("if-none-match", "\"foo\"")]);
    assert_eq!(parse_modified_hdrs(&tag, &h, None), Ok((true, true)));
    assert_eq!(parse_modified_hdrs(&tag, &HeaderMap::new(), None), Ok((false, false)));
    let h = request_headers(&[("if-modified-since", LATER_DATE_STR)]);
    assert_eq!(parse_modified_hdrs(&tag, &h, Some(SOME_DATE)), Ok((false, true)));
    assert_eq!(parse_modified_hdrs(&tag, &h, None), Ok((false, false)));
    let h = request_headers(&[("if-match", "bar")]);
    assert_eq!(
        parse_modified_hdrs(&tag, &h, None),
        Err("Unparseable If-Match header")
    );
}

#[test]
fn head_mirrors_get() {
    let requests: [&[(&'static str, &str)]; 9] = [
        &[],
        &[("range", "bytes=1-3")],
        &[("range", "bytes=0-1, 3-4")],
        &[("range", "bytes=500-")],
        &[("range", "bytes=1-3"), ("if-range", "\"foo\"")],
        &[("if-none-match", "\"foo\"")],
        &[("if-match", "\"bar\"")],
        &[("if-match", "bar")],
        &[("range", "bytes=0-1, 3-4"), ("if-range", "\"foo\"")],
    ];
    let e = &ENTITY_STRONG_ETAG;
    for headers in requests {
        let get = at(e, Method::Get, headers);
        let head = at(e, Method::Head, headers);
        assert_eq!(get.status, head.status);
        assert_eq!(get.headers, head.headers);
        let body = bytes_of(head, e);
        if get.status < 400 {
            assert_eq!(b"", &body[..]);
        } else {
            assert_eq!(bytes_of(get, e), body);
        }
    }
}

#[test]
fn content_length_is_the_length_of_the_body() {
    let e = &ENTITY_STRONG_ETAG;
    for range in ["", "bytes=5-", "bytes=-5", "bytes=-500", "bytes=0-0,5-5", "bytes=0-9,20-29,7-8"] {
        let resp = at(e, Method::Get, &[("range", range)]);
        let len: usize = header(&resp, "content-length").unwrap().parse().unwrap();
        assert_eq!(len, bytes_of(resp, e).len());
    }
}

#[test]
fn suffixes() {
    let e = &ENTITY_NO_ETAG;
    let resp = at(e, Method::Get, &[("range", "bytes=-0")]);
    assert_eq!(416, resp.status);
    assert_eq!(header(&resp, "content-range"), Some("bytes */240"));
    assert!(resp.body.is_end_stream());
    let resp = at(e, Method::Get, &[("range", "bytes=-10")]);
    assert_eq!(206, resp.status);
    assert_eq!(header(&resp, "content-range"), Some("bytes 230-239/240"));
    assert_eq!(&BODY[230..], &bytes_of(resp, e)[..]);
    for range in ["bytes=-240", "bytes=-241"] {
        let resp = at(e, Method::Get, &[("range", range)]);
        assert_eq!(206, resp.status);
        assert_eq!(header(&resp, "content-range"), Some("bytes 0-239/240"));
        assert_eq!(header(&resp, "content-length"), Some("240"));
        assert_eq!(BODY, &bytes_of(resp, e)[..]);
    }
}

#[test]
fn backward_range_is_ignored() {
    let e = &ENTITY_NO_ETAG;
    let resp = at(e, Method::Get, &[("range", "bytes=5-3")]);
    assert_eq!(200, resp.status);
    assert_eq!(header(&resp, "content-range"), None);
    assert_eq!(BODY, &bytes_of(resp, e)[..]);
}

#[test]
fn empty_entity() {
    let e = &FakeEntity { etag: None, last_modified: None, body: b"" };
    assert!(e.is_empty());
    assert!(!SHORT_NO_ETAG.is_empty());
    let resp = at(e, Method::Get, &[]);
    assert_eq!(200, resp.status);
    assert_eq!(
        all_headers(&resp),
        pairs(&[("accept-ranges", "bytes"), ("content-length", "0"), ("content-type", MIME)])
    );
    assert_eq!(b"", &bytes_of(resp, e)[..]);
    let resp = at(e, Method::Get, &[("range", "bytes=0-")]);
    assert_eq!(416, resp.status);
    assert_eq!(header(&resp, "content-range"), Some("bytes */0"));
}

#[test]
fn served_validators_can_be_sent_back() {
    for e in [&ENTITY_STRONG_ETAG, &ENTITY_WEAK_ETAG, &ENTITY_NO_ETAG] {
        let first = at(e, Method::Get, &[]);
        if let Some(tag) = header(&first, "etag") {
            let resp = at(e, Method::Get, &[("if-none-match", tag)]);
            assert_eq!(304, resp.status);
            let resp = at(e, Method::Get, &[("if-match", tag)]);
            assert_eq!(if tag.starts_with("W/") { 412 } else { 200 }, resp.status);
        }
        let date = header(&first, "last-modified").unwrap();
        let resp = at(e, Method::Get, &[("if-modified-since", date)]);
        assert_eq!(304, resp.status);
    }
}

#[test]
fn last_modified_does_not_exceed_date() {
    let future = FakeEntity {
        etag: None,
        last_modified: Some(Timestamp { secs: NOW.secs + 1, nanos: 0 }),
        body: BODY,
    };
    let resp = at(&future, Method::Get, &[]);
    assert_eq!(header(&resp, "date"), Some(LATER_DATE_STR));
    assert_eq!(header(&resp, "last-modified"), Some(LATER_DATE_STR));
    // The date that was served is not the one of the modification.
    let resp = at(&future, Method::Get, &[("if-modified-since", LATER_DATE_STR)]);
    assert_eq!(200, resp.status);
}

#[test]
fn dates_that_cannot_be_written() {
    let e = &ENTITY_NO_ETAG;
    let none = HeaderMap::new();
    for now in [
        None,
        Some(Timestamp { secs: -1, nanos: 0 }),
        Some(Timestamp { secs: 253402300800, nanos: 0 }),
    ] {
        assert!(serve_inner(e, Method::Get, &none, now).is_none());
        // A refusal has no dates.
        assert!(serve_inner(e, Method::Other, &none, now).is_some());
        let timeless = FakeEntity { etag: None, last_modified: None, body: BODY };
        assert!(serve_inner(&timeless, Method::Get, &none, now).is_some());
    }
    let old = FakeEntity {
        etag: None,
        last_modified: Some(Timestamp { secs: -1, nanos: 0 }),
        body: BODY,
    };
    assert!(serve_inner(&old, Method::Get, &none, Some(NOW)).is_none());
    let bad = request_headers(&[("if-match", "bad")]);
    let tagged = FakeEntity { etag: Some("\"foo\""), ..old };
    assert_eq!(400, serve_inner(&tagged, Method::Get, &bad, Some(NOW)).unwrap().status);
    let last = Some(Timestamp { secs: 253402300799, nanos: 999_999_999 });
    let resp = serve_inner(e, Method::Get, &none, last).unwrap();
    assert_eq!(header(&resp, "date"), Some("Fri, 31 Dec 9999 23:59:59 GMT"));
}

#[test]
fn clock_is_read() {
    let before = http_serve::time::now().unwrap();
    let resp = get(&ENTITY_NO_ETAG, &[]);
    let after = http_serve::time::now().unwrap();
    let date = httpdate::parse_http_date(header(&resp, "date").unwrap()).unwrap();
    let secs = date
        .duration_since(std::time::UNIX_EPOCH)
        .unwrap()
        .as_secs() as i64;
    assert!(before.secs <= secs && secs <= after.secs);
    assert!(before.secs > 1_600_000_000);
    assert!(before.nanos < 1_000_000_000);
}

#[test]
fn readings_of_a_clock() {
    assert_eq!(timestamp_of(None), None);
    assert_eq!(timestamp_of(Some((0, 0))), Some(Timestamp { secs: 0, nanos: 0 }));
    assert_eq!(timestamp_of(Some((784111777, 5))), Some(Timestamp { secs: 784111777, nanos: 5 }));
    let most = i64::MAX as u64;
    assert_eq!(timestamp_of(Some((most, 1))), Some(Timestamp { secs: i64::MAX, nanos: 1 }));
    assert_eq!(timestamp_of(Some((most + 1, 0))), None);
}

#[test]
fn multipart_preparation() {
    let mut headers = request_headers(&[("etag", "\"foo\"")]);
    let mut entity_headers = HeaderMap::new();
    entity_headers.append("content-type", HeaderValue::from_static("text/plain"));
    entity_headers.append("content-language", HeaderValue::from_static("en"));
    entity_headers.append("content-language", HeaderValue::from_static("de"));
    let (parts, len) = prepare_multipart(
        &mut headers,
        &vec![0..1, 98..100],
        100,
        Some(entity_headers),
    );
    let lines = "content-type: text/plain\r\ncontent-language: en\r\ncontent-language: de\r\n";
    assert_eq!(
        parts,
        vec![
            format!("\r\n--B\r\nContent-Range: bytes 0-0/100\r\n{}\r\n", lines).into_bytes(),
            format!("\r\n--B\r\nContent-Range: bytes 98-99/100\r\n{}\r\n", lines).into_bytes(),
        ]
    );
    assert_eq!(len as usize, parts[0].len() + parts[1].len() + 3 + "\r\n--B--\r\n".len());
    assert_eq!(
        headers.get("content-length").unwrap().to_str().unwrap(),
        format!("{}", len)
    );
    assert_eq!(
        headers.get("content-type").unwrap(),
        "multipart/byteranges; boundary=B"
    );
}

#[test]
fn multipart_only_where_it_pays() {
    // Two parts are estimated at 80 bytes each, besides what they hold.
    let e = &ENTITY_NO_ETAG;
    let resp = at(e, Method::Get, &[("range", "bytes=0-39,40-78")]);
    assert_eq!(206, resp.status);
    let resp = at(e, Method::Get, &[("range", "bytes=0-39,40-79")]);
    assert_eq!(200, resp.status);
    let resp = at(e, Method::Get, &[("range", "bytes=0-0,0-0,0-0")]);
    assert_eq!(200, resp.status);
}
