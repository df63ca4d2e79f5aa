use http::header::{HeaderMap, HeaderValue};
use http_serve::etag::{any_match, none_match, List};

#[test]
fn weak_eq() {
    assert!(http_serve::etag::weak_eq(b"\"foo\"", b"\"foo\""));
    assert!(!http_serve::etag::weak_eq(b"\"foo\"", b"\"bar\""));
    assert!(http_serve::etag::weak_eq(b"W/\"foo\"", b"\"foo\""));
    assert!(http_serve::etag::weak_eq(b"\"foo\"", b"W/\"foo\""));
    assert!(http_serve::etag::weak_eq(b"W/\"foo\"", b"W/\"foo\""));
    assert!(!http_serve::etag::weak_eq(b"W/\"foo\"", b"W/\"bar\""));
}

#[test]
fn strong_eq() {
    assert!(http_serve::etag::strong_eq(b"\"foo\"", b"\"foo\""));
    assert!(!http_serve::etag::strong_eq(b"\"foo\"", b"\"bar\""));
    assert!(!http_serve::etag::strong_eq(b"W/\"foo\"", b"\"foo\""));
    assert!(!http_serve::etag::strong_eq(b"\"foo\"", b"W/\"foo\""));
    assert!(!http_serve::etag::strong_eq(b"W/\"foo\"", b"W/\"foo\""));
    assert!(!http_serve::etag::strong_eq(b"W/\"foo\"", b"W/\"bar\""));
}

#[test]
fn empty_list() {
    let mut l = List::from(b"");
    assert_eq!(l.next(), None);
    assert!(!l.corrupt);
}

#[test]
fn nonempty_list() {
    let mut l = List::from(b"\"foo\", \tW/\"bar\",W/\"baz\"");
    assert_eq!(l.next(), Some(&b"\"foo\""[..]));
    assert_eq!(l.next(), Some(&b"W/\"bar\""[..]));
    assert_eq!(l.next(), Some(&b"W/\"baz\""[..]));
    assert_eq!(l.next(), None);
    assert!(!l.corrupt);
}

#[test]
fn comma_in_etag() {
    let mut l = List::from(b"\"foo, bar\", \"baz\"");
    assert_eq!(l.next(), Some(&b"\"foo, bar\""[..]));
    assert_eq!(l.next(), Some(&b"\"baz\""[..]));
    assert_eq!(l.next(), None);
    assert!(!l.corrupt);
}

#[test]
fn corrupt_list() {
    let mut l = List::from(b"\"foo\", bar");
    assert_eq!(l.next(), Some(&b"\"foo\""[..]));
    assert_eq!(l.next(), None);
    assert!(l.corrupt);
}

#[test]
fn corrupt_list_stays_where_it_is() {
    for text in [&b"\"foo"[..], b"W/", b"W/foo\"", b"W/\"", b"\"", b" \"foo\""] {
        let mut l = List::from(text);
        assert_eq!(l.next(), None);
        assert!(l.corrupt);
        assert_eq!(l.remaining, text);
        assert_eq!(l.next(), None);
        assert_eq!(l.remaining, text);
    }
}

#[test]
fn whitespace_around_commas() {
    for text in [&b"\"foo\" , \"bar\""[..], b"\"foo\"\t ,\"bar\"", b"\"foo\",\"bar\" ,\t"] {
        let mut l = List::from(text);
        assert_eq!(l.next(), Some(&b"\"foo\""[..]));
        assert_eq!(l.next(), Some(&b"\"bar\""[..]));
        assert_eq!(l.next(), None);
        assert!(!l.corrupt);
    }
}

#[test]
fn whitespace_at_the_end() {
    for (text, rest) in [(&b"\"foo\" "[..], &b" "[..]), (b"\"foo\"\t ", b"\t ")] {
        let mut l = List::from(text);
        assert_eq!(l.next(), Some(&b"\"foo\""[..]));
        assert!(!l.corrupt);
        assert_eq!(l.remaining, rest);
        assert_eq!(l.next(), None);
        assert!(l.corrupt);
        assert_eq!(l.remaining, rest);
    }
    let tag = Some(HeaderValue::from_static("\"foo\""));
    let mut h = HeaderMap::new();
    h.insert("if-match", HeaderValue::from_static("\"foo\" "));
    h.insert("if-none-match", HeaderValue::from_static("\"foo\" "));
    assert_eq!(any_match(&tag, &h), Err("Unparseable If-Match header"));
    assert_eq!(none_match(&tag, &h), None);
}

#[test]
fn list_without_commas() {
    for text in [&b"\"a\"\"b\","[..], b"\"a\" \"b\""] {
        let mut l = List::from(text);
        assert_eq!(l.next(), Some(&b"\"a\""[..]));
        assert!(!l.corrupt);
        assert_eq!(l.next(), None);
        assert!(l.corrupt);
        assert_eq!(l.next(), None);
    }
}

fn headers(name: &'static str, value: &'static [u8]) -> HeaderMap {
    let mut h = HeaderMap::new();
    h.insert(name, HeaderValue::from_bytes(value).unwrap());
    h
}

#[test]
fn none_match_values() {
    let tag = Some(HeaderValue::from_static("\"foo\""));
    assert_eq!(none_match(&tag, &HeaderMap::new()), None);
    assert_eq!(none_match(&tag, &headers("if-none-match", b"*")), Some(false));
    assert_eq!(none_match(&None, &headers("if-none-match", b"*")), Some(false));
    assert_eq!(none_match(&None, &headers("if-none-match", b"\"foo\"")), Some(true));
    assert_eq!(none_match(&None, &headers("if-none-match", b"bad")), Some(true));
    assert_eq!(none_match(&tag, &headers("if-none-match", b"\"foo\"")), Some(false));
    assert_eq!(none_match(&tag, &headers("if-none-match", b"W/\"foo\"")), Some(false));
    assert_eq!(none_match(&tag, &headers("if-none-match", b"\"a\", \"foo\"")), Some(false));
    assert_eq!(none_match(&tag, &headers("if-none-match", b"\"a\", \"b\"")), Some(true));
    // An unreadable list is ignored, even behind a tag that matches.
    assert_eq!(none_match(&tag, &headers("if-none-match", b"\"foo\", bad")), None);
    assert_eq!(none_match(&tag, &headers("if-none-match", b"\"foo\" \"a\"")), None);
    assert_eq!(none_match(&tag, &headers("if-none-match", b"\"a\" , \"foo\"")), Some(false));
    assert_eq!(none_match(&tag, &headers("if-none-match", b"")), Some(true));
}

#[test]
fn any_match_values() {
    let tag = Some(HeaderValue::from_static("\"foo\""));
    let weak = Some(HeaderValue::from_static("W/\"foo\""));
    assert_eq!(any_match(&tag, &HeaderMap::new()), Ok(true));
    assert_eq!(any_match(&tag, &headers("if-match", b"*")), Ok(true));
    assert_eq!(any_match(&None, &headers("if-match", b"*")), Ok(true));
    assert_eq!(any_match(&None, &headers("if-match", b"\"foo\"")), Ok(false));
    assert_eq!(any_match(&None, &headers("if-match", b"bad")), Ok(false));
    assert_eq!(any_match(&tag, &headers("if-match", b"\"foo\"")), Ok(true));
    assert_eq!(any_match(&tag, &headers("if-match", b"\"a\",\t\"foo\"")), Ok(true));
    assert_eq!(any_match(&tag, &headers("if-match", b"\"a\" ,\"foo\"")), Ok(true));
    assert_eq!(any_match(&tag, &headers("if-match", b"W/\"foo\"")), Ok(false));
    assert_eq!(any_match(&weak, &headers("if-match", b"W/\"foo\"")), Ok(false));
    assert_eq!(
        any_match(&tag, &headers("if-match", b"\"foo\", bad")),
        Err("Unparseable If-Match header")
    );
}

#[test]
fn tags_of_non_ascii_values() {
    let tag = Some(HeaderValue::from_bytes(b"\"\xff\"").unwrap());
    assert_eq!(any_match(&tag, &headers("if-match", b"\"\xff\"")), Ok(true));
    assert_eq!(none_match(&tag, &headers("if-none-match", b"\"\xfe\"")), Some(true));
}

#[test]
fn weakened_tags() {
    for (a, b) in [("\"a\"", "\"a\""), ("\"a\"", "\"b\""), ("\"a\"", "W/\"a\"")] {
        let weakened = format!("W/{}", a);
        assert_eq!(
            http_serve::etag::weak_eq(weakened.as_bytes(), b.as_bytes()),
            http_serve::etag::weak_eq(a.as_bytes(), b.as_bytes())
        );
        assert!(!http_serve::etag::strong_eq(weakened.as_bytes(), b.as_bytes()));
    }
}
