use http::header::HeaderValue;
use http_serve::range::{parse, RangeList, ResolvedRanges};
use std::ops::Range;

fn satisfiable(ranges: &[Range<u64>]) -> ResolvedRanges {
    ResolvedRanges::Satisfiable(RangeList::of(ranges))
}

fn parse_text(value: &'static str, len: u64) -> ResolvedRanges {
    parse(Some(&HeaderValue::from_static(value)), len)
}

/// Tests the specific examples enumerated in [RFC 2616 section
/// 14.35.1](https://tools.ietf.org/html/rfc2616#section-14.35.1).
#[test]
fn test_resolve_ranges_rfc() {
    assert_eq!(satisfiable(&[0..500]), parse_text("bytes=0-499", 10000));
    assert_eq!(satisfiable(&[500..1000]), parse_text("bytes=500-999", 10000));
    assert_eq!(satisfiable(&[9500..10000]), parse_text("bytes=-500", 10000));
    assert_eq!(satisfiable(&[9500..10000]), parse_text("bytes=9500-", 10000));
    assert_eq!(
        satisfiable(&[0..1, 9999..10000]),
        parse_text("bytes=0-0,-1", 10000)
    );

    // Non-canonical ranges. Adjacent and overlapping ranges are not coalesced.
    assert_eq!(
        satisfiable(&[500..601, 601..1000]),
        parse_text("bytes=500-600, 601-999", 10000)
    );
    assert_eq!(
        satisfiable(&[500..701, 601..1000]),
        parse_text("bytes=500-700, 601-999", 10000)
    );
}

#[test]
fn test_resolve_ranges_satisfiability() {
    assert_eq!(
        ResolvedRanges::NotSatisfiable,
        parse_text("bytes=10000-", 10000)
    );
    assert_eq!(
        satisfiable(&[0..500]),
        parse_text("bytes=0-499,10000-", 10000)
    );
    assert_eq!(ResolvedRanges::NotSatisfiable, parse_text("bytes=-1", 0));
    assert_eq!(ResolvedRanges::NotSatisfiable, parse_text("bytes=0-0", 0));
    assert_eq!(ResolvedRanges::NotSatisfiable, parse_text("bytes=0-", 0));
    assert_eq!(satisfiable(&[0..1]), parse_text("bytes=0-0", 1));
    assert_eq!(satisfiable(&[0..500]), parse_text("bytes=0-10000", 500));
}

#[test]
fn test_resolve_ranges_absent_or_invalid() {
    assert_eq!(ResolvedRanges::Ignored, parse(None, 10000));
}

#[test]
fn unreadable_ranges_are_ignored() {
    for value in [
        "",
        "bytes",
        "bytes=",
        "lines=0-1",
        "Bytes=0-1",
        "bytes=1",
        "bytes=a-1",
        "bytes=1-a",
        "bytes=-",
        "bytes=-a",
        "bytes=0-1,",
        "bytes=0-1,x",
        "bytes=0 -1",
        "bytes=0- 1",
        "bytes=0-1 ",
        "bytes=0-1,2-3\t",
        "bytes=0-1 2-3",
        "bytes=+1-3",
        "bytes=1-+3",
        "bytes=-+3",
        "bytes=5-4",
        "bytes=200-100",
        "bytes=0-1,5-4",
        "bytes=18446744073709551616-",
    ] {
        assert_eq!(ResolvedRanges::Ignored, parse_text(value, 100), "{}", value);
    }
    let opaque = HeaderValue::from_bytes(b"bytes=0-\xff").unwrap();
    assert_eq!(ResolvedRanges::Ignored, parse(Some(&opaque), 100));
}

#[test]
fn range_edges() {
    // A suffix as long as the entity or longer selects all of it, an empty one nothing.
    assert_eq!(satisfiable(&[1..100]), parse_text("bytes=-99", 100));
    assert_eq!(satisfiable(&[0..100]), parse_text("bytes=-100", 100));
    assert_eq!(satisfiable(&[0..10000]), parse_text("bytes=-10001", 10000));
    assert_eq!(ResolvedRanges::NotSatisfiable, parse_text("bytes=-0", 100));
    assert_eq!(ResolvedRanges::NotSatisfiable, parse_text("bytes=-0", 0));
    assert_eq!(satisfiable(&[7..8]), parse_text("bytes=-0,7-7", 100));
    // The last position may be the largest number there is.
    assert_eq!(
        satisfiable(&[5..100]),
        parse_text("bytes=5-18446744073709551615", 100)
    );
    assert_eq!(
        satisfiable(&[5..u64::MAX]),
        parse_text("bytes=5-18446744073709551615", u64::MAX)
    );
    // The last position may be the first.
    assert_eq!(satisfiable(&[5..6]), parse_text("bytes=5-5", 100));
    assert_eq!(ResolvedRanges::NotSatisfiable, parse_text("bytes=100-100", 100));
    // Leading zeros, and whitespace around commas.
    assert_eq!(satisfiable(&[1..3]), parse_text("bytes= \t1-002", 100));
    assert_eq!(satisfiable(&[0..2, 2..4]), parse_text("bytes=0-1 \t, 2-3", 100));
    assert_eq!(
        satisfiable(&[0..1, 2..3, 98..100]),
        parse_text("bytes=0-0,100-, \t2-2,-2", 100)
    );
}

#[test]
fn written_ranges_are_read_back() {
    for (first, last, len) in [(0, 0, 1), (3, 7, 10), (9, 20, 10), (123, 456, 100000)] {
        let end = std::cmp::min(last + 1, len);
        let closed = HeaderValue::from_str(&format!("bytes={}-{}", first, last)).unwrap();
        assert_eq!(satisfiable(&[first..end]), parse(Some(&closed), len));
        let open = HeaderValue::from_str(&format!("bytes={}-", first)).unwrap();
        assert_eq!(satisfiable(&[first..len]), parse(Some(&open), len));
        let suffix = HeaderValue::from_str(&format!("bytes=-{}", last + 1)).unwrap();
        assert_eq!(satisfiable(&[len - end..len]), parse(Some(&suffix), len));
    }
}
