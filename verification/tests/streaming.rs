use flate2::read::GzDecoder;
use flate2::write::GzDecoder as GzWriteDecoder;
use http::header::{HeaderMap, HeaderValue};
use http_serve::chunker::{Reader, ReaderPoll, WriteError, Writer};
use http_serve::gzip::forward;
use http_serve::{streaming_body, BodyWriter, Method, Request};
use std::io::{Read, Write};

type TestReader = Reader<&'static str, u32>;

fn accepting(value: Option<&'static str>) -> HeaderMap {
    let mut h = HeaderMap::new();
    if let Some(v) = value {
        h.insert("accept-encoding", HeaderValue::from_static(v));
    }
    h
}

fn build(
    method: Method,
    accept: Option<&'static str>,
) -> (HeaderMap, TestReader, Option<BodyWriter>) {
    let h = accepting(accept);
    let (resp, w) = streaming_body(&Request { method, headers: &h }).build();
    (resp.headers, resp.reader, w)
}

fn write_all(w: &mut BodyWriter, reader: &mut TestReader, mut data: &[u8]) {
    while !data.is_empty() {
        let n = w.write(reader, data).0.unwrap();
        assert!(n > 0);
        data = &data[n..];
    }
}

/// What is ready for delivery.
fn take_ready(reader: &mut TestReader) -> Vec<u8> {
    let mut out = Vec::new();
    while let ReaderPoll::Chunk(chunk) = reader.poll_next(0) {
        out.extend_from_slice(&chunk);
    }
    out
}

fn gunzip(data: &[u8]) -> Vec<u8> {
    let mut out = Vec::new();
    GzDecoder::new(data).read_to_end(&mut out).unwrap();
    out
}

#[test]
fn no_gzip() {
    let (headers, mut reader, w) = build(Method::Get, None);
    let mut w = w.unwrap();
    write_all(&mut w, &mut reader, b"1234");
    write_all(&mut w, &mut reader, b"5678");
    w.finish(&mut reader);
    assert_eq!(None, headers.get("content-encoding"));
    assert_eq!(headers.get("vary").unwrap(), "accept-encoding");
    assert_eq!(b"12345678", &take_ready(&mut reader)[..]);
    assert!(reader.is_end_stream());
}

#[test]
fn auto_gzip() {
    let (headers, mut reader, w) = build(Method::Get, Some("gzip, br"));
    let mut w = w.unwrap();
    write_all(&mut w, &mut reader, b"1234");
    write_all(&mut w, &mut reader, b"5678");
    w.finish(&mut reader);
    assert_eq!(headers.get("content-encoding").unwrap(), "gzip");
    assert_eq!(headers.get("vary").unwrap(), "accept-encoding");
    assert_eq!(b"12345678", &gunzip(&take_ready(&mut reader))[..]);
    assert!(reader.is_end_stream());
}

#[test]
fn no_gzip_abort() {
    let (_, mut reader, w) = build(Method::Get, None);
    let mut w = w.unwrap();
    write_all(&mut w, &mut reader, b"1234");
    w.flush(&mut reader).0.unwrap();
    assert_eq!(b"1234", &take_ready(&mut reader)[..]);
    write_all(&mut w, &mut reader, b"5678");
    // The reader waited for more.
    assert_eq!(w.abort(&mut reader, "foo"), Some(0));
    assert!(matches!(reader.poll_next(0), ReaderPoll::Failed("foo")));
    assert!(matches!(reader.poll_next(0), ReaderPoll::End));
    assert_eq!(w.write(&mut reader, b"9"), (Err(WriteError::BodyDead), None));
    assert_eq!(w.flush(&mut reader), (Err(WriteError::BodyDead), None));
    assert_eq!(w.abort(&mut reader, "bar"), None);
    assert_eq!(WriteError::BodyDead.message(), "body is dead");
    assert_eq!(w.finish(&mut reader), None);
}

#[test]
fn auto_gzip_abort() {
    let (_, mut reader, w) = build(Method::Get, Some("gzip"));
    let mut w = w.unwrap();
    write_all(&mut w, &mut reader, b"1234");
    w.flush(&mut reader).0.unwrap();
    // What was flushed can be decoded without what follows.
    let mut decoder = GzWriteDecoder::new(Vec::new());
    decoder.write_all(&take_ready(&mut reader)).unwrap();
    decoder.flush().unwrap();
    assert_eq!(b"1234", &decoder.get_ref()[..]);
    write_all(&mut w, &mut reader, b"5678");
    w.abort(&mut reader, "foo");
    assert!(matches!(reader.poll_next(0), ReaderPoll::Failed("foo")));
    assert!(matches!(reader.poll_next(0), ReaderPoll::End));
}

#[test]
fn manual_gzip() {
    let (headers, mut reader, w) = build(Method::Get, Some("gzip"));
    let mut w = w.unwrap();
    write_all(&mut w, &mut reader, b"1234");
    w.finish(&mut reader);
    assert_eq!(headers.get("content-encoding").unwrap(), "gzip");
    let buf = take_ready(&mut reader);
    assert_eq!(b"\x1f\x8b", &buf[..2]); // gzip magic number.
}

/// Bytes that an encoder cannot make shorter.
fn noise(len: usize) -> Vec<u8> {
    let mut data = Vec::new();
    let mut x: u32 = 1;
    for _ in 0..len {
        x = x.wrapping_mul(1664525).wrapping_add(1013904223);
        data.push((x >> 24) as u8);
    }
    data
}

#[test]
fn flushed_bodies_decode_to_a_prefix() {
    for len in [1, 1000, 32 * 1024, 64 * 1024, 200_000] {
        let data = noise(len);
        for level in 1..10 {
            let h = accepting(Some("gzip"));
            let req = Request { method: Method::Get, headers: &h };
            let (resp, w) = streaming_body(&req).with_gzip_level(level).build();
            let mut reader: TestReader = resp.reader;
            let mut w = w.unwrap();
            write_all(&mut w, &mut reader, &data);
            w.flush(&mut reader).0.unwrap();
            let mut out = take_ready(&mut reader);
            let mut decoder = GzWriteDecoder::new(Vec::new());
            decoder.write_all(&out).unwrap();
            decoder.flush().unwrap();
            assert!(data.starts_with(decoder.get_ref()));
            // Nothing of a short body is held back.
            assert!(len > 1000 || decoder.get_ref().len() == len);
            write_all(&mut w, &mut reader, b"end");
            w.finish(&mut reader);
            out.extend(take_ready(&mut reader));
            assert_eq!(gunzip(&out), [&data[..], b"end"].concat());
        }
    }
}

#[test]
fn chunks_of_a_gzipped_body() {
    let h = accepting(Some("gzip"));
    let req = Request { method: Method::Get, headers: &h };
    let (resp, w) = streaming_body(&req).with_chunk_size(1000).build();
    let mut reader: TestReader = resp.reader;
    let mut w = w.unwrap();
    let data = noise(100_000);
    let mut out = Vec::new();
    for half in [&data[..50_000], &data[50_000..]] {
        write_all(&mut w, &mut reader, half);
        let mut sizes = Vec::new();
        while let ReaderPoll::Chunk(chunk) = reader.poll_next(0) {
            sizes.push(chunk.len());
            out.extend(chunk);
        }
        assert!(sizes.iter().all(|&n| n == 1000));
        w.flush(&mut reader).0.unwrap();
        let mut sizes = Vec::new();
        while let ReaderPoll::Chunk(chunk) = reader.poll_next(0) {
            sizes.push(chunk.len());
            out.extend(chunk);
        }
        let last = sizes.pop().unwrap();
        assert!(0 < last && last <= 1000);
        assert!(sizes.iter().all(|&n| n == 1000));
    }
    w.finish(&mut reader);
    out.extend(take_ready(&mut reader));
    assert!(reader.is_end_stream());
    assert_eq!(gunzip(&out), data);
}

#[test]
fn large_bodies_read_back() {
    let data = noise(200_000);
    for level in 0..10 {
        let h = accepting(Some("gzip"));
        let req = Request { method: Method::Get, headers: &h };
        let (resp, w) = streaming_body(&req)
            .with_chunk_size(1000)
            .with_gzip_level(level)
            .build();
        let mut reader: TestReader = resp.reader;
        let mut w = w.unwrap();
        write_all(&mut w, &mut reader, &data);
        w.finish(&mut reader);
        let out = take_ready(&mut reader);
        if level == 0 {
            assert_eq!(resp.headers.get("content-encoding"), None);
            assert_eq!(out, data);
        } else {
            assert_eq!(gunzip(&out), data);
        }
        assert!(reader.is_end_stream());
    }
}

#[test]
fn head_has_no_body() {
    for (accept, encoding) in [(None, None), (Some("gzip"), Some("gzip"))] {
        let (headers, mut reader, w) = build(Method::Head, accept);
        assert!(w.is_none());
        assert!(reader.is_end_stream());
        assert_eq!(
            headers.get("content-encoding").map(|v| v.to_str().unwrap()),
            encoding
        );
        assert!(matches!(reader.poll_next(0), ReaderPoll::End));
    }
    assert!(build(Method::Other, None).2.is_some());
}

#[test]
fn builder_settings() {
    let h = accepting(Some("gzip"));
    let b = streaming_body(&Request { method: Method::Get, headers: &h });
    assert_eq!((b.chunk_size, b.gzip_level), (4096, 6));
    assert!(b.should_gzip && b.body_needed);
    let b = b.with_chunk_size(7).with_gzip_level(9);
    assert_eq!((b.chunk_size, b.gzip_level), (7, 9));
    assert!(b.should_gzip && b.body_needed);
}

#[test]
fn chunk_size_of_the_builder() {
    let h = HeaderMap::new();
    let req = Request { method: Method::Get, headers: &h };
    let (resp, w) = streaming_body(&req).with_chunk_size(3).build();
    let mut reader: TestReader = resp.reader;
    let mut w = w.unwrap();
    assert_eq!(w.write(&mut reader, b"12345"), (Ok(3), None));
    assert!(matches!(reader.poll_next(0), ReaderPoll::Chunk(c) if c == b"123"));
}

#[test]
fn body_for_request_headers() {
    let (mut w, mut reader, headers): (_, TestReader, _) =
        BodyWriter::new(&accepting(Some("gzip")));
    assert_eq!(headers.get("content-encoding").unwrap(), "gzip, chunked");
    assert_eq!(headers.get("vary").unwrap(), "accept-encoding");
    write_all(&mut w, &mut reader, b"hello");
    w.finish(&mut reader);
    assert_eq!(b"hello", &gunzip(&take_ready(&mut reader))[..]);

    let (mut w, mut reader, headers): (_, TestReader, _) = BodyWriter::new(&accepting(None));
    assert_eq!(headers.get("content-encoding"), None);
    assert_eq!(headers.get("vary").unwrap(), "accept-encoding");
    write_all(&mut w, &mut reader, b"hello");
    w.finish(&mut reader);
    assert_eq!(b"hello", &take_ready(&mut reader)[..]);
}

#[test]
fn error_ends_a_body() {
    for accept in [None, Some("gzip")] {
        let (_, mut reader, w) = build(Method::Get, accept);
        let mut w = w.unwrap();
        let (mut other, _): (_, TestReader) = Writer::with_chunk_size(1);
        other.abort(&mut reader, "gone");
        let data = [7u8; 5000];
        let mut failed = false;
        for _ in 0..3 {
            match w.write(&mut reader, &data).0 {
                Ok(_) => {}
                Err(e) => {
                    assert_eq!(e, WriteError::ReceiverDropped);
                    failed = true;
                    break;
                }
            }
            if let Err(e) = w.flush(&mut reader).0 {
                assert_eq!(e, WriteError::ReceiverDropped);
                failed = true;
                break;
            }
        }
        assert!(failed);
        assert_eq!(w.write(&mut reader, &data).0, Err(WriteError::BodyDead));
    }
}

#[test]
fn output_of_an_encoder_is_forwarded() {
    let (mut w, mut reader): (_, TestReader) = Writer::with_chunk_size(4);
    assert!(matches!(reader.poll_next(9), ReaderPoll::Pending));
    assert_eq!(forward(&mut w, &mut reader, b"12"), (Ok(()), None));
    assert_eq!(forward(&mut w, &mut reader, b"3456789"), (Ok(()), Some(9)));
    assert_eq!(b"12345678", &take_ready(&mut reader)[..]);
    w.abort(&mut reader, "e");
    assert_eq!(forward(&mut w, &mut reader, b"1"), (Ok(()), None));
    assert_eq!(
        forward(&mut w, &mut reader, b"234"),
        (Err(WriteError::ReceiverDropped), None)
    );
}

#[test]
fn wakers_of_an_encoded_body() {
    let (_, mut reader, w) = build(Method::Get, Some("gzip"));
    let mut w = w.unwrap();
    assert!(matches!(reader.poll_next(1), ReaderPoll::Pending));
    assert_eq!(w.write(&mut reader, b"abc").1, None);
    assert_eq!(w.flush(&mut reader), (Ok(()), Some(1)));
    take_ready(&mut reader);
    assert!(matches!(reader.poll_next(2), ReaderPoll::Pending));
    assert_eq!(w.finish(&mut reader), Some(2));
}
