use http_serve::body::{
    next_multipart_body_chunk, Delivered, EntityStream, ExactLenStream, MultipartStream, Part,
    Polled, SizeHint, Step, StreamTooLongError, StreamTooShortError,
};
use http_serve::Body;

#[test]
fn correct_exact_len_stream() {
    let mut exact_len = ExactLenStream::new(5);
    assert_eq!(exact_len.remaining, 5);
    assert_eq!(exact_len.poll_next(Polled::Chunk("h".len() as u64)), Delivered::Chunk);
    assert_eq!(exact_len.remaining, 4);
    assert_eq!(exact_len.poll_next(Polled::Chunk("ello".len() as u64)), Delivered::Chunk);
    assert_eq!(exact_len.remaining, 0);
    assert_eq!(exact_len.poll_next(Polled::End), Delivered::End); // end of stream.
    assert_eq!(exact_len.poll_next(Polled::End), Delivered::End); // fused.
}

#[test]
fn short_exact_len_stream() {
    let mut exact_len = ExactLenStream::new(10);
    assert_eq!(exact_len.remaining, 10);
    assert_eq!(exact_len.poll_next(Polled::Chunk("hello".len() as u64)), Delivered::Chunk);
    assert_eq!(exact_len.remaining, 5);
    assert_eq!(
        exact_len.poll_next(Polled::End),
        Delivered::TooShort(StreamTooShortError { remaining: 5 })
    );
    assert_eq!(exact_len.poll_next(Polled::End), Delivered::End); // fused.
}

#[test]
fn long_exact_len_stream() {
    let mut exact_len = ExactLenStream::new(3);
    assert_eq!(exact_len.remaining, 3);
    assert_eq!(exact_len.poll_next(Polled::Chunk("h".len() as u64)), Delivered::Chunk);
    assert_eq!(exact_len.remaining, 2);
    assert_eq!(
        exact_len.poll_next(Polled::Chunk("ello".len() as u64)),
        Delivered::TooLong(StreamTooLongError { extra: 2 })
    );
    assert_eq!(exact_len.poll_next(Polled::End), Delivered::End); // fused.
}

#[test]
fn exact_len_stream_passes_on_what_is_not_counted() {
    let mut exact_len = ExactLenStream::new(3);
    assert_eq!(exact_len.poll_next(Polled::Pending), Delivered::Pending);
    assert_eq!(exact_len.poll_next(Polled::Failed), Delivered::Failed);
    assert_eq!(exact_len.poll_next(Polled::Chunk(0)), Delivered::Chunk);
    assert_eq!(exact_len.remaining, 3);
}

#[test]
fn stream_errors_as_text() {
    assert_eq!(
        StreamTooShortError { remaining: 5 }.message(),
        b"stream ended with 5 bytes still expected"
    );
    assert_eq!(
        StreamTooLongError { extra: 120 }.message(),
        b"stream returned (at least) 120 bytes more than expected"
    );
}

fn exact(n: u64) -> SizeHint {
    SizeHint { lower: n, upper: Some(n) }
}

#[test]
fn bodies_of_bytes() {
    let mut empty = Body::empty();
    assert!(empty.is_end_stream());
    assert_eq!(empty.size_hint(), exact(0));
    assert!(matches!(empty.next(), Step::End));

    let bodies = [
        Body::from("abc"),
        Body::from(b"abc".to_vec()),
        Body::from(&b"abc"[..]),
        Body::from(String::from("abc")),
    ];
    for mut body in bodies {
        assert!(!body.is_end_stream());
        assert_eq!(body.size_hint(), exact(3));
        match body.next() {
            Step::Chunk(bytes) => assert_eq!(bytes, b"abc"),
            _ => panic!("bytes expected"),
        }
        assert!(body.is_end_stream());
        assert_eq!(body.size_hint(), exact(0));
        assert!(matches!(body.next(), Step::End));
    }

    // Bytes are delivered even if there are none.
    let mut body = Body::from("");
    assert!(!body.is_end_stream());
    assert!(matches!(body.next(), Step::Chunk(bytes) if bytes.is_empty()));
    assert!(body.is_end_stream());
}

#[test]
fn body_of_an_entity() {
    let mut body = Body::ExactLen(EntityStream::new(10..15));
    assert_eq!(body.size_hint(), exact(5));
    assert!(!body.is_end_stream());
    assert!(matches!(body.next(), Step::Open(r) if r == (10..15)));
    assert!(matches!(body.next(), Step::Poll));
    assert_eq!(body.polled(Polled::Chunk(2)), Some(Delivered::Chunk));
    assert_eq!(body.size_hint(), exact(3));
    assert!(matches!(body.next(), Step::Poll));
    // An error is passed on, and the stream may go on.
    assert_eq!(body.polled(Polled::Failed), Some(Delivered::Failed));
    assert_eq!(body.polled(Polled::Chunk(3)), Some(Delivered::Chunk));
    assert!(body.is_end_stream());
    assert_eq!(body.polled(Polled::End), Some(Delivered::End));
}

fn multipart() -> MultipartStream {
    let headers = vec![b"one".to_vec(), b"three".to_vec()];
    MultipartStream::new(vec![0..2, 5..9], headers, 3 + 2 + 5 + 4 + 9)
}

#[test]
fn multipart_steps() {
    let mut s = multipart();
    assert_eq!(s.remaining(), 23);
    assert!(matches!(s.next(), Step::Chunk(b) if b == b"one"));
    assert_eq!(s.remaining(), 20);
    assert!(matches!(s.next(), Step::Open(r) if r == (0..2)));
    assert_eq!(s.remaining(), 20);
    assert!(matches!(s.next(), Step::Poll));
    assert_eq!(s.polled(Polled::Pending), Some(Delivered::Pending));
    assert_eq!(s.polled(Polled::Chunk(2)), Some(Delivered::Chunk));
    assert_eq!(s.remaining(), 18);
    assert_eq!(s.polled(Polled::End), None);
    assert!(matches!(s.next(), Step::Chunk(b) if b == b"three"));
    assert!(matches!(s.next(), Step::Open(r) if r == (5..9)));
    assert_eq!(s.polled(Polled::Chunk(1)), Some(Delivered::Chunk));
    assert_eq!(s.polled(Polled::Chunk(3)), Some(Delivered::Chunk));
    assert_eq!(s.polled(Polled::End), None);
    assert!(matches!(s.next(), Step::Chunk(b) if b == b"\r\n--B--\r\n"));
    assert_eq!(s.remaining(), 0);
    assert!(matches!(s.next(), Step::End));
    assert!(matches!(s.next(), Step::End));
}

#[test]
fn multipart_ends_with_an_error() {
    let failures = [
        (Polled::Failed, Delivered::Failed),
        (
            Polled::Chunk(3),
            Delivered::TooLong(StreamTooLongError { extra: 1 }),
        ),
        (
            Polled::End,
            Delivered::TooShort(StreamTooShortError { remaining: 2 }),
        ),
    ];
    for (polled, delivered) in failures {
        let mut s = multipart();
        s.next();
        s.next();
        assert_eq!(s.polled(polled), Some(delivered));
        assert_eq!(s.remaining(), 0);
        assert!(matches!(s.next(), Step::End));
    }
}

#[test]
fn multipart_chunks_by_state() {
    let ranges = vec![0..2, 5..9];
    let mut headers = vec![b"one".to_vec(), b"three".to_vec()];
    let (part, state) = next_multipart_body_chunk(0, &ranges, &mut headers).unwrap();
    assert!(matches!(part, Part::Bytes(b) if b == b"one"));
    assert_eq!(state, 1);
    assert_eq!(headers, vec![b"".to_vec(), b"three".to_vec()]);
    let (part, state) = next_multipart_body_chunk(3, &ranges, &mut headers).unwrap();
    assert!(matches!(part, Part::Entity(r) if r == (5..9)));
    assert_eq!(state, 4);
    let (part, state) = next_multipart_body_chunk(4, &ranges, &mut headers).unwrap();
    assert!(matches!(part, Part::Bytes(b) if b == b"\r\n--B--\r\n"));
    assert_eq!(state, 5);
    assert!(next_multipart_body_chunk(5, &ranges, &mut headers).is_none());
}
