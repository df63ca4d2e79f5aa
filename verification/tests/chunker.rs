use http_serve::body::SizeHint;
use http_serve::chunker::{ReaderPoll, WriteError, Writer};
use std::task::Waker;

type Reader = http_serve::chunker::Reader<&'static str, u32>;

/// Reads a stream that nobody writes to any more.
fn to_vec(mut body: Reader) -> Vec<u8> {
    let mut out = Vec::new();
    loop {
        match body.poll_next(0) {
            ReaderPoll::Chunk(chunk) => out.extend_from_slice(&chunk),
            ReaderPoll::End => return out,
            ReaderPoll::Pending => panic!("pending"),
            ReaderPoll::Failed(e) => panic!("{}", e),
        }
    }
}

/// Writes to a stream, and returns the number of bytes that were taken.
fn write(w: &mut Writer, body: &mut Reader, data: &[u8]) -> Result<usize, WriteError> {
    w.write(body, data).map(|(n, _)| n)
}

// Just dropping should end the stream.
#[test]
fn just_drop() {
    let (w, mut body): (_, Reader) = Writer::with_chunk_size(4);
    assert!(!body.is_end_stream());
    w.close(&mut body);
    assert!(body.is_end_stream());
    assert_eq!(b"", &to_vec(body)[..]);
}

#[test]
fn extra_poll() {
    let (mut w, mut body) = Writer::with_chunk_size::<&'static str, Waker>(4);
    assert!(!body.is_end_stream());

    // Use a dummy waker.
    let waker = Waker::noop();
    assert!(matches!(body.poll_next(waker.clone()), ReaderPoll::Pending));
    assert!(matches!(body.poll_next(waker.clone()), ReaderPoll::Pending));
    assert_eq!(w.write(&mut body, b"1").unwrap().0, 1);
    w.close(&mut body);
    let next = body.poll_next(waker.clone());
    assert!(matches!(&next, ReaderPoll::Chunk(chunk) if chunk == b"1"));
}

// A smaller-than-chunk-size write shouldn't be flushed on write.
#[test]
fn small_no_flush() {
    let (mut w, mut body): (_, Reader) = Writer::with_chunk_size(4);
    assert_eq!(write(&mut w, &mut body, b"1").unwrap(), 1);
    w.truncate(); // prevents auto-flush from doing anything.
    w.close(&mut body);
    assert_eq!(b"", &to_vec(body)[..]);
}

// With a flush, the content should show up.
#[test]
fn small_flush() {
    let (mut w, mut body): (_, Reader) = Writer::with_chunk_size(4);
    assert_eq!(write(&mut w, &mut body, b"1").unwrap(), 1);
    w.flush(&mut body).unwrap();
    w.truncate(); // prevents auto-flush from doing anything.
    w.close(&mut body);
    assert_eq!(b"1", &to_vec(body)[..]);
}

// With a drop, the content should show up.
#[test]
fn small_drop() {
    let (mut w, mut body): (_, Reader) = Writer::with_chunk_size(4);
    assert_eq!(write(&mut w, &mut body, b"1").unwrap(), 1);
    w.close(&mut body);
    assert_eq!(b"1", &to_vec(body)[..]);
}

// A write of exactly the chunk size should be automatically flushed.
#[test]
fn chunk_write() {
    let (mut w, mut body): (_, Reader) = Writer::with_chunk_size(4);
    assert_eq!(write(&mut w, &mut body, b"1234").unwrap(), 4);
    w.truncate();
    w.close(&mut body);
    assert_eq!(b"1234", &to_vec(body)[..]);
}

// ...and everything should be set up for the next write as well.
#[test]
fn chunk_double_write() {
    let (mut w, mut body): (_, Reader) = Writer::with_chunk_size(4);
    assert_eq!(write(&mut w, &mut body, b"1234").unwrap(), 4);
    assert_eq!(write(&mut w, &mut body, b"5678").unwrap(), 4);
    w.close(&mut body);
    assert_eq!(b"12345678", &to_vec(body)[..]);
}

// A larger-than-chunk-size write should be turned into a chunk-size write.
#[test]
fn large_write() {
    let (mut w, mut body): (_, Reader) = Writer::with_chunk_size(4);
    assert_eq!(write(&mut w, &mut body, b"123456").unwrap(), 4);
    w.close(&mut body);
    assert_eq!(b"1234", &to_vec(body)[..]);
}

// ...similarly, one that uses all the remaining capacity of the chunk.
#[test]
fn small_large_write() {
    let (mut w, mut body): (_, Reader) = Writer::with_chunk_size(4);
    assert_eq!(write(&mut w, &mut body, b"1").unwrap(), 1);
    assert_eq!(write(&mut w, &mut body, b"2345").unwrap(), 3);
    w.close(&mut body);
    assert_eq!(b"1234", &to_vec(body)[..]);
}

// Aborting should cause the stream to Err, dumping anything in the queue.
#[test]
fn abort() {
    let (mut w, mut body): (_, Reader) = Writer::with_chunk_size(4);
    assert_eq!(w.write_all(&mut body, b"12345").0, Ok(()));
    w.truncate();
    w.abort(&mut body, "asdf");
    w.close(&mut body);
    assert!(matches!(body.poll_next(0), ReaderPoll::Failed("asdf")));
    assert!(matches!(body.poll_next(0), ReaderPoll::End));
}

#[test]
fn writes_after_an_abort() {
    let (mut w, mut body): (_, Reader) = Writer::with_chunk_size(4);
    assert_eq!(w.abort(&mut body, "one"), None);
    assert!(!body.is_end_stream());
    assert_eq!(body.size_hint(), SizeHint { lower: 0, upper: None });
    // A second error changes nothing.
    assert_eq!(w.abort(&mut body, "two"), None);
    // Nobody notices until there is a chunk to be handed over.
    assert_eq!(write(&mut w, &mut body, b"123"), Ok(3));
    assert_eq!(write(&mut w, &mut body, b"45"), Err(WriteError::ReceiverDropped));
    assert_eq!(write(&mut w, &mut body, b""), Err(WriteError::ReceiverDropped));
    assert_eq!(w.flush(&mut body), Err(WriteError::ReceiverDropped));
    assert_eq!(w.flush_helper(&mut body, true), Err(()));
    w.truncate();
    assert_eq!(w.flush(&mut body), Ok(None));
    assert!(matches!(body.poll_next(0), ReaderPoll::Failed("one")));
    assert!(body.is_end_stream());
    assert_eq!(WriteError::ReceiverDropped.message(), "receiver was dropped");
}

#[test]
fn chunks_have_the_given_size() {
    let (mut w, mut body): (_, Reader) = Writer::with_chunk_size(4);
    assert_eq!(w.write_all(&mut body, b"0123456789"), (Ok(()), None));
    w.flush(&mut body).unwrap();
    assert_eq!(w.write_all(&mut body, b"abcde"), (Ok(()), None));
    w.close(&mut body);
    for expected in [&b"0123"[..], b"4567", b"89", b"abcd", b"e"] {
        match body.poll_next(0) {
            ReaderPoll::Chunk(chunk) => assert_eq!(chunk, expected),
            _ => panic!("chunk expected"),
        }
    }
    assert!(body.is_end_stream());
    assert!(matches!(body.poll_next(0), ReaderPoll::End));
}

#[test]
fn size_hints() {
    let (mut w, mut body): (_, Reader) = Writer::with_chunk_size(4);
    assert_eq!(body.size_hint(), SizeHint { lower: 0, upper: None });
    w.write_all(&mut body, b"0123456789").0.unwrap();
    assert_eq!(body.size_hint(), SizeHint { lower: 8, upper: None });
    body.poll_next(0);
    assert_eq!(body.size_hint(), SizeHint { lower: 4, upper: None });
    w.close(&mut body);
    assert_eq!(body.size_hint(), SizeHint { lower: 6, upper: Some(6) });
    assert!(!body.is_end_stream());
}

#[test]
fn wakers_are_returned_when_there_is_something_new() {
    let (mut w, mut body): (_, Reader) = Writer::with_chunk_size(4);
    // The last waker counts.
    assert!(matches!(body.poll_next(1), ReaderPoll::Pending));
    assert!(matches!(body.poll_next(2), ReaderPoll::Pending));
    assert_eq!(w.write(&mut body, b"123"), Ok((3, None)));
    assert_eq!(w.write(&mut body, b"45"), Ok((1, Some(2))));
    // A waker is returned once.
    assert_eq!(w.write(&mut body, b"1234"), Ok((4, None)));
    assert!(matches!(body.poll_next(3), ReaderPoll::Chunk(_)));
    assert!(matches!(body.poll_next(3), ReaderPoll::Chunk(_)));
    assert!(matches!(body.poll_next(3), ReaderPoll::Pending));
    assert_eq!(w.flush(&mut body), Ok(None));
    assert_eq!(w.write(&mut body, b"1"), Ok((1, None)));
    assert_eq!(w.flush(&mut body), Ok(Some(3)));
    assert!(matches!(body.poll_next(4), ReaderPoll::Chunk(_)));
    assert!(matches!(body.poll_next(4), ReaderPoll::Pending));
    assert_eq!(w.close(&mut body), Some(4));

    let (mut w, mut body): (_, Reader) = Writer::with_chunk_size(4);
    assert!(matches!(body.poll_next(5), ReaderPoll::Pending));
    assert_eq!(w.abort(&mut body, "e"), Some(5));
}

#[test]
fn all_that_was_written_is_read() {
    let cap = 7;
    let (mut w, mut r) = Writer::with_chunk_size::<&'static str, u32>(cap);
    let mut written = Vec::new();
    let mut cuts = Vec::new();
    let mut read: Vec<Vec<u8>> = Vec::new();
    for i in 0..50u8 {
        let data = vec![i; i as usize % 11];
        let (n, _) = w.write(&mut r, &data).unwrap();
        written.extend_from_slice(&data[..n]);
        if i % 5 == 3 {
            w.flush(&mut r).unwrap();
            cuts.push(written.len());
        }
        if i % 3 == 0 {
            if let ReaderPoll::Chunk(chunk) = r.poll_next(0) {
                read.push(chunk);
            }
        }
    }
    w.close(&mut r);
    cuts.push(written.len());
    loop {
        match r.poll_next(0) {
            ReaderPoll::Chunk(chunk) => read.push(chunk),
            ReaderPoll::End => break,
            _ => panic!("neither a chunk nor the end"),
        }
    }
    let mut end = 0;
    for chunk in &read {
        end += chunk.len();
        assert!(0 < chunk.len() && chunk.len() <= cap);
        assert!(chunk.len() == cap || cuts.contains(&end));
    }
    assert_eq!(read.concat(), written);
}
