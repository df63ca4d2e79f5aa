use http::header::{HeaderMap, HeaderValue};
use http_serve::file::{ChunkedRead, File, Metadata, Read};
use http_serve::platform::{
    check_offset, file_info, filetime_to_systemtime, handle_read_outcome, handle_read_size,
    read_outcome, split_halves, FileInfo, FileTime, HandleInfo, ReadError,
};
use http_serve::time::Timestamp;
use http_serve::{serve, ChunkedReadFile, Entity, Method, Request};

fn info(len: u64) -> FileInfo {
    FileInfo {
        inode: 0x1234,
        len,
        mtime: Timestamp { secs: 0x5678, nanos: 0xabcd },
    }
}

fn open(info: FileInfo, headers: HeaderMap) -> ChunkedReadFile {
    match ChunkedReadFile::new_with_metadata(&Metadata { is_file: true, info }, headers) {
        Ok(f) => f,
        Err(e) => panic!("{}", e),
    }
}

/// Reads a range of a file with the given contents, of which a read gives at most so much.
fn read(data: &[u8], mut plan: ChunkedRead, most: usize) -> Vec<u8> {
    let mut out = Vec::new();
    while let Some(Read { offset, size }) = plan.next() {
        let n = std::cmp::min(size, most);
        let offset = offset as usize;
        out.extend_from_slice(&data[offset..offset + n]);
        plan.advance(n);
    }
    out
}

#[test]
fn basic() {
    let crf = open(info(4), HeaderMap::new());
    assert_eq!(4, crf.len());
    let etag1 = crf.etag();

    // Test returning part/all of the stream.
    assert_eq!(read(b"asdf", crf.get_range(0..4), 100), b"asdf");
    assert_eq!(read(b"asdf", crf.get_range(1..3), 100), b"sd");

    // A ChunkedReadFile constructed from a modified file should have a different etag.
    let crf = open(info(8), HeaderMap::new());
    assert_eq!(8, crf.len());
    let etag2 = crf.etag();
    assert_ne!(etag1, etag2);
}

#[test]
fn tag_and_time_of_a_file() {
    let crf = open(info(255), HeaderMap::new());
    assert_eq!(crf.etag().unwrap(), "\"1234:ff:5678:abcd\"");
    assert_eq!(crf.last_modified(), Some(Timestamp { secs: 0x5678, nanos: 0xabcd }));
    assert!(!crf.is_empty());
    let zero = FileInfo { inode: 0, len: 0, mtime: Timestamp { secs: 0, nanos: 0 } };
    let crf = open(zero, HeaderMap::new());
    assert_eq!(crf.etag().unwrap(), "\"0:0:0:0\"");
    assert!(crf.is_empty());
    let large = FileInfo {
        inode: u64::MAX,
        len: u64::MAX,
        mtime: Timestamp { secs: i64::MAX, nanos: 999_999_999 },
    };
    let tag = "\"ffffffffffffffff:ffffffffffffffff:7fffffffffffffff:3b9ac9ff\"";
    assert_eq!(open(large, HeaderMap::new()).etag().unwrap(), tag);
}

#[test]
fn tags_differ() {
    let a = info(16);
    let mut others = [a; 4];
    others[0].inode = 0x12;
    others[1].len = 17;
    others[2].mtime.secs += 1;
    others[3].mtime.nanos += 1;
    for b in others {
        assert_ne!(open(a, HeaderMap::new()).etag(), open(b, HeaderMap::new()).etag());
    }
}

#[test]
fn only_plain_files() {
    let m = Metadata { is_file: false, info: info(4) };
    assert_eq!(
        ChunkedReadFile::new_with_metadata(&m, HeaderMap::new()).err(),
        Some("expected a file")
    );
}

#[test]
fn headers_of_a_file_are_added() {
    let mut headers = HeaderMap::new();
    headers.append("content-type", HeaderValue::from_static("text/plain"));
    headers.append("content-language", HeaderValue::from_static("en"));
    headers.append("content-language", HeaderValue::from_static("de"));
    let crf = open(info(4), headers);
    let mut h = HeaderMap::new();
    h.append("content-language", HeaderValue::from_static("fr"));
    crf.add_headers(&mut h);
    let all: Vec<(&str, &str)> = h
        .iter()
        .map(|(k, v)| (k.as_str(), v.to_str().unwrap()))
        .collect();
    assert_eq!(
        all,
        vec![
            ("content-language", "fr"),
            ("content-language", "en"),
            ("content-language", "de"),
            ("content-type", "text/plain"),
        ]
    );
}

#[test]
fn file_is_served() {
    let mut headers = HeaderMap::new();
    headers.append("content-type", HeaderValue::from_static("text/plain"));
    let crf = open(info(4), headers);
    let none = HeaderMap::new();
    let resp = serve(&crf, &Request { method: Method::Get, headers: &none }).unwrap();
    assert_eq!(resp.status, 200);
    assert_eq!(resp.headers.get("content-length").unwrap(), "4");
    assert_eq!(resp.headers.get("content-type").unwrap(), "text/plain");
    assert_eq!(resp.headers.get("last-modified").unwrap(), "Thu, 01 Jan 1970 06:08:56 GMT");
    let mut again = HeaderMap::new();
    again.insert("if-none-match", resp.headers.get("etag").unwrap().clone());
    let resp = serve(&crf, &Request { method: Method::Get, headers: &again }).unwrap();
    assert_eq!(resp.status, 304);
}

#[test]
fn files_with_a_content_type() {
    let text = HeaderValue::from_static("text/plain");
    let f = File::new(4, 0x1234, 0x5678, 0xabcd, text.clone());
    assert_eq!(f.len(), 4);
    assert_eq!(f.etag().unwrap(), "\"1234:4:5678:abcd\"");
    assert_eq!(f.last_modified(), Some(Timestamp { secs: 0x5678, nanos: 0xabcd }));
    let mut h = HeaderMap::new();
    h.insert("content-type", HeaderValue::from_static("image/png"));
    f.add_headers(&mut h);
    assert_eq!(h.len(), 1);
    assert_eq!(h.get("content-type").unwrap(), "text/plain");
    assert_eq!(read(b"asdf", f.get_range(1..3), 100), b"sd");
    let old = File::new(4, 1, -1, 0, text);
    assert_eq!(old.etag().unwrap(), "\"1:4:ffffffffffffffff:0\"");
}

#[test]
fn file_with_a_content_type_is_served() {
    let f = File::new(4, 0x1234, 0x5678, 0, HeaderValue::from_static("text/plain"));
    let none = HeaderMap::new();
    let resp = serve(&f, &Request { method: Method::Get, headers: &none }).unwrap();
    assert_eq!(resp.status, 200);
    assert_eq!(resp.headers.get("content-length").unwrap(), "4");
    assert_eq!(resp.headers.get("etag").unwrap(), "\"1234:4:5678:0\"");
    assert_eq!(resp.headers.get("content-type").unwrap(), "text/plain");
}

#[test]
fn reads_are_chunked() {
    let mut plan = ChunkedRead::new(10..10 + 65536 + 3);
    assert_eq!(plan.next(), Some(Read { offset: 10, size: 65536 }));
    plan.advance(65535);
    assert_eq!(plan.next(), Some(Read { offset: 10 + 65535, size: 4 }));
    plan.advance(4);
    assert_eq!(plan.next(), None);
    assert_eq!(ChunkedRead::new(7..7).next(), None);

    let data: Vec<u8> = (0..200_000u32).map(|i| i as u8).collect();
    assert_eq!(read(&data, ChunkedRead::new(5..150_000), 40_000), &data[5..150_000]);
    assert_eq!(read(&data, ChunkedRead::new(5..150_000), usize::MAX), &data[5..150_000]);
}

#[test]
fn outcomes_of_reads() {
    assert_eq!(read_outcome(5, 100), Ok(5));
    assert_eq!(read_outcome(-1, 100), Err(ReadError::Os));
    assert_eq!(read_outcome(0, 100), Err(ReadError::UnexpectedEof { offset: 100 }));
    assert_eq!(check_offset(10, 10), Ok(()));
    assert_eq!(check_offset(11, 10), Err(ReadError::OffsetTooLarge));
    assert_eq!(
        ReadError::UnexpectedEof { offset: 100 }.message().unwrap(),
        b"no bytes beyond position 100"
    );
    assert_eq!(ReadError::OffsetTooLarge.message().unwrap(), b"offset too large");
    assert_eq!(ReadError::Os.message(), None);
}

#[test]
fn windows_times() {
    // 1970-01-01 00:00:00 and 2009-07-25 23:00:00.
    let epoch: u64 = 116_444_736_000_000_000;
    let later: u64 = 128_930_364_000_000_001;
    let split = |t: u64| FileTime { high: (t >> 32) as u32, low: t as u32 };
    assert_eq!(
        filetime_to_systemtime(split(epoch)),
        Timestamp { secs: 0, nanos: 0 }
    );
    assert_eq!(
        filetime_to_systemtime(split(later)),
        Timestamp { secs: 1_248_562_800, nanos: 100 }
    );
    let info = file_info(HandleInfo {
        index_high: 1,
        index_low: 2,
        size_high: 3,
        size_low: 4,
        last_write: split(later),
    });
    assert_eq!(info.inode, (1 << 32) + 2);
    assert_eq!(info.len, (3 << 32) + 4);
    assert_eq!(info.mtime, Timestamp { secs: 1_248_562_800, nanos: 100 });
}

#[test]
fn headers_of_a_file_do_not_replace_others() {
    let mut headers = HeaderMap::new();
    headers.append("content-length", HeaderValue::from_static("7"));
    headers.append("etag", HeaderValue::from_static("\"x\""));
    let crf = open(info(4), headers);
    let none = HeaderMap::new();
    let resp = serve(&crf, &Request { method: Method::Get, headers: &none }).unwrap();
    assert_eq!(resp.headers.get("content-length").unwrap(), "4");
    assert_eq!(resp.headers.get("etag").unwrap(), "\"1234:4:5678:abcd\"");
}

#[test]
fn windows_reads() {
    assert_eq!(split_halves(0x1234_5678_9abc_def0), (0x1234_5678, 0x9abc_def0));
    assert_eq!(handle_read_size(65536), 65536);
    assert_eq!(handle_read_size(usize::MAX), u32::MAX);
    assert_eq!(handle_read_outcome(Ok(5), 7), Ok(5));
    let eof = ReadError::UnexpectedEof { offset: 7 };
    assert_eq!(handle_read_outcome(Ok(0), 7), Err(eof));
    assert_eq!(handle_read_outcome(Err(38), 7), Err(eof));
    assert_eq!(handle_read_outcome(Err(5), 7), Err(ReadError::Os));
    assert_eq!(handle_read_outcome(Err(997), 7), Err(ReadError::StillPending));
    assert_eq!(
        ReadError::StillPending.message().unwrap(),
        b"I/O error: operation failed to complete synchronously"
    );
}

#[test]
fn modified_file_is_served() {
    let before = open(info(4), HeaderMap::new());
    let mut changed = info(4);
    changed.mtime.nanos += 1;
    let after = open(changed, HeaderMap::new());
    let mut h = HeaderMap::new();
    h.insert("if-none-match", before.etag().unwrap());
    h.insert("if-modified-since", HeaderValue::from_static("Fri, 31 Dec 9999 23:59:59 GMT"));
    let req = Request { method: Method::Get, headers: &h };
    assert_eq!(serve(&before, &req).unwrap().status, 304);
    assert_eq!(serve(&after, &req).unwrap().status, 200);
}
