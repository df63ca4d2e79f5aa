use http::header::{HeaderMap, HeaderValue};
use http_serve::dir::{validate_path, Found, FsDir, FsDirBuilder, Lookup, Node, Opened};

fn accepting_gzip() -> HeaderMap {
    let mut h = HeaderMap::new();
    h.insert("accept-encoding", HeaderValue::from_static("gzip"));
    h
}

fn fs_dir() -> FsDir {
    match FsDir::builder().for_path(b"/tmp", 4096) {
        Ok(d) => d,
        Err(e) => panic!("{}", e),
    }
}

fn error_of(path: &str) -> &'static str {
    match fs_dir().get(path, &HeaderMap::new()) {
        Ok(_) => panic!("should have failed"),
        Err(e) => e,
    }
}

fn lookup(dir: &FsDir, path: &str, headers: &HeaderMap) -> Lookup {
    match dir.get(path, headers) {
        Ok(l) => l,
        Err(e) => panic!("{}", e),
    }
}

#[test]
fn path_with_interior_nul() {
    assert_eq!(error_of("foo\0bar"), "path contains NUL byte");
}

#[test]
fn path_with_parent_dir_segment() {
    for p in &["..", "../foo", "foo/../bar", "foo/.."] {
        assert_eq!(error_of(p), "path contains .. segment");
    }
}

#[test]
fn absolute_path() {
    assert_eq!(error_of("/etc/passwd"), "path is absolute");
}

#[test]
fn regular_file() {
    let l = lookup(&fs_dir(), "foo.txt", &HeaderMap::new());
    assert_eq!(l.candidate(), b"foo.txt\0");
    match l.opened(Opened::Other) {
        Found::Node(n) => assert_eq!(n, Node { auto_gzip: true, is_gzipped: false }),
        _ => panic!("should have been found"),
    }
}

#[test]
fn missing_file() {
    let l = lookup(&fs_dir(), "nonexistent.txt", &HeaderMap::new());
    assert!(matches!(l.opened(Opened::NotFound), Found::Failed));
}

#[test]
fn safe_paths() {
    for p in ["", ".", "foo", "foo/bar", "...", "foo/...", "..foo/bar..", "foo//bar/", "."] {
        assert_eq!(validate_path(p), Ok(()), "{}", p);
    }
    // The order of the checks.
    assert_eq!(validate_path("/..\0"), Err("path contains NUL byte"));
    assert_eq!(validate_path("/.."), Err("path is absolute"));
    assert_eq!(validate_path("a/b/.."), Err("path contains .. segment"));
}

#[test]
fn base_paths() {
    let b = FsDir::builder();
    assert!(b.auto_gzip);
    assert!(b.for_path(b"/a/b", 5).is_ok());
    assert_eq!(b.for_path(b"/a/b", 4).err(), Some("path is too long"));
    assert_eq!(b.for_path(b"/a\0", 4096).err(), Some("path contains NUL byte"));
    let b = FsDirBuilder { auto_gzip: true }.auto_gzip(false);
    assert!(!b.for_path(b".", 4096).ok().unwrap().auto_gzip);
}

#[test]
fn gzipped_version_is_tried_first() {
    let l = lookup(&fs_dir(), "a/index.html", &accepting_gzip());
    assert_eq!(l.candidate(), b"a/index.html.gz\0");
    match l.opened(Opened::Other) {
        Found::Node(n) => {
            assert_eq!(n.encoding(), Some("gzip"));
            assert!(n.encoding_varies());
        }
        _ => panic!("should have been found"),
    }
}

#[test]
fn plain_version_is_tried_next() {
    for outcome in [Opened::NotFound, Opened::Directory] {
        let l = lookup(&fs_dir(), "index.html", &accepting_gzip());
        let next = match l.opened(outcome) {
            Found::Next(next) => next,
            _ => panic!("should have gone on"),
        };
        assert_eq!(next.candidate(), b"index.html\0");
        match next.opened(Opened::Directory) {
            Found::Node(n) => {
                assert_eq!(n.encoding(), None);
                assert!(n.encoding_varies());
            }
            _ => panic!("should have been found"),
        }
    }
    let l = lookup(&fs_dir(), "index.html", &accepting_gzip());
    assert!(matches!(l.opened(Opened::Failed), Found::Failed));
}

#[test]
fn no_automatic_gzip() {
    let dir = FsDir { auto_gzip: false };
    let l = lookup(&dir, "index.html", &accepting_gzip());
    assert_eq!(l.candidate(), b"index.html\0");
    match l.opened(Opened::Other) {
        Found::Node(n) => assert_eq!(n, Node { auto_gzip: false, is_gzipped: false }),
        _ => panic!("should have been found"),
    }
    let l = lookup(&dir, "index.html", &accepting_gzip());
    assert!(matches!(l.opened(Opened::Failed), Found::Failed));
}

#[test]
fn encoding_headers() {
    let mut h = HeaderMap::new();
    h.insert("vary", HeaderValue::from_static("cookie"));
    let plain = Node { auto_gzip: false, is_gzipped: false };
    plain.add_encoding_headers(&mut h);
    assert_eq!(h.len(), 1);
    assert_eq!(h.get("vary").unwrap(), "cookie");
    let varying = Node { auto_gzip: true, is_gzipped: false };
    varying.add_encoding_headers(&mut h);
    assert_eq!(h.len(), 1);
    assert_eq!(h.get("vary").unwrap(), "accept-encoding");
    let gzipped = Node { auto_gzip: true, is_gzipped: true };
    gzipped.add_encoding_headers(&mut h);
    assert_eq!(h.len(), 2);
    assert_eq!(h.get("content-encoding").unwrap(), "gzip");
    assert_eq!(h.get("vary").unwrap(), "accept-encoding");
}
