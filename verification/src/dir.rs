//! Support for directory traversal.
//!
//! What is decided here is which files to open, in which order, and what follows from the outcome.
//! The files themselves are opened by the caller.

use crate::encoding::should_gzip;
use crate::gzip::{lemma_streaming_names, wants_gzip};
use crate::headers::{
    first_value, header_entries, header_value, insert, inserted, law_inserted, lemma_inserted_len,
    lemma_visible_text, Headers, MAX_NAMES,
};
use crate::text::{bytes_eq, find, lemma_find, lemma_find_is, push_text, split, SLASH};
use http::header::{HeaderMap, HeaderValue};
use vstd::prelude::*;
use vstd::slice::{slice_subrange, slice_to_vec};
use vstd::string::StringSliceAdditionalSpecFns;

verus! {

/// `memchr::memchr` gives the position of the first byte of the haystack that is the needle, if
/// there is one.
pub assume_specification[ memchr::memchr ](needle: u8, haystack: &[u8]) -> (r: Option<usize>)
    ensures
        match r {
            Some(i) => i < haystack@.len() && find(haystack@, needle) == i,
            None => find(haystack@, needle) == haystack@.len(),
        },
;

/// A builder for a `FsDir`.
pub struct FsDirBuilder {
    pub auto_gzip: bool,
}

impl FsDirBuilder {
    /// Enables or disables automatic gzipping based on `Accept-Encoding` request headers.
    ///
    /// Default is `true`.
    pub fn auto_gzip(self, auto_gzip: bool) -> (r: Self)
        ensures
            r.auto_gzip == auto_gzip,
    {
        FsDirBuilder { auto_gzip }
    }

    /// Returns a `FsDir` for the given path, which has to be shorter than `path_max`.
    pub fn for_path(&self, path: &[u8], path_max: usize) -> (r: Result<FsDir, &'static str>)
        ensures
            match base_path_error(path@, path_max) {
                Some(e) => r == Err::<FsDir, &'static str>(e),
                None => r == Ok::<FsDir, &'static str>(FsDir { auto_gzip: self.auto_gzip }),
            },
    {
        FsDir::open(path, path_max, self.auto_gzip)
    }
}

/// A base directory for traversal.
pub struct FsDir {
    pub auto_gzip: bool,
}

/// What is wrong with the path of a base directory.
pub open spec fn base_path_error(path: Seq<u8>, path_max: usize) -> Option<&'static str> {
    if path.contains(0) {
        Some("path contains NUL byte")
    } else if path.len() >= path_max {
        Some("path is too long")
    } else {
        None
    }
}

/// What is wrong with a path within a base directory.
pub open spec fn path_error(path: Seq<u8>) -> Option<&'static str> {
    if path.contains(0) {
        Some("path contains NUL byte")
    } else if path.len() > 0 && path[0] == SLASH {
        Some("path is absolute")
    } else if split(path, SLASH).contains("..".spec_bytes()) {
        Some("path contains .. segment")
    } else {
        None
    }
}

/// Ensures path is safe: no NUL bytes, not absolute, no `..` segments.
pub fn validate_path(path: &str) -> (r: Result<(), &'static str>)
    ensures
        match path_error(path.spec_bytes()) {
            Some(e) => r == Err::<(), &'static str>(e),
            None => r is Ok,
        },
        r is Ok <==> is_safe(path.spec_bytes()),
{
    let bytes = path.as_bytes();
    proof {
        law_path_error(bytes@);
        lemma_find(bytes@, 0);
    }
    if memchr::memchr(0, bytes).is_some() {
        return Err("path contains NUL byte");
    }
    if bytes.len() > 0 && bytes[0] == SLASH {
        return Err("path is absolute");
    }
    let mut left: &[u8] = bytes;
    let ghost mut done: Seq<Seq<u8>> = Seq::empty();
    assert(done + split(left@, SLASH) =~= split(bytes@, SLASH));
    loop
        invariant
            bytes@ == path.spec_bytes(),
            path_error(bytes@) is None <==> is_safe(bytes@),
            !bytes@.contains(0),
            !(bytes@.len() > 0 && bytes@[0] == SLASH),
            split(bytes@, SLASH) == done + split(left@, SLASH),
            !done.contains("..".spec_bytes()),
        decreases left@.len(),
    {
        let next = memchr::memchr(SLASH, left);
        let end: usize = match next {
            None => left.len(),
            Some(n) => n,
        };
        let seg = slice_subrange(left, 0, end);
        let ghost segments = split(bytes@, SLASH);
        proof {
            assert(seg@ =~= left@.take(end as int));
            if end == left@.len() {
                assert(seg@ =~= left@);
            }
            assert(segments[done.len() as int] == seg@);
        }
        if bytes_eq(seg, "..".as_bytes()) {
            return Err("path contains .. segment");
        }
        match next {
            None => {
                assert(segments =~= done.push(seg@));
                assert(!segments.contains("..".spec_bytes())) by {
                    if segments.contains("..".spec_bytes()) {
                        let k = choose|k: int|
                            0 <= k < segments.len() && segments[k] == "..".spec_bytes();
                        assert(k < done.len());
                        assert(done[k] == "..".spec_bytes());
                    }
                }
                return Ok(());
            },
            Some(n) => {
                assert(n < left.len());
                let tail = slice_subrange(left, n + 1, left.len());
                proof {
                    assert(tail@ =~= left@.skip(n + 1));
                    let longer = done.push(seg@);
                    assert(segments =~= longer + split(tail@, SLASH));
                    assert(!longer.contains("..".spec_bytes())) by {
                        if longer.contains("..".spec_bytes()) {
                            let k = choose|k: int|
                                0 <= k < longer.len() && longer[k] == "..".spec_bytes();
                            assert(k < done.len());
                            assert(done[k] == "..".spec_bytes());
                        }
                    }
                    done = longer;
                }
                left = tail;
            },
        }
    }
}

impl FsDir {
    /// Starts with a builder that has automatic gzipping enabled.
    pub fn builder() -> (r: FsDirBuilder)
        ensures
            r.auto_gzip,
    {
        FsDirBuilder { auto_gzip: true }
    }

    fn open(path: &[u8], path_max: usize, auto_gzip: bool) -> (r: Result<Self, &'static str>)
        ensures
            match base_path_error(path@, path_max) {
                Some(e) => r == Err::<FsDir, &'static str>(e),
                None => r == Ok::<FsDir, &'static str>(FsDir { auto_gzip }),
            },
    {
        proof {
            lemma_find(path@, 0);
        }
        if memchr::memchr(0, path).is_some() {
            return Err("path contains NUL byte");
        }
        if path.len() >= path_max {
            return Err("path is too long");
        }
        Ok(FsDir { auto_gzip })
    }

    /// Starts to look for a path within this base directory.
    ///
    /// If using `auto_gzip` (the default) and `req_hdrs` indicate the client supports `gzip`, will
    /// look for a `.gz`-suffixed version of this path first and note that in the returned `Node`.
    /// `.gz`-suffixed directories are ignored.
    ///
    /// Validates that `path` has no `..` segments or interior NULs. Currently doesn't check for
    /// symlinks, however.
    pub fn get(&self, path: &str, req_hdrs: &HeaderMap<HeaderValue>) -> (r: Result<
        Lookup,
        &'static str,
    >)
        ensures
            match path_error(path.spec_bytes()) {
                Some(e) => r == Err::<Lookup, &'static str>(e),
                None => r matches Ok(lookup) && {
                    &&& lookup.wf()
                    &&& lookup.path() == path.spec_bytes()
                    &&& lookup.auto_gzip() == self.auto_gzip
                    &&& lookup.tries_gzipped() == (self.auto_gzip && wants_gzip(
                        header_entries(*req_hdrs),
                    ))
                },
            },
            r is Ok <==> is_safe(path.spec_bytes()),
    {
        if let Err(e) = validate_path(path) {
            return Err(e);
        }
        let should_gzip = self.auto_gzip && should_gzip(req_hdrs);
        Ok(
            Lookup {
                path: slice_to_vec(path.as_bytes()),
                auto_gzip: self.auto_gzip,
                gzipped: should_gzip,
            },
        )
    }
}

/// What came of opening a file.
#[derive(Clone, Copy, Debug, PartialEq, Eq, Structural)]
pub enum Opened {
    /// There is none.
    NotFound,
    /// It could not be opened or examined.
    Failed,
    /// It is a directory.
    Directory,
    /// It is something else.
    Other,
}

/// What is to be done after a file was opened.
pub enum Found {
    /// The file is the one.
    Node(Node),
    /// Another file is to be opened.
    Next(Lookup),
    /// There is nothing to be found: the error is the one that came of opening the file.
    Failed,
}

/// The search for a file.
pub struct Lookup {
    path: Vec<u8>,
    auto_gzip: bool,
    gzipped: bool,
}

impl Lookup {
    /// The path that is looked for.
    pub closed spec fn path(&self) -> Seq<u8> {
        self.path@
    }

    /// Whether automatic gzipping is enabled.
    pub closed spec fn auto_gzip(&self) -> bool {
        self.auto_gzip
    }

    /// Whether a `.gz`-suffixed version of the path is looked for.
    pub closed spec fn tries_gzipped(&self) -> bool {
        self.gzipped
    }

    /// Whether the path is safe.
    pub open spec fn wf(&self) -> bool {
        path_error(self.path()) is None
    }

    /// The path of the file to open.
    pub open spec fn file_path(&self) -> Seq<u8> {
        if self.tries_gzipped() {
            self.path() + ".gz".spec_bytes()
        } else {
            self.path()
        }
    }

    /// Returns the path of the file to open, relative to the base directory, with a NUL byte
    /// behind it and none in it. It is as safe as the path that is looked for.
    pub fn candidate(&self) -> (r: Vec<u8>)
        requires
            self.wf(),
        ensures
            r@ == self.file_path().push(0),
            path_error(self.file_path()) is None,
            is_safe(self.file_path()),
    {
        proof {
            law_path_error(self.file_path());
        }
        let mut buf: Vec<u8> = Vec::new();
        buf.extend_from_slice(self.path.as_slice());
        if self.gzipped {
            push_text(&mut buf, ".gz");
            proof {
                lemma_gz_suffix(self.path@);
            }
        }
        buf.push(0);
        assert(buf@ =~= self.file_path().push(0));
        buf
    }

    /// Decides what follows from the attempt to open that file.
    pub fn opened(self, outcome: Opened) -> (r: Found)
        requires
            self.wf(),
        ensures
            match outcome {
                Opened::Failed => r is Failed,
                Opened::NotFound => if self.tries_gzipped() {
                    r matches Found::Next(next) && next.is_plain_version_of(self)
                } else {
                    r is Failed
                },
                Opened::Directory => if self.tries_gzipped() {
                    r matches Found::Next(next) && next.is_plain_version_of(self)
                } else {
                    r == Found::Node(Node { auto_gzip: self.auto_gzip(), is_gzipped: false })
                },
                Opened::Other => r == Found::Node(
                    Node { auto_gzip: self.auto_gzip(), is_gzipped: self.tries_gzipped() },
                ),
            },
    {
        match outcome {
            Opened::Failed => Found::Failed,
            Opened::Other => Found::Node(
                Node { auto_gzip: self.auto_gzip, is_gzipped: self.gzipped },
            ),
            Opened::NotFound => if self.gzipped {
                Found::Next(
                    Lookup { path: self.path, auto_gzip: self.auto_gzip, gzipped: false },
                )
            } else {
                Found::Failed
            },
            Opened::Directory => if self.gzipped {
                Found::Next(
                    Lookup { path: self.path, auto_gzip: self.auto_gzip, gzipped: false },
                )
            } else {
                Found::Node(Node { auto_gzip: self.auto_gzip, is_gzipped: false })
            },
        }
    }

    /// Whether this is the search for the path itself, where `other` was that for its
    /// `.gz`-suffixed version.
    pub open spec fn is_plain_version_of(&self, other: Lookup) -> bool {
        &&& self.wf()
        &&& self.path() == other.path()
        &&& self.auto_gzip() == other.auto_gzip()
        &&& !self.tries_gzipped()
    }
}

/// What was found for a path, as far as the encoding goes.
#[derive(Clone, Copy, Debug, PartialEq, Eq, Structural)]
pub struct Node {
    pub auto_gzip: bool,
    pub is_gzipped: bool,
}

impl Node {
    /// Returns the encoding this file is assumed to have applied to the caller's request.
    /// E.g., if automatic gzip compression is enabled and `index.html.gz` was found when the
    /// caller requested `index.html`, this will return `Some("gzip")`. If the caller requests
    /// `index.html.gz`, this will return `None` because the gzip encoding is built in to the
    /// caller's request.
    pub fn encoding(&self) -> (r: Option<&'static str>)
        ensures
            r == if self.is_gzipped {
                Some("gzip")
            } else {
                None
            },
    {
        if self.is_gzipped {
            Some("gzip")
        } else {
            None
        }
    }

    /// Returns true iff the content varies with the request's `Accept-Encoding` header value.
    pub fn encoding_varies(&self) -> (r: bool)
        ensures
            r == self.auto_gzip,
    {
        self.auto_gzip
    }

    /// What header maps hold after the headers for the encoding were added.
    pub open spec fn with_encoding_headers(&self, h: Headers) -> Headers {
        let h = if self.is_gzipped {
            inserted(h, "content-encoding"@, "gzip".spec_bytes())
        } else {
            h
        };
        if self.auto_gzip {
            inserted(h, "vary"@, "accept-encoding".spec_bytes())
        } else {
            h
        }
    }

    /// Adds `Content-Encoding` and `Vary` headers for the encoding to `hdrs`.
    ///
    /// Note if there are other `Vary` header components known to the caller, this method is
    /// inappropriate.
    pub fn add_encoding_headers(&self, hdrs: &mut HeaderMap<HeaderValue>)
        requires
            header_entries(*old(hdrs)).len() < MAX_NAMES,
        ensures
            header_entries(*final(hdrs)) == self.with_encoding_headers(
                header_entries(*old(hdrs)),
            ),
    {
        proof {
            reveal_strlit("gzip");
            lemma_visible_text("gzip");
            reveal_strlit("accept-encoding");
            lemma_visible_text("accept-encoding");
        }
        if let Some(e) = self.encoding() {
            proof {
                lemma_inserted_len(
                    header_entries(*hdrs),
                    "content-encoding"@,
                    "gzip".spec_bytes(),
                );
            }
            insert(hdrs, "content-encoding", header_value(e.as_bytes()));
        }
        if self.auto_gzip {
            insert(hdrs, "vary", header_value("accept-encoding".as_bytes()));
        }
    }
}

/// A safe path stays safe with `.gz` behind it.
proof fn lemma_gz_suffix(path: Seq<u8>)
    requires
        path_error(path) is None,
    ensures
        path_error(path + ".gz".spec_bytes()) is None,
{
    reveal_strlit(".gz");
    assert(".gz".is_ascii());
    reveal_strlit("..");
    assert("..".is_ascii());
    let suffix = ".gz".spec_bytes();
    let longer = path + suffix;
    let dots = "..".spec_bytes();
    if longer.contains(0) {
        let k = choose|k: int| 0 <= k < longer.len() && longer[k] == 0;
        if k < path.len() {
            assert(path[k] == 0);
        } else {
            assert(suffix[k - path.len()] == 0);
        }
    }
    lemma_split_suffix(path, suffix);
    let segments = split(path, SLASH);
    let more = split(longer, SLASH);
    if more.contains(dots) {
        let k = choose|k: int| 0 <= k < more.len() && more[k] == dots;
        if k < segments.len() - 1 {
            assert(segments[k] == dots);
        } else {
            assert(more[k].len() >= 3);
        }
    }
}

/// What is added behind a text with no separator in it goes to the last piece.
proof fn lemma_split_suffix(s: Seq<u8>, suffix: Seq<u8>)
    requires
        !suffix.contains(SLASH),
    ensures
        split(s, SLASH).len() > 0,
        split(s + suffix, SLASH) == split(s, SLASH).drop_last().push(
            split(s, SLASH).last() + suffix,
        ),
    decreases s.len(),
{
    lemma_find(s, SLASH);
    lemma_find(s + suffix, SLASH);
    let i = find(s, SLASH);
    let all = s + suffix;
    if i < s.len() {
        lemma_find_is(all, SLASH, i);
        assert(all.take(i) =~= s.take(i));
        assert(all.skip(i + 1) =~= s.skip(i + 1) + suffix);
        lemma_split_suffix(s.skip(i + 1), suffix);
        let rest = split(s.skip(i + 1), SLASH);
        assert(split(s, SLASH) =~= seq![s.take(i)] + rest);
        assert(split(s, SLASH).last() == rest.last());
        assert(split(all, SLASH) =~= split(s, SLASH).drop_last().push(
            split(s, SLASH).last() + suffix,
        ));
    } else {
        assert forall|j: int| 0 <= j < all.len() implies all[j] != SLASH by {
            if j >= s.len() {
                assert(all[j] == suffix[j - s.len()]);
            } else {
                assert(all[j] == s[j]);
            }
        }
        lemma_find_is(all, SLASH, all.len() as int);
        assert(split(s, SLASH) =~= seq![s]);
        assert(split(all, SLASH) =~= seq![all]);
    }
}

/// Whether a segment of a path that is `..` begins at a position: two dots, with a slash or the
/// beginning of the path in front of them and a slash or its end behind them.
pub open spec fn has_dots_at(path: Seq<u8>, i: int) -> bool {
    &&& 0 <= i
    &&& i + 2 <= path.len()
    &&& path[i] == 0x2e
    &&& path[i + 1] == 0x2e
    &&& i == 0 || path[i - 1] == 0x2f
    &&& i + 2 == path.len() || path[i + 2] == 0x2f
}

/// Whether a path leads to no place outside of the directory that it starts from: it holds no NUL
/// byte, does not begin with a slash and has no `..` segment.
pub open spec fn is_safe(path: Seq<u8>) -> bool {
    &&& forall|i: int| 0 <= i < path.len() ==> path[i] != 0
    &&& path.len() > 0 ==> path[0] != 0x2f
    &&& forall|i: int| !has_dots_at(path, i)
}

/// A path is refused for a NUL byte, for a slash at its beginning or for a `..` segment, in that
/// order, and for nothing else. Every other byte may stand in it, at any place.
pub proof fn law_path_error(path: Seq<u8>)
    ensures
        path_error(path) is None <==> is_safe(path),
        path_error(path) == if exists|i: int| 0 <= i < path.len() && path[i] == 0 {
            Some("path contains NUL byte")
        } else if path.len() > 0 && path[0] == 0x2f {
            Some("path is absolute")
        } else if exists|i: int| has_dots_at(path, i) {
            Some("path contains .. segment")
        } else {
            None
        },
{
    lemma_dots(path);
}

/// What is put behind a safe path keeps it safe if it begins with neither a dot nor a slash, and is
/// safe itself.
pub proof fn law_longer_path(path: Seq<u8>, more: Seq<u8>)
    requires
        path_error(path) is None,
        path_error(more) is None,
        more.len() > 0 ==> more[0] != 0x2e && more[0] != 0x2f,
    ensures
        path_error(path + more) is None,
{
    law_path_error(path);
    law_path_error(more);
    law_path_error(path + more);
    let whole = path + more;
    assert forall|i: int| 0 <= i < whole.len() implies whole[i] != 0 by {
        if i >= path.len() {
            assert(whole[i] == more[i - path.len()]);
        }
    }
    assert forall|i: int| !has_dots_at(whole, i) by {
        if has_dots_at(whole, i) {
            if i >= path.len() {
                assert(whole[i] == more[i - path.len()]);
                assert(i > path.len());
                assert(has_dots_at(more, i - path.len()));
            } else {
                assert(i + 1 < path.len());
                assert(has_dots_at(path, i));
            }
        }
    }
}

/// A path is safe iff what stands in front of a slash in it and what stands behind it are.
pub proof fn law_joined_paths(a: Seq<u8>, b: Seq<u8>)
    requires
        a.len() > 0,
        b.len() > 0 ==> b[0] != 0x2f,
    ensures
        path_error(a + seq![0x2fu8] + b) is None <==> path_error(a) is None && path_error(b) is None,
{
    law_path_error(a);
    law_path_error(b);
    law_path_error(a + seq![0x2fu8] + b);
    lemma_joined_bytes(a, b);
    lemma_joined_dots(a, b);
}

proof fn lemma_joined_bytes(a: Seq<u8>, b: Seq<u8>)
    requires
        a.len() > 0,
    ensures
        ({
            let whole = a + seq![0x2fu8] + b;
            &&& (forall|i: int| 0 <= i < whole.len() ==> whole[i] != 0) <==> (forall|i: int|
                0 <= i < a.len() ==> a[i] != 0) && (forall|i: int| 0 <= i < b.len() ==> b[i] != 0)
            &&& whole[0] == a[0]
        }),
{
    let whole = a + seq![0x2fu8] + b;
    let n = a.len() as int;
    if forall|i: int| 0 <= i < whole.len() ==> whole[i] != 0 {
        assert forall|i: int| 0 <= i < a.len() implies a[i] != 0 by {
            assert(whole[i] == a[i]);
        }
        assert forall|i: int| 0 <= i < b.len() implies b[i] != 0 by {
            assert(whole[n + 1 + i] == b[i]);
        }
    }
    if (forall|i: int| 0 <= i < a.len() ==> a[i] != 0) && (forall|i: int|
        0 <= i < b.len() ==> b[i] != 0) {
        assert forall|i: int| 0 <= i < whole.len() implies whole[i] != 0 by {
            if i < n {
                assert(whole[i] == a[i]);
            } else if i > n {
                assert(whole[i] == b[i - n - 1]);
            }
        }
    }
}

proof fn lemma_joined_dots(a: Seq<u8>, b: Seq<u8>)
    ensures
        (forall|i: int| !has_dots_at(a + seq![0x2fu8] + b, i)) <==> (forall|i: int|
            !has_dots_at(a, i)) && (forall|i: int| !has_dots_at(b, i)),
{
    let whole = a + seq![0x2fu8] + b;
    let n = a.len() as int;
    assert forall|i: int| has_dots_at(a, i) implies has_dots_at(whole, i) by {
        assert(whole[i] == a[i] && whole[i + 1] == a[i + 1]);
        if i > 0 {
            assert(whole[i - 1] == a[i - 1]);
        }
        if i + 2 < n {
            assert(whole[i + 2] == a[i + 2]);
        }
    }
    assert forall|i: int| has_dots_at(b, i) implies has_dots_at(whole, n + 1 + i) by {
        assert(whole[n + 1 + i] == b[i] && whole[n + 2 + i] == b[i + 1]);
        if i > 0 {
            assert(whole[n + i] == b[i - 1]);
        }
        if i + 2 < b.len() {
            assert(whole[n + 3 + i] == b[i + 2]);
        }
    }
    assert forall|i: int| has_dots_at(whole, i) implies has_dots_at(a, i) || has_dots_at(
        b,
        i - n - 1,
    ) by {
        if i <= n {
            assert(whole[n] == 0x2f);
            assert(i + 1 < n);
            assert(whole[i] == a[i] && whole[i + 1] == a[i + 1]);
            if i > 0 {
                assert(whole[i - 1] == a[i - 1]);
            }
            if i + 2 < n {
                assert(whole[i + 2] == a[i + 2]);
            }
            assert(has_dots_at(a, i));
        } else {
            assert(whole[i] == b[i - n - 1] && whole[i + 1] == b[i - n]);
            if i > n + 1 {
                assert(whole[i - 1] == b[i - n - 2]);
            }
            if i + 2 < whole.len() {
                assert(whole[i + 2] == b[i - n + 1]);
            }
            assert(has_dots_at(b, i - n - 1));
        }
    }
    if forall|i: int| !has_dots_at(whole, i) {
        assert forall|i: int| !has_dots_at(b, i) by {
            assert(!has_dots_at(whole, n + 1 + i));
        }
    }
}

proof fn lemma_dots(s: Seq<u8>)
    ensures
        split(s, SLASH).contains("..".spec_bytes()) <==> exists|i: int| has_dots_at(s, i),
    decreases s.len(),
{
    reveal_strlit("..");
    assert("..".is_ascii());
    let dots = "..".spec_bytes();
    assert(dots.len() == 2 && dots[0] == 0x2e && dots[1] == 0x2e);
    lemma_find(s, SLASH);
    let n = find(s, SLASH);
    let pieces = split(s, SLASH);
    if n < s.len() {
        let rest = s.skip(n + 1);
        lemma_dots(rest);
        let others = split(rest, SLASH);
        assert(pieces =~= seq![s.take(n)] + others);
        assert(forall|j: int| 0 <= j < rest.len() ==> #[trigger] rest[j] == s[n + 1 + j]);
        if pieces.contains(dots) {
            let k = choose|k: int| 0 <= k < pieces.len() && pieces[k] == dots;
            if k == 0 {
                assert(s.take(n) == dots);
                assert(s[0] == s.take(n)[0] && s[1] == s.take(n)[1]);
                assert(has_dots_at(s, 0));
            } else {
                assert(others[k - 1] == dots);
                let j = choose|j: int| has_dots_at(rest, j);
                assert(rest[j] == s[n + 1 + j] && rest[j + 1] == s[n + 2 + j]);
                assert(has_dots_at(s, n + 1 + j));
            }
        }
        if exists|i: int| has_dots_at(s, i) {
            let i = choose|i: int| has_dots_at(s, i);
            if i <= n {
                assert(i == 0);
                assert(n == 2);
                assert(s.take(n) =~= dots);
                assert(pieces[0] == dots);
            } else {
                assert(rest[i - n - 1] == s[i] && rest[i - n] == s[i + 1]);
                assert(has_dots_at(rest, i - n - 1));
                let k = choose|k: int| 0 <= k < others.len() && others[k] == dots;
                assert(pieces[k + 1] == dots);
            }
        }
    } else {
        assert(pieces =~= seq![s]);
        if pieces.contains(dots) {
            assert(pieces[0] == dots);
            assert(has_dots_at(s, 0));
        }
        if exists|i: int| has_dots_at(s, i) {
            let i = choose|i: int| has_dots_at(s, i);
            assert(i == 0);
            assert(s =~= dots);
            assert(pieces[0] == dots);
        }
    }
}

/// The path of a base directory is refused for a NUL byte or for its length, and for nothing else.
pub proof fn law_base_path_error(path: Seq<u8>, path_max: usize)
    ensures
        base_path_error(path, path_max) is None <==> path.len() < path_max && forall|i: int|
            0 <= i < path.len() ==> path[i] != 0,
        base_path_error(path, path_max) == Some("path is too long") ==> path.len() >= path_max,
{
    reveal_strlit("path is too long");
    reveal_strlit("path contains NUL byte");
    assert("path is too long"@.len() != "path contains NUL byte"@.len());
    if path.contains(0) {
        let k = choose|k: int| 0 <= k < path.len() && path[k] == 0;
        assert(path[k] == 0);
    }
}

/// The file that is opened is the one at the path that is looked for, or that with `.gz` behind it,
/// and the search for the former follows on that for the latter.
pub proof fn law_file_path(lookup: Lookup, next: Lookup)
    requires
        next.is_plain_version_of(lookup),
    ensures
        lookup.file_path() == lookup.path() || lookup.file_path() == lookup.path() + seq![
            0x2eu8,
            0x67u8,
            0x7au8,
        ],
        lookup.tries_gzipped() <==> lookup.file_path().len() == lookup.path().len() + 3,
        next.file_path() == lookup.path(),
{
    reveal_strlit(".gz");
    assert(".gz".is_ascii());
    assert(".gz".spec_bytes() =~= seq![0x2eu8, 0x67u8, 0x7au8]);
}

/// A file that was found under `.gz` gets `Content-Encoding: gzip`, and any file gets a `Vary` if
/// such a version of it might have been served. No other header changes.
pub proof fn law_encoding_headers(node: Node, h: Headers, other: Seq<char>)
    requires
        other != "content-encoding"@,
        other != "vary"@,
    ensures
        ({
            let after = node.with_encoding_headers(h);
            &&& first_value(after, "content-encoding"@) == if node.is_gzipped {
                Some("gzip".spec_bytes())
            } else {
                first_value(h, "content-encoding"@)
            }
            &&& first_value(after, "vary"@) == if node.auto_gzip {
                Some("accept-encoding".spec_bytes())
            } else {
                first_value(h, "vary"@)
            }
            &&& first_value(after, other) == first_value(h, other)
        }),
{
    lemma_streaming_names();
    let coded = if node.is_gzipped {
        inserted(h, "content-encoding"@, "gzip".spec_bytes())
    } else {
        h
    };
    law_inserted(h, "content-encoding"@, "gzip".spec_bytes(), other);
    law_inserted(h, "content-encoding"@, "gzip".spec_bytes(), "vary"@);
    law_inserted(coded, "vary"@, "accept-encoding".spec_bytes(), other);
    law_inserted(coded, "vary"@, "accept-encoding".spec_bytes(), "content-encoding"@);
}

/// Where a search goes on, it is for the same path, without `.gz`.
pub proof fn law_plain_version(next: Lookup, lookup: Lookup)
    requires
        next.is_plain_version_of(lookup),
    ensures
        next.path() == lookup.path(),
        next.auto_gzip() == lookup.auto_gzip(),
        !next.tries_gzipped(),
        is_safe(next.path()),
{
    law_path_error(next.path());
}

} // verus!
