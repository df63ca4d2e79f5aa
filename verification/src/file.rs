//! Entities that are files.

use crate::entity::Entity;
use crate::etag::{is_etag, is_weak, weak_match};
use crate::headers::{
    extend, extended, first_value, header_entries, header_value, insert, inserted, is_value,
    law_inserted, lemma_extended_keeps, lemma_inserted_keeps, pairs, value_bytes, Headers, MAX_NAMES,
};
use crate::laws::{keeps_header, law_changed_entity_is_served};
use crate::platform::FileInfo;
use crate::serving::{part_verdict, range_value, verdict, Method};
use crate::text::{hex, lemma_find_is, push_hex, push_text, QUOTE};
use crate::time::Timestamp;
use core::ops::Range;
use http::header::{HeaderMap, HeaderValue};
use vstd::prelude::*;
use vstd::string::StringSliceAdditionalSpecFns;

verus! {

/// A file is read in chunks of at most this size, which is a tradeoff between memory usage and
/// thread handoffs.
pub const CHUNK_SIZE: u64 = 65_536;

/// The entity tag of a file. The etag should change if the file is modified or replaced. The
/// length is probably redundant but doesn't harm anything.
pub open spec fn file_etag(inode: u64, len: u64, secs: u64, nanos: u64) -> Seq<u8> {
    "\"".spec_bytes() + hex(inode as nat) + ":".spec_bytes() + hex(len as nat) + ":".spec_bytes()
        + hex(secs as nat) + ":".spec_bytes() + hex(nanos as nat) + "\"".spec_bytes()
}

/// A read of a file: so many bytes, from that position on.
#[derive(Clone, Copy, Debug, PartialEq, Eq, Structural)]
pub struct Read {
    pub offset: u64,
    pub size: usize,
}

/// The chunks in which a range of a file is read.
#[derive(Debug)]
pub struct ChunkedRead {
    left: Range<u64>,
}

impl ChunkedRead {
    /// What is left to be read.
    pub closed spec fn left(&self) -> Range<u64> {
        self.left
    }

    /// Starts to read a range.
    pub fn new(range: Range<u64>) -> (r: ChunkedRead)
        ensures
            r.left() == range,
    {
        ChunkedRead { left: range }
    }

    /// Returns the next read, if anything is left: as much as is left, but at most a chunk.
    pub fn next(&self) -> (r: Option<Read>)
        requires
            self.left().start <= self.left().end,
        ensures
            match r {
                None => self.left().start == self.left().end,
                Some(read) => {
                    &&& read.offset == self.left().start
                    &&& 0 < read.size == if self.left().end - self.left().start < CHUNK_SIZE {
                        self.left().end - self.left().start
                    } else {
                        CHUNK_SIZE as int
                    }
                },
            },
    {
        if self.left.start == self.left.end {
            return None;
        }
        let rest: u64 = self.left.end - self.left.start;
        let size: u64 = if rest < CHUNK_SIZE {
            rest
        } else {
            CHUNK_SIZE
        };
        Some(Read { offset: self.left.start, size: size as usize })
    }

    /// Notes that so many bytes were read. What is left then is what follows them.
    pub fn advance(&mut self, bytes_read: usize)
        requires
            bytes_read <= old(self).left().end - old(self).left().start,
        ensures
            final(self).left() == (Range {
                start: (old(self).left().start + bytes_read) as u64,
                end: old(self).left().end,
            }),
    {
        self.left = self.left.start + bytes_read as u64..self.left.end;
    }
}

/// What matters of an opened file.
#[derive(Clone, Copy, Debug, PartialEq, Eq, Structural)]
pub struct Metadata {
    /// Whether it is a plain file.
    pub is_file: bool,
    pub info: FileInfo,
}

/// HTTP entity created from a file which is read chunk-by-chunk.
pub struct ChunkedReadFile {
    pub info: FileInfo,
    pub headers: HeaderMap<HeaderValue>,
}

impl ChunkedReadFile {
    /// Creates a new ChunkedReadFile, with presupplied metadata. It is an error if they are not
    /// those of a plain file.
    pub fn new_with_metadata(metadata: &Metadata, headers: HeaderMap<HeaderValue>) -> (r: Result<
        Self,
        &'static str,
    >)
        ensures
            if metadata.is_file {
                r == Ok::<ChunkedReadFile, &'static str>(
                    ChunkedReadFile { info: metadata.info, headers },
                )
            } else {
                r == Err::<ChunkedReadFile, &'static str>("expected a file")
            },
    {
        // The file might be a directory. If so, it's better to realize that now (while we can
        // still send a proper HTTP error) rather than when its bytes are read (when all we can do
        // is drop the HTTP connection).
        if !metadata.is_file {
            return Err("expected a file");
        }
        Ok(ChunkedReadFile { info: metadata.info, headers })
    }

    /// Starts to read a range of the file.
    pub fn get_range(&self, range: Range<u64>) -> (r: ChunkedRead)
        ensures
            r.left() == range,
    {
        ChunkedRead::new(range)
    }
}

impl Entity for ChunkedReadFile {
    open spec fn spec_len(&self) -> u64 {
        self.info.len
    }

    open spec fn spec_etag(&self) -> Option<Seq<u8>> {
        Some(
            file_etag(
                self.info.inode,
                self.info.len,
                self.info.mtime.secs as u64,
                self.info.mtime.nanos as u64,
            ),
        )
    }

    /// The modification time must be after the epoch.
    open spec fn can_tag(&self) -> bool {
        self.info.mtime.secs >= 0
    }

    open spec fn spec_last_modified(&self) -> Option<Timestamp> {
        Some(self.info.mtime)
    }

    open spec fn spec_headers(&self, before: Headers) -> Headers {
        extended(before, pairs(header_entries(self.headers)))
    }

    open spec fn headers_fit(&self, before: Headers) -> bool {
        before.len() + header_entries(self.headers).len() <= MAX_NAMES
    }

    fn len(&self) -> u64 {
        self.info.len
    }

    fn add_headers(&self, h: &mut HeaderMap<HeaderValue>) {
        extend(h, &self.headers)
    }

    fn etag(&self) -> Option<HeaderValue> {
        Some(
            file_etag_value(
                self.info.inode,
                self.info.len,
                self.info.mtime.secs as u64,
                self.info.mtime.nanos as u64,
            ),
        )
    }

    fn last_modified(&self) -> Option<Timestamp> {
        Some(self.info.mtime)
    }
}

/// HTTP entity created from a file of a given content type.
pub struct File {
    pub len: u64,
    pub inode: u64,
    pub mtime: i64,
    pub mtime_nsec: i64,
    pub content_type: HeaderValue,
}

impl File {
    /// Creates a new File.
    pub fn new(
        len: u64,
        inode: u64,
        mtime: i64,
        mtime_nsec: i64,
        content_type: HeaderValue,
    ) -> (r: File)
        ensures
            r == (File { len, inode, mtime, mtime_nsec, content_type }),
    {
        File { len, inode, mtime, mtime_nsec, content_type }
    }

    /// Starts to read a range of the file.
    pub fn get_range(&self, range: Range<u64>) -> (r: ChunkedRead)
        ensures
            r.left() == range,
    {
        ChunkedRead::new(range)
    }
}

impl Entity for File {
    open spec fn spec_len(&self) -> u64 {
        self.len
    }

    open spec fn spec_etag(&self) -> Option<Seq<u8>> {
        Some(file_etag(self.inode, self.len, self.mtime as u64, self.mtime_nsec as u64))
    }

    open spec fn can_tag(&self) -> bool {
        true
    }

    open spec fn spec_last_modified(&self) -> Option<Timestamp> {
        Some(Timestamp { secs: self.mtime, nanos: self.mtime_nsec as u32 })
    }

    open spec fn spec_headers(&self, before: Headers) -> Headers {
        inserted(before, "content-type"@, value_bytes(self.content_type))
    }

    open spec fn headers_fit(&self, before: Headers) -> bool {
        before.len() <= MAX_NAMES
    }

    fn len(&self) -> u64 {
        self.len
    }

    fn add_headers(&self, h: &mut HeaderMap<HeaderValue>) {
        insert(h, "content-type", self.content_type.clone())
    }

    fn etag(&self) -> Option<HeaderValue> {
        Some(
            file_etag_value(self.inode, self.len, self.mtime as u64, self.mtime_nsec as u64),
        )
    }

    fn last_modified(&self) -> Option<Timestamp> {
        Some(Timestamp { secs: self.mtime, nanos: self.mtime_nsec as u32 })
    }
}

/// Writes the entity tag of a file. The format is similar to Apache's.
fn file_etag_value(inode: u64, len: u64, secs: u64, nanos: u64) -> (r: HeaderValue)
    ensures
        value_bytes(r) == file_etag(inode, len, secs, nanos),
{
    let mut buf: Vec<u8> = Vec::new();
    push_text(&mut buf, "\"");
    push_hex(&mut buf, inode);
    push_text(&mut buf, ":");
    push_hex(&mut buf, len);
    push_text(&mut buf, ":");
    push_hex(&mut buf, secs);
    push_text(&mut buf, ":");
    push_hex(&mut buf, nanos);
    push_text(&mut buf, "\"");
    proof {
        assert(buf@ =~= file_etag(inode, len, secs, nanos));
        lemma_file_etag_value(inode, len, secs, nanos);
    }
    header_value(buf.as_slice())
}

proof fn lemma_file_etag_value(inode: u64, len: u64, secs: u64, nanos: u64)
    ensures
        is_value(file_etag(inode, len, secs, nanos)),
{
    reveal_strlit("\"");
    reveal_strlit(":");
    assert("\"".is_ascii());
    assert(":".is_ascii());
    lemma_hex(inode as nat);
    lemma_hex(len as nat);
    lemma_hex(secs as nat);
    lemma_hex(nanos as nat);
}

/// A hexadecimal digit in lower case.
pub open spec fn is_hex_digit(b: u8) -> bool {
    0x30 <= b <= 0x39 || 0x61 <= b <= 0x66
}

/// A hexadecimal numeral holds hexadecimal digits alone.
proof fn lemma_hex(n: nat)
    ensures
        forall|i: int| 0 <= i < hex(n).len() ==> is_hex_digit(#[trigger] hex(n)[i]),
        hex(n).len() > 0,
    decreases n,
{
    if n >= 16 {
        lemma_hex(n / 16);
    }
}

/// The number that a hexadecimal numeral denotes.
spec fn hex_value(s: Seq<u8>) -> nat
    decreases s.len(),
{
    if s.len() == 0 {
        0
    } else {
        let d = s.last();
        let v = if d <= 0x39 {
            d - 0x30
        } else {
            d - 0x61 + 10
        };
        hex_value(s.drop_last()) * 16 + v as nat
    }
}

proof fn lemma_hex_value(n: nat)
    ensures
        hex_value(hex(n)) == n,
    decreases n,
{
    let s = hex(n);
    if n < 16 {
        assert(s.drop_last() =~= Seq::empty());
        assert(hex_value(s.drop_last()) == 0);
    } else {
        lemma_hex_value(n / 16);
        assert(s.drop_last() =~= hex(n / 16));
    }
}

/// Where numerals with a colon behind them are the same texts, the numbers and what follows are
/// the same.
proof fn lemma_hex_prefix(a: nat, b: nat, rest_a: Seq<u8>, rest_b: Seq<u8>)
    requires
        hex(a) + ":".spec_bytes() + rest_a == hex(b) + ":".spec_bytes() + rest_b,
    ensures
        a == b,
        rest_a == rest_b,
{
    reveal_strlit(":");
    assert(":".is_ascii());
    lemma_hex(a);
    lemma_hex(b);
    let s = hex(a) + ":".spec_bytes() + rest_a;
    lemma_find_is(s, 0x3a, hex(a).len() as int);
    lemma_find_is(hex(b) + ":".spec_bytes() + rest_b, 0x3a, hex(b).len() as int);
    assert(s.take(hex(a).len() as int) =~= hex(a));
    assert(s.take(hex(b).len() as int) =~= hex(b));
    assert(s.skip(hex(a).len() as int + 1) =~= rest_a);
    assert(s.skip(hex(b).len() as int + 1) =~= rest_b);
    lemma_hex_value(a);
    lemma_hex_value(b);
}

/// A tag without its first quote, from the part of the given number on.
spec fn etag_tail(parts: (u64, u64, u64, u64), from: int) -> Seq<u8> {
    let last = hex(parts.3 as nat) + "\"".spec_bytes();
    let secs = hex(parts.2 as nat) + ":".spec_bytes() + last;
    let len = hex(parts.1 as nat) + ":".spec_bytes() + secs;
    if from == 3 {
        last
    } else if from == 2 {
        secs
    } else if from == 1 {
        len
    } else {
        hex(parts.0 as nat) + ":".spec_bytes() + len
    }
}

proof fn lemma_etag_tail(parts: (u64, u64, u64, u64))
    ensures
        file_etag(parts.0, parts.1, parts.2, parts.3).skip(1) == etag_tail(parts, 0),
        etag_tail(parts, 3).drop_last() == hex(parts.3 as nat),
{
    reveal_strlit("\"");
    assert("\"".is_ascii());
    let tag = file_etag(parts.0, parts.1, parts.2, parts.3);
    assert(tag =~= "\"".spec_bytes() + etag_tail(parts, 0));
    assert(tag.skip(1) =~= etag_tail(parts, 0));
    assert(etag_tail(parts, 3).drop_last() =~= hex(parts.3 as nat));
}

/// The tags of two files are the same only if the files have the same inode, length and
/// modification time.
pub proof fn law_file_etag_distinguishes(a: (u64, u64, u64, u64), b: (u64, u64, u64, u64))
    requires
        file_etag(a.0, a.1, a.2, a.3) == file_etag(b.0, b.1, b.2, b.3),
    ensures
        a == b,
{
    lemma_etag_tail(a);
    lemma_etag_tail(b);
    lemma_hex_prefix(a.0 as nat, b.0 as nat, etag_tail(a, 1), etag_tail(b, 1));
    lemma_hex_prefix(a.1 as nat, b.1 as nat, etag_tail(a, 2), etag_tail(b, 2));
    lemma_hex_prefix(a.2 as nat, b.2 as nat, etag_tail(a, 3), etag_tail(b, 3));
    lemma_hex_value(a.3 as nat);
    lemma_hex_value(b.3 as nat);
}

/// The tag of a file is an entity tag, and a strong one.
pub proof fn law_file_etag_is_strong(inode: u64, len: u64, secs: u64, nanos: u64)
    ensures
        is_etag(file_etag(inode, len, secs, nanos)),
        !is_weak(file_etag(inode, len, secs, nanos)),
{
    reveal_strlit("\"");
    reveal_strlit(":");
    reveal_strlit("W/");
    assert("\"".is_ascii());
    assert(":".is_ascii());
    assert("W/".is_ascii());
    let tag = file_etag(inode, len, secs, nanos);
    lemma_hex(inode as nat);
    lemma_hex(len as nat);
    lemma_hex(secs as nat);
    lemma_hex(nanos as nat);
    assert(tag[0] == QUOTE);
    if is_weak(tag) {
        assert(tag.take(2)[0] == "W/".spec_bytes()[0]);
    }
    let inside = tag.skip(1);
    let middle = hex(inode as nat) + ":".spec_bytes() + hex(len as nat) + ":".spec_bytes() + hex(
        secs as nat,
    ) + ":".spec_bytes() + hex(nanos as nat);
    assert(inside =~= middle + "\"".spec_bytes());
    assert forall|i: int| 0 <= i < middle.len() implies middle[i] != QUOTE by {}
    lemma_find_is(inside, QUOTE, middle.len() as int);
}

/// A file leaves every header alone that a response has already.
pub proof fn law_file_keeps_headers(file: &ChunkedReadFile, name: Seq<char>)
    ensures
        keeps_header(file, name),
{
    assert forall|h: Headers| first_value(h, name) is Some implies #[trigger] first_value(
        file.spec_headers(h),
        name,
    ) == first_value(h, name) by {
        lemma_extended_keeps(h, pairs(header_entries(file.headers)), name);
    }
}

/// A file of a given content type leaves every other header alone that a response has already.
pub proof fn law_typed_file_keeps_headers(file: &File, name: Seq<char>)
    requires
        name != "content-type"@,
    ensures
        keeps_header(file, name),
{
    assert forall|h: Headers| first_value(h, name) is Some implies #[trigger] first_value(
        file.spec_headers(h),
        name,
    ) == first_value(h, name) by {
        lemma_inserted_keeps(h, "content-type"@, value_bytes(file.content_type), name);
    }
}

/// A client that holds a file as it was before it was modified or replaced is served the file as
/// it is now.
pub proof fn law_modified_file_is_served(
    file: &ChunkedReadFile,
    method: Method,
    h: Headers,
    held: FileInfo,
)
    requires
        method != Method::Other,
        file.info.mtime.secs >= 0,
        held.mtime.secs >= 0,
        held != file.info,
        first_value(h, "if-none-match"@) == Some(
            file_etag(held.inode, held.len, held.mtime.secs as u64, held.mtime.nanos as u64),
        ),
        first_value(h, "if-match"@) is None,
        first_value(h, "if-unmodified-since"@) is None,
    ensures
        verdict(file, method, h) == part_verdict(
            range_value(file.spec_etag(), h),
            file.info.len,
        ),
{
    let a = (held.inode, held.len, held.mtime.secs as u64, held.mtime.nanos as u64);
    let b = (
        file.info.inode,
        file.info.len,
        file.info.mtime.secs as u64,
        file.info.mtime.nanos as u64,
    );
    let old_tag = file_etag(a.0, a.1, a.2, a.3);
    let new_tag = file_etag(b.0, b.1, b.2, b.3);
    law_file_etag_is_strong(a.0, a.1, a.2, a.3);
    law_file_etag_is_strong(b.0, b.1, b.2, b.3);
    if weak_match(old_tag, new_tag) {
        law_file_etag_distinguishes(a, b);
    }
    law_changed_entity_is_served(file, method, h, old_tag, new_tag);
}

/// The tag of a file holds its inode, its length and the seconds and nanoseconds of its last
/// modification, as hexadecimal numerals between quotes, with colons between them.
pub proof fn law_file_etag_format(inode: u64, len: u64, secs: u64, nanos: u64)
    ensures
        file_etag(inode, len, secs, nanos) == seq![0x22u8] + hex(inode as nat) + seq![0x3au8] + hex(
            len as nat,
        ) + seq![0x3au8] + hex(secs as nat) + seq![0x3au8] + hex(nanos as nat) + seq![0x22u8],
{
    reveal_strlit("\"");
    reveal_strlit(":");
    assert("\"".is_ascii());
    assert(":".is_ascii());
    assert("\"".spec_bytes() =~= seq![0x22u8]);
    assert(":".spec_bytes() =~= seq![0x3au8]);
}

/// What a file is as an entity: its length, its time, and a tag of what identifies it.
pub proof fn law_file_is_an_entity(file: &ChunkedReadFile, typed: &File)
    ensures
        file.spec_len() == file.info.len,
        file.spec_last_modified() == Some(file.info.mtime),
        file.can_tag() <==> file.info.mtime.secs >= 0,
        file.spec_etag() == Some(
            file_etag(
                file.info.inode,
                file.info.len,
                file.info.mtime.secs as u64,
                file.info.mtime.nanos as u64,
            ),
        ),
        typed.spec_len() == typed.len,
        typed.can_tag(),
        typed.spec_last_modified() matches Some(t) && t.secs == typed.mtime && t.nanos
            == typed.mtime_nsec as u32,
        typed.spec_etag() == Some(
            file_etag(typed.inode, typed.len, typed.mtime as u64, typed.mtime_nsec as u64),
        ),
{
}

/// A file of a given content type says so, whatever a response said before.
pub proof fn law_typed_file_has_its_type(file: &File, h: Headers, other: Seq<char>)
    requires
        other != "content-type"@,
    ensures
        first_value(file.spec_headers(h), "content-type"@) == Some(value_bytes(file.content_type)),
        first_value(file.spec_headers(h), other) == first_value(h, other),
{
    law_inserted(h, "content-type"@, value_bytes(file.content_type), other);
}

} // verus!
