//! What the library asks of an entity that it is to serve.

use crate::etag::etag_bytes;
use crate::headers::{header_entries, Headers};
use crate::time::Timestamp;
use http::header::{HeaderMap, HeaderValue};
use vstd::prelude::*;

verus! {

/// A reusable, read-only, byte-rangeable HTTP entity for GET and HEAD serving.
/// Must return exactly the same data on every call.
///
/// The functions that come first say what the others return. They are for proofs alone: a type in
/// code that is not verified leaves them out.
pub trait Entity: Send + Sync {
    /// The length of the entity's body.
    open spec fn spec_len(&self) -> u64 {
        arbitrary()
    }

    /// The entity's tag.
    open spec fn spec_etag(&self) -> Option<Seq<u8>> {
        arbitrary()
    }

    /// Whether the entity can give its tag.
    open spec fn can_tag(&self) -> bool {
        arbitrary()
    }

    /// When the entity was last modified.
    open spec fn spec_last_modified(&self) -> Option<Timestamp> {
        arbitrary()
    }

    /// What a header map holds after the entity has added its headers.
    open spec fn spec_headers(&self, before: Headers) -> Headers {
        arbitrary()
    }

    /// Whether a header map has room for the entity's headers.
    open spec fn headers_fit(&self, before: Headers) -> bool {
        arbitrary()
    }

    /// Returns the length of the entity's body in bytes.
    fn len(&self) -> (r: u64)
        ensures
            r == self.spec_len(),
    ;

    /// Returns true iff the entity's body has length 0.
    fn is_empty(&self) -> (r: bool)
        ensures
            r == (self.spec_len() == 0),
    {
        self.len() == 0
    }

    /// Adds entity headers such as `Content-Type` to the supplied `Headers` object.
    /// In particular, these headers are the "other representation header fields" described by [RFC
    /// 7233 section 4.1](https://tools.ietf.org/html/rfc7233#section-4.1); they should exclude
    /// `Content-Range`, `Date`, `Cache-Control`, `ETag`, `Expires`, `Content-Location`, and `Vary`.
    ///
    /// This function will be called only when that section says that headers such as
    /// `Content-Type` should be included in the response.
    fn add_headers(&self, h: &mut HeaderMap<HeaderValue>)
        requires
            self.headers_fit(header_entries(*old(h))),
        ensures
            header_entries(*final(h)) == self.spec_headers(header_entries(*old(h))),
    ;

    /// Returns an etag for this entity, if available.
    /// Implementations are encouraged to provide a strong etag. [RFC 7232 section
    /// 2.1](https://tools.ietf.org/html/rfc7232#section-2.1) notes that only strong etags
    /// are usable for sub-range retrieval.
    fn etag(&self) -> (r: Option<HeaderValue>)
        requires
            self.can_tag(),
        ensures
            etag_bytes(r) == self.spec_etag(),
    ;

    /// Returns the last modified time of this entity, if available.
    /// Note that `serve` may serve an earlier `Last-Modified:` date than the one returned here if
    /// this time is in the future, as required by [RFC 7232 section
    /// 2.2.1](https://tools.ietf.org/html/rfc7232#section-2.2.1).
    fn last_modified(&self) -> (r: Option<Timestamp>)
        ensures
            r == self.spec_last_modified(),
    ;
}

} // verus!
