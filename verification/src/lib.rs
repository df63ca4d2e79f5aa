//! Helpers for serving HTTP GET and HEAD responses with the
//! [http](http://crates.io/crates/http) crate.
//!
//! This crate supplies two ways to respond to HTTP GET and HEAD requests:
//!
//! *   the `serve` function can be used to serve an `Entity`, a trait representing reusable,
//!     byte-rangeable HTTP entities. `Entity` must be able to produce exactly the same data on
//!     every call, know its size in advance, and be able to produce portions of the data on demand.
//! *   the `streaming_body` function can be used to add a body to an otherwise-complete response.
//!     If a body is needed (on `GET` rather than `HEAD` requests), it returns a `BodyWriter`. The
//!     caller should produce the complete body or call `BodyWriter::abort`, causing the HTTP stream
//!     to terminate abruptly.
//!
//! Nothing here performs input or output. A body says which bytes of the entity it needs, and is
//! told what came of reading them; a directory says which file to open, and is told what came of
//! that. What holds of the responses as a whole is stated in [`laws`], [`answers`], [`delivery`]
//! and [`streamed`].

pub mod answers;
pub mod body;
pub mod chunker;
pub mod delivery;
pub mod dir;
pub mod encoding;
pub mod entity;
pub mod etag;
pub mod file;
pub mod gzip;
pub mod headers;
pub mod laws;
pub mod platform;
pub mod range;
pub mod serving;
pub mod streamed;
pub mod streaming;
pub mod text;
pub mod time;

pub use crate::body::Body;
pub use crate::encoding::{parse_qvalue, should_gzip};
pub use crate::entity::Entity;
pub use crate::file::ChunkedReadFile;
pub use crate::gzip::BodyWriter;
pub use crate::serving::{serve, Method, Request, Response};
pub use crate::streaming::{streaming_body, StreamingBodyBuilder};
