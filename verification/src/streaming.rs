//! Responses whose body is written while it is sent.

use crate::chunker::{joined, Channel, Reader, Writer};
use crate::encoding::should_gzip;
use crate::gzip::{
    is_new_encoder, lemma_streaming_names, paired, start_streaming_headers, wants_gzip, BodyWriter,
};
use crate::headers::{
    add_new, first_value, header_entries, header_value, law_new_header, lemma_visible_text, Headers,
};
use crate::serving::{Method, Request};
use http::header::{HeaderMap, HeaderValue};
use vstd::prelude::*;
use vstd::string::StringSliceAdditionalSpecFns;

verus! {

/// A builder returned by [streaming_body].
pub struct StreamingBodyBuilder {
    pub chunk_size: usize,
    pub gzip_level: u32,
    pub should_gzip: bool,
    pub body_needed: bool,
}

/// A response whose body is written while it is sent.
pub struct StreamingResponse<E, W> {
    pub headers: HeaderMap<HeaderValue>,
    /// The receiving end of the body.
    pub reader: Reader<E, W>,
}

/// Creates a response and streaming body writer for the given request.
///
/// The streaming body writer is currently `Some(writer)` for `GET` requests and
/// `None` for `HEAD` requests. In the future, `streaming_body` may also support
/// conditional `GET` requests.
///
/// The caller may also continue appending to the stream after sending the response.
/// The response will end when the writer is finished. The only disadvantage to writing to the
/// stream after the fact is that there's no way to report mid-response errors other than abruptly
/// closing the TCP connection ([BodyWriter::abort]).
pub fn streaming_body(req: &Request) -> (r: StreamingBodyBuilder)
    ensures
        r.chunk_size == 4096,
        r.gzip_level == 6,
        r.should_gzip == wants_gzip(header_entries(*req.headers)),
        r.body_needed == (req.method != Method::Head),
{
    StreamingBodyBuilder {
        chunk_size: 4096,
        gzip_level: 6,
        should_gzip: should_gzip(req.headers),
        body_needed: req.method != Method::Head,
    }
}

/// The headers of a response whose body is written while it is sent.
pub open spec fn streaming_headers(gzip: bool) -> Headers {
    if gzip {
        seq![
            ("vary"@, seq!["accept-encoding".spec_bytes()]),
            ("content-encoding"@, seq!["gzip".spec_bytes()]),
        ]
    } else {
        seq![("vary"@, seq!["accept-encoding".spec_bytes()])]
    }
}

impl StreamingBodyBuilder {
    /// Whether the `gzip` content coding is applied.
    pub open spec fn applies_gzip(self) -> bool {
        self.should_gzip && self.gzip_level > 0
    }

    /// Sets the size of a data chunk.
    ///
    /// This is a compromise between memory usage and efficiency. The default of 4096 is usually
    /// fine; increasing will likely only be noticeably more efficient when compression is off.
    pub fn with_chunk_size(self, chunk_size: usize) -> (r: Self)
        ensures
            r == (StreamingBodyBuilder { chunk_size, ..self }),
    {
        StreamingBodyBuilder { chunk_size, ..self }
    }

    /// Sets the gzip compression level. Defaults to 6.
    ///
    /// `gzip_level` should be an integer between 0 and 9 (inclusive).
    /// 0 means no compression; 9 gives the best compression (but most CPU usage).
    ///
    /// This is only effective if the client supports compression.
    pub fn with_gzip_level(self, gzip_level: u32) -> (r: Self)
        ensures
            r == (StreamingBodyBuilder { gzip_level, ..self }),
    {
        StreamingBodyBuilder { gzip_level, ..self }
    }

    /// Returns the HTTP response and, if the request is a `GET`, a body writer.
    pub fn build<E, W>(self) -> (r: (StreamingResponse<E, W>, Option<BodyWriter>))
        requires
            self.chunk_size > 0,
            self.body_needed && self.should_gzip ==> self.gzip_level <= 9,
        ensures
            r.0.reader.wf(),
            r.0.reader.registered() is None,
            header_entries(r.0.headers) == streaming_headers(self.applies_gzip()),
            r.0.reader@ == (Channel::<E>::Open {
                ready: Seq::empty(),
                writer_dropped: !self.body_needed,
            }),
            match r.1 {
                None => !self.body_needed,
                Some(writer) => {
                    &&& self.body_needed
                    &&& paired(writer, r.0.reader)
                    &&& match writer {
                        BodyWriter::Raw(w) => {
                            &&& !self.applies_gzip()
                            &&& w.chunk_size() == self.chunk_size && w.buffered().len() == 0
                        },
                        BodyWriter::Gzipped(gz, w) => {
                            &&& self.applies_gzip()
                            &&& w.chunk_size() == self.chunk_size && w.buffered().len() == 0
                            &&& is_new_encoder(gz, self.gzip_level)
                        },
                        BodyWriter::Dead => false,
                    }
                },
            },
    {
        let (w, mut reader) = Writer::with_chunk_size(self.chunk_size);
        assert(joined(Seq::empty()) =~= Seq::empty());
        let mut headers = start_streaming_headers();
        let gzip = self.should_gzip && self.gzip_level > 0;
        if gzip {
            proof {
                lemma_streaming_names();
                reveal_strlit("gzip");
                lemma_visible_text("gzip");
            }
            add_new(&mut headers, "content-encoding", header_value("gzip".as_bytes()));
        }
        assert(header_entries(headers) =~= streaming_headers(gzip));
        if !self.body_needed {
            w.close(&mut reader);
            return (StreamingResponse { headers, reader }, None);
        }
        let writer = if gzip {
            BodyWriter::gzipped(w, self.gzip_level)
        } else {
            BodyWriter::raw(w)
        };
        (StreamingResponse { headers, reader }, Some(writer))
    }
}

/// A response whose body is written while it is sent says that it depends on the client's
/// preferences, names the `gzip` coding iff that is applied, and says nothing else.
pub proof fn law_streaming_headers(gzip: bool)
    ensures
        first_value(streaming_headers(gzip), "vary"@) == Some("accept-encoding".spec_bytes()),
        first_value(streaming_headers(gzip), "content-encoding"@) == if gzip {
            Some("gzip".spec_bytes())
        } else {
            None
        },
        streaming_headers(gzip).len() == if gzip {
            2int
        } else {
            1int
        },
{
    lemma_streaming_names();
    let none: Headers = Seq::empty();
    let vary = none.push(("vary"@, seq!["accept-encoding".spec_bytes()]));
    law_new_header(none, "vary"@, "accept-encoding".spec_bytes(), "content-encoding"@);
    assert(vary =~= seq![("vary"@, seq!["accept-encoding".spec_bytes()])]);
    law_new_header(vary, "content-encoding"@, "gzip".spec_bytes(), "vary"@);
    let both = vary.push(("content-encoding"@, seq!["gzip".spec_bytes()]));
    assert(both =~= streaming_headers(true));
}

/// The coding is applied iff the client wants it and the level is not 0.
pub proof fn law_applies_gzip(builder: StreamingBodyBuilder)
    ensures
        builder.applies_gzip() <==> builder.should_gzip && builder.gzip_level != 0,
{
}

} // verus!
