# http_serve

Helpers for serving HTTP GET and HEAD responses, verified with
[Verus](https://github.com/verus-lang/verus).

The library supplies two ways to respond to a request:

*   `serve` answers a request for an `Entity`: a reusable, byte-rangeable body of known length. It
    evaluates `If-Match`, `If-None-Match`, `If-Modified-Since`, `If-Unmodified-Since`, `If-Range` and
    `Range`, and answers with the whole, a single range, or several ranges as
    `multipart/byteranges`.
*   `streaming_body` starts a response whose body is written while it is sent, with the `gzip`
    content coding if the client prefers it.

`ChunkedReadFile` is an entity made of a file, and the `dir` module looks files up in a directory
tree, including `.gz`-suffixed versions of them.

## Layout

*   `src/` is the library. Verus checks the contract of every function in it but the few that call
    other crates, whose contracts are taken on trust. It performs no input or output: a body says
    which bytes of the entity it needs and is told what came of reading them, a search for a file
    says which file to open and is told what came of that.
    *   `laws.rs` states what holds of every response, such as that a tag that was served can be sent
        back for revalidation, or that a HEAD response mirrors that to a GET. `delivery.rs` states
        what a client gets of a body from its first step to its end, and `streamed.rs` what a reader
        gets of a stream from its first write to its end. Laws about a single module stand in that
        module, under names that begin with `law_`.
    *   What is taken from other crates on trust stands in `headers.rs` (`http`), `time.rs`
        (`httpdate` and the clock), `range.rs` (`smallvec`), `gzip.rs` (`flate2`) and `dir.rs`
        (`memchr`). Each such item says in its comment what it claims of the other crate.
*   `tests/` runs the library on concrete requests.
*   `app/` is the asynchronous code around the library: streams, locks, files and directories.
