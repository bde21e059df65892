//! A verified HTTP/1.1 wire codec: an incremental request parser
//! (request line, headers, fixed-length or chunked body) and a streaming
//! response writer (status line, headers, fixed or chunked body, trailers),
//! together with the header multimap and the canned-page dispatcher that
//! sit on top of them.

pub mod handlers;
pub mod headers;
pub mod laws;
pub mod request;
pub mod response;
pub mod num;
pub mod wire;

use vstd::prelude::*;

verus! {

/// The fatal ways a request can fail to parse.
#[derive(Debug, Clone, Copy, PartialEq, Eq, Structural)]
pub enum ParseError {
    MalformedRequestLine,
    MalformedHeader,
    MalformedBody,
    UnexpectedEof,
}

} // verus!
