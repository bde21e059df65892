//! The response side of the codec: the response value with its fluent
//! builder, and the streaming writer that turns status, headers, body and
//! trailers into wire bytes in phase order.

use vstd::prelude::*;
use vstd::string::StringSliceAdditionalSpecFns;
use crate::headers::{Headers, spec_serialize, te_key, cl_key, chunked_val, te_key_vec, cl_key_vec, chunked_val_vec, eq_bytes};
use crate::num::{dec_of, dec_encode, hex_of, hex_encode, hex_of_bytes, hex_bytes, chunk_encoding};
use crate::wire::push_bytes;
use sha2::Digest;

verus! {

// ---------------------------------------------------------------------------
// Status
// ---------------------------------------------------------------------------

/// The closed status set, each with its canonical reason phrase.
#[derive(Debug, Clone, Copy, PartialEq, Eq, Structural)]
pub enum HttpStatus {
    Okay,
    BadRequest,
    InternalServerError,
}

/// The wire status line `HTTP/1.1 <code> <reason>` followed by CRLF.
pub open spec fn status_line(s: HttpStatus) -> Seq<u8> {
    match s {
        HttpStatus::Okay => "HTTP/1.1 200 OK\r\n".spec_bytes(),
        HttpStatus::BadRequest => "HTTP/1.1 400 Bad Request\r\n".spec_bytes(),
        HttpStatus::InternalServerError => "HTTP/1.1 500 Internal Server Error\r\n".spec_bytes(),
    }
}

/// The wire status line of `s` as bytes.
pub fn status_line_bytes(s: &HttpStatus) -> (r: Vec<u8>)
    ensures
        r@ == status_line(*s),
{
    let text: &str = match s {
        HttpStatus::Okay => "HTTP/1.1 200 OK\r\n",
        HttpStatus::BadRequest => "HTTP/1.1 400 Bad Request\r\n",
        HttpStatus::InternalServerError => "HTTP/1.1 500 Internal Server Error\r\n",
    };
    let mut v: Vec<u8> = Vec::new();
    push_bytes(&mut v, text.as_bytes());
    proof {
        assert(v@ =~= status_line(*s));
    }
    v
}

// ---------------------------------------------------------------------------
// Well-known response field names and values
// ---------------------------------------------------------------------------

/// The lowercase field name `connection`.
pub open spec fn connection_key() -> Seq<u8> {
    seq![99u8, 111u8, 110u8, 110u8, 101u8, 99u8, 116u8, 105u8, 111u8, 110u8]
}

/// The value `close`.
pub open spec fn close_val() -> Seq<u8> {
    seq![99u8, 108u8, 111u8, 115u8, 101u8]
}

/// The lowercase field name `content-type`.
pub open spec fn content_type_key() -> Seq<u8> {
    seq![99u8, 111u8, 110u8, 116u8, 101u8, 110u8, 116u8, 45u8, 116u8, 121u8, 112u8, 101u8]
}

/// The value `text/plain`.
pub open spec fn text_plain_val() -> Seq<u8> {
    seq![116u8, 101u8, 120u8, 116u8, 47u8, 112u8, 108u8, 97u8, 105u8, 110u8]
}

pub fn connection_key_vec() -> (r: Vec<u8>)
    ensures
        r@ == connection_key(),
        crate::wire::lower(r@) == r@,
{
    let mut v: Vec<u8> = Vec::new();
    v.push(99);
    v.push(111);
    v.push(110);
    v.push(110);
    v.push(101);
    v.push(99);
    v.push(116);
    v.push(105);
    v.push(111);
    v.push(110);
    proof {
        assert(v@ =~= connection_key());
        assert(crate::wire::lower(v@) =~= v@);
    }
    v
}

pub fn close_val_vec() -> (r: Vec<u8>)
    ensures
        r@ == close_val(),
{
    let mut v: Vec<u8> = Vec::new();
    v.push(99);
    v.push(108);
    v.push(111);
    v.push(115);
    v.push(101);
    proof {
        assert(v@ =~= close_val());
    }
    v
}

pub fn content_type_key_vec() -> (r: Vec<u8>)
    ensures
        r@ == content_type_key(),
        crate::wire::lower(r@) == r@,
{
    let mut v: Vec<u8> = Vec::new();
    v.push(99);
    v.push(111);
    v.push(110);
    v.push(116);
    v.push(101);
    v.push(110);
    v.push(116);
    v.push(45);
    v.push(116);
    v.push(121);
    v.push(112);
    v.push(101);
    proof {
        assert(v@ =~= content_type_key());
        assert(crate::wire::lower(v@) =~= v@);
    }
    v
}

pub fn text_plain_val_vec() -> (r: Vec<u8>)
    ensures
        r@ == text_plain_val(),
{
    let mut v: Vec<u8> = Vec::new();
    v.push(116);
    v.push(101);
    v.push(120);
    v.push(116);
    v.push(47);
    v.push(112);
    v.push(108);
    v.push(97);
    v.push(105);
    v.push(110);
    proof {
        assert(v@ =~= text_plain_val());
    }
    v
}

// ---------------------------------------------------------------------------
// The response value
// ---------------------------------------------------------------------------

/// The default header set computed against a body of length `n`.
pub open spec fn default_headers_map(n: int) -> Map<Seq<u8>, Seq<u8>> {
    Map::<Seq<u8>, Seq<u8>>::empty().insert(cl_key(), dec_of(n)).insert(
        connection_key(),
        close_val(),
    ).insert(content_type_key(), text_plain_val())
}

/// An in-memory response: status, headers, body.
#[derive(Debug)]
pub struct HttpResponse {
    pub status: HttpStatus,
    pub headers: Headers,
    pub body: Vec<u8>,
}

impl HttpResponse {
    /// Status `200 OK`, no headers, empty body.
    pub fn new() -> (r: HttpResponse)
        ensures
            r.status == HttpStatus::Okay,
            r.headers.wf(),
            r.headers@ == Map::<Seq<u8>, Seq<u8>>::empty(),
            r.headers.pairs_view() == Seq::<(Seq<u8>, Seq<u8>)>::empty(),
            r.body@ == Seq::<u8>::empty(),
    {
        let r = HttpResponse { status: HttpStatus::Okay, headers: Headers::new(), body: Vec::new() };
        proof {
            assert(r.body@ =~= Seq::<u8>::empty());
        }
        r
    }

    pub fn with_status(self, status: HttpStatus) -> (r: HttpResponse)
        ensures
            r.status == status,
            r.headers == self.headers,
            r.body == self.body,
    {
        HttpResponse { status, ..self }
    }

    /// Replace the headers with the defaults computed against the current
    /// body: its length, `Connection: close`, and `Content-Type:
    /// text/plain`. Call after the body is set.
    pub fn with_default_headers(self) -> (r: HttpResponse)
        ensures
            r.status == self.status,
            r.body == self.body,
            r.headers.wf(),
            r.headers@ == default_headers_map(self.body@.len() as int),
            r.headers.pairs_view() == seq![
                (cl_key(), dec_of(self.body@.len() as int)),
                (connection_key(), close_val()),
                (content_type_key(), text_plain_val()),
            ],
    {
        let mut headers = Headers::new();
        let n = self.body.len();
        headers.put(cl_key_vec(), dec_encode(n));
        headers.put(connection_key_vec(), close_val_vec());
        headers.put(content_type_key_vec(), text_plain_val_vec());
        proof {
            assert(headers.pairs_view() =~= seq![
                (cl_key(), dec_of(n as int)),
                (connection_key(), close_val()),
                (content_type_key(), text_plain_val()),
            ]);
        }
        HttpResponse { headers, ..self }
    }

    /// Insert one header (replacing any previous value under the
    /// lowercased name), overriding defaults.
    pub fn with_header(self, name: &str, value: &str) -> (r: HttpResponse)
        requires
            self.headers.wf(),
        ensures
            r.status == self.status,
            r.body == self.body,
            r.headers.wf(),
            r.headers@ == self.headers@.insert(
                crate::wire::lower(name.spec_bytes()),
                value.spec_bytes(),
            ),
            !self.headers@.contains_key(crate::wire::lower(name.spec_bytes()))
                ==> r.headers.pairs_view() == self.headers.pairs_view().push(
                (crate::wire::lower(name.spec_bytes()), value.spec_bytes()),
            ),
    {
        let mut r = self;
        r.headers.insert(name, value);
        r
    }

    /// Set the body from a UTF-8 string.
    pub fn with_body(self, message: &str) -> (r: HttpResponse)
        ensures
            r.status == self.status,
            r.headers == self.headers,
            r.body@ == message.spec_bytes(),
    {
        let mut body: Vec<u8> = Vec::new();
        push_bytes(&mut body, message.as_bytes());
        proof {
            assert(body@ =~= message.spec_bytes());
        }
        HttpResponse { body, ..self }
    }
}

// ---------------------------------------------------------------------------
// The SHA-256 trailer digest
// ---------------------------------------------------------------------------

/// The SHA-256 digest of a byte string, named abstractly: a function of
/// the bytes alone.
pub uninterp spec fn sha256_digest(data: Seq<u8>) -> Seq<u8>;

/// Relies on sha2's `Sha256::digest`: the SHA-256 digest of the input,
/// which depends on the input bytes alone and is exactly 32 bytes long.
#[verifier::external_body]
fn sha256(data: &[u8]) -> (r: Vec<u8>)
    ensures
        r@ == sha256_digest(data@),
        r@.len() == 32,
{
    sha2::Sha256::digest(data).to_vec()
}

// ---------------------------------------------------------------------------
// The streaming writer
// ---------------------------------------------------------------------------

/// The phase the writer stands in; phases only advance.
#[derive(Debug, Clone, Copy, PartialEq, Eq, Structural)]
pub enum WriterState {
    Initial,
    WritingHeaders,
    WritingBodyFull,
    WritingBodyChunked,
    WritingTrailers,
    Done,
}

/// The trailer block of a chunked response computed over the body that
/// was sent: the digest line, the length line, and the final CRLF.
pub open spec fn trailer_bytes(body: Seq<u8>) -> Seq<u8> {
    "X-Content-SHA256: ".spec_bytes() + hex_of_bytes(sha256_digest(body)) + seq![13u8, 10u8]
        + "X-Content-Length: ".spec_bytes() + dec_of(body.len() as int) + seq![13u8, 10u8]
        + seq![13u8, 10u8]
}

/// A streaming response writer bound to a byte sink. Every operation
/// requires its phase and appends exactly its wire form to the sink, so
/// calling operations out of phase is rejected and the emitted bytes are
/// pinned down completely.
#[derive(Debug)]
pub struct ResponseWriter {
    pub out: Vec<u8>,
    pub state: WriterState,
}

impl ResponseWriter {
    /// A writer bound to `out`; what it writes is appended there.
    pub fn from(out: Vec<u8>) -> (r: ResponseWriter)
        ensures
            r.state == WriterState::Initial,
            r.out == out,
    {
        ResponseWriter { out, state: WriterState::Initial }
    }

    /// Hand the accumulated wire bytes out and reset the sink.
    pub fn take_output(&mut self) -> (r: Vec<u8>)
        ensures
            r == old(self).out,
            final(self).out@ == Seq::<u8>::empty(),
            final(self).state == old(self).state,
    {
        let mut out: Vec<u8> = Vec::new();
        core::mem::swap(&mut out, &mut self.out);
        proof {
            assert(self.out@ =~= Seq::<u8>::empty());
        }
        out
    }

    /// Emit `HTTP/1.1 <code> <reason>` and CRLF.
    pub fn write_status(&mut self, status: &HttpStatus)
        requires
            old(self).state == WriterState::Initial,
        ensures
            final(self).state == WriterState::WritingHeaders,
            final(self).out@ == old(self).out@ + status_line(*status),
    {
        let line = status_line_bytes(status);
        push_bytes(&mut self.out, line.as_slice());
        self.state = WriterState::WritingHeaders;
    }

    /// Emit every header line and the terminating CRLF. If the headers
    /// carry `Transfer-Encoding: chunked` the body phase is chunked,
    /// otherwise fixed.
    pub fn write_headers(&mut self, headers: &Headers)
        requires
            old(self).state == WriterState::WritingHeaders,
            headers.wf(),
        ensures
            final(self).out@ == old(self).out@ + spec_serialize(headers.pairs_view()) + seq![
                13u8,
                10u8,
            ],
            final(self).state == (if headers@.contains_key(te_key()) && headers@[te_key()]
                == chunked_val() {
                WriterState::WritingBodyChunked
            } else {
                WriterState::WritingBodyFull
            }),
    {
        let lines = headers.serialize();
        push_bytes(&mut self.out, lines.as_slice());
        self.out.push(13);
        self.out.push(10);
        let te = te_key_vec();
        let chunked = match headers.get_bytes(te.as_slice()) {
            Some(v) => {
                let cv = chunked_val_vec();
                eq_bytes(v.as_slice(), cv.as_slice())
            },
            None => false,
        };
        self.state = if chunked {
            WriterState::WritingBodyChunked
        } else {
            WriterState::WritingBodyFull
        };
        proof {
            assert(self.out@ =~= old(self).out@ + spec_serialize(headers.pairs_view()) + seq![
                13u8,
                10u8,
            ]);
        }
    }

    /// Emit the whole body verbatim.
    pub fn write_body_full(&mut self, response_body: &[u8])
        requires
            old(self).state == WriterState::WritingBodyFull,
        ensures
            final(self).state == WriterState::Done,
            final(self).out@ == old(self).out@ + response_body@,
    {
        push_bytes(&mut self.out, response_body);
        self.state = WriterState::Done;
    }

    /// Emit one chunk: its size in lowercase hex, CRLF, the bytes, CRLF.
    /// An empty chunk ends the chunked body instead, as
    /// `write_chunked_body_done` does.
    pub fn write_chunked_body(&mut self, chunk: &[u8])
        requires
            old(self).state == WriterState::WritingBodyChunked,
        ensures
            chunk@.len() > 0 ==> final(self).state == WriterState::WritingBodyChunked && final(self).out@ == old(self).out@ + chunk_encoding(chunk@),
            chunk@.len() == 0 ==> final(self).state == WriterState::WritingTrailers && final(self).out@ == old(self).out@ + seq![48u8, 13u8, 10u8],
    {
        if chunk.len() == 0 {
            self.write_chunked_body_done();
            return ;
        }
        let size = hex_encode(chunk.len());
        push_bytes(&mut self.out, size.as_slice());
        self.out.push(13);
        self.out.push(10);
        push_bytes(&mut self.out, chunk);
        self.out.push(13);
        self.out.push(10);
        proof {
            assert(self.out@ =~= old(self).out@ + chunk_encoding(chunk@));
        }
    }

    /// Emit the zero-size chunk line `0` CRLF that ends a chunked body.
    pub fn write_chunked_body_done(&mut self)
        requires
            old(self).state == WriterState::WritingBodyChunked,
        ensures
            final(self).state == WriterState::WritingTrailers,
            final(self).out@ == old(self).out@ + seq![48u8, 13u8, 10u8],
    {
        self.out.push(48);
        self.out.push(13);
        self.out.push(10);
        self.state = WriterState::WritingTrailers;
        proof {
            assert(self.out@ =~= old(self).out@ + seq![48u8, 13u8, 10u8]);
        }
    }

    /// Emit the trailer block for the body that was sent: its SHA-256 in
    /// lowercase hex, its decimal length, and the final CRLF.
    pub fn write_trailers(&mut self, body: &[u8])
        requires
            old(self).state == WriterState::WritingTrailers,
        ensures
            final(self).state == WriterState::Done,
            final(self).out@ == old(self).out@ + trailer_bytes(body@),
    {
        let digest = sha256(body);
        let digest_hex = hex_bytes(digest.as_slice());
        push_bytes(&mut self.out, "X-Content-SHA256: ".as_bytes());
        push_bytes(&mut self.out, digest_hex.as_slice());
        self.out.push(13);
        self.out.push(10);
        push_bytes(&mut self.out, "X-Content-Length: ".as_bytes());
        let len_dec = dec_encode(body.len());
        push_bytes(&mut self.out, len_dec.as_slice());
        self.out.push(13);
        self.out.push(10);
        self.out.push(13);
        self.out.push(10);
        self.state = WriterState::Done;
        proof {
            assert(self.out@ =~= old(self).out@ + trailer_bytes(body@));
        }
    }

    /// Convenience for a non-chunked response: status, headers, body.
    pub fn write_all(&mut self, response: &HttpResponse)
        requires
            old(self).state == WriterState::Initial,
            response.headers.wf(),
            !(response.headers@.contains_key(te_key()) && response.headers@[te_key()]
                == chunked_val()),
        ensures
            final(self).state == WriterState::Done,
            final(self).out@ == old(self).out@ + status_line(response.status) + spec_serialize(
                response.headers.pairs_view(),
            ) + seq![13u8, 10u8] + response.body@,
    {
        self.write_status(&response.status);
        self.write_headers(&response.headers);
        self.write_body_full(response.body.as_slice());
        proof {
            assert(self.out@ =~= old(self).out@ + status_line(response.status) + spec_serialize(
                response.headers.pairs_view(),
            ) + seq![13u8, 10u8] + response.body@);
        }
    }
}

} // verus!
