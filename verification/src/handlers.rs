//! What the server answers: canned pages, the route table decision, and
//! the per-request plan a connection handler executes. Everything here is
//! pure; performing the plan (writing to the socket, fetching an
//! upstream, streaming a file) is the caller's business.

use vstd::prelude::*;
use vstd::slice::{slice_subrange, slice_to_vec};
use vstd::string::StringSliceAdditionalSpecFns;
use crate::headers::{Headers, cl_key, cl_key_vec, eq_bytes};
use crate::num::{dec_of, dec_encode};
use crate::request::HttpRequest;
use crate::response::{
    HttpResponse, HttpStatus, connection_key, close_val, content_type_key, connection_key_vec,
    close_val_vec, content_type_key_vec,
};
use crate::wire::push_bytes;

verus! {

// ---------------------------------------------------------------------------
// Canned pages
// ---------------------------------------------------------------------------

/// The canned page for a plain `200 OK`.
pub open spec fn default_body_text() -> Seq<char> {
    "<html>\n  <head>\n    <title>200 OK</title>\n  </head>\n  <body>\n    <h1>Success!</h1>\n    <p>Your request was an absolute banger.</p>\n  </body>\n</html>\n"@
}

pub fn default_body() -> (r: &'static str)
    ensures
        r@ == default_body_text(),
{
    "<html>\n  <head>\n    <title>200 OK</title>\n  </head>\n  <body>\n    <h1>Success!</h1>\n    <p>Your request was an absolute banger.</p>\n  </body>\n</html>\n"
}

/// The canned page for `400 Bad Request`.
pub open spec fn bad_request_body_text() -> Seq<char> {
    "<html>\n  <head>\n    <title>400 Bad Request</title>\n  </head>\n  <body>\n    <h1>Bad Request</h1>\n    <p>Your request honestly kinda sucked.</p>\n  </body>\n</html>\n"@
}

pub fn bad_request_body() -> (r: &'static str)
    ensures
        r@ == bad_request_body_text(),
{
    "<html>\n  <head>\n    <title>400 Bad Request</title>\n  </head>\n  <body>\n    <h1>Bad Request</h1>\n    <p>Your request honestly kinda sucked.</p>\n  </body>\n</html>\n"
}

/// The canned page for `500 Internal Server Error`.
pub open spec fn internal_error_body_text() -> Seq<char> {
    "<html>\n  <head>\n    <title>500 Internal Server Error</title>\n  </head>\n  <body>\n    <h1>Internal Server Error</h1>\n    <p>Okay, you know what? This one is on me.</p>\n  </body>\n</html>\n"@
}

pub fn internal_error_body() -> (r: &'static str)
    ensures
        r@ == internal_error_body_text(),
{
    "<html>\n  <head>\n    <title>500 Internal Server Error</title>\n  </head>\n  <body>\n    <h1>Internal Server Error</h1>\n    <p>Okay, you know what? This one is on me.</p>\n  </body>\n</html>\n"
}

/// The value `text/html`.
pub open spec fn text_html_val() -> Seq<u8> {
    seq![116u8, 101u8, 120u8, 116u8, 47u8, 104u8, 116u8, 109u8, 108u8]
}

pub fn text_html_val_vec() -> (r: Vec<u8>)
    ensures
        r@ == text_html_val(),
{
    let mut v: Vec<u8> = Vec::new();
    v.push(116);
    v.push(101);
    v.push(120);
    v.push(116);
    v.push(47);
    v.push(104);
    v.push(116);
    v.push(109);
    v.push(108);
    proof {
        assert(v@ =~= text_html_val());
    }
    v
}

// ---------------------------------------------------------------------------
// Handler failure
// ---------------------------------------------------------------------------

/// A handler's failure: the status to answer with and a message that
/// becomes the reply body.
#[derive(Debug)]
pub struct HandlerError {
    pub status_code: HttpStatus,
    pub message: String,
}

impl HandlerError {
    /// The best-effort response for this failure: its status, its message
    /// as the body, and the default headers for that body.
    pub fn to_response(&self) -> (r: HttpResponse)
        ensures
            r.status == self.status_code,
            r.body@ == vstd::utf8::encode_utf8(self.message@),
            r.headers.wf(),
            r.headers@ == crate::response::default_headers_map(
                vstd::utf8::encode_utf8(self.message@).len() as int,
            ),
    {
        HttpResponse::new().with_status(self.status_code).with_body(
            self.message.as_str(),
        ).with_default_headers()
    }
}

// ---------------------------------------------------------------------------
// Canned page construction
// ---------------------------------------------------------------------------

/// An HTML page response: the given status and body, the default headers
/// for that body, and `Content-Type: text/html`.
pub fn page_response(status: HttpStatus, body: &str) -> (r: HttpResponse)
    ensures
        r.status == status,
        r.body@ == body.spec_bytes(),
        r.headers.wf(),
        r.headers.pairs_view() == seq![
            (cl_key(), dec_of(body.spec_bytes().len() as int)),
            (connection_key(), close_val()),
            (content_type_key(), text_html_val()),
        ],
        r.headers@ == crate::response::default_headers_map(
            body.spec_bytes().len() as int,
        ).insert(content_type_key(), text_html_val()),
{
    let mut body_vec: Vec<u8> = Vec::new();
    push_bytes(&mut body_vec, body.as_bytes());
    proof {
        assert(body_vec@ =~= body.spec_bytes());
    }
    let mut headers = Headers::new();
    headers.put(cl_key_vec(), dec_encode(body_vec.len()));
    headers.put(connection_key_vec(), close_val_vec());
    headers.put(content_type_key_vec(), text_html_val_vec());
    proof {
        assert(headers.pairs_view() =~= seq![
            (cl_key(), dec_of(body.spec_bytes().len() as int)),
            (connection_key(), close_val()),
            (content_type_key(), text_html_val()),
        ]);
        assert(headers@ =~= crate::response::default_headers_map(
            body.spec_bytes().len() as int,
        ).insert(content_type_key(), text_html_val()));
    }
    HttpResponse { status, headers, body: body_vec }
}

// ---------------------------------------------------------------------------
// Routing
// ---------------------------------------------------------------------------

pub open spec fn is_prefix(p: Seq<u8>, s: Seq<u8>) -> bool {
    p.len() <= s.len() && s.take(p.len() as int) == p
}

pub fn starts_with_bytes(s: &[u8], p: &[u8]) -> (r: bool)
    ensures
        r == is_prefix(p@, s@),
{
    if p.len() > s.len() {
        return false;
    }
    let head = slice_subrange(s, 0, p.len());
    proof {
        assert(head@ =~= s@.take(p@.len() as int));
    }
    eq_bytes(head, p)
}

/// Where a request goes: one of the canned pages, the upstream proxy, or
/// the video stream.
#[derive(Debug, Clone, Copy, PartialEq, Eq, Structural)]
pub enum Route {
    BadRequestPage,
    InternalErrorPage,
    Proxy,
    Video,
    DefaultPage,
}

pub open spec fn yourproblem_prefix() -> Seq<u8> {
    seq![47u8, 121u8, 111u8, 117u8, 114u8, 112u8, 114u8, 111u8, 98u8, 108u8, 101u8, 109u8]
}

pub open spec fn myproblem_prefix() -> Seq<u8> {
    seq![47u8, 109u8, 121u8, 112u8, 114u8, 111u8, 98u8, 108u8, 101u8, 109u8]
}

pub open spec fn httpbin_prefix() -> Seq<u8> {
    seq![47u8, 104u8, 116u8, 116u8, 112u8, 98u8, 105u8, 110u8]
}

pub open spec fn video_prefix() -> Seq<u8> {
    seq![47u8, 118u8, 105u8, 100u8, 101u8, 111u8]
}

fn yourproblem_prefix_vec() -> (r: Vec<u8>)
    ensures
        r@ == yourproblem_prefix(),
{
    let mut v: Vec<u8> = Vec::new();
    v.push(47);
    v.push(121);
    v.push(111);
    v.push(117);
    v.push(114);
    v.push(112);
    v.push(114);
    v.push(111);
    v.push(98);
    v.push(108);
    v.push(101);
    v.push(109);
    proof {
        assert(v@ =~= yourproblem_prefix());
    }
    v
}

fn myproblem_prefix_vec() -> (r: Vec<u8>)
    ensures
        r@ == myproblem_prefix(),
{
    let mut v: Vec<u8> = Vec::new();
    v.push(47);
    v.push(109);
    v.push(121);
    v.push(112);
    v.push(114);
    v.push(111);
    v.push(98);
    v.push(108);
    v.push(101);
    v.push(109);
    proof {
        assert(v@ =~= myproblem_prefix());
    }
    v
}

fn httpbin_prefix_vec() -> (r: Vec<u8>)
    ensures
        r@ == httpbin_prefix(),
{
    let mut v: Vec<u8> = Vec::new();
    v.push(47);
    v.push(104);
    v.push(116);
    v.push(116);
    v.push(112);
    v.push(98);
    v.push(105);
    v.push(110);
    proof {
        assert(v@ =~= httpbin_prefix());
    }
    v
}

fn video_prefix_vec() -> (r: Vec<u8>)
    ensures
        r@ == video_prefix(),
{
    let mut v: Vec<u8> = Vec::new();
    v.push(47);
    v.push(118);
    v.push(105);
    v.push(100);
    v.push(101);
    v.push(111);
    proof {
        assert(v@ =~= video_prefix());
    }
    v
}

/// The fixed route table: the first matching path prefix decides, and
/// anything else gets the default page.
pub open spec fn spec_route(target: Seq<u8>) -> Route {
    if is_prefix(yourproblem_prefix(), target) {
        Route::BadRequestPage
    } else if is_prefix(myproblem_prefix(), target) {
        Route::InternalErrorPage
    } else if is_prefix(httpbin_prefix(), target) {
        Route::Proxy
    } else if is_prefix(video_prefix(), target) {
        Route::Video
    } else {
        Route::DefaultPage
    }
}

/// Pick the route for a request target.
pub fn select_route(target: &[u8]) -> (r: Route)
    ensures
        r == spec_route(target@),
{
    if starts_with_bytes(target, yourproblem_prefix_vec().as_slice()) {
        Route::BadRequestPage
    } else if starts_with_bytes(target, myproblem_prefix_vec().as_slice()) {
        Route::InternalErrorPage
    } else if starts_with_bytes(target, httpbin_prefix_vec().as_slice()) {
        Route::Proxy
    } else if starts_with_bytes(target, video_prefix_vec().as_slice()) {
        Route::Video
    } else {
        Route::DefaultPage
    }
}

// ---------------------------------------------------------------------------
// The proxy endpoint
// ---------------------------------------------------------------------------

/// The pattern `httpbin/` that the proxy target is split on.
pub open spec fn httpbin_pat() -> Seq<u8> {
    seq![104u8, 116u8, 116u8, 112u8, 98u8, 105u8, 110u8, 47u8]
}

fn httpbin_pat_vec() -> (r: Vec<u8>)
    ensures
        r@ == httpbin_pat(),
{
    let mut v: Vec<u8> = Vec::new();
    v.push(104);
    v.push(116);
    v.push(116);
    v.push(112);
    v.push(98);
    v.push(105);
    v.push(110);
    v.push(47);
    proof {
        assert(v@ =~= httpbin_pat());
    }
    v
}

/// Position of the first occurrence of `p` in `s`, if any.
pub open spec fn find_sub(s: Seq<u8>, p: Seq<u8>) -> Option<int>
    decreases s.len(),
{
    if p.len() == 0 {
        Some(0)
    } else if s.len() < p.len() {
        None
    } else if s.take(p.len() as int) == p {
        Some(0)
    } else {
        match find_sub(s.drop_first(), p) {
            Some(i) => Some(i + 1),
            None => None,
        }
    }
}

pub open spec fn sub_at(s: Seq<u8>, p: Seq<u8>, i: int) -> bool {
    0 <= i && i + p.len() <= s.len() && s.subrange(i, i + p.len()) == p
}

pub proof fn lemma_find_sub_props(s: Seq<u8>, p: Seq<u8>)
    ensures
        match find_sub(s, p) {
            Some(i) => sub_at(s, p, i) && forall|j: int| 0 <= j < i ==> !sub_at(s, p, j),
            None => forall|j: int| !sub_at(s, p, j),
        },
    decreases s.len(),
{
    if p.len() == 0 {
        assert(s.subrange(0, 0) =~= p);
    } else if s.len() < p.len() {
        assert forall|j: int| !sub_at(s, p, j) by {}
    } else if s.take(p.len() as int) == p {
        assert(s.subrange(0, p.len() as int) =~= s.take(p.len() as int));
    } else {
        let t = s.drop_first();
        lemma_find_sub_props(t, p);
        assert(s.subrange(0, p.len() as int) =~= s.take(p.len() as int));
        assert forall|j: int| sub_at(s, p, j) && j >= 1 implies sub_at(t, p, j - 1) by {
            assert(t.subrange(j - 1, j - 1 + p.len()) =~= s.subrange(j, j + p.len()));
        }
        match find_sub(t, p) {
            Some(i) => {
                assert(sub_at(s, p, i + 1)) by {
                    assert(s.subrange(i + 1, i + 1 + p.len()) =~= t.subrange(i, i + p.len()));
                }
                assert forall|j: int| 0 <= j < i + 1 implies !sub_at(s, p, j) by {
                    if j >= 1 {
                        assert(!sub_at(t, p, j - 1));
                    }
                }
            },
            None => {
                assert forall|j: int| !sub_at(s, p, j) by {
                    if j >= 1 && sub_at(s, p, j) {
                        assert(sub_at(t, p, j - 1));
                    }
                }
            },
        }
    }
}

fn find_sub_at(s: &[u8], p: &[u8]) -> (r: Option<usize>)
    requires
        p@.len() > 0,
    ensures
        match r {
            Some(i) => find_sub(s@, p@) == Some(i as int),
            None => find_sub(s@, p@) is None,
        },
{
    let n = s.len();
    let plen = p.len();
    if plen > n {
        proof {
            lemma_find_sub_props(s@, p@);
            if find_sub(s@, p@) is Some {
                assert(sub_at(s@, p@, find_sub(s@, p@)->Some_0));
            }
        }
        return None;
    }
    let mut i: usize = 0;
    while i <= n - plen
        invariant
            n == s@.len(),
            plen == p@.len(),
            0 < plen <= n,
            i <= n - plen + 1,
            forall|j: int| 0 <= j < i ==> !sub_at(s@, p@, j),
        decreases n - i,
    {
        let window = slice_subrange(s, i, i + plen);
        proof {
            assert(window@ =~= s@.subrange(i as int, i + plen));
        }
        if eq_bytes(window, p) {
            proof {
                lemma_find_sub_props(s@, p@);
                assert(sub_at(s@, p@, i as int));
                match find_sub(s@, p@) {
                    Some(k) => {
                        if k < i {
                            assert(!sub_at(s@, p@, k));
                        } else if k > i {
                            assert(!sub_at(s@, p@, i as int));
                        }
                    },
                    None => {
                        assert(!sub_at(s@, p@, i as int));
                    },
                }
            }
            return Some(i);
        }
        i = i + 1;
    }
    proof {
        lemma_find_sub_props(s@, p@);
        if find_sub(s@, p@) is Some {
            let k = find_sub(s@, p@)->Some_0;
            assert(sub_at(s@, p@, k));
            assert(!sub_at(s@, p@, k));
        }
    }
    None
}

/// The upstream path of a proxy target: everything after the first
/// `httpbin/`, if the target has one.
pub fn proxy_endpoint(target: &[u8]) -> (r: Option<Vec<u8>>)
    ensures
        match r {
            Some(ep) => find_sub(target@, httpbin_pat()) matches Some(i) && ep@ == target@.skip(
                i + httpbin_pat().len(),
            ),
            None => find_sub(target@, httpbin_pat()) is None,
        },
{
    let pat = httpbin_pat_vec();
    let tlen = target.len();
    match find_sub_at(target, pat.as_slice()) {
        Some(i) => {
            proof {
                lemma_find_sub_props(target@, httpbin_pat());
                assert(sub_at(target@, httpbin_pat(), i as int));
                assert(i + pat@.len() <= tlen);
            }
            let ep = slice_to_vec(slice_subrange(target, i + pat.len(), target.len()));
            proof {
                assert(ep@ =~= target@.skip(i + httpbin_pat().len()));
            }
            Some(ep)
        },
        None => None,
    }
}

// ---------------------------------------------------------------------------
// The per-request plan
// ---------------------------------------------------------------------------

/// What a connection handler must do for a request: answer with a ready
/// response, proxy to the upstream path, or stream the video file.
#[derive(Debug)]
pub enum DispatchPlan {
    Respond(HttpResponse),
    ProxyTo(Vec<u8>),
    StreamVideo,
}

/// The response is the HTML page `text` under `status`: that body, the
/// default headers computed for it, and `Content-Type: text/html`.
pub open spec fn is_html_page(resp: HttpResponse, status: HttpStatus, text: Seq<char>) -> bool {
    &&& resp.status == status
    &&& resp.body@ == vstd::utf8::encode_utf8(text)
    &&& resp.headers@ == crate::response::default_headers_map(
        vstd::utf8::encode_utf8(text).len() as int,
    ).insert(content_type_key(), text_html_val())
}

/// Decide a request: the canned pages answer directly; the proxy and
/// video routes hand work back to the caller; a request without a request
/// line, or a proxy target without an upstream path, fails.
pub fn dispatch_plan(req: &HttpRequest) -> (r: Result<DispatchPlan, HandlerError>)
    ensures
        req.request_line is None ==> (r matches Err(e) && e.status_code
            == HttpStatus::InternalServerError),
        req.request_line matches Some(rl) ==> match spec_route(rl.target@) {
            Route::BadRequestPage => r matches Ok(p) && p matches DispatchPlan::Respond(resp)
                && is_html_page(resp, HttpStatus::BadRequest, bad_request_body_text()),
            Route::InternalErrorPage => r matches Ok(p) && p matches DispatchPlan::Respond(resp)
                && is_html_page(resp, HttpStatus::InternalServerError, internal_error_body_text()),
            Route::DefaultPage => r matches Ok(p) && p matches DispatchPlan::Respond(resp)
                && is_html_page(resp, HttpStatus::Okay, default_body_text()),
            Route::Proxy => match find_sub(rl.target@, httpbin_pat()) {
                Some(i) => r matches Ok(p) && p matches DispatchPlan::ProxyTo(ep) && ep@
                    == rl.target@.skip(i + httpbin_pat().len()),
                None => r matches Err(e) && e.status_code == HttpStatus::InternalServerError,
            },
            Route::Video => r matches Ok(p) && p is StreamVideo,
        },
{
    match &req.request_line {
        None => Err(
            HandlerError {
                status_code: HttpStatus::InternalServerError,
                message: String::from_str("No request line found"),
            },
        ),
        Some(rl) => {
            match select_route(rl.target.as_slice()) {
                Route::BadRequestPage => Ok(
                    DispatchPlan::Respond(
                        page_response(HttpStatus::BadRequest, bad_request_body()),
                    ),
                ),
                Route::InternalErrorPage => Ok(
                    DispatchPlan::Respond(
                        page_response(HttpStatus::InternalServerError, internal_error_body()),
                    ),
                ),
                Route::DefaultPage => Ok(
                    DispatchPlan::Respond(page_response(HttpStatus::Okay, default_body())),
                ),
                Route::Video => Ok(DispatchPlan::StreamVideo),
                Route::Proxy => match proxy_endpoint(rl.target.as_slice()) {
                    Some(ep) => Ok(DispatchPlan::ProxyTo(ep)),
                    None => Err(
                        HandlerError {
                            status_code: HttpStatus::InternalServerError,
                            message: String::from_str("invalid endpoint"),
                        },
                    ),
                },
            }
        },
    }
}

} // verus!
