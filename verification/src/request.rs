//! The request side of the codec: the request line, the request value,
//! and the incremental state-machine parser that fills it from a byte
//! stream delivered in arbitrary pieces.

use vstd::prelude::*;
use vstd::slice::{slice_subrange, slice_to_vec, slice_index_get};
use vstd::string::StringSliceAdditionalSpecFns;
use crate::wire::{
    is_ws, lower, lower_bytes, find_crlf, find_crlf_at, find_byte, byte_is_ws, push_bytes,
};
use crate::headers::{
    Headers, HeaderLine, spec_parse_header_line, merge_map, te_key, cl_key, chunked_val,
    te_key_vec, cl_key_vec, chunked_val_vec, eq_bytes,
};
use crate::num::{parse_dec, parse_hex, dec_parse, hex_parse};
use crate::ParseError;

verus! {

// ---------------------------------------------------------------------------
// Closed enumerations
// ---------------------------------------------------------------------------

/// Where the request parser stands.
#[derive(Debug, Clone, Copy, PartialEq, Eq, Structural)]
pub enum ParserState {
    Initialized,
    ParsingHeaders,
    ParsingBodyFull,
    ParsingBodyChunked,
    Done,
}

#[derive(Debug, Clone, Copy, PartialEq, Eq, Structural)]
pub enum HttpMethod {
    Get,
    Post,
}

#[derive(Debug, Clone, Copy, PartialEq, Eq, Structural)]
pub enum HttpVersion {
    HTTP11,
}

// ---------------------------------------------------------------------------
// Whitespace tokenization
// ---------------------------------------------------------------------------

/// Length of the leading run of non-whitespace bytes.
pub open spec fn token_run(s: Seq<u8>) -> int
    decreases s.len(),
{
    if s.len() == 0 || is_ws(s[0]) {
        0
    } else {
        1 + token_run(s.drop_first())
    }
}

pub proof fn lemma_token_run(s: Seq<u8>)
    ensures
        0 <= token_run(s) <= s.len(),
        forall|i: int| 0 <= i < token_run(s) ==> !is_ws(s[i]),
        token_run(s) == s.len() || is_ws(s[token_run(s)]),
    decreases s.len(),
{
    if s.len() == 0 || is_ws(s[0]) {
    } else {
        let t = s.drop_first();
        lemma_token_run(t);
        assert(forall|i: int| 1 <= i < s.len() ==> s[i] == t[i - 1]);
        assert forall|i: int| 0 <= i < token_run(s) implies !is_ws(s[i]) by {
            if i >= 1 {
                assert(!is_ws(t[i - 1]));
            }
        }
    }
}

pub proof fn lemma_token_run_exact(s: Seq<u8>, k: int)
    requires
        0 <= k <= s.len(),
        forall|i: int| 0 <= i < k ==> !is_ws(s[i]),
        k == s.len() || is_ws(s[k]),
    ensures
        token_run(s) == k,
    decreases k,
{
    if k == 0 {
    } else {
        lemma_token_run_exact(s.drop_first(), k - 1);
    }
}

/// The maximal non-whitespace runs of `s`, in order.
pub open spec fn tokens(s: Seq<u8>) -> Seq<Seq<u8>>
    decreases s.len(),
    via tokens_dec
{
    if s.len() == 0 {
        Seq::empty()
    } else if is_ws(s[0]) {
        tokens(s.drop_first())
    } else {
        seq![s.take(token_run(s))] + tokens(s.skip(token_run(s)))
    }
}

#[via_fn]
proof fn tokens_dec(s: Seq<u8>) {
    lemma_token_run(s);
}

fn tokenize(s: &[u8]) -> (r: Vec<Vec<u8>>)
    ensures
        r@.map_values(|v: Vec<u8>| v@) == tokens(s@),
{
    let n = s.len();
    let mut out: Vec<Vec<u8>> = Vec::new();
    let mut pos: usize = 0;
    proof {
        assert(s@.skip(0) =~= s@);
    }
    while pos < n
        invariant
            n == s@.len(),
            pos <= n,
            tokens(s@) == out@.map_values(|v: Vec<u8>| v@) + tokens(s@.skip(pos as int)),
        decreases n - pos,
    {
        if byte_is_ws(s[pos]) {
            proof {
                assert(s@.skip(pos as int).drop_first() =~= s@.skip(pos + 1));
            }
            pos = pos + 1;
        } else {
            let start = pos;
            let mut end = pos;
            while end < n && !byte_is_ws(s[end])
                invariant
                    n == s@.len(),
                    start <= end <= n,
                    forall|i: int| start <= i < end ==> !is_ws(s@[i]),
                decreases n - end,
            {
                end = end + 1;
            }
            let tok = slice_to_vec(slice_subrange(s, start, end));
            out.push(tok);
            proof {
                let tail = s@.skip(start as int);
                assert(forall|i: int| 0 <= i < end - start ==> tail[i] == s@[start + i]);
                lemma_token_run_exact(tail, end - start);
                assert(tail.take(end - start) =~= s@.subrange(start as int, end as int));
                assert(tail.skip(end - start) =~= s@.skip(end as int));
                assert(tokens(tail) == seq![s@.subrange(start as int, end as int)] + tokens(
                    s@.skip(end as int),
                ));
                assert(out@.map_values(|v: Vec<u8>| v@) =~= out@.map_values(
                    |v: Vec<u8>| v@,
                ).drop_last().push(s@.subrange(start as int, end as int)));
                assert(out@.map_values(|v: Vec<u8>| v@) + tokens(s@.skip(end as int)) =~= tokens(
                    s@,
                ));
            }
            pos = end;
        }
    }
    proof {
        assert(tokens(s@.skip(n as int)) =~= Seq::<Seq<u8>>::empty());
        assert(out@.map_values(|v: Vec<u8>| v@) =~= tokens(s@));
    }
    out
}

// ---------------------------------------------------------------------------
// Method and version tokens
// ---------------------------------------------------------------------------

/// The lowercase method name `get`.
pub open spec fn get_tok() -> Seq<u8> {
    seq![103u8, 101u8, 116u8]
}

/// The lowercase method name `post`.
pub open spec fn post_tok() -> Seq<u8> {
    seq![112u8, 111u8, 115u8, 116u8]
}

/// The lowercase version token `http/1.1`.
pub open spec fn http11_tok() -> Seq<u8> {
    seq![104u8, 116u8, 116u8, 112u8, 47u8, 49u8, 46u8, 49u8]
}

/// Case-insensitive recognition of the closed method set.
pub open spec fn method_of(tok: Seq<u8>) -> Option<HttpMethod> {
    if lower(tok) == get_tok() {
        Some(HttpMethod::Get)
    } else if lower(tok) == post_tok() {
        Some(HttpMethod::Post)
    } else {
        None
    }
}

/// Case-insensitive recognition of the only accepted version.
pub open spec fn version_ok(tok: Seq<u8>) -> bool {
    lower(tok) == http11_tok()
}

fn get_tok_vec() -> (r: Vec<u8>)
    ensures
        r@ == get_tok(),
{
    let mut v: Vec<u8> = Vec::new();
    v.push(103);
    v.push(101);
    v.push(116);
    proof {
        assert(v@ =~= get_tok());
    }
    v
}

fn post_tok_vec() -> (r: Vec<u8>)
    ensures
        r@ == post_tok(),
{
    let mut v: Vec<u8> = Vec::new();
    v.push(112);
    v.push(111);
    v.push(115);
    v.push(116);
    proof {
        assert(v@ =~= post_tok());
    }
    v
}

fn http11_tok_vec() -> (r: Vec<u8>)
    ensures
        r@ == http11_tok(),
{
    let mut v: Vec<u8> = Vec::new();
    v.push(104);
    v.push(116);
    v.push(116);
    v.push(112);
    v.push(47);
    v.push(49);
    v.push(46);
    v.push(49);
    proof {
        assert(v@ =~= http11_tok());
    }
    v
}

// ---------------------------------------------------------------------------
// The request line
// ---------------------------------------------------------------------------

/// The abstract value of a request line.
pub ghost struct ReqLineModel {
    pub method: HttpMethod,
    pub target: Seq<u8>,
    pub version: HttpVersion,
}

/// The first line of a request: method, target, version. The target is
/// stored trimmed and lowercased.
#[derive(Debug, Clone)]
pub struct RequestLine {
    pub method: HttpMethod,
    pub target: Vec<u8>,
    pub version: HttpVersion,
}

impl View for RequestLine {
    type V = ReqLineModel;

    open spec fn view(&self) -> ReqLineModel {
        ReqLineModel { method: self.method, target: self.target@, version: self.version }
    }
}

/// What parsing a request line off the front of the buffer yields.
pub enum LineParse {
    /// No CRLF yet: more bytes are needed.
    Incomplete,
    /// The line violates request-line syntax.
    Malformed,
    /// A parsed line and the bytes consumed (line and CRLF).
    Parsed { line: ReqLineModel, consumed: int },
}

/// Parse a request line off the front of `s`: split at the first CRLF,
/// split the line into whitespace-separated tokens, and require exactly
/// a known method, a target beginning with `/`, and the version `HTTP/1.1`,
/// each matched case-insensitively where words are closed.
pub open spec fn spec_parse_request_line(s: Seq<u8>) -> LineParse {
    match find_crlf(s) {
        None => LineParse::Incomplete,
        Some(i) => {
            let tks = tokens(s.take(i));
            if tks.len() != 3 {
                LineParse::Malformed
            } else {
                match method_of(tks[0]) {
                    None => LineParse::Malformed,
                    Some(m) => {
                        if !(tks[1].len() > 0 && tks[1][0] == 47) {
                            LineParse::Malformed
                        } else if !version_ok(tks[2]) {
                            LineParse::Malformed
                        } else {
                            LineParse::Parsed {
                                line: ReqLineModel {
                                    method: m,
                                    target: lower(tks[1]),
                                    version: HttpVersion::HTTP11,
                                },
                                consumed: i + 2,
                            }
                        }
                    },
                }
            }
        },
    }
}

impl RequestLine {
    /// Parse a request line off the front of `data`. `Ok((None, 0))` asks
    /// for more bytes; a syntax violation is an error.
    pub fn parse_request_line(data: &[u8]) -> (r: Result<(Option<RequestLine>, usize), ParseError>)
        ensures
            match spec_parse_request_line(data@) {
                LineParse::Incomplete => r matches Ok(p) && p.0 is None && p.1 == 0,
                LineParse::Malformed => r matches Err(e) && e == ParseError::MalformedRequestLine,
                LineParse::Parsed { line, consumed } => r matches Ok(p) && p.0 matches Some(rl)
                    && rl@ == line && p.1 == consumed,
            },
    {
        let dlen = data.len();
        let i = match find_crlf_at(data) {
            None => {
                return Ok((None, 0));
            },
            Some(i) => i,
        };
        proof {
            crate::wire::lemma_find_crlf_props(data@);
            assert(crate::wire::crlf_at(data@, i as int));
            assert(i + 2 <= dlen);
        }
        let line = slice_subrange(data, 0, i);
        proof {
            assert(line@ =~= data@.take(i as int));
        }
        let toks = tokenize(line);
        if toks.len() != 3 {
            return Err(ParseError::MalformedRequestLine);
        }
        proof {
            assert(tokens(line@).len() == 3);
        }
        let t0 = slice_index_get(toks.as_slice(), 0);
        let t1 = slice_index_get(toks.as_slice(), 1);
        let t2 = slice_index_get(toks.as_slice(), 2);
        proof {
            assert(t0@ == tokens(line@)[0]);
            assert(t1@ == tokens(line@)[1]);
            assert(t2@ == tokens(line@)[2]);
        }
        let m_low = lower_bytes(t0.as_slice());
        let method: HttpMethod;
        if eq_bytes(m_low.as_slice(), get_tok_vec().as_slice()) {
            method = HttpMethod::Get;
        } else if eq_bytes(m_low.as_slice(), post_tok_vec().as_slice()) {
            method = HttpMethod::Post;
        } else {
            return Err(ParseError::MalformedRequestLine);
        }
        if t1.len() == 0 || *slice_index_get(t1.as_slice(), 0) != 47 {
            return Err(ParseError::MalformedRequestLine);
        }
        let v_low = lower_bytes(t2.as_slice());
        if !eq_bytes(v_low.as_slice(), http11_tok_vec().as_slice()) {
            return Err(ParseError::MalformedRequestLine);
        }
        let target = lower_bytes(t1.as_slice());
        Ok((Some(RequestLine { method, target, version: HttpVersion::HTTP11 }), i + 2))
    }
}

// ---------------------------------------------------------------------------
// The request value
// ---------------------------------------------------------------------------

/// A request as the parser fills it: request line, header set, body bytes,
/// and the parser's own state.
#[derive(Debug)]
pub struct HttpRequest {
    pub parser_state: ParserState,
    pub request_line: Option<RequestLine>,
    pub headers: Headers,
    pub body: Vec<u8>,
}

impl HttpRequest {
    /// An empty request in the initial parser state.
    pub fn new() -> (r: HttpRequest)
        ensures
            r.parser_state == ParserState::Initialized,
            r.request_line is None,
            r.headers.wf(),
            r.headers@ == Map::<Seq<u8>, Seq<u8>>::empty(),
            r.headers.pairs_view() == Seq::<(Seq<u8>, Seq<u8>)>::empty(),
            r.body@ == Seq::<u8>::empty(),
    {
        let r = HttpRequest {
            parser_state: ParserState::Initialized,
            request_line: None,
            headers: Headers::new(),
            body: Vec::new(),
        };
        proof {
            assert(r.body@ =~= Seq::<u8>::empty());
        }
        r
    }

    /// The same request with its request line set.
    pub fn with_request_line(self, rl: RequestLine) -> (r: HttpRequest)
        ensures
            r.request_line matches Some(l) && l@ == rl@,
            r.parser_state == self.parser_state,
            r.headers == self.headers,
            r.body == self.body,
    {
        HttpRequest { request_line: Some(rl), ..self }
    }

    /// The same request with one header stored (replacing any previous
    /// value under the lowercased name).
    pub fn with_header(self, key: &str, value: &str) -> (r: HttpRequest)
        requires
            self.headers.wf(),
        ensures
            r.headers.wf(),
            r.headers@ == self.headers@.insert(
                lower(key.spec_bytes()),
                value.spec_bytes(),
            ),
            r.parser_state == self.parser_state,
            r.request_line == self.request_line,
            r.body == self.body,
    {
        let mut req = self;
        req.headers.insert(key, value);
        req
    }

    /// The same request with its body replaced.
    pub fn with_body(self, body: Vec<u8>) -> (r: HttpRequest)
        ensures
            r.body == body,
            r.parser_state == self.parser_state,
            r.request_line == self.request_line,
            r.headers == self.headers,
    {
        HttpRequest { body, ..self }
    }
}

// ---------------------------------------------------------------------------
// The parser state machine, abstractly
// ---------------------------------------------------------------------------

/// The abstract configuration of the request parser: what has been
/// recognised so far and the bytes not yet consumed.
#[verifier::ext_equal]
pub ghost struct Config {
    pub state: ParserState,
    pub line: Option<ReqLineModel>,
    pub headers: Map<Seq<u8>, Seq<u8>>,
    pub body: Seq<u8>,
    pub rest: Seq<u8>,
}

#[verifier::ext_equal]
pub enum Step {
    Next(Config),
    Wait,
    Fail(ParseError),
}

#[verifier::ext_equal]
pub enum RunResult {
    Paused(Config),
    Failed(ParseError),
}

pub open spec fn init_config(input: Seq<u8>) -> Config {
    Config {
        state: ParserState::Initialized,
        line: None,
        headers: Map::empty(),
        body: Seq::empty(),
        rest: input,
    }
}

/// Which state follows the end of the header block: chunked transfer
/// encoding wins, then absence of a content length means no body.
pub open spec fn header_exit(h: Map<Seq<u8>, Seq<u8>>) -> ParserState {
    if h.contains_key(te_key()) && h[te_key()] == chunked_val() {
        ParserState::ParsingBodyChunked
    } else if !h.contains_key(cl_key()) {
        ParserState::Done
    } else {
        ParserState::ParsingBodyFull
    }
}

/// One reduction of the parser: consume what the current state can
/// recognise at the front of `rest`, or wait for more bytes, or fail.
pub open spec fn step(c: Config) -> Step {
    match c.state {
        ParserState::Initialized => match spec_parse_request_line(c.rest) {
            LineParse::Incomplete => Step::Wait,
            LineParse::Malformed => Step::Fail(ParseError::MalformedRequestLine),
            LineParse::Parsed { line, consumed } => Step::Next(
                Config {
                    state: ParserState::ParsingHeaders,
                    line: Some(line),
                    rest: c.rest.skip(consumed),
                    ..c
                },
            ),
        },
        ParserState::ParsingHeaders => match spec_parse_header_line(c.rest) {
            HeaderLine::Incomplete => Step::Wait,
            HeaderLine::Malformed => Step::Fail(ParseError::MalformedHeader),
            HeaderLine::Field { name, value, consumed } => Step::Next(
                Config { headers: merge_map(c.headers, name, value), rest: c.rest.skip(consumed), ..c },
            ),
            HeaderLine::Blank { consumed } => {
                if c.rest.len() >= 2 && c.rest[0] == 13 && c.rest[1] == 10 {
                    Step::Next(Config { state: header_exit(c.headers), rest: c.rest.skip(2), ..c })
                } else {
                    Step::Wait
                }
            },
        },
        ParserState::ParsingBodyFull => {
            if !c.headers.contains_key(cl_key()) {
                Step::Next(Config { state: ParserState::Done, ..c })
            } else {
                match parse_dec(c.headers[cl_key()]) {
                    None => Step::Fail(ParseError::MalformedBody),
                    Some(nlen) => {
                        if c.body.len() >= nlen {
                            Step::Next(Config { state: ParserState::Done, ..c })
                        } else if c.rest.len() == 0 {
                            Step::Wait
                        } else {
                            Step::Next(
                                Config { body: c.body.push(c.rest[0]), rest: c.rest.skip(1), ..c },
                            )
                        }
                    },
                }
            }
        },
        ParserState::ParsingBodyChunked => match find_crlf(c.rest) {
            None => Step::Wait,
            Some(i) => match parse_hex(c.rest.take(i)) {
                None => Step::Fail(ParseError::MalformedBody),
                Some(size) => {
                    if size == 0 {
                        if c.rest.len() < i + 4 {
                            Step::Wait
                        } else if c.rest[i + 2] == 13 && c.rest[i + 3] == 10 {
                            Step::Next(
                                Config { state: ParserState::Done, rest: c.rest.skip(i + 4), ..c },
                            )
                        } else {
                            Step::Fail(ParseError::MalformedBody)
                        }
                    } else {
                        let total = i + 2 + size + 2;
                        if c.rest.len() < total {
                            Step::Wait
                        } else if c.rest[total - 2] == 13 && c.rest[total - 1] == 10 {
                            Step::Next(
                                Config {
                                    body: c.body + c.rest.subrange(i + 2, i + 2 + size),
                                    rest: c.rest.skip(total),
                                    ..c
                                },
                            )
                        } else {
                            Step::Fail(ParseError::MalformedBody)
                        }
                    }
                },
            },
        },
        ParserState::Done => Step::Wait,
    }
}

pub open spec fn state_rank(st: ParserState) -> int {
    match st {
        ParserState::Initialized => 3,
        ParserState::ParsingHeaders => 2,
        ParserState::ParsingBodyFull => 1,
        ParserState::ParsingBodyChunked => 1,
        ParserState::Done => 0,
    }
}

/// A parsed request line spans between its CRLF and the whole buffer.
pub proof fn lemma_request_line_consumed(s: Seq<u8>)
    ensures
        spec_parse_request_line(s) matches LineParse::Parsed { consumed, .. } ==> 2 <= consumed
            <= s.len(),
{
    if spec_parse_request_line(s) matches LineParse::Parsed { consumed, .. } {
        crate::wire::lemma_find_crlf_props(s);
    }
}

/// A parsed or blank header line spans between its CRLF and the whole
/// buffer; a parsed field name is a lowercase token.
pub proof fn lemma_header_line_props(s: Seq<u8>)
    ensures
        spec_parse_header_line(s) matches HeaderLine::Field { consumed, .. } ==> 4 <= consumed
            <= s.len(),
        spec_parse_header_line(s) matches HeaderLine::Blank { consumed } ==> 2 <= consumed
            <= s.len(),
        spec_parse_header_line(s) matches HeaderLine::Field { name, .. } ==> lower(name) == name,
{
    crate::wire::lemma_find_crlf_props(s);
    if find_crlf(s) is Some {
        let i = find_crlf(s)->Some_0;
        let line = s.take(i);
        let t = crate::wire::trim(line);
        if t.len() > 0 && find_byte(t, 58) is Some {
            let j = find_byte(t, 58)->Some_0;
            let name_part = t.take(j);
            crate::wire::lemma_lower_idempotent(name_part);
        }
        if spec_parse_header_line(s) matches HeaderLine::Field { consumed, .. } {
            let j = find_byte(t, 58)->Some_0;
            crate::wire::lemma_find_byte_props(t, 58);
            assert(crate::wire::is_token(t.take(j)));
            assert(t.take(j).len() >= 1);
            assert(j >= 1);
            assert(t.len() <= line.len()) by {
                lemma_trim_len(line);
            }
            assert(i >= 2);
        }
    }
}

/// Trimming never lengthens a sequence.
pub proof fn lemma_trim_len(s: Seq<u8>)
    ensures
        crate::wire::trim(s).len() <= s.len(),
{
    lemma_trim_start_len(s);
    lemma_trim_end_len(crate::wire::trim_start(s));
}

proof fn lemma_trim_start_len(s: Seq<u8>)
    ensures
        crate::wire::trim_start(s).len() <= s.len(),
    decreases s.len(),
{
    if s.len() > 0 && is_ws(s[0]) {
        lemma_trim_start_len(s.drop_first());
    }
}

proof fn lemma_trim_end_len(s: Seq<u8>)
    ensures
        crate::wire::trim_end(s).len() <= s.len(),
    decreases s.len(),
{
    if s.len() > 0 && is_ws(s.last()) {
        lemma_trim_end_len(s.drop_last());
    }
}

/// Every reduction either consumes at least one byte or moves to a
/// strictly later phase.
pub proof fn lemma_step_decreases(c: Config)
    ensures
        step(c) matches Step::Next(c2) ==> c2.rest.len() < c.rest.len() || (c2.rest.len()
            == c.rest.len() && state_rank(c2.state) < state_rank(c.state)),
{
    match c.state {
        ParserState::Initialized => {
            lemma_request_line_consumed(c.rest);
        },
        ParserState::ParsingHeaders => {
            lemma_header_line_props(c.rest);
        },
        ParserState::ParsingBodyFull => {},
        ParserState::ParsingBodyChunked => {
            crate::wire::lemma_find_crlf_props(c.rest);
        },
        ParserState::Done => {},
    }
}

/// Reduce until the machine finishes, needs more bytes, or fails.
pub open spec fn run(c: Config) -> RunResult
    decreases c.rest.len(), state_rank(c.state),
    via run_dec
{
    if c.state == ParserState::Done {
        RunResult::Paused(c)
    } else {
        match step(c) {
            Step::Wait => RunResult::Paused(c),
            Step::Fail(e) => RunResult::Failed(e),
            Step::Next(c2) => run(c2),
        }
    }
}

#[via_fn]
proof fn run_dec(c: Config) {
    lemma_step_decreases(c);
}

// ---------------------------------------------------------------------------
// Stability under arrival of more bytes
// ---------------------------------------------------------------------------

/// The same configuration with more input appended.
pub open spec fn ext(c: Config, t: Seq<u8>) -> Config {
    Config { rest: c.rest + t, ..c }
}

/// A request line recognised (or rejected) in a prefix is recognised the
/// same way in any extension.
pub proof fn lemma_parse_request_line_extend(s: Seq<u8>, t: Seq<u8>)
    ensures
        !(spec_parse_request_line(s) is Incomplete) ==> spec_parse_request_line(s + t)
            == spec_parse_request_line(s),
{
    if !(spec_parse_request_line(s) is Incomplete) {
        crate::wire::lemma_find_crlf_extend(s, t);
        let i = find_crlf(s)->Some_0;
        crate::wire::lemma_find_crlf_props(s);
        assert((s + t).take(i) =~= s.take(i));
    }
}

/// A header line recognised (or rejected) in a prefix is recognised the
/// same way in any extension.
pub proof fn lemma_parse_header_line_extend(s: Seq<u8>, t: Seq<u8>)
    ensures
        !(spec_parse_header_line(s) is Incomplete) ==> spec_parse_header_line(s + t)
            == spec_parse_header_line(s),
{
    if !(spec_parse_header_line(s) is Incomplete) {
        crate::wire::lemma_find_crlf_extend(s, t);
        let i = find_crlf(s)->Some_0;
        crate::wire::lemma_find_crlf_props(s);
        assert((s + t).take(i) =~= s.take(i));
    }
}

/// A reduction taken on a prefix is the same reduction on any extension.
pub proof fn lemma_step_extend(c: Config, t: Seq<u8>)
    ensures
        step(c) matches Step::Next(c2) ==> step(ext(c, t)) == Step::Next(ext(c2, t)),
        step(c) matches Step::Fail(e) ==> step(ext(c, t)) == Step::Fail(e),
{
    let e = ext(c, t);
    match c.state {
        ParserState::Initialized => {
            lemma_parse_request_line_extend(c.rest, t);
            if let LineParse::Parsed { line, consumed } = spec_parse_request_line(c.rest) {
                lemma_request_line_consumed(c.rest);
                assert((c.rest + t).skip(consumed) =~= c.rest.skip(consumed) + t);
                if let Step::Next(c2) = step(c) {
                    assert(step(e) =~= Step::Next(ext(c2, t)));
                }
            }
        },
        ParserState::ParsingHeaders => {
            lemma_parse_header_line_extend(c.rest, t);
            match spec_parse_header_line(c.rest) {
                HeaderLine::Field { name, value, consumed } => {
                    lemma_header_line_props(c.rest);
                    assert((c.rest + t).skip(consumed) =~= c.rest.skip(consumed) + t);
                    if let Step::Next(c2) = step(c) {
                        assert(step(e) =~= Step::Next(ext(c2, t)));
                    }
                },
                HeaderLine::Blank { consumed } => {
                    if c.rest.len() >= 2 && c.rest[0] == 13 && c.rest[1] == 10 {
                        assert(e.rest[0] == 13 && e.rest[1] == 10);
                        assert((c.rest + t).skip(2) =~= c.rest.skip(2) + t);
                        if let Step::Next(c2) = step(c) {
                            assert(step(e) =~= Step::Next(ext(c2, t)));
                        }
                    }
                },
                _ => {},
            }
        },
        ParserState::ParsingBodyFull => {
            if c.headers.contains_key(cl_key()) && parse_dec(c.headers[cl_key()]) is Some {
                let nlen = parse_dec(c.headers[cl_key()])->Some_0;
                if c.body.len() >= nlen {
                    if let Step::Next(c2) = step(c) {
                        assert(step(e) =~= Step::Next(ext(c2, t)));
                    }
                } else if c.rest.len() > 0 {
                    assert(e.rest[0] == c.rest[0]);
                    assert((c.rest + t).skip(1) =~= c.rest.skip(1) + t);
                    if let Step::Next(c2) = step(c) {
                        assert(step(e) =~= Step::Next(ext(c2, t)));
                    }
                }
            } else if !c.headers.contains_key(cl_key()) {
                if let Step::Next(c2) = step(c) {
                    assert(step(e) =~= Step::Next(ext(c2, t)));
                }
            }
        },
        ParserState::ParsingBodyChunked => {
            if find_crlf(c.rest) is Some {
                crate::wire::lemma_find_crlf_extend(c.rest, t);
                let i = find_crlf(c.rest)->Some_0;
                crate::wire::lemma_find_crlf_props(c.rest);
                assert((c.rest + t).take(i) =~= c.rest.take(i));
                match parse_hex(c.rest.take(i)) {
                    None => {},
                    Some(size) => {
                        if size == 0 {
                            if c.rest.len() >= i + 4 {
                                assert(e.rest[i + 2] == c.rest[i + 2]);
                                assert(e.rest[i + 3] == c.rest[i + 3]);
                                assert((c.rest + t).skip(i + 4) =~= c.rest.skip(i + 4) + t);
                                if let Step::Next(c2) = step(c) {
                                    assert(step(e) =~= Step::Next(ext(c2, t)));
                                }
                            }
                        } else {
                            let total = i + 2 + size + 2;
                            if c.rest.len() >= total {
                                assert(e.rest[total - 2] == c.rest[total - 2]);
                                assert(e.rest[total - 1] == c.rest[total - 1]);
                                assert((c.rest + t).skip(total) =~= c.rest.skip(total) + t);
                                assert((c.rest + t).subrange(i + 2, i + 2 + size) =~= c.rest.subrange(
                                    i + 2,
                                    i + 2 + size,
                                ));
                                if let Step::Next(c2) = step(c) {
                                    assert(step(e) =~= Step::Next(ext(c2, t)));
                                }
                            }
                        }
                    },
                }
            }
        },
        ParserState::Done => {},
    }
}

/// Feeding the input in pieces reaches the same result as feeding it
/// whole: a paused machine resumed with more bytes runs exactly as the
/// machine that had all the bytes from the start.
pub proof fn lemma_run_extend(c: Config, t: Seq<u8>)
    ensures
        match run(c) {
            RunResult::Failed(e) => run(ext(c, t)) == RunResult::Failed(e),
            RunResult::Paused(q) => run(ext(c, t)) == run(ext(q, t)),
        },
    decreases c.rest.len(), state_rank(c.state),
{
    if c.state == ParserState::Done {
    } else {
        match step(c) {
            Step::Wait => {},
            Step::Fail(e) => {
                lemma_step_extend(c, t);
            },
            Step::Next(c2) => {
                lemma_step_extend(c, t);
                lemma_step_decreases(c);
                lemma_run_extend(c2, t);
                assert(run(ext(c, t)) == run(ext(c2, t)));
            },
        }
    }
}

/// Copying the fixed-length body in bulk reaches the same pause as the
/// byte-at-a-time reductions.
pub proof fn lemma_run_bodyfull(c: Config, n: int)
    requires
        c.state == ParserState::ParsingBodyFull,
        c.headers.contains_key(cl_key()),
        parse_dec(c.headers[cl_key()]) == Some(n),
        c.body.len() < n,
    ensures
        c.body.len() + c.rest.len() >= n ==> run(c) == RunResult::Paused(
            Config {
                state: ParserState::Done,
                body: c.body + c.rest.take(n - c.body.len()),
                rest: c.rest.skip(n - c.body.len()),
                ..c
            },
        ),
        c.body.len() + c.rest.len() < n ==> run(c) == RunResult::Paused(
            Config { body: c.body + c.rest, rest: Seq::empty(), ..c },
        ),
    decreases c.rest.len(),
{
    if c.rest.len() == 0 {
        assert(step(c) == Step::Wait);
        assert(run(c) == RunResult::Paused(c));
        assert(Config { body: c.body + c.rest, rest: Seq::empty(), ..c } =~= c) by {
            assert(c.body + c.rest =~= c.body);
            assert(c.rest =~= Seq::<u8>::empty());
        }
    } else {
        let c2 = Config { body: c.body.push(c.rest[0]), rest: c.rest.skip(1), ..c };
        assert(step(c) == Step::Next(c2));
        assert(run(c) == run(c2));
        if c2.body.len() >= n {
            assert(c2.body.len() == n);
            let d = Config { state: ParserState::Done, ..c2 };
            assert(step(c2) == Step::Next(d));
            assert(run(c2) == run(d));
            assert(run(d) == RunResult::Paused(d));
            assert(Config {
                state: ParserState::Done,
                body: c.body + c.rest.take(n - c.body.len()),
                rest: c.rest.skip(n - c.body.len()),
                ..c
            } =~= d) by {
                assert(c.body + c.rest.take(1) =~= c.body.push(c.rest[0]));
                assert(n - c.body.len() == 1);
            }
        } else {
            lemma_run_bodyfull(c2, n);
            if c.body.len() + c.rest.len() >= n {
                let k = n - c.body.len();
                assert(c2.body + c2.rest.take(n - c2.body.len()) =~= c.body + c.rest.take(k));
                assert(c2.rest.skip(n - c2.body.len()) =~= c.rest.skip(k));
                assert(Config {
                    state: ParserState::Done,
                    body: c2.body + c2.rest.take(n - c2.body.len()),
                    rest: c2.rest.skip(n - c2.body.len()),
                    ..c2
                } =~= Config {
                    state: ParserState::Done,
                    body: c.body + c.rest.take(k),
                    rest: c.rest.skip(k),
                    ..c
                });
            } else {
                assert(c2.body + c2.rest =~= c.body + c.rest);
                assert(Config { body: c2.body + c2.rest, rest: Seq::empty(), ..c2 } =~= Config {
                    body: c.body + c.rest,
                    rest: Seq::empty(),
                    ..c
                });
            }
        }
    }
}

// ---------------------------------------------------------------------------
// The incremental parser
// ---------------------------------------------------------------------------

/// The abstract value of a completed request.
#[verifier::ext_equal]
pub ghost struct ReqModel {
    pub line: Option<ReqLineModel>,
    pub headers: Map<Seq<u8>, Seq<u8>>,
    pub body: Seq<u8>,
}

/// What the machine assigns to a complete input.
#[verifier::ext_equal]
pub enum ParseOutcome {
    Complete(ReqModel),
    Error(ParseError),
}

/// What parsing an entire input yields: the completed request, or the
/// first codec violation; end of input before completion is fatal.
pub open spec fn spec_parse_request(input: Seq<u8>) -> ParseOutcome {
    match run(init_config(input)) {
        RunResult::Failed(e) => ParseOutcome::Error(e),
        RunResult::Paused(q) => if q.state == ParserState::Done {
            ParseOutcome::Complete(ReqModel { line: q.line, headers: q.headers, body: q.body })
        } else {
            ParseOutcome::Error(ParseError::UnexpectedEof)
        },
    }
}

/// The incremental request parser: the request being filled, the bytes
/// not yet consumed, and (as ghost state) everything fed so far. After
/// every `feed` the parser stands exactly where the abstract machine
/// stands on the concatenation of all bytes ever fed — so delivery in
/// arbitrary pieces cannot change the outcome.
pub struct RequestParser {
    pub request: HttpRequest,
    pub buffer: Vec<u8>,
    pub failed: bool,
    pub fed: Ghost<Seq<u8>>,
}

impl RequestParser {
    /// The abstract configuration this parser stands at.
    pub open spec fn config(&self) -> Config {
        Config {
            state: self.request.parser_state,
            line: match self.request.request_line {
                Some(rl) => Some(rl@),
                None => None,
            },
            headers: self.request.headers@,
            body: self.request.body@,
            rest: self.buffer@,
        }
    }

    /// All bytes fed so far.
    pub open spec fn fed_bytes(&self) -> Seq<u8> {
        self.fed@
    }

    /// The machine run on everything fed so far pauses exactly at this
    /// configuration, or has failed.
    pub open spec fn wf(&self) -> bool {
        &&& self.request.headers.wf()
        &&& (!self.failed ==> run(init_config(self.fed@)) == RunResult::Paused(self.config()))
        &&& (self.failed ==> run(init_config(self.fed@)) is Failed)
    }

    pub fn new() -> (r: RequestParser)
        ensures
            r.wf(),
            !r.failed,
            r.fed_bytes() == Seq::<u8>::empty(),
    {
        let r = RequestParser {
            request: HttpRequest::new(),
            buffer: Vec::new(),
            failed: false,
            fed: Ghost(Seq::empty()),
        };
        proof {
            let c0 = init_config(Seq::<u8>::empty());
            assert(r.buffer@ =~= Seq::<u8>::empty());
            assert(r.config() =~= c0);
            assert(find_crlf(c0.rest) is None);
            assert(step(c0) == Step::Wait);
            assert(run(c0) == RunResult::Paused(c0));
        }
        r
    }

    pub fn is_done(&self) -> (r: bool)
        ensures
            r == (self.request.parser_state == ParserState::Done),
    {
        self.request.parser_state == ParserState::Done
    }

    /// Hand the parser more bytes and let it reduce as far as it can.
    /// `Ok(true)` means the request is complete; `Ok(false)` asks for more
    /// bytes; an error is fatal for the connection.
    pub fn feed(&mut self, data: &[u8]) -> (r: Result<bool, ParseError>)
        requires
            old(self).wf(),
            !old(self).failed,
        ensures
            final(self).wf(),
            final(self).fed_bytes() == old(self).fed_bytes() + data@,
            match r {
                Ok(done) => !final(self).failed && done == (final(self).request.parser_state
                    == ParserState::Done),
                Err(e) => final(self).failed && run(init_config(final(self).fed_bytes()))
                    == RunResult::Failed(e),
            },
    {
        let ghost oldcfg = self.config();
        push_bytes(&mut self.buffer, data);
        self.fed = Ghost(self.fed@ + data@);
        proof {
            lemma_run_extend(init_config(old(self).fed@), data@);
            assert(ext(init_config(old(self).fed@), data@) =~= init_config(self.fed@));
            assert(self.config() =~= ext(oldcfg, data@));
            assert(run(init_config(self.fed@)) == run(self.config()));
        }
        loop
            invariant
                self.request.headers.wf(),
                !self.failed,
                self.fed@ == old(self).fed@ + data@,
                run(init_config(self.fed@)) == run(self.config()),
            ensures
                run(self.config()) == RunResult::Paused(self.config()),
            decreases self.buffer@.len(), state_rank(self.request.parser_state),
        {
            let ghost cfg = self.config();
            match self.request.parser_state {
                ParserState::Done => {
                    proof {
                        assert(run(cfg) == RunResult::Paused(cfg));
                    }
                    break;
                },
                ParserState::Initialized => {
                    match RequestLine::parse_request_line(self.buffer.as_slice()) {
                        Err(e) => {
                            self.failed = true;
                            proof {
                                assert(step(cfg) == Step::Fail(e));
                                assert(run(cfg) == RunResult::Failed(e));
                            }
                            return Err(e);
                        },
                        Ok((opt, consumed)) => match opt {
                            None => {
                                proof {
                                    assert(step(cfg) == Step::Wait);
                                    assert(run(cfg) == RunResult::Paused(cfg));
                                }
                                break;
                            },
                            Some(rl) => {
                                proof {
                                    lemma_request_line_consumed(self.buffer@);
                                }
                                let ghost grl = rl@;
                                self.request.request_line = Some(rl);
                                self.request.parser_state = ParserState::ParsingHeaders;
                                crate::wire::drop_front(&mut self.buffer, consumed);
                                proof {
                                    assert(self.config() =~= Config {
                                        state: ParserState::ParsingHeaders,
                                        line: Some(grl),
                                        rest: cfg.rest.skip(consumed as int),
                                        ..cfg
                                    });
                                    assert(step(cfg) == Step::Next(self.config()));
                                    lemma_step_decreases(cfg);
                                    assert(run(cfg) == run(self.config()));
                                }
                            },
                        },
                    }
                },
                ParserState::ParsingHeaders => {
                    match Headers::parse_headers(self.buffer.as_slice()) {
                        Err(e) => {
                            self.failed = true;
                            proof {
                                assert(step(cfg) == Step::Fail(e));
                                assert(run(cfg) == RunResult::Failed(e));
                            }
                            return Err(e);
                        },
                        Ok((opt, consumed)) => match opt {
                            Some((name, value)) => {
                                proof {
                                    lemma_header_line_props(self.buffer@);
                                }
                                let ghost gname = name@;
                                let ghost gvalue = value@;
                                self.request.headers.merge_insert(name, value);
                                crate::wire::drop_front(&mut self.buffer, consumed);
                                proof {
                                    assert(self.config() =~= Config {
                                        headers: merge_map(cfg.headers, gname, gvalue),
                                        rest: cfg.rest.skip(consumed as int),
                                        ..cfg
                                    });
                                    assert(step(cfg) == Step::Next(self.config()));
                                    lemma_step_decreases(cfg);
                                    assert(run(cfg) == run(self.config()));
                                }
                            },
                            None => {
                                let blen = self.buffer.len();
                                let has_crlf_prefix = blen >= 2 && *slice_index_get(
                                    self.buffer.as_slice(),
                                    0,
                                ) == 13 && *slice_index_get(self.buffer.as_slice(), 1) == 10;
                                if has_crlf_prefix {
                                    let te = te_key_vec();
                                    let is_chunked = match self.request.headers.get_bytes(
                                        te.as_slice(),
                                    ) {
                                        Some(v) => {
                                            let cv = chunked_val_vec();
                                            eq_bytes(v.as_slice(), cv.as_slice())
                                        },
                                        None => false,
                                    };
                                    let next_state: ParserState;
                                    if is_chunked {
                                        next_state = ParserState::ParsingBodyChunked;
                                    } else {
                                        let cl = cl_key_vec();
                                        next_state = match self.request.headers.get_bytes(
                                            cl.as_slice(),
                                        ) {
                                            None => ParserState::Done,
                                            Some(_) => ParserState::ParsingBodyFull,
                                        };
                                    }
                                    proof {
                                        assert(next_state == header_exit(cfg.headers));
                                    }
                                    self.request.parser_state = next_state;
                                    crate::wire::drop_front(&mut self.buffer, 2);
                                    proof {
                                        assert(self.config() =~= Config {
                                            state: header_exit(cfg.headers),
                                            rest: cfg.rest.skip(2),
                                            ..cfg
                                        });
                                        assert(step(cfg) == Step::Next(self.config()));
                                        lemma_step_decreases(cfg);
                                        assert(run(cfg) == run(self.config()));
                                    }
                                } else {
                                    proof {
                                        assert(step(cfg) == Step::Wait);
                                        assert(run(cfg) == RunResult::Paused(cfg));
                                    }
                                    break;
                                }
                            },
                        },
                    }
                },
                ParserState::ParsingBodyFull => {
                    let cl = cl_key_vec();
                    let mut have_cl = false;
                    let mut nlen: usize = 0;
                    match self.request.headers.get_bytes(cl.as_slice()) {
                        None => {},
                        Some(v) => {
                            match crate::num::dec_parse(v.as_slice()) {
                                None => {
                                    self.failed = true;
                                    proof {
                                        assert(step(cfg) == Step::Fail(ParseError::MalformedBody));
                                        assert(run(cfg) == RunResult::Failed(
                                            ParseError::MalformedBody,
                                        ));
                                    }
                                    return Err(ParseError::MalformedBody);
                                },
                                Some(n) => {
                                    have_cl = true;
                                    nlen = n;
                                },
                            }
                        },
                    }
                    if !have_cl {
                        self.request.parser_state = ParserState::Done;
                        proof {
                            assert(self.config() =~= Config { state: ParserState::Done, ..cfg });
                            assert(step(cfg) == Step::Next(self.config()));
                            lemma_step_decreases(cfg);
                            assert(run(cfg) == run(self.config()));
                        }
                    } else {
                        let blen = self.request.body.len();
                        if blen >= nlen {
                            self.request.parser_state = ParserState::Done;
                            proof {
                                assert(self.config() =~= Config {
                                    state: ParserState::Done,
                                    ..cfg
                                });
                                assert(step(cfg) == Step::Next(self.config()));
                                lemma_step_decreases(cfg);
                                assert(run(cfg) == run(self.config()));
                            }
                        } else if self.buffer.len() == 0 {
                            proof {
                                assert(cfg.rest =~= Seq::<u8>::empty());
                                assert(step(cfg) == Step::Wait);
                                assert(run(cfg) == RunResult::Paused(cfg));
                            }
                            break;
                        } else {
                            let avail = self.buffer.len();
                            let need = nlen - blen;
                            let k = if avail < need {
                                avail
                            } else {
                                need
                            };
                            proof {
                                lemma_run_bodyfull(cfg, nlen as int);
                            }
                            push_bytes(
                                &mut self.request.body,
                                slice_subrange(self.buffer.as_slice(), 0, k),
                            );
                            crate::wire::drop_front(&mut self.buffer, k);
                            let complete = k == need;
                            if complete {
                                self.request.parser_state = ParserState::Done;
                                proof {
                                    assert(self.request.body@ =~= cfg.body + cfg.rest.take(
                                        nlen - cfg.body.len(),
                                    ));
                                    assert(self.config() =~= Config {
                                        state: ParserState::Done,
                                        body: cfg.body + cfg.rest.take(nlen - cfg.body.len()),
                                        rest: cfg.rest.skip(nlen - cfg.body.len()),
                                        ..cfg
                                    });
                                    assert(run(cfg) == RunResult::Paused(self.config()));
                                    assert(run(self.config()) == RunResult::Paused(self.config()));
                                    assert(run(cfg) == run(self.config()));
                                }
                            } else {
                                proof {
                                    assert(k == avail && avail < need);
                                    assert(cfg.body.len() + cfg.rest.len() < nlen);
                                    assert(self.buffer@ =~= Seq::<u8>::empty());
                                    assert(self.request.body@ =~= cfg.body + cfg.rest);
                                    assert(self.config() =~= Config {
                                        body: cfg.body + cfg.rest,
                                        rest: Seq::empty(),
                                        ..cfg
                                    });
                                    assert(run(cfg) == RunResult::Paused(self.config()));
                                    assert(run(self.config()) == RunResult::Paused(self.config()));
                                }
                                break;
                            }
                        }
                    }
                },
                ParserState::ParsingBodyChunked => {
                    let i = match find_crlf_at(self.buffer.as_slice()) {
                        None => {
                            proof {
                                assert(step(cfg) == Step::Wait);
                                assert(run(cfg) == RunResult::Paused(cfg));
                            }
                            break;
                        },
                        Some(i) => i,
                    };
                    proof {
                        crate::wire::lemma_find_crlf_props(self.buffer@);
                        assert(crate::wire::crlf_at(self.buffer@, i as int));
                    }
                    let size_slice = slice_subrange(self.buffer.as_slice(), 0, i);
                    proof {
                        assert(size_slice@ =~= self.buffer@.take(i as int));
                    }
                    let size = match crate::num::hex_parse(size_slice) {
                        None => {
                            self.failed = true;
                            proof {
                                assert(step(cfg) == Step::Fail(ParseError::MalformedBody));
                                assert(run(cfg) == RunResult::Failed(ParseError::MalformedBody));
                            }
                            return Err(ParseError::MalformedBody);
                        },
                        Some(size) => size,
                    };
                    let blen = self.buffer.len();
                    if size == 0 {
                        if blen - i - 2 < 2 {
                            proof {
                                assert(cfg.rest.len() < i + 4);
                                assert(step(cfg) == Step::Wait);
                                assert(run(cfg) == RunResult::Paused(cfg));
                            }
                            break;
                        } else {
                            let b2 = *slice_index_get(self.buffer.as_slice(), i + 2);
                            let b3 = *slice_index_get(self.buffer.as_slice(), i + 3);
                            if b2 == 13 && b3 == 10 {
                                self.request.parser_state = ParserState::Done;
                                crate::wire::drop_front(&mut self.buffer, i + 4);
                                proof {
                                    assert(self.config() =~= Config {
                                        state: ParserState::Done,
                                        rest: cfg.rest.skip(i + 4),
                                        ..cfg
                                    });
                                    assert(step(cfg) == Step::Next(self.config()));
                                    lemma_step_decreases(cfg);
                                    assert(run(cfg) == run(self.config()));
                                }
                            } else {
                                self.failed = true;
                                proof {
                                    assert(step(cfg) == Step::Fail(ParseError::MalformedBody));
                                    assert(run(cfg) == RunResult::Failed(
                                        ParseError::MalformedBody,
                                    ));
                                }
                                return Err(ParseError::MalformedBody);
                            }
                        }
                    } else {
                        let rem = blen - i - 2;
                        if rem < size || rem - size < 2 {
                            proof {
                                assert(cfg.rest.len() < i + 2 + size + 2);
                                assert(step(cfg) == Step::Wait);
                                assert(run(cfg) == RunResult::Paused(cfg));
                            }
                            break;
                        } else {
                            let data_start = i + 2;
                            let data_end = i + 2 + size;
                            let b2 = *slice_index_get(self.buffer.as_slice(), data_end);
                            let b3 = *slice_index_get(self.buffer.as_slice(), data_end + 1);
                            proof {
                                assert(data_end + 1 < cfg.rest.len());
                                assert(i + 2 + size + 2 - 2 == data_end);
                            }
                            if b2 == 13 && b3 == 10 {
                                push_bytes(
                                    &mut self.request.body,
                                    slice_subrange(self.buffer.as_slice(), data_start, data_end),
                                );
                                crate::wire::drop_front(&mut self.buffer, data_end + 2);
                                proof {
                                    assert(self.request.body@ =~= cfg.body + cfg.rest.subrange(
                                        i + 2,
                                        i + 2 + size,
                                    ));
                                    assert(self.config() =~= Config {
                                        body: cfg.body + cfg.rest.subrange(i + 2, i + 2 + size),
                                        rest: cfg.rest.skip(i + 2 + size + 2),
                                        ..cfg
                                    });
                                    assert(step(cfg) == Step::Next(self.config()));
                                    lemma_step_decreases(cfg);
                                    assert(run(cfg) == run(self.config()));
                                }
                            } else {
                                self.failed = true;
                                proof {
                                    assert(step(cfg) == Step::Fail(ParseError::MalformedBody));
                                    assert(run(cfg) == RunResult::Failed(
                                        ParseError::MalformedBody,
                                    ));
                                }
                                return Err(ParseError::MalformedBody);
                            }
                        }
                    }
                },
            }
        }
        Ok(self.is_done())
    }

    /// End of input: the completed request, or the report that the stream
    /// ended mid-request.
    pub fn finish(self) -> (r: Result<HttpRequest, ParseError>)
        requires
            self.wf(),
            !self.failed,
        ensures
            match spec_parse_request(self.fed_bytes()) {
                ParseOutcome::Complete(m) => r matches Ok(req) && req.parser_state
                    == ParserState::Done && (match req.request_line {
                    Some(rl) => m.line == Some(rl@),
                    None => m.line is None,
                }) && req.headers@ == m.headers && req.headers.wf() && req.body@ == m.body,
                ParseOutcome::Error(e) => r matches Err(e2) && e2 == e,
            },
    {
        if self.is_done() {
            Ok(self.request)
        } else {
            Err(ParseError::UnexpectedEof)
        }
    }
}

/// Parse one complete request from `data`: the whole stream is fed and
/// end of input follows it.
pub fn parse_request(data: &[u8]) -> (r: Result<HttpRequest, ParseError>)
    ensures
        match spec_parse_request(data@) {
            ParseOutcome::Complete(m) => r matches Ok(req) && req.parser_state
                == ParserState::Done && (match req.request_line {
                Some(rl) => m.line == Some(rl@),
                None => m.line is None,
            }) && req.headers@ == m.headers && req.headers.wf() && req.body@ == m.body,
            ParseOutcome::Error(e) => r matches Err(e2) && e2 == e,
        },
{
    let mut p = RequestParser::new();
    match p.feed(data) {
        Err(e) => {
            proof {
                assert(p.fed_bytes() =~= data@);
            }
            Err(e)
        },
        Ok(_) => {
            proof {
                assert(p.fed_bytes() =~= data@);
            }
            p.finish()
        },
    }
}

} // verus!
