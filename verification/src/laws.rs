//! The codec's cross-cutting guarantees, stated and proved over the
//! abstract machine: well-formed request lines parse to their parts,
//! split delivery cannot change the outcome, and chunked encoding decodes
//! to the original bytes.

use vstd::prelude::*;
use crate::wire::{is_ws, lower, find_crlf, crlf_at, trim, trim_start, trim_end, is_token, CR, LF};
use crate::num::{parse_hex, chunk_encoding, hex_of, all_hex, hex_value};
use crate::request::{
    tokens, lemma_token_run_exact, spec_parse_request_line, LineParse, ReqLineModel, HttpVersion,
    ParserState, method_of, version_ok, Config, Step, RunResult, step, run, ext, init_config,
    lemma_run_extend, header_exit,
};
use crate::headers::{
    spec_serialize, serialize_pair, spec_parse_header_line, HeaderLine, merge_map, map_of,
    distinct_keys,
};

verus! {

// ---------------------------------------------------------------------------
// Tokenization of a well-formed line
// ---------------------------------------------------------------------------

/// A leading token followed by nothing or by whitespace is split off
/// whole.
proof fn lemma_tokens_token_prefix(tok: Seq<u8>, rest: Seq<u8>)
    requires
        tok.len() > 0,
        forall|i: int| 0 <= i < tok.len() ==> !is_ws(tok[i]),
        rest.len() == 0 || is_ws(rest[0]),
    ensures
        tokens(tok + rest) == seq![tok] + tokens(rest),
{
    let s = tok + rest;
    assert(forall|i: int| 0 <= i < tok.len() ==> s[i] == tok[i]);
    lemma_token_run_exact(s, tok.len() as int);
    assert(s.take(tok.len() as int) =~= tok);
    assert(s.skip(tok.len() as int) =~= rest);
}

proof fn lemma_tokens_ws_head(s: Seq<u8>)
    requires
        s.len() > 0,
        is_ws(s[0]),
    ensures
        tokens(s) == tokens(s.drop_first()),
{
}

// ---------------------------------------------------------------------------
// Well-formed request lines parse to their parts
// ---------------------------------------------------------------------------

/// For every request line `m SP t SP v CRLF` whose method is in the
/// closed set (case-insensitively), whose target begins with `/`, and
/// whose version reads `HTTP/1.1` (case-insensitively), parsing yields
/// exactly that method, the lowercased target, and the version — and
/// consumes the whole line.
pub proof fn lemma_parse_valid_request_line(m: Seq<u8>, t: Seq<u8>, v: Seq<u8>)
    requires
        m.len() > 0,
        forall|i: int| 0 <= i < m.len() ==> !is_ws(m[i]),
        t.len() > 0,
        forall|i: int| 0 <= i < t.len() ==> !is_ws(t[i]),
        t[0] == 47,
        v.len() > 0,
        forall|i: int| 0 <= i < v.len() ==> !is_ws(v[i]),
        (method_of(m) is Some),
        version_ok(v),
    ensures
        spec_parse_request_line(m + seq![32u8] + t + seq![32u8] + v + seq![CR, LF]) == (
        LineParse::Parsed {
            line: ReqLineModel {
                method: method_of(m)->Some_0,
                target: lower(t),
                version: HttpVersion::HTTP11,
            },
            consumed: m.len() + t.len() + v.len() + 4int,
        }),
{
    let line = m + seq![32u8] + t + seq![32u8] + v;
    let s = m + seq![32u8] + t + seq![32u8] + v + seq![CR, LF];
    assert(s =~= line + seq![CR, LF]);
    let n = line.len() as int;
    assert(forall|i: int| 0 <= i < n ==> line[i] != CR) by {
        assert(forall|i: int| 0 <= i < m.len() ==> line[i] == m[i]);
        assert(line[m.len() as int] == 32);
        assert(forall|i: int|
            0 <= i < t.len() ==> line[m.len() + 1 + i] == t[i]);
        assert(line[m.len() + 1 + t.len() as int] == 32);
        assert(forall|i: int|
            0 <= i < v.len() ==> line[m.len() + t.len() + 2 + i] == v[i]);
        assert forall|i: int| 0 <= i < n implies line[i] != CR by {
            if i < m.len() {
                assert(!is_ws(m[i]));
            } else if i == m.len() {
            } else if i < m.len() + 1 + t.len() {
                assert(!is_ws(t[i - m.len() - 1]));
            } else if i == m.len() + 1 + t.len() {
            } else {
                assert(!is_ws(v[i - m.len() - t.len() - 2]));
            }
        }
    }
    assert(crlf_at(s, n));
    assert forall|j: int| 0 <= j < n implies !crlf_at(s, j) by {
        assert(s[j] == line[j]);
    }
    crate::wire::lemma_find_crlf_exact(s, n);
    assert(s.take(n) =~= line);
    // tokens(line) == [m, t, v]
    let r1 = seq![32u8] + t + seq![32u8] + v;
    let r2 = seq![32u8] + v;
    assert(line =~= m + r1);
    lemma_tokens_token_prefix(m, r1);
    lemma_tokens_ws_head(r1);
    assert(r1.drop_first() =~= t + r2);
    lemma_tokens_token_prefix(t, r2);
    lemma_tokens_ws_head(r2);
    assert(r2.drop_first() =~= v + Seq::<u8>::empty());
    lemma_tokens_token_prefix(v, Seq::<u8>::empty());
    assert(tokens(Seq::<u8>::empty()) =~= Seq::<Seq<u8>>::empty());
    assert(tokens(line) =~= seq![m, t, v]);
    assert(tokens(s.take(n))[0] == m);
    assert(tokens(s.take(n))[1] == t);
    assert(tokens(s.take(n))[2] == v);
    assert(n + 2 == m.len() + t.len() + v.len() + 4int);
}

// ---------------------------------------------------------------------------
// Split delivery cannot change the outcome
// ---------------------------------------------------------------------------

/// Feed the input split at any point: if the first piece already fails,
/// the whole input fails the same way; otherwise resuming the paused
/// machine with the second piece runs exactly as the machine fed the
/// whole input at once.
pub proof fn lemma_parse_split_invariant(s: Seq<u8>, i: int)
    requires
        0 <= i <= s.len(),
    ensures
        ({
            match run(init_config(s.take(i))) {
                RunResult::Failed(e) => run(init_config(s)) == RunResult::Failed(e),
                RunResult::Paused(q) => run(ext(q, s.skip(i))) == run(init_config(s)),
            }
        }),
{
    lemma_run_extend(init_config(s.take(i)), s.skip(i));
    assert(ext(init_config(s.take(i)), s.skip(i)) =~= init_config(s)) by {
        assert(s.take(i) + s.skip(i) =~= s);
    }
}

// ---------------------------------------------------------------------------
// Chunked encoding round trip
// ---------------------------------------------------------------------------

/// The wire form of a chunk list, in order.
pub open spec fn encode_chunks(cs: Seq<Seq<u8>>) -> Seq<u8>
    decreases cs.len(),
{
    if cs.len() == 0 {
        Seq::empty()
    } else {
        chunk_encoding(cs.first()) + encode_chunks(cs.drop_first())
    }
}

/// The chunked-body terminator `0 CRLF CRLF`.
pub open spec fn chunk_terminator() -> Seq<u8> {
    seq![48u8, CR, LF, CR, LF]
}

/// For every byte sequence split into non-empty chunks, a parser in the
/// chunked-body state that reads the encoded chunks and the terminator
/// appends exactly the original bytes to the body and completes.
pub proof fn lemma_chunked_round_trip(c: Config, cs: Seq<Seq<u8>>)
    requires
        c.state == ParserState::ParsingBodyChunked,
        forall|k: int| 0 <= k < cs.len() ==> 0 < #[trigger] cs[k].len() <= usize::MAX,
        c.rest == encode_chunks(cs) + chunk_terminator(),
    ensures
        run(c) == RunResult::Paused(
            Config { state: ParserState::Done, body: c.body + cs.flatten(), rest: Seq::empty(), ..c },
        ),
    decreases cs.len(),
{
    if cs.len() == 0 {
        assert(c.rest =~= chunk_terminator());
        assert(crlf_at(c.rest, 1));
        assert(!crlf_at(c.rest, 0));
        crate::wire::lemma_find_crlf_exact(c.rest, 1);
        let sz = c.rest.take(1);
        assert(sz =~= seq![48u8]);
        assert(all_hex(sz));
        assert(sz.drop_last() =~= Seq::<u8>::empty());
        assert(sz.last() == 48);
        assert(hex_value(sz.drop_last()) == 0);
        assert(hex_value(sz) == hex_value(sz.drop_last()) * 16 + crate::num::hex_digit_val(
            sz.last(),
        ));
        assert(crate::num::hex_digit_val(48) == 0);
        assert(hex_value(sz) == 0);
        assert(parse_hex(sz) == Some(0int));
        assert(c.rest[3] == CR && c.rest[4] == LF);
        let c2 = Config { state: ParserState::Done, rest: c.rest.skip(5), ..c };
        assert(step(c) == Step::Next(c2));
        assert(run(c) == run(c2));
        assert(run(c2) == RunResult::Paused(c2));
        assert(cs.flatten() =~= Seq::<u8>::empty());
        assert(Config {
            state: ParserState::Done,
            body: c.body + cs.flatten(),
            rest: Seq::empty(),
            ..c
        } =~= c2) by {
            assert(c.body + cs.flatten() =~= c.body);
            assert(c.rest.skip(5) =~= Seq::<u8>::empty());
        }
    } else {
        let c0 = cs.first();
        let n = c0.len() as int;
        let hx = hex_of(n);
        let hlen = hx.len() as int;
        let rtail = encode_chunks(cs.drop_first()) + chunk_terminator();
        assert(c.rest =~= chunk_encoding(c0) + rtail);
        assert(chunk_encoding(c0) == hx + seq![CR, LF] + c0 + seq![CR, LF]);
        crate::num::lemma_hex_of_round_trip(n);
        // byte layout of the chunk encoding
        assert(forall|i: int| 0 <= i < hlen ==> c.rest[i] == hx[i]);
        assert(c.rest[hlen] == CR && c.rest[hlen + 1] == LF);
        assert(forall|i: int| 0 <= i < n ==> c.rest[hlen + 2 + i] == c0[i]);
        assert(c.rest[hlen + 2 + n] == CR && c.rest[hlen + 2 + n + 1] == LF);
        assert(crlf_at(c.rest, hlen));
        assert forall|j: int| 0 <= j < hlen implies !crlf_at(c.rest, j) by {
            assert(c.rest[j] == hx[j]);
            assert(hx[j] != CR);
        }
        crate::wire::lemma_find_crlf_exact(c.rest, hlen);
        assert(c.rest.take(hlen) =~= hx);
        assert(parse_hex(hx) == Some(n));
        assert(n != 0);
        let total = hlen + 2 + n + 2;
        assert(c.rest.len() >= total);
        assert(c.rest[total - 2] == CR && c.rest[total - 1] == LF);
        assert(c.rest.subrange(hlen + 2, hlen + 2 + n) =~= c0);
        let c2 = Config { body: c.body + c0, rest: c.rest.skip(total), ..c };
        assert(step(c) == Step::Next(c2));
        assert(run(c) == run(c2));
        assert(c2.rest =~= rtail);
        lemma_chunked_round_trip(Config { rest: rtail, ..c2 }, cs.drop_first());
        assert(Config { rest: rtail, ..c2 } =~= c2);
        assert(cs.flatten() == c0 + cs.drop_first().flatten());
        assert(Config {
            state: ParserState::Done,
            body: c2.body + cs.drop_first().flatten(),
            rest: Seq::empty(),
            ..c2
        } =~= Config {
            state: ParserState::Done,
            body: c.body + cs.flatten(),
            rest: Seq::empty(),
            ..c
        }) by {
            assert((c.body + c0) + cs.drop_first().flatten() =~= c.body + (c0
                + cs.drop_first().flatten()));
        }
    }
}

// ---------------------------------------------------------------------------
// Header serialization round trip
// ---------------------------------------------------------------------------

/// Merging a pair list into a header map, first pair first.
pub open spec fn merge_all(m: Map<Seq<u8>, Seq<u8>>, ps: Seq<(Seq<u8>, Seq<u8>)>) -> Map<
    Seq<u8>,
    Seq<u8>,
>
    decreases ps.len(),
{
    if ps.len() == 0 {
        m
    } else {
        merge_all(merge_map(m, ps.first().0, ps.first().1), ps.drop_first())
    }
}

/// A sequence equal to its own trim neither starts nor ends in
/// whitespace.
proof fn lemma_trim_fixed(v: Seq<u8>)
    requires
        trim(v) == v,
        v.len() > 0,
    ensures
        !is_ws(v[0]),
        !is_ws(v.last()),
{
    if is_ws(v[0]) {
        crate::request::lemma_trim_len(v.drop_first());
        assert(trim_start(v) == trim_start(v.drop_first()));
        lemma_trim_start_len_local(v.drop_first());
        lemma_trim_end_len_local(trim_start(v));
        assert(trim(v).len() < v.len());
    }
    assert(!is_ws(v[0]));
    assert(trim_start(v) == v);
    if is_ws(v.last()) {
        lemma_trim_end_len_local(v.drop_last());
        assert(trim_end(v) == trim_end(v.drop_last()));
        assert(trim(v).len() < v.len());
    }
}

proof fn lemma_trim_start_len_local(s: Seq<u8>)
    ensures
        trim_start(s).len() <= s.len(),
    decreases s.len(),
{
    if s.len() > 0 && is_ws(s[0]) {
        lemma_trim_start_len_local(s.drop_first());
    }
}

proof fn lemma_trim_end_len_local(s: Seq<u8>)
    ensures
        trim_end(s).len() <= s.len(),
    decreases s.len(),
{
    if s.len() > 0 && is_ws(s.last()) {
        lemma_trim_end_len_local(s.drop_last());
    }
}

/// Token bytes are neither whitespace, nor CR, nor a colon.
proof fn lemma_token_byte_classes(b: u8)
    requires
        crate::wire::is_token_byte(b),
    ensures
        !is_ws(b),
        b != CR,
        b != 58,
{
}

/// One serialized header pair at the front of the buffer parses back to
/// exactly that pair.
proof fn lemma_parse_serialized_pair(name: Seq<u8>, value: Seq<u8>, rtail: Seq<u8>)
    requires
        is_token(name),
        lower(name) == name,
        trim(value) == value,
        value.len() > 0,
        (find_crlf(value) is None),
    ensures
        spec_parse_header_line(serialize_pair((name, value)) + rtail) == (HeaderLine::Field {
            name,
            value,
            consumed: name.len() + value.len() + 4int,
        }),
{
    let sp = serialize_pair((name, value));
    let s = sp + rtail;
    let nl = name.len() as int;
    let vl = value.len() as int;
    let line_len = nl + 2 + vl;
    lemma_trim_fixed(value);
    crate::wire::lemma_find_crlf_props(value);
    // byte layout
    assert(forall|i: int| 0 <= i < nl ==> s[i] == name[i]);
    assert(s[nl] == 58 && s[nl + 1] == 32);
    assert(forall|i: int| 0 <= i < vl ==> s[nl + 2 + i] == value[i]);
    assert(s[line_len] == CR && s[line_len + 1] == LF);
    assert(crlf_at(s, line_len));
    assert forall|j: int| 0 <= j < line_len implies !crlf_at(s, j) by {
        if crlf_at(s, j) {
            if j < nl {
                lemma_token_byte_classes(name[j]);
            } else if j == nl || j == nl + 1 {
            } else {
                let k = j - nl - 2;
                assert(s[j] == value[k]);
                if k == vl - 1 {
                    assert(value.last() == CR);
                } else {
                    assert(s[j + 1] == value[k + 1]);
                    assert(crlf_at(value, k));
                }
            }
        }
    }
    crate::wire::lemma_find_crlf_exact(s, line_len);
    let line = s.take(line_len);
    assert(line =~= name + seq![58u8, 32u8] + value);
    // the line is already trimmed
    assert(!is_ws(line[0])) by {
        lemma_token_byte_classes(name[0]);
    }
    assert(!is_ws(line.last()));
    crate::wire::lemma_trim_start_skip(line, 0);
    assert(line.skip(0) =~= line);
    crate::wire::lemma_trim_end_take(line, line_len);
    assert(line.take(line_len) =~= line);
    assert(trim(line) == line);
    // the first colon sits right after the name
    assert(forall|i: int| 0 <= i < nl ==> line[i] == name[i]);
    assert forall|j: int| 0 <= j < nl implies line[j] != 58 by {
        lemma_token_byte_classes(name[j]);
    }
    crate::wire::lemma_find_byte_exact(line, 58, nl);
    let name_part = line.take(nl);
    assert(name_part =~= name);
    let value_part = line.skip(nl + 1);
    assert(value_part =~= seq![32u8] + value);
    // trimming the value part gives the value back
    crate::wire::lemma_trim_start_skip(value_part, 1);
    assert(value_part.skip(1) =~= value);
    assert(trim_start(value) == value) by {
        crate::wire::lemma_trim_start_skip(value, 0);
        assert(value.skip(0) =~= value);
    }
    assert(trim(value_part) == trim_end(value));
    assert(trim_end(value) == value) by {
        assert(trim(value) == trim_end(trim_start(value)));
    }
    assert(!is_ws(name_part.last()));
    assert(is_token(name_part));
    assert(line_len + 2 == nl + vl + 4);
}

/// Parsing the serialized form of a pair list merges exactly those pairs,
/// consumes the block and its final CRLF, and moves to the state the
/// resulting header set dictates.
pub proof fn lemma_headers_block(c: Config, ps: Seq<(Seq<u8>, Seq<u8>)>, tail: Seq<u8>)
    requires
        c.state == ParserState::ParsingHeaders,
        c.rest == spec_serialize(ps) + seq![CR, LF] + tail,
        forall|k: int| 0 <= k < ps.len() ==> is_token(#[trigger] ps[k].0),
        forall|k: int| 0 <= k < ps.len() ==> lower(#[trigger] ps[k].0) == ps[k].0,
        forall|k: int| 0 <= k < ps.len() ==> trim(#[trigger] ps[k].1) == ps[k].1,
        forall|k: int| 0 <= k < ps.len() ==> #[trigger] ps[k].1.len() > 0,
        forall|k: int| 0 <= k < ps.len() ==> (find_crlf(#[trigger] ps[k].1) is None),
    ensures
        run(c) == run(
            Config {
                state: header_exit(merge_all(c.headers, ps)),
                headers: merge_all(c.headers, ps),
                rest: tail,
                ..c
            },
        ),
    decreases ps.len(),
{
    if ps.len() == 0 {
        assert(c.rest =~= seq![CR, LF] + tail);
        assert(crlf_at(c.rest, 0));
        crate::wire::lemma_find_crlf_exact(c.rest, 0);
        assert(c.rest.take(0) =~= Seq::<u8>::empty());
        assert(trim(Seq::<u8>::empty()) == Seq::<u8>::empty());
        assert(spec_parse_header_line(c.rest) == HeaderLine::Blank { consumed: 2 });
        assert(c.rest[0] == CR && c.rest[1] == LF);
        let c2 = Config { state: header_exit(c.headers), rest: c.rest.skip(2), ..c };
        assert(step(c) == Step::Next(c2));
        assert(run(c) == run(c2));
        assert(c2 =~= Config {
            state: header_exit(merge_all(c.headers, ps)),
            headers: merge_all(c.headers, ps),
            rest: tail,
            ..c
        }) by {
            assert(c.rest.skip(2) =~= tail);
        }
    } else {
        let p0 = ps.first();
        let sp = serialize_pair(p0);
        let rtail = spec_serialize(ps.drop_first()) + seq![CR, LF] + tail;
        assert(c.rest =~= sp + rtail) by {
            assert(spec_serialize(ps) == sp + spec_serialize(ps.drop_first()));
            assert((sp + spec_serialize(ps.drop_first())) + seq![CR, LF] + tail =~= sp + (
            spec_serialize(ps.drop_first()) + seq![CR, LF] + tail));
        }
        assert(ps[0] == p0);
        lemma_parse_serialized_pair(p0.0, p0.1, rtail);
        let consumed = p0.0.len() + p0.1.len() + 4int;
        assert(consumed == sp.len());
        let c2 = Config {
            headers: merge_map(c.headers, p0.0, p0.1),
            rest: c.rest.skip(consumed),
            ..c
        };
        assert(step(c) == Step::Next(c2));
        assert(run(c) == run(c2));
        assert(c2.rest =~= rtail);
        let c2x = Config { rest: rtail, ..c2 };
        assert(c2x =~= c2);
        assert(forall|k: int|
            0 <= k < ps.drop_first().len() ==> ps.drop_first()[k] == ps[k + 1]);
        lemma_headers_block(c2x, ps.drop_first(), tail);
        assert(merge_all(c.headers, ps) == merge_all(
            merge_map(c.headers, p0.0, p0.1),
            ps.drop_first(),
        ));
        assert(Config {
            state: header_exit(merge_all(c2x.headers, ps.drop_first())),
            headers: merge_all(c2x.headers, ps.drop_first()),
            rest: tail,
            ..c2x
        } =~= Config {
            state: header_exit(merge_all(c.headers, ps)),
            headers: merge_all(c.headers, ps),
            rest: tail,
            ..c
        });
    }
}

/// Merging distinct pairs into a map none of them occurs in is plain
/// map union.
proof fn lemma_merge_all_fresh(m: Map<Seq<u8>, Seq<u8>>, ps: Seq<(Seq<u8>, Seq<u8>)>)
    requires
        distinct_keys(ps),
        forall|k: int| 0 <= k < ps.len() ==> !m.contains_key(#[trigger] ps[k].0),
    ensures
        merge_all(m, ps) == m.union_prefer_right(map_of(ps)),
    decreases ps.len(),
{
    crate::headers::lemma_map_of_props(ps);
    if ps.len() == 0 {
        assert(m.union_prefer_right(map_of(ps)) =~= m);
    } else {
        let p0 = ps.first();
        assert(!m.contains_key(p0.0)) by {
            assert(ps[0] == p0);
        }
        let m2 = m.insert(p0.0, p0.1);
        assert(merge_map(m, p0.0, p0.1) == m2);
        let rest = ps.drop_first();
        assert(forall|k: int| 0 <= k < rest.len() ==> rest[k] == ps[k + 1]);
        assert(distinct_keys(rest));
        assert forall|k: int| 0 <= k < rest.len() implies !m2.contains_key(
            #[trigger] rest[k].0,
        ) by {
            assert(ps[k + 1].0 != ps[0].0);
            assert(!m.contains_key(ps[k + 1].0));
        }
        lemma_merge_all_fresh(m2, rest);
        crate::headers::lemma_map_of_props(rest);
        assert(m2.union_prefer_right(map_of(rest)) =~= m.union_prefer_right(map_of(ps))) by {
            assert forall|q: Seq<u8>| #[trigger]
                map_of(ps).contains_key(q) implies (q == p0.0 || map_of(rest).contains_key(q))
                && (map_of(ps)[q] == if q == p0.0 {
                p0.1
            } else {
                map_of(rest)[q]
            }) by {
                let i = choose|i: int| 0 <= i < ps.len() && ps[i].0 == q;
                if i == 0 {
                    assert(forall|j: int| 1 <= j < ps.len() ==> ps[j].0 != q);
                } else {
                    assert(rest[i - 1].0 == q && rest[i - 1].1 == ps[i].1);
                    assert(ps[i].0 != ps[0].0);
                }
            }
            assert forall|q: Seq<u8>| #[trigger]
                map_of(rest).contains_key(q) implies map_of(ps).contains_key(q) by {
                let i = choose|i: int| 0 <= i < rest.len() && rest[i].0 == q;
                assert(ps[i + 1].0 == q);
            }
        }
    }
}

/// For every well-formed header set, parsing its serialization followed
/// by the block-ending CRLF rebuilds exactly that set (and the parser
/// moves on as those headers dictate).
pub proof fn lemma_serialize_reparse(c: Config, ps: Seq<(Seq<u8>, Seq<u8>)>)
    requires
        c.state == ParserState::ParsingHeaders,
        c.headers == Map::<Seq<u8>, Seq<u8>>::empty(),
        c.rest == spec_serialize(ps) + seq![CR, LF],
        distinct_keys(ps),
        forall|k: int| 0 <= k < ps.len() ==> is_token(#[trigger] ps[k].0),
        forall|k: int| 0 <= k < ps.len() ==> lower(#[trigger] ps[k].0) == ps[k].0,
        forall|k: int| 0 <= k < ps.len() ==> trim(#[trigger] ps[k].1) == ps[k].1,
        forall|k: int| 0 <= k < ps.len() ==> #[trigger] ps[k].1.len() > 0,
        forall|k: int| 0 <= k < ps.len() ==> (find_crlf(#[trigger] ps[k].1) is None),
    ensures
        run(c) == run(
            Config {
                state: header_exit(map_of(ps)),
                headers: map_of(ps),
                rest: Seq::empty(),
                ..c
            },
        ),
{
    assert(c.rest =~= spec_serialize(ps) + seq![CR, LF] + Seq::<u8>::empty());
    let cx = Config { rest: spec_serialize(ps) + seq![CR, LF] + Seq::<u8>::empty(), ..c };
    assert(cx =~= c);
    lemma_headers_block(cx, ps, Seq::<u8>::empty());
    lemma_merge_all_fresh(c.headers, ps);
    assert(c.headers.union_prefer_right(map_of(ps)) =~= map_of(ps));
    assert(Config {
        state: header_exit(merge_all(cx.headers, ps)),
        headers: merge_all(cx.headers, ps),
        rest: Seq::<u8>::empty(),
        ..cx
    } =~= Config { state: header_exit(map_of(ps)), headers: map_of(ps), rest: Seq::empty(), ..c });
}

} // verus!
