//! The header set: a case-insensitive map from field name to field value,
//! its single-line parser, and its wire serialization.
//!
//! Field names are stored in canonical ASCII lowercase, so lookups under any
//! case of the query key hit. Duplicate inserts during request parsing merge
//! values with a `", "` separator; plain `insert` replaces.

use vstd::prelude::*;
use vstd::slice::{slice_subrange, slice_to_vec, slice_index_get};
use vstd::string::StringSliceAdditionalSpecFns;
use crate::wire::{
    is_ws, is_token, is_token_byte, lower, lower_bytes, trim, trim_bounds, find_crlf, find_byte,
    find_crlf_at, find_byte_at, byte_is_token, byte_is_ws,
};
use crate::ParseError;

verus! {

// ---------------------------------------------------------------------------
// The map a pair list denotes
// ---------------------------------------------------------------------------

pub open spec fn distinct_keys(ps: Seq<(Seq<u8>, Seq<u8>)>) -> bool {
    forall|i: int, j: int| 0 <= i < j < ps.len() ==> ps[i].0 != ps[j].0
}

pub open spec fn map_of(ps: Seq<(Seq<u8>, Seq<u8>)>) -> Map<Seq<u8>, Seq<u8>>
    decreases ps.len(),
{
    if ps.len() == 0 {
        Map::empty()
    } else {
        map_of(ps.drop_last()).insert(ps.last().0, ps.last().1)
    }
}

pub proof fn lemma_map_of_props(ps: Seq<(Seq<u8>, Seq<u8>)>)
    ensures
        forall|k: Seq<u8>|
            #[trigger] map_of(ps).contains_key(k) <==> exists|i: int|
                0 <= i < ps.len() && ps[i].0 == k,
        map_of(ps).dom().finite(),
        distinct_keys(ps) ==> forall|i: int|
            0 <= i < ps.len() ==> map_of(ps).contains_key(#[trigger] ps[i].0) && map_of(ps)[ps[i].0]
                == ps[i].1,
        distinct_keys(ps) ==> map_of(ps).dom().len() == ps.len(),
    decreases ps.len(),
{
    if ps.len() > 0 {
        let pre = ps.drop_last();
        lemma_map_of_props(pre);
        assert(forall|i: int| 0 <= i < pre.len() ==> pre[i] == ps[i]);
        assert forall|k: Seq<u8>| #[trigger]
            map_of(ps).contains_key(k) implies exists|i: int| 0 <= i < ps.len() && ps[i].0
            == k by {
            if k == ps.last().0 {
                assert(ps[ps.len() - 1].0 == k);
            } else {
                let i = choose|i: int| 0 <= i < pre.len() && pre[i].0 == k;
                assert(ps[i].0 == k);
            }
        }
        assert forall|k: Seq<u8>| (exists|i: int| 0 <= i < ps.len() && ps[i].0 == k) implies #[trigger]
            map_of(ps).contains_key(k) by {
            let i = choose|i: int| 0 <= i < ps.len() && ps[i].0 == k;
            if i == ps.len() - 1 {
            } else {
                assert(pre[i].0 == k);
            }
        }
        if distinct_keys(ps) {
            assert(distinct_keys(pre));
            assert forall|i: int| 0 <= i < ps.len() implies map_of(ps).contains_key(
                #[trigger] ps[i].0,
            ) && map_of(ps)[ps[i].0] == ps[i].1 by {
                if i == ps.len() - 1 {
                } else {
                    assert(ps[i].0 != ps[ps.len() - 1].0);
                    assert(pre[i].0 == ps[i].0 && pre[i].1 == ps[i].1);
                }
            }
            assert(!map_of(pre).contains_key(ps.last().0)) by {
                if map_of(pre).contains_key(ps.last().0) {
                    let i = choose|i: int| 0 <= i < pre.len() && pre[i].0 == ps.last().0;
                    assert(ps[i].0 == ps[ps.len() - 1].0);
                }
            }
            assert(map_of(ps).dom() =~= map_of(pre).dom().insert(ps.last().0));
        }
    }
}

// ---------------------------------------------------------------------------
// Merge-on-duplicate rule
// ---------------------------------------------------------------------------

/// The `", "` separator placed between merged duplicate values.
pub open spec fn join_sep() -> Seq<u8> {
    seq![44u8, 32u8]
}

/// How a parsed header pair lands in the set: a fresh key is inserted, a
/// repeated key has the new value appended after `", "` (an empty stored
/// value is simply replaced).
pub open spec fn merge_map(m: Map<Seq<u8>, Seq<u8>>, k: Seq<u8>, v: Seq<u8>) -> Map<
    Seq<u8>,
    Seq<u8>,
> {
    if !m.contains_key(k) {
        m.insert(k, v)
    } else if m[k].len() == 0 {
        m.insert(k, v)
    } else {
        m.insert(k, m[k] + join_sep() + v)
    }
}

// ---------------------------------------------------------------------------
// Single header line
// ---------------------------------------------------------------------------

/// What one attempt to take a header line off the front of the buffer
/// yields.
pub enum HeaderLine {
    /// No CRLF in the buffer yet: more bytes are needed.
    Incomplete,
    /// A line that is empty after trimming; `consumed` covers it and its
    /// CRLF.
    Blank { consumed: int },
    /// A parsed `name: value` pair; the name comes lowercased, the value
    /// trimmed.
    Field { name: Seq<u8>, value: Seq<u8>, consumed: int },
    /// A line that violates field syntax.
    Malformed,
}

/// Parse at most one header line off the front of `s`: split at the first
/// CRLF, trim the line, split it at the first colon, and validate the
/// field-name token.
pub open spec fn spec_parse_header_line(s: Seq<u8>) -> HeaderLine {
    match find_crlf(s) {
        None => HeaderLine::Incomplete,
        Some(i) => {
            let line = s.take(i);
            let consumed = i + 2;
            let t = trim(line);
            if t.len() == 0 {
                HeaderLine::Blank { consumed }
            } else {
                match find_byte(t, 58) {
                    None => HeaderLine::Malformed,
                    Some(j) => {
                        let name_part = t.take(j);
                        let value_part = t.skip(j + 1);
                        if name_part.len() > 0 && is_ws(name_part.last()) {
                            HeaderLine::Malformed
                        } else if !is_token(name_part) {
                            HeaderLine::Malformed
                        } else {
                            HeaderLine::Field {
                                name: lower(name_part),
                                value: trim(value_part),
                                consumed,
                            }
                        }
                    },
                }
            }
        },
    }
}

// ---------------------------------------------------------------------------
// Serialization
// ---------------------------------------------------------------------------

/// The wire form of one header pair: `name: value` followed by CRLF.
pub open spec fn serialize_pair(p: (Seq<u8>, Seq<u8>)) -> Seq<u8> {
    p.0 + seq![58u8, 32u8] + p.1 + seq![13u8, 10u8]
}

/// The wire form of a whole pair list, in order.
pub open spec fn spec_serialize(ps: Seq<(Seq<u8>, Seq<u8>)>) -> Seq<u8>
    decreases ps.len(),
{
    if ps.len() == 0 {
        Seq::empty()
    } else {
        serialize_pair(ps.first()) + spec_serialize(ps.drop_first())
    }
}

pub proof fn lemma_serialize_snoc(ps: Seq<(Seq<u8>, Seq<u8>)>, p: (Seq<u8>, Seq<u8>))
    ensures
        spec_serialize(ps.push(p)) == spec_serialize(ps) + serialize_pair(p),
    decreases ps.len(),
{
    if ps.len() == 0 {
        assert(ps.push(p).drop_first() =~= Seq::<(Seq<u8>, Seq<u8>)>::empty());
        assert(ps.push(p).first() == p);
        assert(spec_serialize(ps.push(p)) == serialize_pair(p) + spec_serialize(
            ps.push(p).drop_first(),
        ));
        assert(spec_serialize(ps.push(p)) =~= spec_serialize(ps) + serialize_pair(p));
    } else {
        assert(ps.push(p).drop_first() =~= ps.drop_first().push(p));
        assert(ps.push(p).first() == ps.first());
        lemma_serialize_snoc(ps.drop_first(), p);
        assert(spec_serialize(ps.push(p)) == serialize_pair(ps.first()) + (spec_serialize(
            ps.drop_first(),
        ) + serialize_pair(p)));
        assert(serialize_pair(ps.first()) + (spec_serialize(ps.drop_first()) + serialize_pair(p))
            =~= (serialize_pair(ps.first()) + spec_serialize(ps.drop_first())) + serialize_pair(p));
    }
}

// ---------------------------------------------------------------------------
// Byte-string comparison
// ---------------------------------------------------------------------------

pub fn eq_bytes(a: &[u8], b: &[u8]) -> (r: bool)
    ensures
        r == (a@ == b@),
{
    if a.len() != b.len() {
        return false;
    }
    let n = a.len();
    let mut i: usize = 0;
    while i < n
        invariant
            n == a@.len() == b@.len(),
            i <= n,
            forall|j: int| 0 <= j < i ==> a@[j] == b@[j],
        decreases n - i,
    {
        if a[i] != b[i] {
            return false;
        }
        i = i + 1;
    }
    proof {
        assert(a@ =~= b@);
    }
    true
}

// ---------------------------------------------------------------------------
// The header set
// ---------------------------------------------------------------------------

/// A set of header fields. The backing list keeps insertion order; the
/// abstract value is the map it denotes. Keys are held in lowercase and are
/// distinct.
#[derive(Debug, Clone)]
pub struct Headers {
    pub pairs: Vec<(Vec<u8>, Vec<u8>)>,
}

impl View for Headers {
    type V = Map<Seq<u8>, Seq<u8>>;

    open spec fn view(&self) -> Map<Seq<u8>, Seq<u8>> {
        map_of(self.pairs_view())
    }
}

impl Headers {
    /// The stored pairs, in insertion order.
    pub open spec fn pairs_view(&self) -> Seq<(Seq<u8>, Seq<u8>)> {
        self.pairs@.map_values(|p: (Vec<u8>, Vec<u8>)| (p.0@, p.1@))
    }

    /// Keys are distinct and already lowercased.
    pub open spec fn wf(&self) -> bool {
        &&& distinct_keys(self.pairs_view())
        &&& forall|i: int|
            0 <= i < self.pairs_view().len() ==> lower(#[trigger] self.pairs_view()[i].0)
                == self.pairs_view()[i].0
    }

    pub fn new() -> (r: Headers)
        ensures
            r.wf(),
            r@ == Map::<Seq<u8>, Seq<u8>>::empty(),
            r.pairs_view() == Seq::<(Seq<u8>, Seq<u8>)>::empty(),
    {
        let r = Headers { pairs: Vec::new() };
        proof {
            assert(r.pairs_view() =~= Seq::<(Seq<u8>, Seq<u8>)>::empty());
        }
        r
    }

    /// Index of the pair whose key equals `key`, if any.
    fn find_idx(&self, key: &[u8]) -> (r: Option<usize>)
        ensures
            match r {
                Some(i) => i < self.pairs_view().len() && self.pairs_view()[i as int].0 == key@,
                None => forall|i: int|
                    0 <= i < self.pairs_view().len() ==> self.pairs_view()[i].0 != key@,
            },
    {
        let n = self.pairs.len();
        let mut i: usize = 0;
        while i < n
            invariant
                n == self.pairs@.len(),
                i <= n,
                forall|j: int| 0 <= j < i ==> self.pairs_view()[j].0 != key@,
            decreases n - i,
        {
            let p = slice_index_get(self.pairs.as_slice(), i);
            if eq_bytes(p.0.as_slice(), key) {
                return Some(i);
            }
            i = i + 1;
        }
        None
    }

    /// Case-insensitive lookup by a raw (already lowercased) key.
    pub fn get_bytes(&self, key: &[u8]) -> (r: Option<&Vec<u8>>)
        requires
            self.wf(),
        ensures
            match r {
                Some(v) => self@.contains_key(key@) && v@ == self@[key@],
                None => !self@.contains_key(key@),
            },
    {
        proof {
            lemma_map_of_props(self.pairs_view());
        }
        match self.find_idx(key) {
            Some(i) => {
                let p = slice_index_get(self.pairs.as_slice(), i);
                Some(&p.1)
            },
            None => {
                proof {
                    if self@.contains_key(key@) {
                        let i = choose|i: int|
                            0 <= i < self.pairs_view().len() && self.pairs_view()[i].0 == key@;
                    }
                }
                None
            },
        }
    }

    /// Case-insensitive lookup: the query key is folded to lowercase.
    pub fn get(&self, k: &str) -> (r: Option<&Vec<u8>>)
        requires
            self.wf(),
        ensures
            match r {
                Some(v) => self@.contains_key(lower(k.spec_bytes())) && v@ == self@[lower(
                    k.spec_bytes(),
                )],
                None => !self@.contains_key(lower(k.spec_bytes())),
            },
    {
        let key = lower_bytes(k.as_bytes());
        self.get_bytes(key.as_slice())
    }

    /// Number of stored fields.
    pub fn len(&self) -> (r: usize)
        requires
            self.wf(),
        ensures
            r == self@.dom().len(),
    {
        proof {
            lemma_map_of_props(self.pairs_view());
        }
        self.pairs.len()
    }

    /// Store a pair, replacing any previous value under the (lowercased)
    /// name; the replaced value is handed back.
    pub fn insert(&mut self, k: &str, v: &str) -> (r: Option<Vec<u8>>)
        requires
            old(self).wf(),
        ensures
            final(self).wf(),
            final(self)@ == old(self)@.insert(lower(k.spec_bytes()), v.spec_bytes()),
            !old(self)@.contains_key(lower(k.spec_bytes())) ==> final(self).pairs_view() == old(
                self,
            ).pairs_view().push((lower(k.spec_bytes()), v.spec_bytes())),
            match r {
                Some(x) => old(self)@.contains_key(lower(k.spec_bytes())) && x@ == old(self)@[lower(
                    k.spec_bytes(),
                )],
                None => !old(self)@.contains_key(lower(k.spec_bytes())),
            },
    {
        let key = lower_bytes(k.as_bytes());
        let val = slice_to_vec(v.as_bytes());
        proof {
            crate::wire::lemma_lower_idempotent(k.spec_bytes());
        }
        self.put(key, val)
    }

    /// Store a pre-lowercased pair, replacing any previous value.
    pub fn put(&mut self, key: Vec<u8>, val: Vec<u8>) -> (r: Option<Vec<u8>>)
        requires
            old(self).wf(),
            lower(key@) == key@,
        ensures
            final(self).wf(),
            final(self)@ == old(self)@.insert(key@, val@),
            !old(self)@.contains_key(key@) ==> final(self).pairs_view() == old(
                self,
            ).pairs_view().push((key@, val@)),
            match r {
                Some(x) => old(self)@.contains_key(key@) && x@ == old(self)@[key@],
                None => !old(self)@.contains_key(key@),
            },
    {
        proof {
            lemma_map_of_props(self.pairs_view());
        }
        match self.find_idx(key.as_slice()) {
            Some(i) => {
                let ghost pre = self.pairs_view();
                let old_pair = self.pairs.remove(i);
                self.pairs.push((key, val));
                proof {
                    let ghost mid = pre.remove(i as int);
                    assert(self.pairs_view() =~= mid.push((key@, val@)));
                    assert(forall|j: int| 0 <= j < i ==> mid[j] == pre[j]);
                    assert(forall|j: int| i <= j < mid.len() ==> mid[j] == pre[j + 1]);
                    assert(distinct_keys(self.pairs_view())) by {
                        assert forall|a: int, b: int|
                            0 <= a < b < self.pairs_view().len() implies self.pairs_view()[a].0
                            != self.pairs_view()[b].0 by {
                            if b < mid.len() {
                            } else {
                                assert(self.pairs_view()[b].0 == key@);
                                assert(mid[a].0 != key@) by {
                                    if a < i {
                                        assert(pre[a].0 != pre[i as int].0);
                                    } else {
                                        assert(pre[a + 1].0 != pre[i as int].0);
                                    }
                                }
                            }
                        }
                    }
                    lemma_map_of_props(self.pairs_view());
                    assert(self@ =~= old(self)@.insert(key@, val@)) by {
                        lemma_map_of_props(pre);
                        lemma_map_of_props(self.pairs_view());
                        assert forall|q: Seq<u8>| #[trigger]
                            self@.contains_key(q) implies old(self)@.insert(
                            key@,
                            val@,
                        ).contains_key(q) && self@[q] == old(self)@.insert(key@, val@)[q] by {
                            let a = choose|a: int|
                                0 <= a < self.pairs_view().len() && self.pairs_view()[a].0 == q;
                            if a == mid.len() {
                                assert(q == key@);
                            } else {
                                assert(self.pairs_view()[a] == mid[a]);
                                if a < i {
                                    assert(pre[a].0 == q && pre[a].1 == mid[a].1);
                                } else {
                                    assert(pre[a + 1].0 == q && pre[a + 1].1 == mid[a].1);
                                }
                                assert(q != key@);
                            }
                        }
                        assert forall|q: Seq<u8>| #[trigger]
                            old(self)@.insert(key@, val@).contains_key(q) implies self@.contains_key(
                            q,
                        ) by {
                            if q == key@ {
                                assert(self.pairs_view()[mid.len() as int].0 == key@);
                            } else {
                                let a = choose|a: int| 0 <= a < pre.len() && pre[a].0 == q;
                                assert(a != i);
                                if a < i {
                                    assert(self.pairs_view()[a].0 == q);
                                } else {
                                    assert(self.pairs_view()[a - 1] == mid[a - 1]);
                                    assert(mid[a - 1] == pre[a]);
                                }
                            }
                        }
                    }
                    assert(pre[i as int].1 == old_pair.1@);
                }
                Some(old_pair.1)
            },
            None => {
                self.pairs.push((key, val));
                proof {
                    assert(self.pairs_view() =~= old(self).pairs_view().push((key@, val@)));
                    assert(self.pairs_view().drop_last() =~= old(self).pairs_view());
                    assert(self.pairs_view().last() == (key@, val@));
                    assert(self@ == old(self)@.insert(key@, val@));
                }
                None
            },
        }
    }

    /// Merge a parsed pair into the set under the `", "` join rule.
    pub fn merge_insert(&mut self, key: Vec<u8>, val: Vec<u8>)
        requires
            old(self).wf(),
            lower(key@) == key@,
        ensures
            final(self).wf(),
            final(self)@ == merge_map(old(self)@, key@, val@),
    {
        proof {
            lemma_map_of_props(self.pairs_view());
        }
        let joined: Vec<u8>;
        match self.get_bytes(key.as_slice()) {
            Some(existing) => {
                if existing.len() == 0 {
                    joined = val;
                } else {
                    let mut j: Vec<u8> = existing.clone();
                    proof {
                        assert(j@ == existing@);
                    }
                    j.push(44);
                    j.push(32);
                    crate::wire::push_bytes(&mut j, val.as_slice());
                    proof {
                        assert(j@ =~= old(self)@[key@] + join_sep() + val@);
                    }
                    joined = j;
                }
            },
            None => {
                joined = val;
            },
        }
        self.put(key, joined);
    }

    /// The wire form `name: value\r\n` of every field, in insertion order.
    pub fn serialize(&self) -> (r: Vec<u8>)
        ensures
            r@ == spec_serialize(self.pairs_view()),
    {
        let mut out: Vec<u8> = Vec::new();
        let n = self.pairs.len();
        let mut i: usize = 0;
        while i < n
            invariant
                n == self.pairs@.len(),
                i <= n,
                out@ == spec_serialize(self.pairs_view().take(i as int)),
            decreases n - i,
        {
            let p = slice_index_get(self.pairs.as_slice(), i);
            crate::wire::push_bytes(&mut out, p.0.as_slice());
            out.push(58);
            out.push(32);
            crate::wire::push_bytes(&mut out, p.1.as_slice());
            out.push(13);
            out.push(10);
            proof {
                let ps = self.pairs_view();
                assert(ps.take(i + 1) =~= ps.take(i as int).push(ps[i as int]));
                lemma_serialize_snoc(ps.take(i as int), ps[i as int]);
                assert(out@ =~= spec_serialize(ps.take(i as int)) + serialize_pair(ps[i as int]));
            }
            i = i + 1;
        }
        proof {
            assert(self.pairs_view().take(n as int) =~= self.pairs_view());
        }
        out
    }

    /// Whether `s` is a legal header field name: non-empty and made only of
    /// RFC 7230 token bytes.
    pub fn valid_field_name(s: &[u8]) -> (r: bool)
        ensures
            r == is_token(s@),
    {
        if s.len() == 0 {
            return false;
        }
        let n = s.len();
        let mut i: usize = 0;
        while i < n
            invariant
                n == s@.len(),
                i <= n,
                forall|j: int| 0 <= j < i ==> is_token_byte(s@[j]),
            decreases n - i,
        {
            if !byte_is_token(s[i]) {
                return false;
            }
            i = i + 1;
        }
        true
    }

    /// Parse at most one header line off the front of `data`.
    ///
    /// `Ok((None, 0))` asks for more bytes; `Ok((None, n))` reports a line
    /// that is blank once trimmed; `Ok((Some((name, value)), n))` hands the
    /// lowercased name and trimmed value over together with the bytes
    /// consumed; a field-syntax violation is an error.
    pub fn parse_headers(data: &[u8]) -> (r: Result<(Option<(Vec<u8>, Vec<u8>)>, usize), ParseError>)
        ensures
            match spec_parse_header_line(data@) {
                HeaderLine::Incomplete => r matches Ok(p) && p.0 is None && p.1 == 0,
                HeaderLine::Blank { consumed } => r matches Ok(p) && p.0 is None && p.1 == consumed,
                HeaderLine::Field { name, value, consumed } => r matches Ok(p) && p.0 matches Some(
                    nv,
                ) && nv.0@ == name && nv.1@ == value && p.1 == consumed,
                HeaderLine::Malformed => r matches Err(e) && e == ParseError::MalformedHeader,
            },
    {
        let dlen = data.len();
        let i = match find_crlf_at(data) {
            None => {
                return Ok((None, 0));
            },
            Some(i) => i,
        };
        proof {
            assert(dlen == data@.len());
        }
        proof {
            crate::wire::lemma_find_crlf_props(data@);
            assert(crate::wire::crlf_at(data@, i as int));
            assert(i + 2 <= data@.len());
        }
        let line = slice_subrange(data, 0, i);
        proof {
            assert(line@ =~= data@.take(i as int));
        }
        let (lo, hi) = trim_bounds(line);
        if lo == hi {
            return Ok((None, i + 2));
        }
        let t = slice_subrange(line, lo, hi);
        let j = match find_byte_at(t, 58) {
            None => {
                return Err(ParseError::MalformedHeader);
            },
            Some(j) => j,
        };
        proof {
            crate::wire::lemma_find_byte_props(t@, 58);
        }
        let name_part = slice_subrange(t, 0, j);
        proof {
            assert(name_part@ =~= t@.take(j as int));
        }
        if j > 0 && byte_is_ws(name_part[j - 1]) {
            return Err(ParseError::MalformedHeader);
        }
        if !Self::valid_field_name(name_part) {
            return Err(ParseError::MalformedHeader);
        }
        let value_part = slice_subrange(t, j + 1, t.len());
        proof {
            assert(value_part@ =~= t@.skip(j + 1));
        }
        let (vlo, vhi) = trim_bounds(value_part);
        let value = slice_to_vec(slice_subrange(value_part, vlo, vhi));
        let name = lower_bytes(name_part);
        Ok((Some((name, value)), i + 2))
    }
}

// ---------------------------------------------------------------------------
// Well-known field names
// ---------------------------------------------------------------------------

/// The lowercase field name `transfer-encoding`.
pub open spec fn te_key() -> Seq<u8> {
    seq![116u8, 114u8, 97u8, 110u8, 115u8, 102u8, 101u8, 114u8, 45u8, 101u8, 110u8, 99u8, 111u8, 100u8, 105u8, 110u8, 103u8]
}

/// The lowercase field name `content-length`.
pub open spec fn cl_key() -> Seq<u8> {
    seq![99u8, 111u8, 110u8, 116u8, 101u8, 110u8, 116u8, 45u8, 108u8, 101u8, 110u8, 103u8, 116u8, 104u8]
}

/// The value `chunked`.
pub open spec fn chunked_val() -> Seq<u8> {
    seq![99u8, 104u8, 117u8, 110u8, 107u8, 101u8, 100u8]
}

pub fn te_key_vec() -> (r: Vec<u8>)
    ensures
        r@ == te_key(),
        lower(r@) == r@,
{
    let mut v: Vec<u8> = Vec::new();
    v.push(116);
    v.push(114);
    v.push(97);
    v.push(110);
    v.push(115);
    v.push(102);
    v.push(101);
    v.push(114);
    v.push(45);
    v.push(101);
    v.push(110);
    v.push(99);
    v.push(111);
    v.push(100);
    v.push(105);
    v.push(110);
    v.push(103);
    proof {
        assert(v@ =~= te_key());
        assert(lower(v@) =~= v@);
    }
    v
}

pub fn cl_key_vec() -> (r: Vec<u8>)
    ensures
        r@ == cl_key(),
        lower(r@) == r@,
{
    let mut v: Vec<u8> = Vec::new();
    v.push(99);
    v.push(111);
    v.push(110);
    v.push(116);
    v.push(101);
    v.push(110);
    v.push(116);
    v.push(45);
    v.push(108);
    v.push(101);
    v.push(110);
    v.push(103);
    v.push(116);
    v.push(104);
    proof {
        assert(v@ =~= cl_key());
        assert(lower(v@) =~= v@);
    }
    v
}

pub fn chunked_val_vec() -> (r: Vec<u8>)
    ensures
        r@ == chunked_val(),
{
    let mut v: Vec<u8> = Vec::new();
    v.push(99);
    v.push(104);
    v.push(117);
    v.push(110);
    v.push(107);
    v.push(101);
    v.push(100);
    proof {
        assert(v@ =~= chunked_val());
    }
    v
}

} // verus!
