//! Byte-level building blocks of the HTTP/1.1 wire codec: character
//! classes, ASCII case folding, trimming, line scanning, and the decimal
//! and hexadecimal number forms used by framing.

use vstd::prelude::*;

verus! {

pub const CR: u8 = 13;
pub const LF: u8 = 10;

// ---------------------------------------------------------------------------
// Byte classes
// ---------------------------------------------------------------------------

/// ASCII whitespace: space, tab, line feed, form feed, carriage return.
pub open spec fn is_ws(b: u8) -> bool {
    b == 32 || b == 9 || b == 10 || b == 12 || b == 13
}

pub fn byte_is_ws(b: u8) -> (r: bool)
    ensures
        r == is_ws(b),
{
    b == 32 || b == 9 || b == 10 || b == 12 || b == 13
}

/// ASCII lowercase folding of one byte.
pub open spec fn lower_byte(b: u8) -> u8 {
    if 65 <= b && b <= 90 {
        (b + 32) as u8
    } else {
        b
    }
}

/// ASCII lowercase folding of a byte sequence.
pub open spec fn lower(s: Seq<u8>) -> Seq<u8> {
    s.map_values(|b: u8| lower_byte(b))
}

pub fn lower_bytes(s: &[u8]) -> (r: Vec<u8>)
    ensures
        r@ == lower(s@),
{
    let mut out: Vec<u8> = Vec::new();
    let mut i: usize = 0;
    while i < s.len()
        invariant
            i <= s@.len(),
            out@ == lower(s@).take(i as int),
        decreases s@.len() - i,
    {
        let b = s[i];
        if 65 <= b && b <= 90 {
            out.push(b + 32);
        } else {
            out.push(b);
        }
        i = i + 1;
        proof {
            assert(out@ =~= lower(s@).take(i as int));
        }
    }
    proof {
        assert(out@ =~= lower(s@));
    }
    out
}

/// Folding to lowercase twice is the same as folding once.
pub proof fn lemma_lower_idempotent(s: Seq<u8>)
    ensures
        lower(lower(s)) == lower(s),
{
    assert(lower(lower(s)) =~= lower(s));
}

/// A byte allowed in a header field name (the RFC 7230 token set).
pub open spec fn is_token_byte(b: u8) -> bool {
    (48 <= b && b <= 57) || (65 <= b && b <= 90) || (97 <= b && b <= 122) || b == 33 || b == 35
        || b == 36 || b == 37 || b == 38 || b == 39 || b == 42 || b == 43 || b == 45 || b == 46
        || b == 94 || b == 95 || b == 96 || b == 124 || b == 126
}

pub fn byte_is_token(b: u8) -> (r: bool)
    ensures
        r == is_token_byte(b),
{
    (48 <= b && b <= 57) || (65 <= b && b <= 90) || (97 <= b && b <= 122) || b == 33 || b == 35
        || b == 36 || b == 37 || b == 38 || b == 39 || b == 42 || b == 43 || b == 45 || b == 46
        || b == 94 || b == 95 || b == 96 || b == 124 || b == 126
}

/// A non-empty sequence made only of token bytes.
pub open spec fn is_token(s: Seq<u8>) -> bool {
    s.len() > 0 && forall|i: int| 0 <= i < s.len() ==> is_token_byte(s[i])
}

// ---------------------------------------------------------------------------
// Trimming
// ---------------------------------------------------------------------------

pub open spec fn trim_start(s: Seq<u8>) -> Seq<u8>
    decreases s.len(),
{
    if s.len() > 0 && is_ws(s[0]) {
        trim_start(s.drop_first())
    } else {
        s
    }
}

pub open spec fn trim_end(s: Seq<u8>) -> Seq<u8>
    decreases s.len(),
{
    if s.len() > 0 && is_ws(s.last()) {
        trim_end(s.drop_last())
    } else {
        s
    }
}

/// Whitespace stripped from both ends.
pub open spec fn trim(s: Seq<u8>) -> Seq<u8> {
    trim_end(trim_start(s))
}

pub proof fn lemma_trim_start_skip(s: Seq<u8>, k: int)
    requires
        0 <= k <= s.len(),
        forall|i: int| 0 <= i < k ==> is_ws(s[i]),
        k == s.len() || !is_ws(s[k]),
    ensures
        trim_start(s) == s.skip(k),
    decreases k,
{
    if k == 0 {
        assert(trim_start(s) =~= s.skip(0)) by {
            assert(s.skip(0) =~= s);
        }
    } else {
        assert(is_ws(s[0]));
        lemma_trim_start_skip(s.drop_first(), k - 1);
        assert(s.drop_first().skip(k - 1) =~= s.skip(k));
    }
}

pub proof fn lemma_trim_end_take(s: Seq<u8>, k: int)
    requires
        0 <= k <= s.len(),
        forall|i: int| k <= i < s.len() ==> is_ws(s[i]),
        k == 0 || !is_ws(s[k - 1]),
    ensures
        trim_end(s) == s.take(k),
    decreases s.len(),
{
    if k == s.len() {
        if s.len() > 0 {
            assert(!is_ws(s.last()));
        }
        assert(trim_end(s) =~= s.take(k));
    } else {
        assert(is_ws(s.last()));
        lemma_trim_end_take(s.drop_last(), k);
        assert(s.drop_last().take(k) =~= s.take(k));
    }
}

/// The bounds of the trimmed interior of `s`: `trim(s@) == s@.subrange(lo, hi)`.
pub fn trim_bounds(s: &[u8]) -> (r: (usize, usize))
    ensures
        r.0 <= r.1 <= s@.len(),
        trim(s@) == s@.subrange(r.0 as int, r.1 as int),
{
    let n = s.len();
    let mut lo: usize = 0;
    while lo < n && byte_is_ws(s[lo])
        invariant
            lo <= n == s@.len(),
            forall|i: int| 0 <= i < lo ==> is_ws(s@[i]),
        decreases n - lo,
    {
        lo = lo + 1;
    }
    proof {
        lemma_trim_start_skip(s@, lo as int);
    }
    let mut hi: usize = n;
    while hi > lo && byte_is_ws(s[hi - 1])
        invariant
            lo <= hi <= n == s@.len(),
            forall|i: int| hi <= i < n ==> is_ws(s@[i]),
        decreases hi,
    {
        hi = hi - 1;
    }
    proof {
        let tail = s@.skip(lo as int);
        lemma_trim_end_take(tail, hi - lo);
        assert(tail.take(hi - lo) =~= s@.subrange(lo as int, hi as int));
    }
    (lo, hi)
}

// ---------------------------------------------------------------------------
// Line scanning
// ---------------------------------------------------------------------------

/// Position of the first CRLF pair in `s`, if any.
pub open spec fn find_crlf(s: Seq<u8>) -> Option<int>
    decreases s.len(),
{
    if s.len() < 2 {
        None
    } else if s[0] == CR && s[1] == LF {
        Some(0)
    } else {
        match find_crlf(s.drop_first()) {
            Some(i) => Some(i + 1),
            None => None,
        }
    }
}

pub open spec fn crlf_at(s: Seq<u8>, i: int) -> bool {
    0 <= i && i + 2 <= s.len() && s[i] == CR && s[i + 1] == LF
}

pub proof fn lemma_find_crlf_props(s: Seq<u8>)
    ensures
        match find_crlf(s) {
            Some(i) => crlf_at(s, i) && forall|j: int| 0 <= j < i ==> !crlf_at(s, j),
            None => forall|j: int| !crlf_at(s, j),
        },
    decreases s.len(),
{
    if s.len() < 2 {
    } else if s[0] == CR && s[1] == LF {
    } else {
        lemma_find_crlf_props(s.drop_first());
        let t = s.drop_first();
        assert(forall|j: int| crlf_at(s, j) && j >= 1 ==> crlf_at(t, j - 1));
        match find_crlf(t) {
            Some(i) => {
                assert(crlf_at(t, i));
                assert(crlf_at(s, i + 1));
            },
            None => {
                assert(forall|j: int| #[trigger] crlf_at(s, j) ==> j >= 1 && crlf_at(t, j - 1));
            },
        }
    }
}

pub proof fn lemma_find_crlf_exact(s: Seq<u8>, i: int)
    requires
        crlf_at(s, i),
        forall|j: int| 0 <= j < i ==> !crlf_at(s, j),
    ensures
        find_crlf(s) == Some(i),
{
    lemma_find_crlf_props(s);
    match find_crlf(s) {
        Some(k) => {
            if k < i {
                assert(!crlf_at(s, k));
            } else if k > i {
                assert(!crlf_at(s, i));
            }
        },
        None => {
            assert(!crlf_at(s, i));
        },
    }
}

/// A CRLF found in a prefix stays the first CRLF when more bytes arrive.
pub proof fn lemma_find_crlf_extend(s: Seq<u8>, t: Seq<u8>)
    requires
        find_crlf(s) is Some,
    ensures
        find_crlf(s + t) == find_crlf(s),
{
    let i = find_crlf(s)->Some_0;
    lemma_find_crlf_props(s);
    assert(crlf_at(s + t, i));
    assert forall|j: int| 0 <= j < i implies !crlf_at(s + t, j) by {
        assert(!crlf_at(s, j));
    }
    lemma_find_crlf_exact(s + t, i);
}

pub fn find_crlf_at(s: &[u8]) -> (r: Option<usize>)
    ensures
        match r {
            Some(i) => find_crlf(s@) == Some(i as int),
            None => find_crlf(s@) is None,
        },
{
    let n = s.len();
    if n >= 2 {
        let mut i: usize = 0;
        while i < n - 1
            invariant
                n == s@.len(),
                2 <= n,
                i <= n - 1,
                forall|j: int| 0 <= j < i ==> !crlf_at(s@, j),
            decreases n - i,
        {
            if s[i] == CR && s[i + 1] == LF {
                proof {
                    lemma_find_crlf_exact(s@, i as int);
                }
                return Some(i);
            }
            i = i + 1;
        }
        proof {
            lemma_find_crlf_props(s@);
            if find_crlf(s@) is Some {
                let k = find_crlf(s@)->Some_0;
                assert(crlf_at(s@, k));
                assert(!crlf_at(s@, k));
            }
        }
        None
    } else {
        None
    }
}

/// Position of the first occurrence of byte `b` in `s`, if any.
pub open spec fn find_byte(s: Seq<u8>, b: u8) -> Option<int>
    decreases s.len(),
{
    if s.len() == 0 {
        None
    } else if s[0] == b {
        Some(0)
    } else {
        match find_byte(s.drop_first(), b) {
            Some(i) => Some(i + 1),
            None => None,
        }
    }
}

pub proof fn lemma_find_byte_props(s: Seq<u8>, b: u8)
    ensures
        match find_byte(s, b) {
            Some(i) => 0 <= i < s.len() && s[i] == b && forall|j: int| 0 <= j < i ==> s[j] != b,
            None => forall|j: int| 0 <= j < s.len() ==> s[j] != b,
        },
    decreases s.len(),
{
    if s.len() == 0 {
    } else if s[0] == b {
    } else {
        let t = s.drop_first();
        lemma_find_byte_props(t, b);
        assert(forall|j: int| 1 <= j < s.len() ==> s[j] == t[j - 1]);
        match find_byte(t, b) {
            Some(i) => {
                assert(s[i + 1] == b);
                assert forall|j: int| 0 <= j < i + 1 implies s[j] != b by {
                    if j >= 1 {
                        assert(t[j - 1] != b);
                    }
                }
            },
            None => {
                assert forall|j: int| 0 <= j < s.len() implies s[j] != b by {
                    if j >= 1 {
                        assert(t[j - 1] != b);
                    }
                }
            },
        }
    }
}

pub proof fn lemma_find_byte_exact(s: Seq<u8>, b: u8, i: int)
    requires
        0 <= i < s.len(),
        s[i] == b,
        forall|j: int| 0 <= j < i ==> s[j] != b,
    ensures
        find_byte(s, b) == Some(i),
{
    lemma_find_byte_props(s, b);
    match find_byte(s, b) {
        Some(k) => {
            if k < i {
            } else if k > i {
            }
        },
        None => {},
    }
}

pub fn find_byte_at(s: &[u8], b: u8) -> (r: Option<usize>)
    ensures
        match r {
            Some(i) => find_byte(s@, b) == Some(i as int),
            None => find_byte(s@, b) is None,
        },
{
    let n = s.len();
    let mut i: usize = 0;
    while i < n
        invariant
            n == s@.len(),
            i <= n,
            forall|j: int| 0 <= j < i ==> s@[j] != b,
        decreases n - i,
    {
        if s[i] == b {
            proof {
                lemma_find_byte_exact(s@, b, i as int);
            }
            return Some(i);
        }
        i = i + 1;
    }
    proof {
        lemma_find_byte_props(s@, b);
    }
    None
}

// ---------------------------------------------------------------------------
// Small byte-building helpers
// ---------------------------------------------------------------------------

/// Remove the first `k` bytes of `v`, keeping the rest in order.
pub fn drop_front(v: &mut Vec<u8>, k: usize)
    requires
        k <= old(v)@.len(),
    ensures
        final(v)@ == old(v)@.skip(k as int),
{
    let n = v.len();
    let mut out: Vec<u8> = Vec::new();
    push_bytes(&mut out, vstd::slice::slice_subrange(v.as_slice(), k, n));
    proof {
        assert(out@ =~= old(v)@.skip(k as int));
    }
    *v = out;
}

/// Append every byte of `src` to `dst`.
pub fn push_bytes(dst: &mut Vec<u8>, src: &[u8])
    ensures
        final(dst)@ == old(dst)@ + src@,
{
    let mut i: usize = 0;
    while i < src.len()
        invariant
            i <= src@.len(),
            dst@ == old(dst)@ + src@.take(i as int),
        decreases src@.len() - i,
    {
        dst.push(src[i]);
        i = i + 1;
        proof {
            assert(old(dst)@ + src@.take(i as int) =~= (old(dst)@ + src@.take(i - 1)).push(
                src@[i - 1],
            ));
        }
    }
    proof {
        assert(old(dst)@ + src@.take(src@.len() as int) =~= old(dst)@ + src@);
    }
}

} // verus!
