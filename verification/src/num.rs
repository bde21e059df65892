//! Decimal and hexadecimal numerals as they appear on the wire: the
//! `Content-Length` value, the chunk-size line, and the digest hex form.

use vstd::prelude::*;
use crate::wire::{CR, LF};

verus! {

// ---------------------------------------------------------------------------
// Digits
// ---------------------------------------------------------------------------

pub open spec fn is_dec_digit(b: u8) -> bool {
    48 <= b && b <= 57
}

pub open spec fn dec_digit_val(b: u8) -> int {
    b - 48
}

pub open spec fn is_hex_digit(b: u8) -> bool {
    (48 <= b && b <= 57) || (97 <= b && b <= 102) || (65 <= b && b <= 70)
}

pub open spec fn hex_digit_val(b: u8) -> int {
    if 48 <= b && b <= 57 {
        b - 48
    } else if 97 <= b && b <= 102 {
        b - 87
    } else {
        b - 55
    }
}

/// The lowercase hex digit for a value below 16.
pub open spec fn hex_digit(d: int) -> u8 {
    if d < 10 {
        (48 + d) as u8
    } else {
        (87 + d) as u8
    }
}

pub open spec fn dec_digit(d: int) -> u8 {
    (48 + d) as u8
}

// ---------------------------------------------------------------------------
// Numeral values (most significant digit first)
// ---------------------------------------------------------------------------

pub open spec fn all_dec(s: Seq<u8>) -> bool {
    s.len() > 0 && forall|i: int| 0 <= i < s.len() ==> is_dec_digit(s[i])
}

pub open spec fn dec_value(s: Seq<u8>) -> int
    decreases s.len(),
{
    if s.len() == 0 {
        0
    } else {
        dec_value(s.drop_last()) * 10 + dec_digit_val(s.last())
    }
}

pub open spec fn all_hex(s: Seq<u8>) -> bool {
    s.len() > 0 && forall|i: int| 0 <= i < s.len() ==> is_hex_digit(s[i])
}

pub open spec fn hex_value(s: Seq<u8>) -> int
    decreases s.len(),
{
    if s.len() == 0 {
        0
    } else {
        hex_value(s.drop_last()) * 16 + hex_digit_val(s.last())
    }
}

/// A decimal numeral parses when every byte is a digit and the value fits
/// in `usize`.
pub open spec fn parse_dec(s: Seq<u8>) -> Option<int> {
    if all_dec(s) && 0 <= dec_value(s) && dec_value(s) <= usize::MAX as int {
        Some(dec_value(s))
    } else {
        None
    }
}

/// A hexadecimal numeral parses when every byte is a hex digit and the
/// value fits in `usize`.
pub open spec fn parse_hex(s: Seq<u8>) -> Option<int> {
    if all_hex(s) && 0 <= hex_value(s) && hex_value(s) <= usize::MAX as int {
        Some(hex_value(s))
    } else {
        None
    }
}

proof fn lemma_dec_value_nonneg(s: Seq<u8>)
    requires
        forall|i: int| 0 <= i < s.len() ==> is_dec_digit(s[i]),
    ensures
        dec_value(s) >= 0,
    decreases s.len(),
{
    if s.len() > 0 {
        lemma_dec_value_nonneg(s.drop_last());
    }
}

proof fn lemma_hex_value_nonneg(s: Seq<u8>)
    requires
        forall|i: int| 0 <= i < s.len() ==> is_hex_digit(s[i]),
    ensures
        hex_value(s) >= 0,
    decreases s.len(),
{
    if s.len() > 0 {
        lemma_hex_value_nonneg(s.drop_last());
    }
}

pub fn dec_parse(s: &[u8]) -> (r: Option<usize>)
    ensures
        match r {
            Some(n) => parse_dec(s@) == Some(n as int),
            None => parse_dec(s@) is None,
        },
{
    let n = s.len();
    if n == 0 {
        return None;
    }
    let mut acc: usize = 0;
    let mut i: usize = 0;
    while i < n
        invariant
            n == s@.len(),
            0 < n,
            i <= n,
            forall|j: int| 0 <= j < i ==> is_dec_digit(s@[j]),
            acc as int == dec_value(s@.take(i as int)),
        decreases n - i,
    {
        let b = s[i];
        if !(48 <= b && b <= 57) {
            proof {
                assert(!is_dec_digit(s@[i as int]));
            }
            return None;
        }
        let d = (b - 48) as usize;
        if acc > (usize::MAX - d) / 10 {
            proof {
                lemma_dec_value_nonneg(s@.take(i as int));
                assert(s@.take(i + 1).drop_last() =~= s@.take(i as int));
                assert(dec_value(s@.take(i + 1)) == acc * 10 + d);
                assert(acc * 10 + d > usize::MAX as int) by (nonlinear_arith)
                    requires
                        acc > (usize::MAX - d) / 10,
                        0 <= d < 10,
                ;
                lemma_dec_prefix_bound(s@, i + 1);
            }
            return None;
        }
        proof {
            assert(acc * 10 + d <= usize::MAX) by (nonlinear_arith)
                requires
                    acc <= (usize::MAX - d) / 10,
                    0 <= d < 10,
            ;
        }
        acc = acc * 10 + d;
        i = i + 1;
        proof {
            assert(s@.take(i as int).drop_last() =~= s@.take(i - 1));
        }
    }
    proof {
        assert(s@.take(n as int) =~= s@);
    }
    Some(acc)
}

/// A numeral is monotone in its prefixes: if some prefix already exceeds
/// `usize::MAX`, the whole numeral does.
proof fn lemma_dec_prefix_bound(s: Seq<u8>, k: int)
    requires
        0 <= k <= s.len(),
        dec_value(s.take(k)) > usize::MAX as int,
    ensures
        all_dec(s) ==> dec_value(s) > usize::MAX as int,
    decreases s.len() - k,
{
    if all_dec(s) {
        if k < s.len() {
            assert(s.take(k + 1).drop_last() =~= s.take(k));
            let v = dec_value(s.take(k));
            let d = dec_digit_val(s.take(k + 1).last());
            assert(dec_value(s.take(k + 1)) == v * 10 + d);
            assert(is_dec_digit(s[k]));
            assert(v * 10 == v + 9 * v);
            lemma_dec_prefix_bound(s, k + 1);
        } else {
            assert(s.take(k) =~= s);
        }
    }
}

proof fn lemma_hex_prefix_bound(s: Seq<u8>, k: int)
    requires
        0 <= k <= s.len(),
        hex_value(s.take(k)) > usize::MAX as int,
    ensures
        all_hex(s) ==> hex_value(s) > usize::MAX as int,
    decreases s.len() - k,
{
    if all_hex(s) {
        if k < s.len() {
            assert(s.take(k + 1).drop_last() =~= s.take(k));
            let v = hex_value(s.take(k));
            let d = hex_digit_val(s.take(k + 1).last());
            assert(hex_value(s.take(k + 1)) == v * 16 + d);
            assert(is_hex_digit(s[k]));
            assert(v * 16 == v + 15 * v);
            lemma_hex_prefix_bound(s, k + 1);
        } else {
            assert(s.take(k) =~= s);
        }
    }
}

pub fn hex_parse(s: &[u8]) -> (r: Option<usize>)
    ensures
        match r {
            Some(n) => parse_hex(s@) == Some(n as int),
            None => parse_hex(s@) is None,
        },
{
    let n = s.len();
    if n == 0 {
        return None;
    }
    let mut acc: usize = 0;
    let mut i: usize = 0;
    while i < n
        invariant
            n == s@.len(),
            0 < n,
            i <= n,
            forall|j: int| 0 <= j < i ==> is_hex_digit(s@[j]),
            acc as int == hex_value(s@.take(i as int)),
        decreases n - i,
    {
        let b = s[i];
        let d: usize;
        if 48 <= b && b <= 57 {
            d = (b - 48) as usize;
        } else if 97 <= b && b <= 102 {
            d = (b - 87) as usize;
        } else if 65 <= b && b <= 70 {
            d = (b - 55) as usize;
        } else {
            proof {
                assert(!is_hex_digit(s@[i as int]));
            }
            return None;
        }
        if acc > (usize::MAX - d) / 16 {
            proof {
                lemma_hex_value_nonneg(s@.take(i as int));
                assert(s@.take(i + 1).drop_last() =~= s@.take(i as int));
                assert(hex_value(s@.take(i + 1)) == acc * 16 + d);
                assert(acc * 16 + d > usize::MAX as int) by (nonlinear_arith)
                    requires
                        acc > (usize::MAX - d) / 16,
                        0 <= d < 16,
                ;
                lemma_hex_prefix_bound(s@, i + 1);
            }
            return None;
        }
        proof {
            assert(acc * 16 + d <= usize::MAX) by (nonlinear_arith)
                requires
                    acc <= (usize::MAX - d) / 16,
                    0 <= d < 16,
            ;
        }
        acc = acc * 16 + d;
        i = i + 1;
        proof {
            assert(s@.take(i as int).drop_last() =~= s@.take(i - 1));
        }
    }
    proof {
        assert(s@.take(n as int) =~= s@);
    }
    Some(acc)
}

// ---------------------------------------------------------------------------
// Numeral forms (encoding)
// ---------------------------------------------------------------------------

/// The shortest lowercase hex numeral for `n >= 0`.
pub open spec fn hex_of(n: int) -> Seq<u8>
    decreases n,
{
    if n < 16 {
        seq![hex_digit(n)]
    } else {
        hex_of(n / 16).push(hex_digit(n % 16))
    }
}

/// The shortest decimal numeral for `n >= 0`.
pub open spec fn dec_of(n: int) -> Seq<u8>
    decreases n,
{
    if n < 10 {
        seq![dec_digit(n)]
    } else {
        dec_of(n / 10).push(dec_digit(n % 10))
    }
}

pub fn hex_encode(n: usize) -> (r: Vec<u8>)
    ensures
        r@ == hex_of(n as int),
    decreases n,
{
    if n < 16 {
        let mut v: Vec<u8> = Vec::new();
        if n < 10 {
            v.push(48 + n as u8);
        } else {
            v.push(87 + n as u8);
        }
        proof {
            assert(v@ =~= hex_of(n as int));
        }
        v
    } else {
        let mut v = hex_encode(n / 16);
        let d = n % 16;
        if d < 10 {
            v.push(48 + d as u8);
        } else {
            v.push(87 + d as u8);
        }
        proof {
            assert(v@ =~= hex_of(n as int));
        }
        v
    }
}

pub fn dec_encode(n: usize) -> (r: Vec<u8>)
    ensures
        r@ == dec_of(n as int),
    decreases n,
{
    if n < 10 {
        let mut v: Vec<u8> = Vec::new();
        v.push(48 + n as u8);
        proof {
            assert(v@ =~= dec_of(n as int));
        }
        v
    } else {
        let mut v = dec_encode(n / 10);
        v.push(48 + (n % 10) as u8);
        proof {
            assert(v@ =~= dec_of(n as int));
        }
        v
    }
}

// ---------------------------------------------------------------------------
// Round trips
// ---------------------------------------------------------------------------

/// An encoded hex numeral is made of hex digits and reads back to its value.
pub proof fn lemma_hex_of_round_trip(n: int)
    requires
        n >= 0,
    ensures
        all_hex(hex_of(n)),
        hex_value(hex_of(n)) == n,
        forall|i: int| 0 <= i < hex_of(n).len() ==> hex_of(n)[i] != CR && hex_of(n)[i] != LF,
    decreases n,
{
    if n < 16 {
        let s = hex_of(n);
        assert(s.len() == 1);
        assert(s.last() == hex_digit(n));
        assert(s.drop_last() =~= Seq::<u8>::empty());
        assert(hex_value(s.drop_last()) == 0);
        assert(hex_value(s) == hex_value(s.drop_last()) * 16 + hex_digit_val(s.last()));
        assert(hex_digit_val(hex_digit(n)) == n);
    } else {
        lemma_hex_of_round_trip(n / 16);
        let s = hex_of(n);
        assert(s.drop_last() =~= hex_of(n / 16));
        assert(hex_digit_val(hex_digit(n % 16)) == n % 16);
        assert(hex_value(s) == (n / 16) * 16 + n % 16);
    }
}

/// An encoded decimal numeral is made of digits and reads back to its value.
pub proof fn lemma_dec_of_round_trip(n: int)
    requires
        n >= 0,
    ensures
        all_dec(dec_of(n)),
        dec_value(dec_of(n)) == n,
    decreases n,
{
    if n < 10 {
        let s = dec_of(n);
        assert(s.len() == 1);
        assert(s.last() == dec_digit(n));
        assert(s.drop_last() =~= Seq::<u8>::empty());
        assert(dec_value(s.drop_last()) == 0);
        assert(dec_value(s) == dec_value(s.drop_last()) * 10 + dec_digit_val(s.last()));
        assert(dec_digit_val(dec_digit(n)) == n);
    } else {
        lemma_dec_of_round_trip(n / 10);
        let s = dec_of(n);
        assert(s.drop_last() =~= dec_of(n / 10));
        assert(dec_value(s) == (n / 10) * 10 + n % 10);
    }
}

/// The wire form of one response chunk: size in lowercase hex, CRLF, the
/// bytes, CRLF.
pub open spec fn chunk_encoding(c: Seq<u8>) -> Seq<u8> {
    hex_of(c.len() as int) + seq![CR, LF] + c + seq![CR, LF]
}

// ---------------------------------------------------------------------------
// Byte-wise hex (digest rendering)
// ---------------------------------------------------------------------------

/// Two lowercase hex digits per byte, most significant first.
pub open spec fn hex_pair(b: u8) -> Seq<u8> {
    seq![hex_digit(b as int / 16), hex_digit(b as int % 16)]
}

/// The lowercase hex rendering of a byte string, two digits per byte.
pub open spec fn hex_of_bytes(s: Seq<u8>) -> Seq<u8>
    decreases s.len(),
{
    if s.len() == 0 {
        Seq::empty()
    } else {
        hex_of_bytes(s.drop_last()) + hex_pair(s.last())
    }
}

pub proof fn lemma_hex_of_bytes_len(s: Seq<u8>)
    ensures
        hex_of_bytes(s).len() == 2 * s.len(),
    decreases s.len(),
{
    if s.len() > 0 {
        lemma_hex_of_bytes_len(s.drop_last());
    }
}

pub fn hex_bytes(s: &[u8]) -> (r: Vec<u8>)
    ensures
        r@ == hex_of_bytes(s@),
{
    let mut out: Vec<u8> = Vec::new();
    let mut i: usize = 0;
    while i < s.len()
        invariant
            i <= s@.len(),
            out@ == hex_of_bytes(s@.take(i as int)),
        decreases s@.len() - i,
    {
        let b = s[i];
        let hi = b / 16;
        let lo = b % 16;
        if hi < 10 {
            out.push(48 + hi);
        } else {
            out.push(87 + hi);
        }
        if lo < 10 {
            out.push(48 + lo);
        } else {
            out.push(87 + lo);
        }
        i = i + 1;
        proof {
            assert(s@.take(i as int).drop_last() =~= s@.take(i - 1));
            assert(out@ =~= hex_of_bytes(s@.take(i - 1)) + hex_pair(s@[i - 1]));
        }
    }
    proof {
        assert(s@.take(s@.len() as int) =~= s@);
    }
    out
}

} // verus!
