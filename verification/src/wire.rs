//! The PER (UNALIGNED) wire format, stated mathematically.
//!
//! For every primitive of X.691 used by the codec there is a spec-level
//! encoder `enc_*` from values to bit sequences, and a spec-level decoder
//! `sdec_*` from a bit stream and a position to the decoded value and the
//! position after it. The executable codec is specified against these
//! functions, and the lemmas at the end of this module prove that decoding
//! inverts encoding: reading a stream that carries `enc_*(v)` yields `v`
//! and consumes exactly the bits of `enc_*(v)`.

use crate::bits::{
    bits_to_nat, lemma_bits_of_nat_inverse, lemma_bits_to_nat_bound, lemma_min_bits,
    lemma_min_bits_mono, lemma_nat_to_bits_len, min_bits, nat_to_bits,
};
use crate::error::Error;
use vstd::arithmetic::power2::{lemma2_to64, lemma2_to64_rest, lemma_pow2_adds, pow2};
use vstd::prelude::*;

verus! {

pub const BYTE_LEN: usize = 8;

pub const FRAGMENT_SIZE: u64 = 16384;

pub const MAX_FRAGMENTS: u8 = 4;

pub const MIN_FRAGMENT_SIZE: u64 = 16384;

pub const MAX_FRAGMENTS_SIZE: u64 = 65536;

pub const LENGTH_127: u64 = 127;

pub const LENGTH_16K: u64 = 16384;

pub const LENGTH_64K: u64 = 65536;

pub const SMALL_NON_NEGATIVE_NUMBER: u64 = 64;

/// The default taken for an absent bound.
pub open spec fn bound_or(b: Option<u64>, d: u64) -> u64 {
    match b {
        Some(x) => x,
        None => d,
    }
}

pub open spec fn min_n(a: nat, b: nat) -> nat {
    if a <= b {
        a
    } else {
        b
    }
}

/// Unsigned 64-bit wrap-around, as machine addition performs it.
pub open spec fn wrap_u64(x: int) -> nat {
    (x % (pow2(64) as int)) as nat
}

/// Signed 64-bit wrap-around, as machine addition performs it.
pub open spec fn wrap_i64(x: int) -> int {
    (x + pow2(63)) % (pow2(64) as int) - pow2(63)
}

// ---------------------------------------------------------------------------
// Encoders
// ---------------------------------------------------------------------------
/// Chapter 12: a boolean is one bit.
pub open spec fn enc_bool(b: bool) -> Seq<bool> {
    seq![b]
}

/// The width, in bits, of the constrained form of chapter 11.3:
/// just enough bits for the range `ub - lb`.
pub open spec fn nnbi_width(lb: nat, ub: nat) -> nat {
    if ub >= lb {
        min_bits((ub - lb) as nat)
    } else {
        0
    }
}

/// Chapter 11.3, at least one bound present: `v - lb` in `nnbi_width` bits.
pub open spec fn enc_nnbi_bounded(lb: nat, ub: nat, v: nat) -> Seq<bool> {
    nat_to_bits((v - lb) as nat, nnbi_width(lb, ub))
}

/// The octet count of the unconstrained form of chapter 11.3.
pub open spec fn octet_count(v: nat) -> nat {
    (min_bits(v) + 7) / 8
}

/// Chapter 11.9.3.6 and 11.9.3.7: a length below 16K, either as
/// `0` + 7 bits or as `10` + 14 bits.
pub open spec fn enc_len_small(v: nat) -> Seq<bool> {
    if v <= 127 {
        seq![false] + nat_to_bits(v, 7)
    } else {
        seq![true, false] + nat_to_bits(v, 14)
    }
}

/// Chapter 11.9.3.8: the header announcing `m` fragments of 16K units.
pub open spec fn enc_len_chunk_header(m: nat) -> Seq<bool> {
    seq![true, true] + nat_to_bits(m, 6)
}

/// Chapter 11.3, no bounds: a small length determinant carrying the octet
/// count, then the value in that many octets.
pub open spec fn enc_nnbi_unbounded(v: nat) -> Seq<bool> {
    enc_len_small(octet_count(v)) + nat_to_bits(v, 8 * octet_count(v))
}

/// Chapter 11.4: the low `bit_len` bits of the two's complement of `v`.
pub open spec fn enc_twos(bit_len: nat, v: int) -> Seq<bool> {
    nat_to_bits((v % (pow2(bit_len) as int)) as nat, bit_len)
}

/// Chapter 11.5: nothing for an empty range, else the offset from the
/// lower bound in just enough bits.
pub open spec fn enc_cwn(lb: int, ub: int, v: int) -> Seq<bool> {
    if ub > lb {
        nat_to_bits((v - lb) as nat, min_bits((ub - lb) as nat))
    } else {
        Seq::empty()
    }
}

/// Chapter 11.6: one marker bit, then 6 bits for values below 64 and the
/// unconstrained form otherwise.
pub open spec fn enc_nsnnwn(v: nat) -> Seq<bool> {
    if v < 64 {
        seq![false] + nat_to_bits(v, 6)
    } else {
        seq![true] + enc_nnbi_unbounded(v)
    }
}

/// Chapter 11.7: the unconstrained non-negative form of `v - lb`.
pub open spec fn enc_semi(lb: int, v: int) -> Seq<bool> {
    enc_nnbi_unbounded((v - lb) as nat)
}

/// The octet count of the two's complement form of chapter 11.8.
pub open spec fn signed_octet_count(v: int) -> nat {
    if v >= 0 {
        (min_bits(v as nat) + 8) / 8
    } else {
        (min_bits((-v - 1) as nat) + 8) / 8
    }
}

/// Chapter 11.8: a length determinant carrying the octet count, then the
/// two's complement value in that many octets.
pub open spec fn enc_uwn(v: int) -> Seq<bool> {
    enc_len_small(signed_octet_count(v)) + enc_twos(8 * signed_octet_count(v), v)
}

/// Chapter 11.9.4, all cases that encode the whole length.
/// The fragment headers of 11.9.3.8 are described by [`enc_len_chunk_header`]
/// and announced to the caller through the writer's return value.
pub open spec fn enc_len_det(lb: Option<u64>, ub: Option<u64>, v: u64) -> Seq<bool> {
    let lbu = bound_or(lb, 0);
    let ubu = bound_or(ub, i64::MAX as u64);
    if (lb is Some || ub is Some) && ubu >= LENGTH_64K {
        if lb == ub {
            Seq::empty()
        } else {
            enc_nnbi_bounded(lbu as nat, ubu as nat, (v - lbu) as nat)
        }
    } else if ub is Some && ubu <= LENGTH_64K {
        enc_nnbi_bounded(lbu as nat, ubu as nat, v as nat)
    } else if v <= LENGTH_127 {
        enc_len_small(v as nat)
    } else if v < LENGTH_16K {
        enc_len_small(v as nat)
    } else {
        enc_len_chunk_header(min_n((v / LENGTH_16K) as nat, 4))
    }
}

/// The chunk size announced by a length determinant, `None` when the whole
/// length was encoded.
pub open spec fn len_det_chunk(lb: Option<u64>, ub: Option<u64>, v: u64) -> Option<u64> {
    let ubu = bound_or(ub, i64::MAX as u64);
    if (lb is Some || ub is Some) && ubu >= LENGTH_64K {
        None
    } else if ub is Some && ubu <= LENGTH_64K {
        None
    } else if v < LENGTH_16K {
        None
    } else {
        Some((16384 * min_n((v / LENGTH_16K) as nat, 4)) as u64)
    }
}

/// Chapter 11.9.4 over an unbounded length, fragmenting: 16K-unit fragments
/// under chunk headers, closed by a final small determinant and body.
/// `unit` is 1 for bit strings and 8 for octet strings; `v` is the payload
/// (`unit * length` bits long).
pub open spec fn enc_fragmented(v: Seq<bool>, unit: nat) -> Seq<bool>
    decreases v.len(),
    via enc_fragmented_decreases
{
    let length = v.len() / unit;
    if unit == 0 {
        Seq::empty()
    } else if length >= 16384 {
        let m = min_n(length / 16384, 4);
        enc_len_chunk_header(m) + v.take((m * 16384 * unit) as int) + enc_fragmented(
            v.skip((m * 16384 * unit) as int),
            unit,
        )
    } else {
        enc_len_small(length) + v
    }
}

#[via_fn]
proof fn enc_fragmented_decreases(v: Seq<bool>, unit: nat) {
    let length = v.len() / unit;
    if unit != 0 && length >= 16384 {
        let m = min_n(length / 16384, 4);
        lemma_fragment_take_len(v.len(), unit, m);
    }
}

/// A fragment announced by a chunk header fits inside the payload and is
/// not empty.
pub proof fn lemma_fragment_take_len(len: nat, unit: nat, m: nat)
    requires
        unit >= 1,
        len / unit >= 16384,
        1 <= m <= len / unit / 16384,
    ensures
        16384 <= m * 16384 * unit <= len,
{
    let length = len / unit;
    assert(m * 16384 <= (length / 16384) * 16384) by (nonlinear_arith)
        requires m <= length / 16384;
    assert((length / 16384) * 16384 <= length) by (nonlinear_arith)
        requires length >= 0;
    assert(m * 16384 * unit <= length * unit) by (nonlinear_arith)
        requires m * 16384 <= length && unit >= 1;
    assert(length * unit <= len) by (nonlinear_arith)
        requires length == len / unit && unit >= 1 && len >= 0;
    assert(m * 16384 * unit >= 16384) by (nonlinear_arith)
        requires m >= 1 && unit >= 1;
}

/// The length-and-body part shared by chapters 16 and 17, for an in-range
/// length: one of the length forms, then the payload.
/// `v` is the payload in bits and its length in `unit`s is the encoded length.
pub open spec fn enc_string_root(lb: Option<u64>, ub: Option<u64>, v: Seq<bool>, unit: nat) -> Seq<
    bool,
> {
    let ubu = bound_or(ub, i64::MAX as u64);
    let length = v.len() / unit;
    if ubu == 0 {
        Seq::empty()
    } else if lb is Some && lb == ub && ubu < LENGTH_64K {
        v
    } else if lb is None && ub is None {
        enc_fragmented(v, unit)
    } else {
        enc_len_det(lb, ub, (length as u64)) + v
    }
}

/// Chapters 16 and 17 whole: an extension bit where the type is extensible,
/// then the unconstrained fragmented form for an out-of-range length and the
/// root form otherwise.
pub open spec fn enc_string(
    lb: Option<u64>,
    ub: Option<u64>,
    extensible: bool,
    v: Seq<bool>,
    unit: nat,
) -> Seq<bool> {
    let lbu = bound_or(lb, 0);
    let ubu = bound_or(ub, i64::MAX as u64);
    let length = v.len() / unit;
    let out_of_range = length < lbu || length > ubu;
    let ext_prefix: Seq<bool> = if extensible {
        seq![out_of_range]
    } else {
        Seq::empty()
    };
    if out_of_range {
        ext_prefix + enc_fragmented(v, unit)
    } else {
        ext_prefix + enc_string_root(lb, ub, v, unit)
    }
}

/// An enumeration or choice index: the extension marker chooses between
/// the constrained root indices and a normally small extension offset.
pub open spec fn enc_index(std_variants: u64, extensible: bool, index: u64) -> Seq<bool> {
    let ext_prefix: Seq<bool> = if extensible {
        seq![index >= std_variants]
    } else {
        Seq::empty()
    };
    if index >= std_variants {
        ext_prefix + enc_nsnnwn((index - std_variants) as nat)
    } else {
        ext_prefix + enc_nnbi_bounded(0, (std_variants - 1) as nat, index as nat)
    }
}

// ---------------------------------------------------------------------------
// Decoders
// ---------------------------------------------------------------------------
/// Read `width` bits at `pos` as an unsigned integer.
pub open spec fn sdec_bits(s: Seq<bool>, pos: int, width: nat) -> Result<(nat, int), Error> {
    if 0 <= pos && pos + width <= s.len() {
        Ok((bits_to_nat(s.subrange(pos, pos + width)), pos + width))
    } else {
        Err(Error::EndOfStream)
    }
}

/// Chapter 11.9.3.5 to 11.9.3.8: an unbounded length determinant.
/// The third component tells whether the value came from a chunk header,
/// in which case it announces a fragment and not the whole length.
pub open spec fn sdec_len_unbounded(s: Seq<bool>, pos: int) -> Result<(nat, int, bool), Error> {
    if !(0 <= pos && pos + 1 <= s.len()) {
        Err(Error::EndOfStream)
    } else if !s[pos] {
        match sdec_bits(s, pos + 1, 7) {
            Ok((v, p)) => Ok((v, p, false)),
            Err(e) => Err(e),
        }
    } else if pos + 2 > s.len() {
        Err(Error::EndOfStream)
    } else if !s[pos + 1] {
        match sdec_bits(s, pos + 2, 14) {
            Ok((v, p)) => Ok((v, p, false)),
            Err(e) => Err(e),
        }
    } else {
        match sdec_bits(s, pos + 2, 6) {
            Ok((m, p)) => Ok((16384 * min_n(m, 4), p, true)),
            Err(e) => Err(e),
        }
    }
}

/// Chapter 11.3 with at least one bound.
pub open spec fn sdec_nnbi_bounded(s: Seq<bool>, pos: int, lb: nat, ub: nat) -> Result<
    (nat, int),
    Error,
> {
    match sdec_bits(s, pos, nnbi_width(lb, ub)) {
        Ok((v, p)) => Ok((wrap_u64(lb + v as int), p)),
        Err(e) => Err(e),
    }
}

/// Chapter 11.3 without bounds: a length determinant, then that many octets.
pub open spec fn sdec_nnbi_unbounded(s: Seq<bool>, pos: int) -> Result<(nat, int), Error> {
    match sdec_len_unbounded(s, pos) {
        Ok((l, p, _chunked)) => if l > 8 {
            Err(Error::LengthDeterminantExceedsLimit(l as u64, 8))
        } else {
            sdec_bits(s, p, l * 8)
        },
        Err(e) => Err(e),
    }
}

/// Chapter 11.4: `bit_len` bits, sign extended.
pub open spec fn sdec_twos(s: Seq<bool>, pos: int, bit_len: nat) -> Result<(int, int), Error> {
    if bit_len == 0 || bit_len > 64 {
        Err(Error::BitLenNotInRange(bit_len as u64, 1, 64))
    } else {
        match sdec_bits(s, pos, bit_len) {
            Ok((n, p)) => if n >= pow2((bit_len - 1) as nat) {
                Ok((n - pow2(bit_len), p))
            } else {
                Ok((n as int, p))
            },
            Err(e) => Err(e),
        }
    }
}

/// Chapter 11.5.
pub open spec fn sdec_cwn(s: Seq<bool>, pos: int, lb: int, ub: int) -> Result<(int, int), Error> {
    if ub > lb {
        match sdec_nnbi_bounded(s, pos, 0, (ub - lb) as nat) {
            Ok((v, p)) => Ok((wrap_i64(lb + v), p)),
            Err(e) => Err(e),
        }
    } else {
        Ok((lb, pos))
    }
}

/// Chapter 11.6.
pub open spec fn sdec_nsnnwn(s: Seq<bool>, pos: int) -> Result<(nat, int), Error> {
    if !(0 <= pos && pos + 1 <= s.len()) {
        Err(Error::EndOfStream)
    } else if !s[pos] {
        sdec_nnbi_bounded(s, pos + 1, 0, 63)
    } else {
        sdec_nnbi_unbounded(s, pos + 1)
    }
}

/// Chapter 11.7.
pub open spec fn sdec_semi(s: Seq<bool>, pos: int, lb: int) -> Result<(int, int), Error> {
    match sdec_nnbi_unbounded(s, pos) {
        Ok((v, p)) => Ok((wrap_i64(v + lb), p)),
        Err(e) => Err(e),
    }
}

/// Chapter 11.8: a length determinant, then a two's complement integer of
/// that many octets.
pub open spec fn sdec_uwn(s: Seq<bool>, pos: int) -> Result<(int, int), Error> {
    match sdec_len_unbounded(s, pos) {
        Ok((l, p, _chunked)) => sdec_twos(s, p, l * 8),
        Err(e) => Err(e),
    }
}

/// Chapter 11.9.4. The third component tells whether the value is a
/// fragment announcement, as in [`sdec_len_unbounded`].
pub open spec fn sdec_len_det(s: Seq<bool>, pos: int, lb: Option<u64>, ub: Option<u64>) -> Result<
    (nat, int, bool),
    Error,
> {
    let lbu = bound_or(lb, 0);
    let ubu = bound_or(ub, i64::MAX as u64);
    if (lb is Some || ub is Some) && ubu >= LENGTH_64K {
        if lb == ub {
            Ok((lbu as nat, pos, false))
        } else {
            match sdec_nnbi_bounded(s, pos, lbu as nat, ubu as nat) {
                Ok((v, p)) => Ok((wrap_u64(lbu + v as int), p, false)),
                Err(e) => Err(e),
            }
        }
    } else if ub is Some && ubu <= LENGTH_64K {
        match sdec_nnbi_bounded(s, pos, lbu as nat, ubu as nat) {
            Ok((v, p)) => Ok((v, p, false)),
            Err(e) => Err(e),
        }
    } else {
        sdec_len_unbounded(s, pos)
    }
}

/// The fragmented form: a determinant, a body of `l` units, and, after a
/// chunk header, further fragments until one is announced short.
pub open spec fn sdec_fragmented(s: Seq<bool>, pos: int, unit: nat) -> Result<
    (Seq<bool>, int),
    Error,
>
    decreases s.len() - pos,
    via sdec_fragmented_decreases
{
    match sdec_len_unbounded(s, pos) {
        Err(e) => Err(e),
        Ok((l, p, chunked)) => {
            if p + l * unit <= s.len() {
                let body = s.subrange(p, p + l * unit);
                if chunked && l >= 16384 {
                    match sdec_fragmented(s, p + l * unit, unit) {
                        Ok((rest, p2)) => Ok((body + rest, p2)),
                        Err(e) => Err(e),
                    }
                } else {
                    Ok((body, p + l * unit))
                }
            } else {
                Err(Error::EndOfStream)
            }
        },
    }
}

#[via_fn]
proof fn sdec_fragmented_decreases(s: Seq<bool>, pos: int, unit: nat) {
    match sdec_len_unbounded(s, pos) {
        Err(_) => {},
        Ok((l, p, chunked)) => {
            assert(p == pos + 8 || p == pos + 16);
        },
    }
}

/// Chapters 16 and 17, the length-and-body part after any extension bit.
pub open spec fn sdec_string_root(
    s: Seq<bool>,
    pos: int,
    lb: Option<u64>,
    ub: Option<u64>,
    unit: nat,
) -> Result<(Seq<bool>, int), Error> {
    let ubu = bound_or(ub, i64::MAX as u64);
    if ubu == 0 {
        Ok((Seq::empty(), pos))
    } else if lb is Some && lb == ub && ubu < LENGTH_64K {
        if 0 <= pos && pos + ubu * unit <= s.len() {
            Ok((s.subrange(pos, pos + ubu * unit), pos + ubu * unit))
        } else {
            Err(Error::EndOfStream)
        }
    } else if lb is None && ub is None {
        sdec_fragmented(s, pos, unit)
    } else {
        match sdec_len_det(s, pos, lb, ub) {
            Ok((l, p, _chunked)) => if 0 <= p && p + l * unit <= s.len() {
                Ok((s.subrange(p, p + l * unit), p + l * unit))
            } else {
                Err(Error::EndOfStream)
            },
            Err(e) => Err(e),
        }
    }
}

/// Chapters 16 and 17 whole: the extension bit chooses between the
/// unconstrained fragmented form and the constrained root form.
pub open spec fn sdec_string(
    s: Seq<bool>,
    pos: int,
    lb: Option<u64>,
    ub: Option<u64>,
    extensible: bool,
    unit: nat,
) -> Result<(Seq<bool>, int), Error> {
    if extensible {
        if !(0 <= pos && pos + 1 <= s.len()) {
            Err(Error::EndOfStream)
        } else if s[pos] {
            sdec_fragmented(s, pos + 1, unit)
        } else {
            sdec_string_root(s, pos + 1, lb, ub, unit)
        }
    } else {
        sdec_string_root(s, pos, lb, ub, unit)
    }
}

/// An enumeration or choice index, decoded: the dual of [`enc_index`].
pub open spec fn sdec_index(s: Seq<bool>, pos: int, std_variants: u64, extensible: bool) -> Result<
    (nat, int),
    Error,
> {
    if extensible {
        if !(0 <= pos && pos + 1 <= s.len()) {
            Err(Error::EndOfStream)
        } else if s[pos] {
            match sdec_nsnnwn(s, pos + 1) {
                Ok((v, p)) => Ok((wrap_u64(v as int + std_variants), p)),
                Err(e) => Err(e),
            }
        } else {
            sdec_nnbi_bounded(s, pos + 1, 0, (std_variants - 1) as nat)
        }
    } else {
        sdec_nnbi_bounded(s, pos, 0, (std_variants - 1) as nat)
    }
}

// ---------------------------------------------------------------------------
// Decoding inverts encoding
// ---------------------------------------------------------------------------
/// A stream that carries `a + b` at `pos` carries `a` at `pos` and `b` after it.
pub proof fn lemma_prefix_split(s: Seq<bool>, pos: int, a: Seq<bool>, b: Seq<bool>)
    requires
        0 <= pos,
        pos + a.len() + b.len() <= s.len(),
        s.subrange(pos, pos + a.len() + b.len()) == a + b,
    ensures
        s.subrange(pos, pos + a.len()) == a,
        s.subrange(pos + a.len(), pos + a.len() + b.len()) == b,
{
    let ab = s.subrange(pos, pos + a.len() + b.len());
    assert forall|i: int| 0 <= i < a.len() implies s.subrange(pos, pos + a.len())[i] == a[i] by {
        assert(ab[i] == s[pos + i]);
    }
    assert forall|i: int| 0 <= i < b.len() implies s.subrange(
        pos + a.len(),
        pos + a.len() + b.len(),
    )[i] == b[i] by {
        assert(ab[a.len() + i] == s[pos + a.len() + i]);
    }
    assert(s.subrange(pos, pos + a.len()) =~= a);
    assert(s.subrange(pos + a.len(), pos + a.len() + b.len()) =~= b);
}

/// A value below `pow2(w)` has at most `w` binary digits.
pub proof fn lemma_min_bits_le(v: nat, w: nat)
    requires
        v < pow2(w),
    ensures
        min_bits(v) <= w,
{
    lemma_min_bits(v);
    if min_bits(v) > w {
        if w < (min_bits(v) - 1) as nat {
            vstd::arithmetic::power2::lemma_pow2_strictly_increases(w, (min_bits(v) - 1) as nat);
        }
        assert(false);
    }
}

/// Wrap-around is the identity on values that fit.
pub proof fn lemma_wrap_u64_id(x: int)
    requires
        0 <= x < pow2(64),
    ensures
        wrap_u64(x) == x,
{
    vstd::arithmetic::div_mod::lemma_small_mod(x as nat, pow2(64));
}

/// Wrap-around is the identity on values that fit.
pub proof fn lemma_wrap_i64_id(x: int)
    requires
        -(pow2(63) as int) <= x < pow2(63),
    ensures
        wrap_i64(x) == x,
{
    lemma_pow2_adds(63, 1);
    lemma2_to64();
    assert(pow2(64) == pow2(63) * 2);
    vstd::arithmetic::div_mod::lemma_small_mod((x + pow2(63)) as nat, pow2(64));
}

/// Wrap-around stays below the 64-bit bound.
pub proof fn lemma_wrap_u64_bound(x: int)
    ensures
        wrap_u64(x) < pow2(64),
{
    vstd::arithmetic::power2::lemma_pow2_pos(64);
    vstd::arithmetic::div_mod::lemma_mod_bound(x, pow2(64) as int);
}

/// A length determinant never exceeds 64 bits.
pub proof fn lemma_enc_len_det_len(lb: Option<u64>, ub: Option<u64>, v: u64)
    ensures
        enc_len_det(lb, ub, v).len() <= 64,
{
    lemma2_to64();
    lemma2_to64_rest();
    let lbu = bound_or(lb, 0);
    let ubu = bound_or(ub, i64::MAX as u64);
    let w = nnbi_width(lbu as nat, ubu as nat);
    assert(w <= 64) by {
        if ubu >= lbu {
            lemma_min_bits_le((ubu - lbu) as nat, 64);
        }
    }
    assert forall|x: nat| (#[trigger] nat_to_bits(x, w)).len() == w by {
        lemma_nat_to_bits_len(x, w);
    }
    assert forall|x: nat| (#[trigger] nat_to_bits(x, 7)).len() == 7 by {
        lemma_nat_to_bits_len(x, 7);
    }
    assert forall|x: nat| (#[trigger] nat_to_bits(x, 14)).len() == 14 by {
        lemma_nat_to_bits_len(x, 14);
    }
    assert forall|x: nat| (#[trigger] nat_to_bits(x, 6)).len() == 6 by {
        lemma_nat_to_bits_len(x, 6);
    }
}

/// The two small length forms are 8 and 16 bits long.
pub proof fn lemma_enc_len_small_len(v: nat)
    ensures
        enc_len_small(v).len() == if v <= 127 {
            8int
        } else {
            16int
        },
{
    lemma_nat_to_bits_len(v, 7);
    lemma_nat_to_bits_len(v, 14);
}

/// Reading `w` bits over the representation of `v` yields `v`.
pub proof fn lemma_sdec_bits_exact(s: Seq<bool>, pos: int, w: nat, v: nat)
    requires
        0 <= pos,
        pos + w <= s.len(),
        v < pow2(w),
        s.subrange(pos, pos + w) == nat_to_bits(v, w),
    ensures
        sdec_bits(s, pos, w) == Ok::<(nat, int), Error>((v, pos + w)),
{
    lemma_bits_of_nat_inverse(v, w);
}

/// A small length determinant decodes to the length it encodes.
pub proof fn lemma_round_trip_len_small(s: Seq<bool>, pos: int, v: nat)
    requires
        0 <= pos,
        v < 16384,
        pos + enc_len_small(v).len() <= s.len(),
        s.subrange(pos, pos + enc_len_small(v).len()) == enc_len_small(v),
    ensures
        sdec_len_unbounded(s, pos) == Ok::<(nat, int, bool), Error>(
            (v, pos + enc_len_small(v).len(), false),
        ),
{
    lemma2_to64();
    let e = enc_len_small(v);
    if v <= 127 {
        let tail = nat_to_bits(v, 7);
        lemma_nat_to_bits_len(v, 7);
        lemma_prefix_split(s, pos, seq![false], tail);
        assert(s[pos] == e[0]) by {
            assert(s.subrange(pos, pos + 1)[0] == s[pos]);
        }
        assert(e[0] == false);
        lemma_sdec_bits_exact(s, pos + 1, 7, v);
    } else {
        let tail = nat_to_bits(v, 14);
        lemma_nat_to_bits_len(v, 14);
        lemma_prefix_split(s, pos, seq![true, false], tail);
        assert(s[pos] == e[0] && s[pos + 1] == e[1]) by {
            assert(s.subrange(pos, pos + 2)[0] == s[pos]);
            assert(s.subrange(pos, pos + 2)[1] == s[pos + 1]);
        }
        assert(e[0] == true && e[1] == false);
        lemma_sdec_bits_exact(s, pos + 2, 14, v);
    }
}

/// A chunk header decodes to the fragment size it announces.
pub proof fn lemma_round_trip_chunk_header(s: Seq<bool>, pos: int, m: nat)
    requires
        0 <= pos,
        1 <= m <= 4,
        pos + 8 <= s.len(),
        s.subrange(pos, pos + 8) == enc_len_chunk_header(m),
    ensures
        sdec_len_unbounded(s, pos) == Ok::<(nat, int, bool), Error>(
            ((16384 * m) as nat, pos + 8, true),
        ),
{
    lemma2_to64();
    let e = enc_len_chunk_header(m);
    let tail = nat_to_bits(m, 6);
    lemma_nat_to_bits_len(m, 6);
    assert(e.len() == 8);
    lemma_prefix_split(s, pos, seq![true, true], tail);
    assert(s[pos] == e[0] && s[pos + 1] == e[1]) by {
        assert(s.subrange(pos, pos + 2)[0] == s[pos]);
        assert(s.subrange(pos, pos + 2)[1] == s[pos + 1]);
    }
    assert(e[0] == true && e[1] == true);
    lemma_sdec_bits_exact(s, pos + 2, 6, m);
    assert(min_n(m, 4) == m);
}

/// The bounded form of chapter 11.3 decodes to the value it encodes.
pub proof fn lemma_round_trip_nnbi_bounded(s: Seq<bool>, pos: int, lb: nat, ub: nat, v: nat)
    requires
        0 <= pos,
        lb <= v <= ub,
        ub < pow2(64),
        pos + nnbi_width(lb, ub) <= s.len(),
        s.subrange(pos, pos + nnbi_width(lb, ub)) == enc_nnbi_bounded(lb, ub, v),
    ensures
        sdec_nnbi_bounded(s, pos, lb, ub) == Ok::<(nat, int), Error>((v, pos + nnbi_width(lb, ub))),
{
    lemma_min_bits((ub - lb) as nat);
    lemma_min_bits((v - lb) as nat);
    assert(((v - lb) as nat) < pow2(nnbi_width(lb, ub))) by {
        lemma_min_bits_mono((v - lb) as nat, (ub - lb) as nat);
        if min_bits((v - lb) as nat) < nnbi_width(lb, ub) {
            vstd::arithmetic::power2::lemma_pow2_strictly_increases(
                min_bits((v - lb) as nat),
                nnbi_width(lb, ub),
            );
        }
    }
    lemma_sdec_bits_exact(s, pos, nnbi_width(lb, ub), (v - lb) as nat);
    lemma_wrap_u64_id(v as int);
}

/// The unbounded form of chapter 11.3 decodes to the value it encodes.
pub proof fn lemma_round_trip_nnbi_unbounded(s: Seq<bool>, pos: int, v: nat)
    requires
        0 <= pos,
        v < pow2(64),
        pos + enc_nnbi_unbounded(v).len() <= s.len(),
        s.subrange(pos, pos + enc_nnbi_unbounded(v).len()) == enc_nnbi_unbounded(v),
    ensures
        sdec_nnbi_unbounded(s, pos) == Ok::<(nat, int), Error>(
            (v, pos + enc_nnbi_unbounded(v).len()),
        ),
{
    let oc = octet_count(v);
    let det = enc_len_small(oc);
    let body = nat_to_bits(v, 8 * oc);
    lemma_min_bits_le(v, 64);
    assert(oc <= 8);
    lemma_nat_to_bits_len(v, 8 * oc);
    lemma_prefix_split(s, pos, det, body);
    lemma_round_trip_len_small(s, pos, oc);
    assert(8 * oc >= min_bits(v));
    assert(v < pow2(8 * oc)) by {
        lemma_min_bits(v);
        if min_bits(v) < 8 * oc {
            vstd::arithmetic::power2::lemma_pow2_strictly_increases(min_bits(v), 8 * oc);
        }
    }
    lemma_sdec_bits_exact(s, pos + det.len(), 8 * oc, v);
    assert(oc * 8 == 8 * oc);
}

/// The two's complement form of chapter 11.4 decodes to the value it
/// encodes, for any value that fits the width.
pub proof fn lemma_round_trip_twos(s: Seq<bool>, pos: int, bit_len: nat, v: int)
    requires
        0 <= pos,
        1 <= bit_len <= 64,
        -(pow2((bit_len - 1) as nat) as int) <= v < pow2((bit_len - 1) as nat),
        pos + bit_len <= s.len(),
        s.subrange(pos, pos + bit_len) == enc_twos(bit_len, v),
    ensures
        sdec_twos(s, pos, bit_len) == Ok::<(int, int), Error>((v, pos + bit_len)),
{
    let p = pow2(bit_len) as int;
    let ph = pow2((bit_len - 1) as nat) as int;
    lemma_pow2_adds((bit_len - 1) as nat, 1);
    lemma2_to64();
    assert(p == ph * 2);
    let n = v % p;
    if v >= 0 {
        assert(n == v) by {
            vstd::arithmetic::div_mod::lemma_small_mod(v as nat, p as nat);
        }
        lemma_sdec_bits_exact(s, pos, bit_len, n as nat);
        assert(n < ph);
    } else {
        assert(n == v + p) by {
            vstd::arithmetic::div_mod::lemma_mod_add_multiples_vanish(v, p);
            vstd::arithmetic::div_mod::lemma_small_mod((v + p) as nat, p as nat);
        }
        lemma_sdec_bits_exact(s, pos, bit_len, n as nat);
        assert(n >= ph);
    }
}

/// Chapter 11.5 decodes to the value it encodes.
pub proof fn lemma_round_trip_cwn(s: Seq<bool>, pos: int, lb: int, ub: int, v: int)
    requires
        0 <= pos,
        lb <= v <= ub,
        -(pow2(63) as int) <= lb,
        ub < pow2(63),
        pos + enc_cwn(lb, ub, v).len() <= s.len(),
        s.subrange(pos, pos + enc_cwn(lb, ub, v).len()) == enc_cwn(lb, ub, v),
    ensures
        sdec_cwn(s, pos, lb, ub) == Ok::<(int, int), Error>((v, pos + enc_cwn(lb, ub, v).len())),
{
    if ub > lb {
        lemma_pow2_adds(63, 1);
        lemma2_to64();
        lemma_nat_to_bits_len((v - lb) as nat, min_bits((ub - lb) as nat));
        assert(nnbi_width(0, (ub - lb) as nat) == min_bits((ub - lb) as nat));
        assert(enc_nnbi_bounded(0, (ub - lb) as nat, (v - lb) as nat) == enc_cwn(lb, ub, v));
        lemma_round_trip_nnbi_bounded(s, pos, 0, (ub - lb) as nat, (v - lb) as nat);
        lemma_wrap_u64_id((v - lb) as int);
        lemma_wrap_i64_id(v);
    }
}

/// Chapter 11.6 decodes to the value it encodes.
pub proof fn lemma_round_trip_nsnnwn(s: Seq<bool>, pos: int, v: nat)
    requires
        0 <= pos,
        v < pow2(64),
        pos + enc_nsnnwn(v).len() <= s.len(),
        s.subrange(pos, pos + enc_nsnnwn(v).len()) == enc_nsnnwn(v),
    ensures
        sdec_nsnnwn(s, pos) == Ok::<(nat, int), Error>((v, pos + enc_nsnnwn(v).len())),
{
    lemma2_to64();
    if v < 64 {
        let tail = nat_to_bits(v, 6);
        lemma_nat_to_bits_len(v, 6);
        lemma_prefix_split(s, pos, seq![false], tail);
        assert(s[pos] == enc_nsnnwn(v)[0]) by {
            assert(s.subrange(pos, pos + 1)[0] == s[pos]);
        }
        assert(enc_nsnnwn(v)[0] == false);
        assert(min_bits(63) == 6) by {
            reveal_with_fuel(min_bits, 8);
        }
        assert(nnbi_width(0, 63) == 6);
        lemma_sdec_bits_exact(s, pos + 1, 6, v);
        lemma_wrap_u64_id(v as int);
        lemma2_to64_rest();
    } else {
        let tail = enc_nnbi_unbounded(v);
        lemma_prefix_split(s, pos, seq![true], tail);
        assert(s[pos] == enc_nsnnwn(v)[0]) by {
            assert(s.subrange(pos, pos + 1)[0] == s[pos]);
        }
        assert(enc_nsnnwn(v)[0] == true);
        lemma_round_trip_nnbi_unbounded(s, pos + 1, v);
    }
}

/// Chapter 11.7 decodes to the value it encodes.
pub proof fn lemma_round_trip_semi(s: Seq<bool>, pos: int, lb: int, v: int)
    requires
        0 <= pos,
        lb <= v,
        v - lb < pow2(64),
        -(pow2(63) as int) <= v < pow2(63),
        pos + enc_semi(lb, v).len() <= s.len(),
        s.subrange(pos, pos + enc_semi(lb, v).len()) == enc_semi(lb, v),
    ensures
        sdec_semi(s, pos, lb) == Ok::<(int, int), Error>((v, pos + enc_semi(lb, v).len())),
{
    lemma_round_trip_nnbi_unbounded(s, pos, (v - lb) as nat);
    lemma_wrap_i64_id(v);
}

/// Chapter 11.8 decodes to the value it encodes, for any `i64` value.
pub proof fn lemma_round_trip_uwn(s: Seq<bool>, pos: int, v: int)
    requires
        0 <= pos,
        -(pow2(63) as int) <= v < pow2(63),
        pos + enc_uwn(v).len() <= s.len(),
        s.subrange(pos, pos + enc_uwn(v).len()) == enc_uwn(v),
    ensures
        sdec_uwn(s, pos) == Ok::<(int, int), Error>((v, pos + enc_uwn(v).len())),
{
    lemma2_to64();
    let soc = signed_octet_count(v);
    let mb = if v >= 0 {
        min_bits(v as nat)
    } else {
        min_bits((-v - 1) as nat)
    };
    assert(mb <= 63) by {
        if v >= 0 {
            lemma_min_bits_le(v as nat, 63);
        } else {
            lemma_min_bits_le((-v - 1) as nat, 63);
        }
    }
    assert(soc == (mb + 8) / 8);
    assert(1 <= soc <= 8);
    assert(8 * soc >= mb + 1);
    let det = enc_len_small(soc);
    let body = enc_twos(8 * soc, v);
    lemma_nat_to_bits_len((v % (pow2((8 * soc) as nat) as int)) as nat, 8 * soc);
    lemma_prefix_split(s, pos, det, body);
    lemma_round_trip_len_small(s, pos, soc);
    assert(v < pow2((8 * soc - 1) as nat) && -(pow2((8 * soc - 1) as nat) as int) <= v) by {
        lemma_min_bits(v as nat);
        lemma_min_bits((-v - 1) as nat);
        if mb < 8 * soc - 1 {
            vstd::arithmetic::power2::lemma_pow2_strictly_increases(mb, (8 * soc - 1) as nat);
        }
        vstd::arithmetic::power2::lemma_pow2_pos((8 * soc - 1) as nat);
    }
    lemma_round_trip_twos(s, pos + det.len(), (8 * soc) as nat, v);
    assert(soc * 8 == 8 * soc);
}

/// Chapter 11.9.4 decodes to what it encodes: the whole length where the
/// determinant carries it, and the announced fragment size where a chunk
/// header was emitted.
pub proof fn lemma_round_trip_len_det(s: Seq<bool>, pos: int, lb: Option<u64>, ub: Option<u64>, v: u64)
    requires
        0 <= pos,
        pos + enc_len_det(lb, ub, v).len() <= s.len(),
        s.subrange(pos, pos + enc_len_det(lb, ub, v).len()) == enc_len_det(lb, ub, v),
        ({
            let lbu = bound_or(lb, 0);
            let ubu = bound_or(ub, i64::MAX as u64);
            if (lb is Some || ub is Some) && ubu >= LENGTH_64K {
                if lb == ub {
                    v == lbu
                } else {
                    lbu + lbu <= v && v - lbu <= ubu
                }
            } else if ub is Some && ubu <= LENGTH_64K {
                lbu <= v <= ubu
            } else {
                true
            }
        }),
    ensures
        len_det_chunk(lb, ub, v) is None ==> sdec_len_det(s, pos, lb, ub) == Ok::<
            (nat, int, bool),
            Error,
        >((v as nat, pos + enc_len_det(lb, ub, v).len(), false)),
        len_det_chunk(lb, ub, v) is Some ==> sdec_len_det(s, pos, lb, ub) == Ok::<
            (nat, int, bool),
            Error,
        >((len_det_chunk(lb, ub, v)->0 as nat, pos + 8, true)),
{
    let lbu = bound_or(lb, 0);
    let ubu = bound_or(ub, i64::MAX as u64);
    lemma2_to64();
    vstd::arithmetic::power2::lemma2_to64_rest();
    if (lb is Some || ub is Some) && ubu >= LENGTH_64K {
        if lb == ub {
        } else {
            lemma_nat_to_bits_len(((v - lbu) - lbu) as nat, nnbi_width(lbu as nat, ubu as nat));
            lemma_round_trip_nnbi_bounded(s, pos, lbu as nat, ubu as nat, (v - lbu) as nat);
            lemma_wrap_u64_id(v as int);
        }
    } else if ub is Some && ubu <= LENGTH_64K {
        lemma_nat_to_bits_len((v - lbu) as nat, nnbi_width(lbu as nat, ubu as nat));
        lemma_round_trip_nnbi_bounded(s, pos, lbu as nat, ubu as nat, v as nat);
    } else if v < LENGTH_16K {
        lemma_round_trip_len_small(s, pos, v as nat);
    } else {
        let m = min_n((v / LENGTH_16K) as nat, 4);
        assert(1 <= m <= 4);
        lemma_nat_to_bits_len(m, 6);
        lemma_round_trip_chunk_header(s, pos, m);
    }
}

/// An enumeration or choice index decodes to the index it encodes.
pub proof fn lemma_round_trip_index(s: Seq<bool>, pos: int, std_variants: u64, extensible: bool, index: u64)
    requires
        0 <= pos,
        std_variants >= 1,
        index < std_variants || extensible,
        pos + enc_index(std_variants, extensible, index).len() <= s.len(),
        s.subrange(pos, pos + enc_index(std_variants, extensible, index).len()) == enc_index(
            std_variants,
            extensible,
            index,
        ),
    ensures
        sdec_index(s, pos, std_variants, extensible) == Ok::<(nat, int), Error>(
            (index as nat, pos + enc_index(std_variants, extensible, index).len()),
        ),
{
    lemma2_to64();
    let e = enc_index(std_variants, extensible, index);
    if extensible {
        let oor = index >= std_variants;
        if oor {
            let tail = enc_nsnnwn((index - std_variants) as nat);
            lemma_prefix_split(s, pos, seq![true], tail);
            assert(s[pos] == e[0]) by {
                assert(s.subrange(pos, pos + 1)[0] == s[pos]);
            }
            assert(e[0] == true);
            assert(((index - std_variants) as nat) < pow2(64)) by {
                assert(index < pow2(64)) by {
                    vstd::arithmetic::power2::lemma2_to64_rest();
                }
            }
            lemma_round_trip_nsnnwn(s, pos + 1, (index - std_variants) as nat);
            lemma_wrap_u64_id(index as int);
        } else {
            let tail = enc_nnbi_bounded(0, (std_variants - 1) as nat, index as nat);
            lemma_nat_to_bits_len(index as nat, nnbi_width(0, (std_variants - 1) as nat));
            lemma_prefix_split(s, pos, seq![false], tail);
            assert(s[pos] == e[0]) by {
                assert(s.subrange(pos, pos + 1)[0] == s[pos]);
            }
            assert(e[0] == false);
            lemma_round_trip_nnbi_bounded(s, pos + 1, 0, (std_variants - 1) as nat, index as nat);
        }
    } else {
        lemma_nat_to_bits_len(index as nat, nnbi_width(0, (std_variants - 1) as nat));
        lemma_round_trip_nnbi_bounded(s, pos, 0, (std_variants - 1) as nat, index as nat);
    }
}

/// The fragmented form adds less than one extra bit per thousand payload
/// bits, plus a last determinant.
pub proof fn lemma_enc_fragmented_len(v: Seq<bool>, unit: nat)
    requires
        unit >= 1,
    ensures
        enc_fragmented(v, unit).len() <= 2 * v.len() + 16,
    decreases v.len(),
{
    let length = v.len() / unit;
    if length >= 16384 {
        let m = min_n(length / 16384, 4);
        lemma_fragment_take_len(v.len(), unit, m);
        let k = (m * 16384 * unit) as int;
        lemma_nat_to_bits_len(m, 6);
        lemma_enc_fragmented_len(v.skip(k), unit);
    } else {
        lemma_nat_to_bits_len(length, 7);
        lemma_nat_to_bits_len(length, 14);
    }
}

/// Whatever the stream holds, a fragmented decode yields whole units.
pub proof fn lemma_sdec_fragmented_units(s: Seq<bool>, pos: int, unit: nat)
    requires
        unit >= 1,
    ensures
        sdec_fragmented(s, pos, unit) matches Ok(x) ==> x.0.len() % unit == 0,
    decreases s.len() - pos,
{
    match sdec_len_unbounded(s, pos) {
        Err(_) => {},
        Ok((l, p, chunked)) => {
            assert(p == pos + 8 || p == pos + 16);
            if p + l * unit <= s.len() {
                vstd::arithmetic::div_mod::lemma_mod_multiples_basic(l as int, unit as int);
                if chunked && l >= 16384 {
                    lemma_sdec_fragmented_units(s, p + l * unit, unit);
                    match sdec_fragmented(s, p + l * unit, unit) {
                        Ok((rest, _)) => {
                            vstd::arithmetic::div_mod::lemma_add_mod_noop(
                                (l * unit) as int,
                                rest.len() as int,
                                unit as int,
                            );
                        },
                        Err(_) => {},
                    }
                }
            }
        },
    }
}

/// The fragmented form decodes to the payload it encodes, whatever its size.
pub proof fn lemma_round_trip_fragmented(s: Seq<bool>, pos: int, v: Seq<bool>, unit: nat)
    requires
        unit == 1 || unit == 8,
        v.len() % unit == 0,
        0 <= pos,
        pos + enc_fragmented(v, unit).len() <= s.len(),
        s.subrange(pos, pos + enc_fragmented(v, unit).len()) == enc_fragmented(v, unit),
    ensures
        sdec_fragmented(s, pos, unit) == Ok::<(Seq<bool>, int), Error>(
            (v, pos + enc_fragmented(v, unit).len()),
        ),
    decreases v.len(),
{
    let length = v.len() / unit;
    let e = enc_fragmented(v, unit);
    if length >= 16384 {
        let m = min_n(length / 16384, 4);
        lemma_fragment_take_len(v.len(), unit, m);
        let k = (m * 16384 * unit) as int;
        let hdr = enc_len_chunk_header(m);
        let body = v.take(k);
        let rest = enc_fragmented(v.skip(k), unit);
        lemma_nat_to_bits_len(m, 6);
        assert(hdr.len() == 8);
        assert(e == (hdr + body) + rest);
        lemma_prefix_split(s, pos, hdr + body, rest);
        lemma_prefix_split(s, pos, hdr, body);
        lemma_round_trip_chunk_header(s, pos, m);
        let l = (16384 * m) as nat;
        assert(l * unit == k) by (nonlinear_arith)
            requires l == (16384 * m) as nat && k == (m * 16384 * unit) as int;
        assert(l >= 16384);
        assert(v.skip(k).len() % unit == 0 && v.skip(k).len() / unit == length - 16384 * m) by {
            if unit == 1 {
                assert(v.skip(k).len() == v.len() - m * 16384);
            } else {
                assert(k == m * 131072) by (nonlinear_arith)
                    requires k == (m * 16384 * unit) as int && unit == 8;
                assert(v.len() == length * 8) by (nonlinear_arith)
                    requires length == v.len() / 8 && v.len() % 8 == 0;
                assert(v.skip(k).len() == (length - m * 16384) * 8) by (nonlinear_arith)
                    requires v.skip(k).len() == length * 8 - m * 131072;
                assert(((length - m * 16384) * 8) % 8 == 0 && ((length - m * 16384) * 8) / 8
                    == length - m * 16384) by (nonlinear_arith);
            }
        }
        lemma_round_trip_fragmented(s, pos + 8 + k, v.skip(k), unit);
        assert(s.subrange(pos + 8, pos + 8 + k) + v.skip(k) =~= v);
    } else {
        let det = enc_len_small(length);
        lemma_prefix_split(s, pos, det, v);
        lemma_round_trip_len_small(s, pos, length);
        assert(length * unit == v.len()) by (nonlinear_arith)
            requires length == v.len() / unit && v.len() % unit == 0 && unit >= 1;
    }
}

/// The length-and-body part of a string decodes to the payload it encodes.
pub proof fn lemma_round_trip_string_root(
    s: Seq<bool>,
    pos: int,
    lb: Option<u64>,
    ub: Option<u64>,
    v: Seq<bool>,
    unit: nat,
)
    requires
        unit == 1 || unit == 8,
        v.len() % unit == 0,
        v.len() / unit < pow2(64),
        0 <= pos,
        ({
            let lbu = bound_or(lb, 0);
            let ubu = bound_or(ub, i64::MAX as u64);
            let length = v.len() / unit;
            lbu <= length <= ubu && ((lb is Some || ub is Some) && ubu >= LENGTH_64K && lb != ub
                ==> lbu + lbu <= length)
        }),
        pos + enc_string_root(lb, ub, v, unit).len() <= s.len(),
        s.subrange(pos, pos + enc_string_root(lb, ub, v, unit).len()) == enc_string_root(
            lb,
            ub,
            v,
            unit,
        ),
    ensures
        sdec_string_root(s, pos, lb, ub, unit) == Ok::<(Seq<bool>, int), Error>(
            (v, pos + enc_string_root(lb, ub, v, unit).len()),
        ),
{
    let lbu = bound_or(lb, 0);
    let ubu = bound_or(ub, i64::MAX as u64);
    let length = v.len() / unit;
    assert(length * unit == v.len()) by (nonlinear_arith)
        requires length == v.len() / unit && v.len() % unit == 0 && unit >= 1;
    if ubu == 0 {
        assert(v =~= Seq::<bool>::empty());
    } else if lb is Some && lb == ub && ubu < LENGTH_64K {
        assert(ubu * unit == v.len());
    } else if lb is None && ub is None {
        lemma_round_trip_fragmented(s, pos, v, unit);
    } else {
        let det = enc_len_det(lb, ub, length as u64);
        lemma_prefix_split(s, pos, det, v);
        lemma_round_trip_len_det(s, pos, lb, ub, length as u64);
        assert(len_det_chunk(lb, ub, length as u64) is None);
    }
}

/// Chapters 16 and 17 decode to the payload they encode.
pub proof fn lemma_round_trip_string(
    s: Seq<bool>,
    pos: int,
    lb: Option<u64>,
    ub: Option<u64>,
    extensible: bool,
    v: Seq<bool>,
    unit: nat,
)
    requires
        unit == 1 || unit == 8,
        v.len() % unit == 0,
        v.len() / unit < pow2(64),
        0 <= pos,
        ({
            let lbu = bound_or(lb, 0);
            let ubu = bound_or(ub, i64::MAX as u64);
            let length = v.len() / unit;
            let out_of_range = length < lbu || length > ubu;
            (out_of_range ==> extensible) && (!out_of_range ==> ((lb is Some || ub is Some) && ubu
                >= LENGTH_64K && lb != ub ==> lbu + lbu <= length))
        }),
        pos + enc_string(lb, ub, extensible, v, unit).len() <= s.len(),
        s.subrange(pos, pos + enc_string(lb, ub, extensible, v, unit).len()) == enc_string(
            lb,
            ub,
            extensible,
            v,
            unit,
        ),
    ensures
        sdec_string(s, pos, lb, ub, extensible, unit) == Ok::<(Seq<bool>, int), Error>(
            (v, pos + enc_string(lb, ub, extensible, v, unit).len()),
        ),
{
    let lbu = bound_or(lb, 0);
    let ubu = bound_or(ub, i64::MAX as u64);
    let length = v.len() / unit;
    let out_of_range = length < lbu || length > ubu;
    let e = enc_string(lb, ub, extensible, v, unit);
    if extensible {
        let tail = if out_of_range {
            enc_fragmented(v, unit)
        } else {
            enc_string_root(lb, ub, v, unit)
        };
        assert(e == seq![out_of_range] + tail);
        lemma_prefix_split(s, pos, seq![out_of_range], tail);
        assert(s[pos] == e[0]) by {
            assert(s.subrange(pos, pos + 1)[0] == s[pos]);
        }
        assert(e[0] == out_of_range);
        if out_of_range {
            lemma_round_trip_fragmented(s, pos + 1, v, unit);
        } else {
            lemma_round_trip_string_root(s, pos + 1, lb, ub, v, unit);
        }
    } else {
        assert(e == enc_string_root(lb, ub, v, unit));
        lemma_round_trip_string_root(s, pos, lb, ub, v, unit);
    }
}

} // verus!
