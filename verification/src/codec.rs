//! The PER (UNALIGNED) codec: the chapter-by-chapter encoders and decoders
//! of X.691, stated against the spec-level wire format of [`crate::wire`].
//!
//! Every writer appends exactly the bit sequence given by the matching
//! `enc_*` function; every reader behaves exactly as the matching `sdec_*`
//! decoder over the visible part of the stream.

use crate::bits::{
    bits_to_nat, bytes_bits, lemma_min_bits, lemma_nat_to_bits_index, lemma_nat_to_bits_len,
    min_bits, nat_to_bits,
};
use crate::buffer::BitBuffer;
use crate::error::Error;
use crate::wire::{
    bound_or, enc_bool, enc_cwn, enc_len_det, enc_len_small, enc_nnbi_bounded, enc_nnbi_unbounded,
    enc_nsnnwn, enc_semi, enc_twos, enc_uwn, len_det_chunk, min_n, nnbi_width, octet_count,
    sdec_bits, sdec_cwn, sdec_index, sdec_len_det, sdec_len_unbounded, sdec_nnbi_bounded,
    sdec_nnbi_unbounded, sdec_nsnnwn, sdec_semi, sdec_twos, sdec_uwn, signed_octet_count, wrap_i64,
    wrap_u64, LENGTH_127, LENGTH_16K, LENGTH_64K, SMALL_NON_NEGATIVE_NUMBER,
};
use vstd::arithmetic::power2::{lemma2_to64, lemma2_to64_rest, lemma_pow2_adds, lemma_pow2_pos,
    lemma_pow2_strictly_increases, pow2};
use vstd::prelude::*;

verus! {

broadcast use crate::buffer::BitBuffer::lemma_wf_bounds;

/// `pow2(e)` as a machine word.
fn pow2_u64(e: usize) -> (r: u64)
    requires
        e <= 63,
    ensures
        r as nat == pow2(e as nat),
{
    let mut r: u64 = 1;
    let mut j: usize = 0;
    proof {
        lemma2_to64();
    }
    while j < e
        invariant
            j <= e <= 63,
            r as nat == pow2(j as nat),
        decreases e - j,
    {
        proof {
            lemma_pow2_adds(j as nat, 1);
            lemma2_to64();
            if j as nat + 1 < 64 {
                lemma_pow2_strictly_increases(j as nat + 1, 64);
            }
            lemma2_to64_rest();
        }
        r = r * 2;
        j = j + 1;
    }
    r
}

/// The number of binary digits of `v`: executable [`min_bits`].
fn bit_width(v: u64) -> (r: usize)
    ensures
        r == min_bits(v as nat),
        r <= 64,
{
    let mut x = v;
    let mut w: usize = 0;
    proof {
        lemma2_to64_rest();
        lemma_min_bits_le_64(v as nat);
    }
    while x > 0
        invariant
            min_bits(v as nat) == w + min_bits(x as nat),
            w + min_bits(x as nat) <= 64,
        decreases x,
    {
        x = x / 2;
        w = w + 1;
    }
    w
}

/// A `u64` has at most 64 binary digits.
proof fn lemma_min_bits_le_64(v: nat)
    requires
        v < pow2(64),
    ensures
        min_bits(v) <= 64,
{
    lemma2_to64_rest();
    crate::wire::lemma_min_bits_le(v, 64);
}

/// The wrapped sum of two machine words is the 64-bit wrap of their sum.
proof fn lemma_wrapping_add_u64(x: u64, y: u64)
    ensures
        vstd::wrapping::u64_specs::wrapping_add(x, y) as nat == wrap_u64(x as int + y as int),
    decreases 0nat,
{
    lemma2_to64_rest();
    if x + y > u64::MAX {
        assert(wrap_u64(x as int + y as int) == x + y - pow2(64)) by {
            vstd::arithmetic::div_mod::lemma_mod_sub_multiples_vanish(
                (x + y) as int,
                pow2(64) as int,
            );
            vstd::arithmetic::div_mod::lemma_small_mod((x + y - pow2(64)) as nat, pow2(64));
        }
    } else {
        vstd::arithmetic::div_mod::lemma_small_mod((x + y) as nat, pow2(64));
    }
}

/// The wrapped sum of two signed machine words is the signed 64-bit wrap of
/// their sum.
proof fn lemma_wrapping_add_i64(x: i64, y: i64)
    ensures
        vstd::wrapping::i64_specs::wrapping_add(x, y) as int == wrap_i64(x as int + y as int),
{
    lemma2_to64();
    lemma2_to64_rest();
    lemma_pow2_adds(63, 1);
    let s = x as int + y as int;
    if s > i64::MAX {
        assert(wrap_i64(s) == s - pow2(64)) by {
            vstd::arithmetic::div_mod::lemma_mod_sub_multiples_vanish(
                s + pow2(63),
                pow2(64) as int,
            );
            vstd::arithmetic::div_mod::lemma_small_mod((s + pow2(63) - pow2(64)) as nat, pow2(64));
        }
    } else if s < i64::MIN {
        assert(wrap_i64(s) == s + pow2(64)) by {
            vstd::arithmetic::div_mod::lemma_mod_add_multiples_vanish(s + pow2(63), pow2(64) as int);
            vstd::arithmetic::div_mod::lemma_small_mod((s + pow2(63) + pow2(64)) as nat, pow2(64));
        }
    } else {
        assert(wrap_i64(s) == s) by {
            vstd::arithmetic::div_mod::lemma_small_mod((s + pow2(63)) as nat, pow2(64));
        }
    }
}

/// Reinterpret a machine word as a signed one, two's complement style.
fn u64_as_i64_wrapped(n: u64) -> (r: i64)
    ensures
        r as int == wrap_i64(n as int),
{
    proof {
        lemma2_to64();
        lemma2_to64_rest();
        lemma_pow2_adds(63, 1);
        if n >= 0x8000_0000_0000_0000u64 {
            assert(wrap_i64(n as int) == n - pow2(64)) by {
                vstd::arithmetic::div_mod::lemma_mod_sub_multiples_vanish(
                    n + pow2(63),
                    pow2(64) as int,
                );
                vstd::arithmetic::div_mod::lemma_small_mod(
                    (n + pow2(63) - pow2(64)) as nat,
                    pow2(64),
                );
            }
        } else {
            assert(wrap_i64(n as int) == n as int) by {
                vstd::arithmetic::div_mod::lemma_small_mod((n + pow2(63)) as nat, pow2(64));
            }
        }
    }
    if n >= 0x8000_0000_0000_0000u64 {
        -((u64::MAX - n) as i64) - 1
    } else {
        n as i64
    }
}

impl BitBuffer {
    /// Append `v` in exactly `width` bits, most significant first.
    fn write_u64_bits(&mut self, v: u64, width: usize) -> (r: Result<(), Error>)
        requires
            old(self).wf(),
            width <= 64,
            (v as nat) < pow2(width as nat),
            old(self)@.len() + width <= usize::MAX,
        ensures
            final(self).wf(),
            r is Ok,
            final(self)@ == old(self)@ + nat_to_bits(v as nat, width as nat),
            final(self).rpos() == old(self).rpos(),
            final(self).vlen() == final(self)@.len(),
    {
        proof {
            lemma_nat_to_bits_len(v as nat, width as nat);
        }
        let mut i: usize = 0;
        while i < width
            invariant
                i <= width <= 64,
                old(self).wf(),
                self.wf(),
                (v as nat) < pow2(width as nat),
                old(self)@.len() + width <= usize::MAX,
                self@ =~= old(self)@ + nat_to_bits(v as nat, width as nat).take(i as int),
                self.rpos() == old(self).rpos(),
                self.vlen() >= old(self).vlen(),
            decreases width - i,
        {
            let p = pow2_u64(width - 1 - i);
            proof {
                lemma_pow2_pos((width - 1 - i) as nat);
                lemma_nat_to_bits_len(v as nat, width as nat);
                lemma_nat_to_bits_index(v as nat, width as nat, i as int);
            }
            let bit = (v / p) % 2 == 1;
            let _ = self.write_bit(bit);
            i = i + 1;
        }
        proof {
            assert(nat_to_bits(v as nat, width as nat).take(width as int) =~= nat_to_bits(
                v as nat,
                width as nat,
            ));
        }
        let n = self.bit_len();
        self.set_len(n);
        proof {
            assert(self@ =~= old(self)@ + nat_to_bits(v as nat, width as nat));
        }
        Ok(())
    }

    /// Read `width` bits as an unsigned integer, most significant first.
    /// Fails with `EndOfStream`, consuming nothing, when fewer are visible.
    fn read_u64_bits(&mut self, width: usize) -> (r: Result<u64, Error>)
        requires
            old(self).wf(),
            width <= 64,
        ensures
            final(self).wf(),
            final(self)@ == old(self)@,
            final(self).vlen() == old(self).vlen(),
            match sdec_bits(old(self).readable(), old(self).rpos(), width as nat) {
                Ok((v, p)) => r == Ok::<u64, Error>(v as u64) && final(self).rpos() == p && v
                    < pow2(width as nat),
                Err(e) => r == Err::<u64, Error>(e) && final(self).rpos() == old(self).rpos(),
            },
    {
        proof {
            lemma2_to64();
            lemma2_to64_rest();
        }
        if width > self.remaining() {
            return Err(Error::EndOfStream);
        }
        let ghost s = self.readable();
        let ghost p0 = self.rpos();
        let mut acc: u64 = 0;
        let mut i: usize = 0;
        while i < width
            invariant
                i <= width <= 64,
                old(self).wf(),
                self.wf(),
                self@ == old(self)@,
                self.vlen() == old(self).vlen(),
                s == self.readable(),
                p0 == old(self).rpos(),
                self.rpos() == p0 + i,
                p0 + width <= self.vlen(),
                acc as nat == bits_to_nat(s.subrange(p0, p0 + i)),
                (acc as nat) < pow2(i as nat),
            decreases width - i,
        {
            proof {
                lemma2_to64();
                lemma2_to64_rest();
                if (i as nat) + 1 < 64 {
                    lemma_pow2_strictly_increases(i as nat + 1, 64);
                }
                lemma_pow2_adds(i as nat, 1);
            }
            let b = match self.read_bit() {
                Ok(b) => b,
                Err(e) => {
                    proof {
                        assert(false);
                    }
                    return Err(e);
                },
            };
            proof {
                assert(s.len() == self.vlen());
                assert(p0 + i + 1 <= s.len());
                assert(s.subrange(p0, p0 + i + 1).drop_last() =~= s.subrange(p0, p0 + i));
                assert(s.subrange(p0, p0 + i + 1).last() == s[p0 + i]);
            }
            acc = acc * 2 + if b {
                1
            } else {
                0
            };
            i = i + 1;
        }
        Ok(acc)
    }

    /// Write a small length determinant (chapter 11.9.3.6 and 11.9.3.7).
    fn write_len_small(&mut self, v: u64) -> (r: Result<(), Error>)
        requires
            old(self).wf(),
            v < 16384,
            old(self)@.len() + 16 <= usize::MAX,
        ensures
            final(self).wf(),
            r is Ok,
            final(self)@ == old(self)@ + enc_len_small(v as nat),
            final(self).rpos() == old(self).rpos(),
            final(self).vlen() == final(self)@.len(),
    {
        proof {
            lemma2_to64();
            lemma_nat_to_bits_len(v as nat, 7);
            lemma_nat_to_bits_len(v as nat, 14);
        }
        if v <= 127 {
            let _ = self.write_bit(false);
            let r = self.write_u64_bits(v, 7);
            proof {
                assert(final(self)@ =~= old(self)@ + enc_len_small(v as nat));
            }
            r
        } else {
            let _ = self.write_bit(true);
            let _ = self.write_bit(false);
            let r = self.write_u64_bits(v, 14);
            proof {
                assert(final(self)@ =~= old(self)@ + enc_len_small(v as nat));
            }
            r
        }
    }

    /// Read an unbounded length determinant (chapter 11.9.3.5 to 11.9.3.8).
    /// The flag tells whether the value is a fragment announcement from a
    /// chunk header rather than a whole length.
    fn read_len_unbounded(&mut self) -> (r: Result<(u64, bool), Error>)
        requires
            old(self).wf(),
        ensures
            final(self).wf(),
            final(self)@ == old(self)@,
            final(self).vlen() == old(self).vlen(),
            match sdec_len_unbounded(old(self).readable(), old(self).rpos()) {
                Ok((l, p, c)) => r == Ok::<(u64, bool), Error>(((l as u64), c))
                    && final(self).rpos() == p && l <= 65536,
                Err(e) => r == Err::<(u64, bool), Error>(e)
                    && old(self).rpos() <= final(self).rpos() <= final(self).vlen(),
            },
    {
        proof {
            lemma2_to64();
        }
        let b0 = match self.read_bit() {
            Ok(b) => b,
            Err(e) => {
                return Err(e);
            },
        };
        if !b0 {
            match self.read_u64_bits(7) {
                Ok(v) => Ok((v, false)),
                Err(e) => Err(e),
            }
        } else {
            let b1 = match self.read_bit() {
                Ok(b) => b,
                Err(e) => {
                    return Err(e);
                },
            };
            if !b1 {
                match self.read_u64_bits(14) {
                    Ok(v) => Ok((v, false)),
                    Err(e) => Err(e),
                }
            } else {
                match self.read_u64_bits(6) {
                    Ok(m) => {
                        let mm = if m > 4 {
                            4
                        } else {
                            m
                        };
                        Ok((16384 * mm, true))
                    },
                    Err(e) => Err(e),
                }
            }
        }
    }

    /// Chapter 12: write a boolean as one bit.
    pub fn write_boolean(&mut self, boolean: bool) -> (r: Result<(), Error>)
        requires
            old(self).wf(),
            old(self)@.len() + 1 <= usize::MAX,
        ensures
            final(self).wf(),
            r is Ok,
            final(self)@ == old(self)@ + enc_bool(boolean),
            final(self).rpos() == old(self).rpos(),
            final(self).vlen() == final(self)@.len(),
    {
        let r = self.write_bit(boolean);
        proof {
            assert(final(self)@ =~= old(self)@ + enc_bool(boolean));
        }
        r
    }

    /// Chapter 12: read a boolean from one bit.
    pub fn read_boolean(&mut self) -> (r: Result<bool, Error>)
        requires
            old(self).wf(),
        ensures
            final(self).wf(),
            final(self)@ == old(self)@,
            final(self).vlen() == old(self).vlen(),
            old(self).rpos() < old(self).vlen() ==> r == Ok::<bool, Error>(
                old(self).readable()[old(self).rpos()],
            ) && final(self).rpos() == old(self).rpos() + 1,
            old(self).rpos() >= old(self).vlen() ==> r == Err::<bool, Error>(Error::EndOfStream)
                && final(self).rpos() == old(self).rpos(),
    {
        self.read_bit()
    }

    /// Chapter 11.3: write a non-negative binary integer. With at least one
    /// bound it takes just enough bits for the range; without bounds it is
    /// a length determinant followed by that many octets.
    pub fn write_non_negative_binary_integer(
        &mut self,
        lower_bound: Option<u64>,
        upper_bound: Option<u64>,
        value: u64,
    ) -> (r: Result<(), Error>)
        requires
            old(self).wf(),
            old(self)@.len() + 128 <= usize::MAX,
            lower_bound is Some || upper_bound is Some ==> ({
                let lbu = bound_or(lower_bound, 0);
                let ubu = bound_or(upper_bound, i64::MAX as u64);
                lbu <= value && (ubu >= lbu ==> value <= ubu) && (ubu < lbu ==> value == lbu)
            }),
        ensures
            final(self).wf(),
            r is Ok,
            final(self)@ == old(self)@ + (if lower_bound is None && upper_bound is None {
                enc_nnbi_unbounded(value as nat)
            } else {
                enc_nnbi_bounded(
                    bound_or(lower_bound, 0) as nat,
                    bound_or(upper_bound, i64::MAX as u64) as nat,
                    value as nat,
                )
            }),
            final(self).rpos() == old(self).rpos(),
            final(self).vlen() == final(self)@.len(),
    {
        match (lower_bound, upper_bound) {
            (None, None) => {
                let oc = (bit_width(value) + 7) / 8;
                proof {
                    lemma2_to64();
                    lemma2_to64_rest();
                    assert(oc == octet_count(value as nat));
                    assert(oc <= 8);
                    lemma_min_bits(value as nat);
                    if min_bits(value as nat) < 8 * oc {
                        lemma_pow2_strictly_increases(min_bits(value as nat), (8 * oc) as nat);
                    }
                }
                proof {
                    crate::wire::lemma_enc_len_small_len(oc as nat);
                }
                let _ = self.write_len_small(oc as u64);
                let r = self.write_u64_bits(value, 8 * oc);
                proof {
                    assert(final(self)@ =~= old(self)@ + enc_nnbi_unbounded(value as nat));
                }
                r
            },
            (lb, ub) => {
                let lbu = match lb {
                    Some(l) => l,
                    None => 0,
                };
                let ubu = match ub {
                    Some(u) => u,
                    None => 0x7fff_ffff_ffff_ffffu64,
                };
                let range = if ubu >= lbu {
                    ubu - lbu
                } else {
                    0
                };
                let width = bit_width(range);
                proof {
                    lemma_min_bits(range as nat);
                    assert(width == nnbi_width(lbu as nat, ubu as nat));
                }
                self.write_u64_bits(value - lbu, width)
            },
        }
    }

    /// Chapter 11.3: read a non-negative binary integer, the dual of
    /// [`Self::write_non_negative_binary_integer`].
    pub fn read_non_negative_binary_integer(
        &mut self,
        lower_bound: Option<u64>,
        upper_bound: Option<u64>,
    ) -> (r: Result<u64, Error>)
        requires
            old(self).wf(),
        ensures
            final(self).wf(),
            final(self)@ == old(self)@,
            final(self).vlen() == old(self).vlen(),
            lower_bound is None && upper_bound is None ==> match sdec_nnbi_unbounded(
                old(self).readable(),
                old(self).rpos(),
            ) {
                Ok((v, p)) => r == Ok::<u64, Error>(v as u64) && final(self).rpos() == p && v
                    < pow2(64),
                Err(e) => r == Err::<u64, Error>(e) && old(self).rpos() <= final(self).rpos()
                    <= final(self).vlen(),
            },
            lower_bound is Some || upper_bound is Some ==> match sdec_nnbi_bounded(
                old(self).readable(),
                old(self).rpos(),
                bound_or(lower_bound, 0) as nat,
                bound_or(upper_bound, i64::MAX as u64) as nat,
            ) {
                Ok((v, p)) => r == Ok::<u64, Error>(v as u64) && final(self).rpos() == p && v
                    < pow2(64),
                Err(e) => r == Err::<u64, Error>(e) && final(self).rpos() == old(self).rpos(),
            },
    {
        match (lower_bound, upper_bound) {
            (None, None) => {
                let (len, _chunked) = match self.read_len_unbounded() {
                    Ok(l) => l,
                    Err(e) => {
                        return Err(e);
                    },
                };
                if len > 8 {
                    return Err(Error::LengthDeterminantExceedsLimit(len, 8));
                }
                let len8 = (len as usize) * 8;
                let r = self.read_u64_bits(len8);
                proof {
                    lemma2_to64_rest();
                    if (len8 as nat) < 64 {
                        lemma_pow2_strictly_increases(len8 as nat, 64);
                    }
                }
                r
            },
            (lb, ub) => {
                let lbu = match lb {
                    Some(l) => l,
                    None => 0,
                };
                let ubu = match ub {
                    Some(u) => u,
                    None => 0x7fff_ffff_ffff_ffffu64,
                };
                let range = if ubu >= lbu {
                    ubu - lbu
                } else {
                    0
                };
                let width = bit_width(range);
                proof {
                    lemma_min_bits(range as nat);
                    assert(width == nnbi_width(lbu as nat, ubu as nat));
                }
                match self.read_u64_bits(width) {
                    Ok(n) => {
                        proof {
                            lemma2_to64_rest();
                            if (width as nat) < 64 {
                                lemma_pow2_strictly_increases(width as nat, 64);
                            }
                            lemma_wrapping_add_u64(lbu, n);
                            crate::wire::lemma_wrap_u64_bound(lbu as int + n as int);
                        }
                        Ok(lbu.wrapping_add(n))
                    },
                    Err(e) => Err(e),
                }
            },
        }
    }

    /// Chapter 11.4: write the low `bit_len` bits of the two's complement
    /// of `value`.
    pub fn write_2s_compliment_binary_integer(&mut self, bit_len: u64, value: i64) -> (r: Result<
        (),
        Error,
    >)
        requires
            old(self).wf(),
            1 <= bit_len <= 64,
            -(pow2((bit_len - 1) as nat) as int) <= value < pow2((bit_len - 1) as nat),
            old(self)@.len() + 64 <= usize::MAX,
        ensures
            final(self).wf(),
            r is Ok,
            final(self)@ == old(self)@ + enc_twos(bit_len as nat, value as int),
            final(self).rpos() == old(self).rpos(),
            final(self).vlen() == final(self)@.len(),
    {
        proof {
            lemma2_to64();
            lemma2_to64_rest();
            lemma_pow2_adds((bit_len - 1) as nat, 1);
        }
        let max_l: u64 = if bit_len == 64 {
            u64::MAX
        } else {
            pow2_u64(bit_len as usize) - 1
        };
        let n: u64 = if value >= 0 {
            value as u64
        } else {
            max_l - ((-(value + 1)) as u64)
        };
        proof {
            let p = pow2(bit_len as nat) as int;
            if value >= 0 {
                vstd::arithmetic::div_mod::lemma_small_mod(value as nat, p as nat);
            } else {
                assert(n as int == value + p);
                vstd::arithmetic::div_mod::lemma_mod_add_multiples_vanish(value as int, p);
                vstd::arithmetic::div_mod::lemma_small_mod((value + p) as nat, p as nat);
            }
            assert(n as nat == (value as int % p) as nat);
        }
        self.write_u64_bits(n, bit_len as usize)
    }

    /// Chapter 11.4: read `bit_len` bits as a two's complement integer.
    pub fn read_2s_compliment_binary_integer(&mut self, bit_len: u64) -> (r: Result<i64, Error>)
        requires
            old(self).wf(),
        ensures
            final(self).wf(),
            final(self)@ == old(self)@,
            final(self).vlen() == old(self).vlen(),
            match sdec_twos(old(self).readable(), old(self).rpos(), bit_len as nat) {
                Ok((v, p)) => r == Ok::<i64, Error>(v as i64) && final(self).rpos() == p,
                Err(e) => r == Err::<i64, Error>(e) && final(self).rpos() == old(self).rpos(),
            },
    {
        if bit_len == 0 || bit_len > 64 {
            return Err(Error::BitLenNotInRange(bit_len, 1, 64));
        }
        proof {
            lemma2_to64();
            lemma2_to64_rest();
            lemma_pow2_adds((bit_len - 1) as nat, 1);
        }
        let half: u64 = if bit_len == 64 {
            0x8000_0000_0000_0000u64
        } else {
            pow2_u64((bit_len - 1) as usize)
        };
        let n = match self.read_u64_bits(bit_len as usize) {
            Ok(n) => n,
            Err(e) => {
                return Err(e);
            },
        };
        if n >= half {
            let max_l: u64 = if bit_len == 64 {
                u64::MAX
            } else {
                pow2_u64(bit_len as usize) - 1
            };
            let v = -((max_l - n) as i64) - 1;
            proof {
                assert(v as int == n - pow2(bit_len as nat));
            }
            Ok(v)
        } else {
            Ok(n as i64)
        }
    }

    /// Chapter 11.5: write a whole number constrained to `[lb, ub]`.
    /// An empty or inverted range takes no bits; a value outside a
    /// non-empty range is refused with `ValueNotInRange`.
    pub fn write_constrained_whole_number(
        &mut self,
        lower_bound: i64,
        upper_bound: i64,
        value: i64,
    ) -> (r: Result<(), Error>)
        requires
            old(self).wf(),
            lower_bound <= upper_bound,
            upper_bound - lower_bound <= i64::MAX,
            old(self)@.len() + 128 <= usize::MAX,
        ensures
            final(self).wf(),
            final(self).rpos() == old(self).rpos(),
            upper_bound > lower_bound && !(lower_bound <= value <= upper_bound) ==> r == Err::<
                (),
                Error,
            >(Error::ValueNotInRange(value, lower_bound, upper_bound)) && *final(self) == *old(
                self,
            ),
            upper_bound <= lower_bound || lower_bound <= value <= upper_bound ==> {
                &&& r is Ok
                &&& final(self)@ == old(self)@ + enc_cwn(
                    lower_bound as int,
                    upper_bound as int,
                    value as int,
                )
                &&& final(self).vlen() == final(self)@.len()
            },
    {
        let range = upper_bound - lower_bound;
        if range > 0 {
            if value < lower_bound || value > upper_bound {
                Err(Error::ValueNotInRange(value, lower_bound, upper_bound))
            } else {
                let r = self.write_non_negative_binary_integer(
                    None,
                    Some(range as u64),
                    (value - lower_bound) as u64,
                );
                proof {
                    assert(enc_nnbi_bounded(0, range as nat, (value - lower_bound) as nat)
                        == enc_cwn(lower_bound as int, upper_bound as int, value as int));
                }
                r
            }
        } else {
            let n = self.bit_len();
            self.set_len(n);
            proof {
                assert(old(self)@ + enc_cwn(lower_bound as int, upper_bound as int, value as int)
                    =~= old(self)@);
            }
            Ok(())
        }
    }

    /// Chapter 11.5: read a whole number constrained to `[lb, ub]`.
    pub fn read_constrained_whole_number(&mut self, lower_bound: i64, upper_bound: i64) -> (r:
        Result<i64, Error>)
        requires
            old(self).wf(),
            lower_bound <= upper_bound,
            upper_bound - lower_bound <= i64::MAX,
        ensures
            final(self).wf(),
            final(self)@ == old(self)@,
            final(self).vlen() == old(self).vlen(),
            match sdec_cwn(
                old(self).readable(),
                old(self).rpos(),
                lower_bound as int,
                upper_bound as int,
            ) {
                Ok((v, p)) => r == Ok::<i64, Error>(v as i64) && final(self).rpos() == p,
                Err(e) => r == Err::<i64, Error>(e) && final(self).rpos() == old(self).rpos(),
            },
    {
        let range = upper_bound - lower_bound;
        if range > 0 {
            match self.read_non_negative_binary_integer(None, Some(range as u64)) {
                Ok(n) => {
                    let m = u64_as_i64_wrapped(n);
                    proof {
                        lemma2_to64_rest();
                        let w = nnbi_width(0, range as nat);
                        if w < 64 {
                            lemma_pow2_strictly_increases(w, 64);
                        }
                        lemma_wrapping_add_i64(lower_bound, m);
                        lemma_wrap_parts(lower_bound as int, n as int);
                    }
                    Ok(lower_bound.wrapping_add(m))
                },
                Err(e) => Err(e),
            }
        } else {
            Ok(lower_bound)
        }
    }

    /// Chapter 11.6: write a normally small non-negative whole number.
    pub fn write_normally_small_non_negative_whole_number(&mut self, value: u64) -> (r: Result<
        (),
        Error,
    >)
        requires
            old(self).wf(),
            old(self)@.len() + 136 <= usize::MAX,
        ensures
            final(self).wf(),
            r is Ok,
            final(self)@ == old(self)@ + enc_nsnnwn(value as nat),
            final(self).rpos() == old(self).rpos(),
            final(self).vlen() == final(self)@.len(),
    {
        let greater_or_equal_to_64 = value >= SMALL_NON_NEGATIVE_NUMBER;
        let _ = self.write_bit(greater_or_equal_to_64);
        let r = if greater_or_equal_to_64 {
            self.write_non_negative_binary_integer(None, None, value)
        } else {
            self.write_non_negative_binary_integer(
                None,
                Some(SMALL_NON_NEGATIVE_NUMBER - 1),
                value,
            )
        };
        proof {
            if value < 64 {
                assert(min_bits(63) == 6) by {
                    reveal_with_fuel(min_bits, 8);
                }
                assert(enc_nnbi_bounded(0, 63, value as nat) == nat_to_bits(value as nat, 6));
            }
            assert(final(self)@ =~= old(self)@ + enc_nsnnwn(value as nat));
        }
        r
    }

    /// Chapter 11.6: read a normally small non-negative whole number.
    pub fn read_normally_small_non_negative_whole_number(&mut self) -> (r: Result<u64, Error>)
        requires
            old(self).wf(),
        ensures
            final(self).wf(),
            final(self)@ == old(self)@,
            final(self).vlen() == old(self).vlen(),
            match sdec_nsnnwn(old(self).readable(), old(self).rpos()) {
                Ok((v, p)) => r == Ok::<u64, Error>(v as u64) && final(self).rpos() == p && v
                    < pow2(64),
                Err(e) => r == Err::<u64, Error>(e) && old(self).rpos() <= final(self).rpos()
                    <= final(self).vlen(),
            },
    {
        let greater_or_equal_to_64 = match self.read_bit() {
            Ok(b) => b,
            Err(e) => {
                return Err(e);
            },
        };
        if greater_or_equal_to_64 {
            self.read_non_negative_binary_integer(None, None)
        } else {
            self.read_non_negative_binary_integer(None, Some(SMALL_NON_NEGATIVE_NUMBER - 1))
        }
    }

    /// Chapter 11.7: write a semi-constrained whole number, refusing a
    /// value below the lower bound with `ValueNotInRange`.
    pub fn write_semi_constrained_whole_number(&mut self, lower_bound: i64, value: i64) -> (r:
        Result<(), Error>)
        requires
            old(self).wf(),
            old(self)@.len() + 128 <= usize::MAX,
        ensures
            final(self).wf(),
            final(self).rpos() == old(self).rpos(),
            value < lower_bound ==> r == Err::<(), Error>(
                Error::ValueNotInRange(value, lower_bound, i64::MAX),
            ) && *final(self) == *old(self),
            value >= lower_bound ==> r is Ok && final(self)@ == old(self)@ + enc_semi(
                lower_bound as int,
                value as int,
            ) && final(self).vlen() == final(self)@.len(),
    {
        if value < lower_bound {
            Err(Error::ValueNotInRange(value, lower_bound, i64::MAX))
        } else {
            let diff = i64_sub_as_u64(value, lower_bound);
            self.write_non_negative_binary_integer(None, None, diff)
        }
    }

    /// Chapter 11.7: read a semi-constrained whole number.
    pub fn read_semi_constrained_whole_number(&mut self, lower_bound: i64) -> (r: Result<
        i64,
        Error,
    >)
        requires
            old(self).wf(),
        ensures
            final(self).wf(),
            final(self)@ == old(self)@,
            final(self).vlen() == old(self).vlen(),
            match sdec_semi(old(self).readable(), old(self).rpos(), lower_bound as int) {
                Ok((v, p)) => r == Ok::<i64, Error>(v as i64) && final(self).rpos() == p,
                Err(e) => r == Err::<i64, Error>(e) && old(self).rpos() <= final(self).rpos()
                    <= final(self).vlen(),
            },
    {
        proof {
            lemma2_to64();
            lemma2_to64_rest();
        }
        match self.read_non_negative_binary_integer(None, None) {
            Ok(n) => {
                let m = u64_as_i64_wrapped(n);
                proof {
                    lemma_wrapping_add_i64(m, lower_bound);
                    lemma_wrap_parts(lower_bound as int, n as int);
                    assert(m as int + lower_bound as int == lower_bound as int + wrap_i64(n as int));
                }
                Ok(m.wrapping_add(lower_bound))
            },
            Err(e) => Err(e),
        }
    }

    /// Chapter 11.8: write an unconstrained whole number as a length
    /// determinant and a two's complement integer of that many octets.
    pub fn write_unconstrained_whole_number(&mut self, value: i64) -> (r: Result<(), Error>)
        requires
            old(self).wf(),
            old(self)@.len() + 128 <= usize::MAX,
        ensures
            final(self).wf(),
            r is Ok,
            final(self)@ == old(self)@ + enc_uwn(value as int),
            final(self).rpos() == old(self).rpos(),
            final(self).vlen() == final(self)@.len(),
    {
        let octet_len: usize = if value >= 0 {
            (bit_width(value as u64) + 8) / 8
        } else {
            (bit_width((-(value + 1)) as u64) + 8) / 8
        };
        proof {
            lemma2_to64();
            lemma2_to64_rest();
            assert(octet_len == signed_octet_count(value as int));
            assert(1 <= octet_len <= 8) by {
                if value >= 0 {
                    crate::wire::lemma_min_bits_le(value as nat, 63);
                } else {
                    crate::wire::lemma_min_bits_le((-value - 1) as nat, 63);
                }
            }
            let mb: nat = if value >= 0 {
                min_bits(value as nat)
            } else {
                min_bits((-value - 1) as nat)
            };
            assert(8 * octet_len >= mb + 1);
            assert(value < pow2((8 * octet_len - 1) as nat) && -(pow2((8 * octet_len - 1) as nat)
                as int) <= value) by {
                if value >= 0 {
                    lemma_min_bits(value as nat);
                } else {
                    lemma_min_bits((-value - 1) as nat);
                }
                if mb < 8 * octet_len - 1 {
                    lemma_pow2_strictly_increases(mb, (8 * octet_len - 1) as nat);
                }
                lemma_pow2_pos((8 * octet_len - 1) as nat);
            }
            crate::wire::lemma_enc_len_small_len(octet_len as nat);
        }
        let _ = self.write_len_small(octet_len as u64);
        let r = self.write_2s_compliment_binary_integer(8 * (octet_len as u64), value);
        proof {
            assert(final(self)@ =~= old(self)@ + enc_uwn(value as int));
        }
        r
    }

    /// Chapter 11.8: read an unconstrained whole number.
    pub fn read_unconstrained_whole_number(&mut self) -> (r: Result<i64, Error>)
        requires
            old(self).wf(),
        ensures
            final(self).wf(),
            final(self)@ == old(self)@,
            final(self).vlen() == old(self).vlen(),
            match sdec_uwn(old(self).readable(), old(self).rpos()) {
                Ok((v, p)) => r == Ok::<i64, Error>(v as i64) && final(self).rpos() == p,
                Err(e) => r == Err::<i64, Error>(e) && old(self).rpos() <= final(self).rpos()
                    <= final(self).vlen(),
            },
    {
        let (octet_len, _chunked) = match self.read_len_unbounded() {
            Ok(l) => l,
            Err(e) => {
                return Err(e);
            },
        };
        self.read_2s_compliment_binary_integer(octet_len * 8)
    }

    /// Chapter 11.9.3: write a normally small length.
    pub fn write_normally_small_length(&mut self, value: u64) -> (r: Result<(), Error>)
        requires
            old(self).wf(),
            old(self)@.len() + 136 <= usize::MAX,
        ensures
            final(self).wf(),
            r is Ok,
            final(self)@ == old(self)@ + enc_nsnnwn(value as nat),
            final(self).rpos() == old(self).rpos(),
            final(self).vlen() == final(self)@.len(),
    {
        self.write_normally_small_non_negative_whole_number(value)
    }

    /// Chapter 11.9.3: read a normally small length.
    pub fn read_normally_small_length(&mut self) -> (r: Result<u64, Error>)
        requires
            old(self).wf(),
        ensures
            final(self).wf(),
            final(self)@ == old(self)@,
            final(self).vlen() == old(self).vlen(),
            match sdec_nsnnwn(old(self).readable(), old(self).rpos()) {
                Ok((v, p)) => r == Ok::<u64, Error>(v as u64) && final(self).rpos() == p && v
                    < pow2(64),
                Err(e) => r == Err::<u64, Error>(e) && old(self).rpos() <= final(self).rpos()
                    <= final(self).vlen(),
            },
    {
        self.read_normally_small_non_negative_whole_number()
    }

    /// Chapter 11.9.4: write a length determinant. `Ok(Some(n))` announces
    /// that only a fragment of `n` units was covered and the caller drives
    /// the fragmentation loop; `Ok(None)` says the whole length was encoded.
    pub fn write_length_determinant(
        &mut self,
        lower_bound: Option<u64>,
        upper_bound: Option<u64>,
        value: u64,
    ) -> (r: Result<Option<u64>, Error>)
        requires
            old(self).wf(),
            old(self)@.len() + 128 <= usize::MAX,
            ({
                let lbu = bound_or(lower_bound, 0);
                let ubu = bound_or(upper_bound, i64::MAX as u64);
                if (lower_bound is Some || upper_bound is Some) && ubu >= LENGTH_64K {
                    lower_bound != upper_bound ==> lbu <= ubu && (value >= lbu ==> lbu <= value
                        - lbu <= ubu)
                } else if upper_bound is Some && ubu <= LENGTH_64K {
                    lbu <= value <= ubu
                } else {
                    true
                }
            }),
        ensures
            final(self).wf(),
            final(self).rpos() == old(self).rpos(),
            ({
                let lbu = bound_or(lower_bound, 0);
                let ubu = bound_or(upper_bound, i64::MAX as u64);
                if (lower_bound is Some || upper_bound is Some) && ubu >= LENGTH_64K
                    && lower_bound != upper_bound && value < lbu {
                    r == Err::<Option<u64>, Error>(
                        Error::ValueNotInRange(
                            wrap_i64(value as int) as i64,
                            wrap_i64(lbu as int) as i64,
                            wrap_i64(ubu as int) as i64,
                        ),
                    ) && *final(self) == *old(self)
                } else {
                    r == Ok::<Option<u64>, Error>(len_det_chunk(lower_bound, upper_bound, value))
                        && final(self)@ == old(self)@ + enc_len_det(
                        lower_bound,
                        upper_bound,
                        value,
                    ) && final(self).vlen() == final(self)@.len()
                }
            }),
    {
        let lbu = match lower_bound {
            Some(l) => l,
            None => 0,
        };
        let ubu = match upper_bound {
            Some(u) => u,
            None => 0x7fff_ffff_ffff_ffffu64,
        };
        let bounds_equal = match (lower_bound, upper_bound) {
            (Some(a), Some(b)) => a == b,
            (None, None) => true,
            _ => false,
        };
        proof {
            assert(bounds_equal == (lower_bound == upper_bound));
        }
        if (lower_bound.is_some() || upper_bound.is_some()) && ubu >= LENGTH_64K {
            if bounds_equal {
                let n = self.bit_len();
                self.set_len(n);
                proof {
                    assert(old(self)@ + enc_len_det(lower_bound, upper_bound, value) =~= old(
                        self,
                    )@);
                }
                Ok(None)
            } else if value < lbu {
                let a = u64_as_i64_wrapped(value);
                let b = u64_as_i64_wrapped(lbu);
                let c = u64_as_i64_wrapped(ubu);
                Err(Error::ValueNotInRange(a, b, c))
            } else {
                let _ = self.write_non_negative_binary_integer(
                    lower_bound,
                    upper_bound,
                    value - lbu,
                );
                Ok(None)
            }
        } else if upper_bound.is_some() && ubu <= LENGTH_64K {
            let _ = self.write_non_negative_binary_integer(lower_bound, upper_bound, value);
            Ok(None)
        } else if value <= LENGTH_127 {
            let _ = self.write_len_small(value);
            Ok(None)
        } else if value < LENGTH_16K {
            let _ = self.write_len_small(value);
            Ok(None)
        } else {
            let m = value / LENGTH_16K;
            let multiple: u64 = if m > 4 {
                4
            } else {
                m
            };
            proof {
                lemma2_to64();
                assert(multiple as nat == min_n((value / LENGTH_16K) as nat, 4));
            }
            let _ = self.write_bit(true);
            let _ = self.write_bit(true);
            let r = self.write_u64_bits(multiple, 6);
            proof {
                assert(final(self)@ =~= old(self)@ + enc_len_det(
                    lower_bound,
                    upper_bound,
                    value,
                ));
            }
            Ok(Some(multiple * LENGTH_16K))
        }
    }

    /// Chapter 11.9.4: read a length determinant, the dual of
    /// [`Self::write_length_determinant`]. A fragment announcement is
    /// returned as the announced size; with both bounds absent the result
    /// never exceeds 64K.
    pub fn read_length_determinant(
        &mut self,
        lower_bound: Option<u64>,
        upper_bound: Option<u64>,
    ) -> (r: Result<u64, Error>)
        requires
            old(self).wf(),
        ensures
            final(self).wf(),
            final(self)@ == old(self)@,
            final(self).vlen() == old(self).vlen(),
            match sdec_len_det(old(self).readable(), old(self).rpos(), lower_bound, upper_bound) {
                Ok((l, p, _c)) => r == Ok::<u64, Error>(l as u64) && final(self).rpos() == p && l
                    < pow2(64) && (lower_bound is None && upper_bound is None ==> l <= 65536),
                Err(e) => r == Err::<u64, Error>(e) && old(self).rpos() <= final(self).rpos()
                    <= final(self).vlen(),
            },
    {
        let lbu = match lower_bound {
            Some(l) => l,
            None => 0,
        };
        let ubu = match upper_bound {
            Some(u) => u,
            None => 0x7fff_ffff_ffff_ffffu64,
        };
        let bounds_equal = match (lower_bound, upper_bound) {
            (Some(a), Some(b)) => a == b,
            (None, None) => true,
            _ => false,
        };
        proof {
            assert(bounds_equal == (lower_bound == upper_bound));
            lemma2_to64();
            lemma2_to64_rest();
        }
        if (lower_bound.is_some() || upper_bound.is_some()) && ubu >= LENGTH_64K {
            if bounds_equal {
                Ok(lbu)
            } else {
                match self.read_non_negative_binary_integer(lower_bound, upper_bound) {
                    Ok(n) => {
                        proof {
                            lemma_wrapping_add_u64(lbu, n);
                            crate::wire::lemma_wrap_u64_bound(lbu as int + n as int);
                        }
                        Ok(lbu.wrapping_add(n))
                    },
                    Err(e) => Err(e),
                }
            }
        } else if upper_bound.is_some() && ubu <= LENGTH_64K {
            self.read_non_negative_binary_integer(lower_bound, upper_bound)
        } else {
            match self.read_len_unbounded() {
                Ok((l, _chunked)) => Ok(l),
                Err(e) => Err(e),
            }
        }
    }

    /// Write a choice index: the same form as an enumeration index, the
    /// variant payload following on the wire.
    pub fn write_choice_index(&mut self, std_variants: u64, extensible: bool, index: u64) -> (r:
        Result<(), Error>)
        requires
            old(self).wf(),
            std_variants >= 1,
            old(self)@.len() + 144 <= usize::MAX,
        ensures
            final(self).wf(),
            final(self).rpos() == old(self).rpos(),
            index >= std_variants && !extensible ==> r == Err::<(), Error>(
                Error::InvalidChoiceIndex(index, std_variants),
            ) && *final(self) == *old(self),
            index < std_variants || extensible ==> r is Ok && final(self)@ == old(self)@
                + crate::wire::enc_index(std_variants, extensible, index) && final(self).vlen()
                == final(self)@.len(),
    {
        self.write_enumeration_index(std_variants, extensible, index)
    }

    /// Read a choice index.
    pub fn read_choice_index(&mut self, std_variants: u64, extensible: bool) -> (r: Result<
        u64,
        Error,
    >)
        requires
            old(self).wf(),
            std_variants >= 1,
        ensures
            final(self).wf(),
            final(self)@ == old(self)@,
            final(self).vlen() == old(self).vlen(),
            match sdec_index(old(self).readable(), old(self).rpos(), std_variants, extensible) {
                Ok((v, p)) => r == Ok::<u64, Error>(v as u64) && final(self).rpos() == p,
                Err(e) => r == Err::<u64, Error>(e) && old(self).rpos() <= final(self).rpos()
                    <= final(self).vlen(),
            },
    {
        self.read_enumeration_index(std_variants, extensible)
    }

    /// Write an enumeration index. An index at
    /// or past the standard variants needs the extension marker; without it
    /// the index is refused with `InvalidChoiceIndex`.
    pub fn write_enumeration_index(&mut self, std_variants: u64, extensible: bool, index: u64) -> (r:
        Result<(), Error>)
        requires
            old(self).wf(),
            std_variants >= 1,
            old(self)@.len() + 144 <= usize::MAX,
        ensures
            final(self).wf(),
            final(self).rpos() == old(self).rpos(),
            index >= std_variants && !extensible ==> r == Err::<(), Error>(
                Error::InvalidChoiceIndex(index, std_variants),
            ) && *final(self) == *old(self),
            index < std_variants || extensible ==> r is Ok && final(self)@ == old(self)@
                + crate::wire::enc_index(std_variants, extensible, index) && final(self).vlen()
                == final(self)@.len(),
    {
        let out_of_range = index >= std_variants;
        if out_of_range && !extensible {
            return Err(Error::InvalidChoiceIndex(index, std_variants));
        }
        if extensible {
            let _ = self.write_bit(out_of_range);
        }
        let r = if out_of_range {
            self.write_normally_small_length(index - std_variants)
        } else {
            self.write_non_negative_binary_integer(None, Some(std_variants - 1), index)
        };
        proof {
            assert(final(self)@ =~= old(self)@ + crate::wire::enc_index(
                std_variants,
                extensible,
                index,
            ));
        }
        r
    }

    /// Read an enumeration index, the dual of
    /// [`Self::write_enumeration_index`].
    pub fn read_enumeration_index(&mut self, std_variants: u64, extensible: bool) -> (r: Result<
        u64,
        Error,
    >)
        requires
            old(self).wf(),
            std_variants >= 1,
        ensures
            final(self).wf(),
            final(self)@ == old(self)@,
            final(self).vlen() == old(self).vlen(),
            match sdec_index(old(self).readable(), old(self).rpos(), std_variants, extensible) {
                Ok((v, p)) => r == Ok::<u64, Error>(v as u64) && final(self).rpos() == p,
                Err(e) => r == Err::<u64, Error>(e) && old(self).rpos() <= final(self).rpos()
                    <= final(self).vlen(),
            },
    {
        proof {
            lemma2_to64();
            lemma2_to64_rest();
        }
        if extensible {
            let is_extension = match self.read_bit() {
                Ok(b) => b,
                Err(e) => {
                    return Err(e);
                },
            };
            if is_extension {
                match self.read_normally_small_length() {
                    Ok(l) => {
                        proof {
                            lemma_wrapping_add_u64(l, std_variants);
                        }
                        Ok(l.wrapping_add(std_variants))
                    },
                    Err(e) => Err(e),
                }
            } else {
                self.read_non_negative_binary_integer(None, Some(std_variants - 1))
            }
        } else {
            self.read_non_negative_binary_integer(None, Some(std_variants - 1))
        }
    }

    /// Write an unbounded, possibly fragmented payload: 16K-unit fragments
    /// under chunk headers, closed by a final small determinant and body.
    #[verifier::spinoff_prover]
    #[verifier::rlimit(100)]
    fn write_fragmented(
        &mut self,
        src: &[u8],
        bit_offset: usize,
        bit_len: usize,
        unit: usize,
    ) -> (r: Result<(), Error>)
        requires
            old(self).wf(),
            unit == 1 || unit == 8,
            bit_len % unit == 0,
            bit_offset + bit_len <= 8 * src@.len(),
            8 * src@.len() <= usize::MAX,
            old(self)@.len() + 2 * bit_len + 160 <= usize::MAX,
        ensures
            final(self).wf(),
            r is Ok,
            final(self)@ == old(self)@ + crate::wire::enc_fragmented(
                bytes_bits(src@).subrange(bit_offset as int, bit_offset + bit_len),
                unit as nat,
            ),
            final(self).rpos() == old(self).rpos(),
            final(self).vlen() == final(self)@.len(),
    {
        let ghost v = bytes_bits(src@).subrange(bit_offset as int, bit_offset + bit_len);
        let total_units = bit_len / unit;
        proof {
            assert(v.len() == bit_len);
            assert(total_units * unit == bit_len) by (nonlinear_arith)
                requires total_units == bit_len / unit && bit_len % unit == 0 && unit >= 1;
        }
        proof {
            assert(v.skip(0) =~= v);
        }
        let mut written_units: usize = 0;
        while total_units - written_units >= 16384
            invariant
                old(self).wf(),
                self.wf(),
                unit == 1 || unit == 8,
                bit_len % unit == 0,
                total_units == bit_len / unit,
                total_units * unit == bit_len,
                written_units <= total_units,
                written_units % 16384 == 0,
                bit_offset + bit_len <= 8 * src@.len(),
                8 * src@.len() <= usize::MAX,
                v == bytes_bits(src@).subrange(bit_offset as int, bit_offset + bit_len),
                old(self)@ + crate::wire::enc_fragmented(v, unit as nat) =~= self@
                    + crate::wire::enc_fragmented(
                    v.skip((written_units * unit) as int),
                    unit as nat,
                ),
                self@.len() + 2 * (bit_len - written_units * unit) + 160 <= usize::MAX,
                self.rpos() == old(self).rpos(),
            decreases total_units - written_units,
        {
            let rem_units = total_units - written_units;
            let m: usize = if rem_units / 16384 > 4 {
                4
            } else {
                rem_units / 16384
            };
            let chunk_units = m * 16384;
            let ghost tail = v.skip((written_units * unit) as int);
            proof {
                lemma2_to64();
                assert(tail.len() == bit_len - written_units * unit);
                assert(tail.len() % (unit as nat) == 0 && tail.len() / (unit as nat) == rem_units) by (
                nonlinear_arith)
                    requires
                        tail.len() == bit_len - written_units * unit && bit_len == total_units
                            * unit && rem_units == total_units - written_units && (unit == 1 || unit
                            == 8),
                ;
                assert(m as nat == min_n((rem_units / 16384) as nat, 4));
                assert(m as nat == min_n(((rem_units as u64) / LENGTH_16K) as nat, 4));
                crate::wire::lemma_fragment_take_len(tail.len() as nat, unit as nat, m as nat);
                lemma_nat_to_bits_len(m as nat, 6);
                assert(chunk_units * unit <= rem_units * unit && rem_units * unit <= bit_len
                    - written_units * unit) by (nonlinear_arith)
                    requires
                        chunk_units <= rem_units && (unit == 1 || unit == 8) && rem_units
                            == total_units - written_units && bit_len == total_units * unit,
                ;
                assert(chunk_units * unit >= 16384) by (nonlinear_arith)
                    requires chunk_units >= 16384 && unit >= 1;
            }
            let _ = self.write_length_determinant(None, None, rem_units as u64);
            let _ = self.write_bits_with_offset_len(
                src,
                bit_offset + written_units * unit,
                chunk_units * unit,
            );
            proof {
                let k = (chunk_units * unit) as int;
                assert((written_units + chunk_units) * unit == written_units * unit + k) by (
                nonlinear_arith)
                    requires k == (chunk_units * unit) as int;
                assert(tail.take(k) =~= bytes_bits(src@).subrange(
                    bit_offset + written_units * unit,
                    bit_offset + written_units * unit + k,
                ));
                assert(tail.skip(k) =~= v.skip(((written_units + chunk_units) * unit) as int));
                assert(crate::wire::enc_fragmented(tail, unit as nat)
                    == crate::wire::enc_len_chunk_header(m as nat) + tail.take(k)
                    + crate::wire::enc_fragmented(tail.skip(k), unit as nat));
                assert(crate::wire::enc_len_det(None, None, rem_units as u64)
                    == crate::wire::enc_len_chunk_header(m as nat));
            }
            proof {
                assert((written_units + chunk_units) * unit == written_units * unit + chunk_units
                    * unit) by (nonlinear_arith);
            }
            written_units = written_units + chunk_units;
        }
        let rem_units = total_units - written_units;
        let ghost tail = v.skip((written_units * unit) as int);
        proof {
            assert(written_units * unit <= bit_len) by (nonlinear_arith)
                requires
                    written_units <= total_units && bit_len == total_units * unit && (unit == 1
                        || unit == 8),
            ;
            assert(tail.len() == bit_len - written_units * unit);
            assert(tail.len() % (unit as nat) == 0 && tail.len() / (unit as nat) == rem_units) by (nonlinear_arith)
                requires
                    tail.len() == bit_len - written_units * unit && bit_len == total_units * unit
                        && rem_units == total_units - written_units && (unit == 1 || unit == 8),
            ;
            assert(crate::wire::enc_fragmented(tail, unit as nat) == crate::wire::enc_len_small(
                rem_units as nat,
            ) + tail);
            assert(crate::wire::enc_len_det(None, None, rem_units as u64)
                == crate::wire::enc_len_small(rem_units as nat));
            crate::wire::lemma_enc_len_small_len(rem_units as nat);
            assert(rem_units * unit <= bit_len - written_units * unit) by (nonlinear_arith)
                requires
                    rem_units == total_units - written_units && (unit == 1 || unit == 8) && bit_len
                        == total_units * unit,
            ;
        }
        let _ = self.write_length_determinant(None, None, rem_units as u64);
        let r = self.write_bits_with_offset_len(
            src,
            bit_offset + written_units * unit,
            rem_units * unit,
        );
        proof {
            assert(tail =~= bytes_bits(src@).subrange(
                bit_offset + written_units * unit,
                bit_offset + written_units * unit + rem_units * unit,
            ));
            assert(final(self)@ =~= old(self)@ + crate::wire::enc_fragmented(v, unit as nat));
        }
        r
    }

    /// Read an unbounded, possibly fragmented payload into fresh bytes.
    /// The payload bits land at the start; trailing bits of the last byte
    /// are zero. The unit count is returned beside the bytes.
    #[verifier::rlimit(80)]
    fn read_fragmented(&mut self, unit: usize) -> (r: Result<(Vec<u8>, u64), Error>)
        requires
            old(self).wf(),
            unit == 1 || unit == 8,
            old(self)@.len() + 8 <= usize::MAX,
        ensures
            final(self).wf(),
            final(self)@ == old(self)@,
            final(self).vlen() == old(self).vlen(),
            match crate::wire::sdec_fragmented(old(self).readable(), old(self).rpos(), unit as nat) {
                Ok((bits, p)) => match r {
                    Ok((buf, n)) => n as nat == bits.len() / (unit as nat) && buf@.len() == (
                    bits.len() + 7) / 8 && final(self).rpos() == p && (forall|t: int|
                        0 <= t < 8 * buf@.len() ==> bytes_bits(buf@)[t] == (if t < bits.len() {
                            bits[t]
                        } else {
                            false
                        })),
                    Err(_) => false,
                },
                Err(e) => r == Err::<(Vec<u8>, u64), Error>(e)
                    && old(self).rpos() <= final(self).rpos() <= final(self).vlen(),
            },
    {
        let ghost s = self.readable();
        let ghost p0 = self.rpos();
        let mut buf: Vec<u8> = Vec::new();
        let mut total_units: usize = 0;
        let ghost mut acc: Seq<bool> = Seq::empty();
        loop
            invariant
                old(self).wf(),
                self.wf(),
                unit == 1 || unit == 8,
                self@ == old(self)@,
                self.vlen() == old(self).vlen(),
                old(self)@.len() + 8 <= usize::MAX,
                s == self.readable(),
                p0 == old(self).rpos(),
                p0 <= self.rpos(),
                acc.len() == total_units * unit,
                acc.len() <= self.rpos() - p0,
                buf@.len() == (acc.len() + 7) / 8,
                forall|t: int|
                    0 <= t < 8 * buf@.len() ==> bytes_bits(buf@)[t] == (if t < acc.len() {
                        acc[t]
                    } else {
                        false
                    }),
                match crate::wire::sdec_fragmented(s, self.rpos(), unit as nat) {
                    Ok((rest, p)) => crate::wire::sdec_fragmented(s, p0, unit as nat) == Ok::<
                        (Seq<bool>, int),
                        Error,
                    >((acc + rest, p)),
                    Err(e) => crate::wire::sdec_fragmented(s, p0, unit as nat) == Err::<
                        (Seq<bool>, int),
                        Error,
                    >(e),
                },
            decreases self.vlen() - self.rpos(),
        {
            let ghost rpos_cur = self.rpos();
            let (l, chunked) = match self.read_len_unbounded() {
                Ok(x) => x,
                Err(e) => {
                    return Err(e);
                },
            };
            proof {
                assert(l <= 65536);
            }
            let l_us = l as usize;
            proof {
                assert(l_us * unit <= 65536 * 8) by (nonlinear_arith)
                    requires l_us <= 65536 && unit <= 8;
            }
            let bits_needed = l_us * unit;
            if bits_needed > self.remaining() {
                return Err(Error::EndOfStream);
            }
            let cur_bits = total_units * unit;
            let new_bits = cur_bits + bits_needed;
            let need_bytes = (new_bits + 7) / 8;
            let have_bytes = buf.len();
            let ghost buf_before = buf@;
            push_zero_bytes(&mut buf, need_bytes - have_bytes);
            proof {
                assert forall|t: int| 0 <= t < 8 * buf@.len() implies bytes_bits(buf@)[t] == (
                if t < acc.len() {
                    acc[t]
                } else {
                    false
                }) by {
                    if t / 8 < buf_before.len() {
                        assert(buf@[t / 8] == buf_before[t / 8]);
                        assert(bytes_bits(buf_before)[t] == crate::bits::byte_bits(
                            buf_before[t / 8],
                        )[t % 8]);
                    } else {
                        assert(buf@[t / 8] == 0u8);
                        lemma_byte_bits_zero();
                        assert(t >= 8 * buf_before.len());
                        assert(t >= acc.len());
                    }
                }
            }
            let ghost acc_prev = acc;
            let ghost body = s.subrange(self.rpos(), self.rpos() + bits_needed);
            let _ = self.read_bits_with_offset_len(&mut buf, cur_bits, bits_needed);
            proof {
                acc = acc_prev + body;
                assert(acc.len() == (total_units + l_us) * unit) by (nonlinear_arith)
                    requires
                        acc.len() == total_units * unit + l_us * unit,
                ;
                assert forall|t: int| 0 <= t < 8 * buf@.len() implies bytes_bits(buf@)[t] == (
                if t < acc.len() {
                    acc[t]
                } else {
                    false
                }) by {
                    if t < acc_prev.len() {
                        assert(acc[t] == acc_prev[t]);
                    } else if t < acc.len() {
                        assert(acc[t] == body[t - acc_prev.len()]);
                    }
                }
            }
            total_units = total_units + l_us;
            if !(chunked && l >= 16384) {
                proof {
                    assert(crate::wire::sdec_fragmented(s, rpos_cur, unit as nat) == Ok::<
                        (Seq<bool>, int),
                        Error,
                    >((body, self.rpos())));
                    assert(total_units as nat == acc.len() / (unit as nat)) by (nonlinear_arith)
                        requires
                            acc.len() == total_units * unit && (unit == 1 || unit == 8),
                    ;
                }
                return Ok((buf, total_units as u64));
            }
            proof {
                match crate::wire::sdec_fragmented(s, self.rpos(), unit as nat) {
                    Ok((rest, p)) => {
                        assert(crate::wire::sdec_fragmented(s, rpos_cur, unit as nat) == Ok::<
                            (Seq<bool>, int),
                            Error,
                        >((body + rest, p)));
                        assert(acc + rest =~= acc_prev + (body + rest));
                    },
                    Err(e) => {
                        assert(crate::wire::sdec_fragmented(s, rpos_cur, unit as nat) == Err::<
                            (Seq<bool>, int),
                            Error,
                        >(e));
                    },
                }
            }
        }
    }
}

impl BitBuffer {
    /// Chapter 16: write a bit string of `len` bits taken from `src` at
    /// bit `offset`. A length outside a non-extensible size constraint is
    /// refused with `SizeNotInRange`.
    pub fn write_bitstring(
        &mut self,
        lower_bound_size: Option<u64>,
        upper_bound_size: Option<u64>,
        extensible: bool,
        src: &[u8],
        offset: u64,
        len: u64,
    ) -> (r: Result<(), Error>)
        requires
            old(self).wf(),
            offset + len <= 8 * src@.len(),
            8 * src@.len() <= usize::MAX,
            old(self)@.len() + 2 * len + 200 <= usize::MAX,
            ({
                let lbu = bound_or(lower_bound_size, 0);
                let ubu = bound_or(upper_bound_size, i64::MAX as u64);
                lbu <= len <= ubu ==> ((lower_bound_size is Some || upper_bound_size is Some)
                    && ubu >= LENGTH_64K && lower_bound_size != upper_bound_size ==> lbu + lbu
                    <= len && len - lbu <= ubu)
            }),
        ensures
            final(self).wf(),
            final(self).rpos() == old(self).rpos(),
            ({
                let lbu = bound_or(lower_bound_size, 0);
                let ubu = bound_or(upper_bound_size, i64::MAX as u64);
                let v = bytes_bits(src@).subrange(offset as int, offset + len);
                if (len < lbu || len > ubu) && !extensible {
                    r == Err::<(), Error>(Error::SizeNotInRange(len, lbu, ubu)) && *final(self)
                        == *old(self)
                } else {
                    r is Ok && final(self)@ == old(self)@ + crate::wire::enc_string(
                        lower_bound_size,
                        upper_bound_size,
                        extensible,
                        v,
                        1,
                    ) && final(self).vlen() == final(self)@.len()
                }
            }),
    {
        let lbu = match lower_bound_size {
            Some(l) => l,
            None => 0,
        };
        let ubu = match upper_bound_size {
            Some(u) => u,
            None => 0x7fff_ffff_ffff_ffffu64,
        };
        let ghost v = bytes_bits(src@).subrange(offset as int, offset + len);
        proof {
            assert(v.len() == len);
        }
        let out_of_range = len < lbu || len > ubu;
        if out_of_range && !extensible {
            return Err(Error::SizeNotInRange(len, lbu, ubu));
        }
        if extensible {
            let _ = self.write_bit(out_of_range);
        }
        let off_us = offset as usize;
        let len_us = len as usize;
        if out_of_range {
            let r = self.write_fragmented(src, off_us, len_us, 1);
            proof {
                assert(final(self)@ =~= old(self)@ + crate::wire::enc_string(
                    lower_bound_size,
                    upper_bound_size,
                    extensible,
                    v,
                    1,
                ));
            }
            return r;
        }
        let bounds_equal = match (lower_bound_size, upper_bound_size) {
            (Some(a), Some(b)) => a == b,
            (None, None) => true,
            _ => false,
        };
        proof {
            assert(bounds_equal == (lower_bound_size == upper_bound_size));
        }
        if ubu == 0 {
            let n = self.bit_len();
            self.set_len(n);
            proof {
                assert(v =~= Seq::<bool>::empty());
                assert(final(self)@ =~= old(self)@ + crate::wire::enc_string(
                    lower_bound_size,
                    upper_bound_size,
                    extensible,
                    v,
                    1,
                ));
            }
            return Ok(());
        }
        if lower_bound_size.is_some() && bounds_equal && ubu < LENGTH_64K {
            let r = self.write_bits_with_offset_len(src, off_us, len_us);
            proof {
                assert(final(self)@ =~= old(self)@ + crate::wire::enc_string(
                    lower_bound_size,
                    upper_bound_size,
                    extensible,
                    v,
                    1,
                ));
            }
            return r;
        }
        if lower_bound_size.is_none() && upper_bound_size.is_none() {
            let r = self.write_fragmented(src, off_us, len_us, 1);
            proof {
                assert(final(self)@ =~= old(self)@ + crate::wire::enc_string(
                    lower_bound_size,
                    upper_bound_size,
                    extensible,
                    v,
                    1,
                ));
            }
            return r;
        }
        proof {
            crate::wire::lemma_enc_len_det_len(lower_bound_size, upper_bound_size, len);
        }
        let _ = self.write_length_determinant(lower_bound_size, upper_bound_size, len);
        let r = self.write_bits_with_offset_len(src, off_us, len_us);
        proof {
            assert(final(self)@ =~= old(self)@ + crate::wire::enc_string(
                lower_bound_size,
                upper_bound_size,
                extensible,
                v,
                1,
            ));
        }
        r
    }

    /// Chapter 17: write an octet string. A length outside a non-extensible
    /// size constraint is refused with `SizeNotInRange`.
    pub fn write_octetstring(
        &mut self,
        lower_bound_size: Option<u64>,
        upper_bound_size: Option<u64>,
        extensible: bool,
        src: &[u8],
    ) -> (r: Result<(), Error>)
        requires
            old(self).wf(),
            8 * src@.len() <= usize::MAX,
            old(self)@.len() + 16 * src@.len() + 200 <= usize::MAX,
            ({
                let lbu = bound_or(lower_bound_size, 0);
                let ubu = bound_or(upper_bound_size, i64::MAX as u64);
                let length = src@.len();
                lbu <= length <= ubu ==> ((lower_bound_size is Some || upper_bound_size is Some)
                    && ubu >= LENGTH_64K && lower_bound_size != upper_bound_size ==> lbu + lbu
                    <= length && length - lbu <= ubu)
            }),
        ensures
            final(self).wf(),
            final(self).rpos() == old(self).rpos(),
            ({
                let lbu = bound_or(lower_bound_size, 0);
                let ubu = bound_or(upper_bound_size, i64::MAX as u64);
                let length = src@.len();
                if (length < lbu || length > ubu) && !extensible {
                    r == Err::<(), Error>(Error::SizeNotInRange(length as u64, lbu, ubu))
                        && *final(self) == *old(self)
                } else {
                    r is Ok && final(self)@ == old(self)@ + crate::wire::enc_string(
                        lower_bound_size,
                        upper_bound_size,
                        extensible,
                        bytes_bits(src@),
                        8,
                    ) && final(self).vlen() == final(self)@.len()
                }
            }),
    {
        let lbu = match lower_bound_size {
            Some(l) => l,
            None => 0,
        };
        let ubu = match upper_bound_size {
            Some(u) => u,
            None => 0x7fff_ffff_ffff_ffffu64,
        };
        let length = src.len() as u64;
        let ghost v = bytes_bits(src@);
        proof {
            assert(v.len() == 8 * src@.len());
            assert(v.len() % 8 == 0 && v.len() / 8 == src@.len());
            assert(v.subrange(0, v.len() as int) =~= v);
        }
        let out_of_range = length < lbu || length > ubu;
        if out_of_range && !extensible {
            return Err(Error::SizeNotInRange(length, lbu, ubu));
        }
        if extensible {
            let _ = self.write_bit(out_of_range);
        }
        let bit_count = 8 * src.len();
        if out_of_range {
            let r = self.write_fragmented(src, 0, bit_count, 8);
            proof {
                assert(final(self)@ =~= old(self)@ + crate::wire::enc_string(
                    lower_bound_size,
                    upper_bound_size,
                    extensible,
                    v,
                    8,
                ));
            }
            return r;
        }
        let bounds_equal = match (lower_bound_size, upper_bound_size) {
            (Some(a), Some(b)) => a == b,
            (None, None) => true,
            _ => false,
        };
        proof {
            assert(bounds_equal == (lower_bound_size == upper_bound_size));
        }
        if ubu == 0 {
            let n = self.bit_len();
            self.set_len(n);
            proof {
                assert(v =~= Seq::<bool>::empty());
                assert(final(self)@ =~= old(self)@ + crate::wire::enc_string(
                    lower_bound_size,
                    upper_bound_size,
                    extensible,
                    v,
                    8,
                ));
            }
            return Ok(());
        }
        if lower_bound_size.is_some() && bounds_equal && ubu < LENGTH_64K {
            let r = self.write_bits(src);
            proof {
                assert(final(self)@ =~= old(self)@ + crate::wire::enc_string(
                    lower_bound_size,
                    upper_bound_size,
                    extensible,
                    v,
                    8,
                ));
            }
            return r;
        }
        if lower_bound_size.is_none() && upper_bound_size.is_none() {
            let r = self.write_fragmented(src, 0, bit_count, 8);
            proof {
                assert(final(self)@ =~= old(self)@ + crate::wire::enc_string(
                    lower_bound_size,
                    upper_bound_size,
                    extensible,
                    v,
                    8,
                ));
            }
            return r;
        }
        proof {
            crate::wire::lemma_enc_len_det_len(lower_bound_size, upper_bound_size, length);
        }
        let _ = self.write_length_determinant(lower_bound_size, upper_bound_size, length);
        let r = self.write_bits(src);
        proof {
            assert(final(self)@ =~= old(self)@ + crate::wire::enc_string(
                lower_bound_size,
                upper_bound_size,
                extensible,
                v,
                8,
            ));
        }
        r
    }

    /// Chapter 16: read a bit string; the bytes holding the bits and the
    /// bit count are returned, trailing bits of the last byte zero.
    pub fn read_bitstring(
        &mut self,
        lower_bound_size: Option<u64>,
        upper_bound_size: Option<u64>,
        extensible: bool,
    ) -> (r: Result<(Vec<u8>, u64), Error>)
        requires
            old(self).wf(),
            old(self)@.len() + 8 <= usize::MAX,
        ensures
            final(self).wf(),
            final(self)@ == old(self)@,
            final(self).vlen() == old(self).vlen(),
            match crate::wire::sdec_string(
                old(self).readable(),
                old(self).rpos(),
                lower_bound_size,
                upper_bound_size,
                extensible,
                1,
            ) {
                Ok((bits, p)) => match r {
                    Ok((buf, blen)) => blen == bits.len() && buf@.len() == (bits.len() + 7) / 8
                        && final(self).rpos() == p && (forall|t: int|
                        0 <= t < 8 * buf@.len() ==> bytes_bits(buf@)[t] == (if t < bits.len() {
                            bits[t]
                        } else {
                            false
                        })),
                    Err(_) => false,
                },
                Err(e) => r == Err::<(Vec<u8>, u64), Error>(e)
                    && old(self).rpos() <= final(self).rpos() <= final(self).vlen(),
            },
    {
        self.read_string_units(lower_bound_size, upper_bound_size, extensible, 1)
    }

    /// Chapter 17: read an octet string.
    pub fn read_octetstring(
        &mut self,
        lower_bound_size: Option<u64>,
        upper_bound_size: Option<u64>,
        extensible: bool,
    ) -> (r: Result<Vec<u8>, Error>)
        requires
            old(self).wf(),
            old(self)@.len() + 8 <= usize::MAX,
        ensures
            final(self).wf(),
            final(self)@ == old(self)@,
            final(self).vlen() == old(self).vlen(),
            match crate::wire::sdec_string(
                old(self).readable(),
                old(self).rpos(),
                lower_bound_size,
                upper_bound_size,
                extensible,
                8,
            ) {
                Ok((bits, p)) => match r {
                    Ok(buf) => 8 * buf@.len() == bits.len() && bytes_bits(buf@) == bits
                        && final(self).rpos() == p,
                    Err(_) => false,
                },
                Err(e) => r == Err::<Vec<u8>, Error>(e)
                    && old(self).rpos() <= final(self).rpos() <= final(self).vlen(),
            },
    {
        let ghost s = self.readable();
        let ghost p0 = self.rpos();
        match self.read_string_units(lower_bound_size, upper_bound_size, extensible, 8) {
            Ok((buf, _n)) => {
                proof {
                    match crate::wire::sdec_string(s, p0, lower_bound_size, upper_bound_size,
                        extensible, 8) {
                        Ok((bits, _p)) => {
                            lemma_sdec_string_units(s, p0, lower_bound_size, upper_bound_size,
                                extensible);
                            assert(buf@.len() == bits.len() / 8);
                            assert(8 * buf@.len() == bits.len());
                            assert(bytes_bits(buf@) =~= bits);
                        },
                        Err(_) => {},
                    }
                }
                Ok(buf)
            },
            Err(e) => Err(e),
        }
    }

    /// The shared reader of chapters 16 and 17: an extension bit where the
    /// type is extensible, then one of the length forms, then the payload.
    fn read_string_units(
        &mut self,
        lower_bound_size: Option<u64>,
        upper_bound_size: Option<u64>,
        extensible: bool,
        unit: usize,
    ) -> (r: Result<(Vec<u8>, u64), Error>)
        requires
            old(self).wf(),
            unit == 1 || unit == 8,
            old(self)@.len() + 8 <= usize::MAX,
        ensures
            final(self).wf(),
            final(self)@ == old(self)@,
            final(self).vlen() == old(self).vlen(),
            match crate::wire::sdec_string(
                old(self).readable(),
                old(self).rpos(),
                lower_bound_size,
                upper_bound_size,
                extensible,
                unit as nat,
            ) {
                Ok((bits, p)) => match r {
                    Ok((buf, n)) => n as nat == bits.len() / (unit as nat) && buf@.len() == (
                    bits.len() + 7) / 8 && final(self).rpos() == p && (forall|t: int|
                        0 <= t < 8 * buf@.len() ==> bytes_bits(buf@)[t] == (if t < bits.len() {
                            bits[t]
                        } else {
                            false
                        })),
                    Err(_) => false,
                },
                Err(e) => r == Err::<(Vec<u8>, u64), Error>(e)
                    && old(self).rpos() <= final(self).rpos() <= final(self).vlen(),
            },
    {
        if extensible {
            let is_extension = match self.read_bit() {
                Ok(b) => b,
                Err(e) => {
                    return Err(e);
                },
            };
            if is_extension {
                return self.read_fragmented(unit);
            }
        }
        self.read_string_root(lower_bound_size, upper_bound_size, unit)
    }

    /// The length-and-body part of chapters 16 and 17, after any extension
    /// bit, for an in-range length.
    #[verifier::rlimit(100)]
    fn read_string_root(
        &mut self,
        lower_bound_size: Option<u64>,
        upper_bound_size: Option<u64>,
        unit: usize,
    ) -> (r: Result<(Vec<u8>, u64), Error>)
        requires
            old(self).wf(),
            unit == 1 || unit == 8,
            old(self)@.len() + 8 <= usize::MAX,
        ensures
            final(self).wf(),
            final(self)@ == old(self)@,
            final(self).vlen() == old(self).vlen(),
            match crate::wire::sdec_string_root(
                old(self).readable(),
                old(self).rpos(),
                lower_bound_size,
                upper_bound_size,
                unit as nat,
            ) {
                Ok((bits, p)) => match r {
                    Ok((buf, n)) => n as nat == bits.len() / (unit as nat) && buf@.len() == (
                    bits.len() + 7) / 8 && final(self).rpos() == p && (forall|t: int|
                        0 <= t < 8 * buf@.len() ==> bytes_bits(buf@)[t] == (if t < bits.len() {
                            bits[t]
                        } else {
                            false
                        })),
                    Err(_) => false,
                },
                Err(e) => r == Err::<(Vec<u8>, u64), Error>(e)
                    && old(self).rpos() <= final(self).rpos() <= final(self).vlen(),
            },
    {
        proof {
            lemma2_to64();
            lemma2_to64_rest();
        }
        let ubu = match upper_bound_size {
            Some(u) => u,
            None => 0x7fff_ffff_ffff_ffffu64,
        };
        let bounds_equal = match (lower_bound_size, upper_bound_size) {
            (Some(a), Some(b)) => a == b,
            (None, None) => true,
            _ => false,
        };
        proof {
            assert(bounds_equal == (lower_bound_size == upper_bound_size));
        }
        if ubu == 0 {
            return Ok((Vec::new(), 0));
        }
        if lower_bound_size.is_some() && bounds_equal && ubu < LENGTH_64K {
            let n_units = ubu as usize;
            proof {
                assert(n_units * unit <= 65536 * 8) by (nonlinear_arith)
                    requires n_units < 65536 && unit <= 8;
            }
            let bit_count = n_units * unit;
            let mut buf = zero_bytes((bit_count + 7) / 8);
            proof {
                lemma_zero_buffer_bits(buf@);
            }
            match self.read_bits_with_len(&mut buf, bit_count) {
                Ok(()) => {
                    proof {
                        assert(ubu as nat == (n_units * unit) as nat / (unit as nat)) by (
                        nonlinear_arith)
                            requires n_units == ubu && unit >= 1 && n_units < 65536;
                    }
                    return Ok((buf, ubu));
                },
                Err(e) => {
                    return Err(e);
                },
            }
        }
        if lower_bound_size.is_none() && upper_bound_size.is_none() {
            return self.read_fragmented(unit);
        }
        let l = match self.read_length_determinant(lower_bound_size, upper_bound_size) {
            Ok(l) => l,
            Err(e) => {
                return Err(e);
            },
        };
        let rem = self.remaining();
        let q = rem / unit;
        proof {
            assert(q * unit <= rem && rem < q * unit + unit) by (nonlinear_arith)
                requires q == rem / unit && unit >= 1 && rem >= 0;
            if l > q as u64 {
                assert((l as int) * (unit as int) > rem) by (nonlinear_arith)
                    requires l as int >= q + 1 && unit >= 1 && q * unit + unit > rem;
            }
        }
        if l > q as u64 {
            return Err(Error::EndOfStream);
        }
        let l_us = l as usize;
        proof {
            assert(l_us * unit <= rem) by (nonlinear_arith)
                requires l_us <= rem / unit && unit >= 1 && rem >= 0;
        }
        let bit_count = l_us * unit;
        let mut buf = zero_bytes((bit_count + 7) / 8);
        proof {
            lemma_zero_buffer_bits(buf@);
            assert(l as nat == (l_us * unit) as nat / (unit as nat)) by (nonlinear_arith)
                requires l_us == l && unit >= 1;
        }
        match self.read_bits_with_len(&mut buf, bit_count) {
            Ok(()) => Ok((buf, l)),
            Err(e) => Err(e),
        }
    }
}

/// A buffer of zero bytes has no set bits.
proof fn lemma_zero_buffer_bits(b: Seq<u8>)
    requires
        forall|i: int| 0 <= i < b.len() ==> b[i] == 0u8,
    ensures
        forall|t: int| 0 <= t < 8 * b.len() ==> !bytes_bits(b)[t],
{
    assert forall|t: int| 0 <= t < 8 * b.len() implies !bytes_bits(b)[t] by {
        lemma_byte_bits_zero();
        assert(bytes_bits(b)[t] == crate::bits::byte_bits(b[t / 8])[t % 8]);
    }
}

/// Whole units: the bits of a decoded string are a multiple of the unit.
#[verifier::rlimit(100)]
proof fn lemma_sdec_string_units(
    s: Seq<bool>,
    pos: int,
    lb: Option<u64>,
    ub: Option<u64>,
    extensible: bool,
)
    ensures
        crate::wire::sdec_string(s, pos, lb, ub, extensible, 8) matches Ok(x) ==> x.0.len() % 8
            == 0,
{
    crate::wire::lemma_sdec_fragmented_units(s, pos, 8);
    crate::wire::lemma_sdec_fragmented_units(s, pos + 1, 8);
}

/// The zero byte has no set bits.
proof fn lemma_byte_bits_zero()
    ensures
        crate::bits::byte_bits(0u8).len() == 8,
        forall|k: int| 0 <= k < 8 ==> !crate::bits::byte_bits(0u8)[k],
{
    lemma_nat_to_bits_len(0, 8);
    assert forall|k: int| 0 <= k < 8 implies !crate::bits::byte_bits(0u8)[k] by {
        lemma_nat_to_bits_index(0, 8, k);
        lemma_pow2_pos((8 - 1 - k) as nat);
    }
}

/// A vector of `n` zero bytes.
fn zero_bytes(n: usize) -> (r: Vec<u8>)
    ensures
        r@.len() == n,
        forall|i: int| 0 <= i < n ==> r@[i] == 0u8,
{
    let mut r: Vec<u8> = Vec::new();
    let mut i: usize = 0;
    while i < n
        invariant
            i <= n,
            r@.len() == i,
            forall|j: int| 0 <= j < i ==> r@[j] == 0u8,
        decreases n - i,
    {
        r.push(0u8);
        i = i + 1;
    }
    r
}

/// Append `n` zero bytes to `dst`.
fn push_zero_bytes(dst: &mut Vec<u8>, n: usize) -> (r: ())
    requires
        old(dst)@.len() + n <= usize::MAX,
    ensures
        final(dst)@.len() == old(dst)@.len() + n,
        forall|i: int| 0 <= i < old(dst)@.len() ==> final(dst)@[i] == old(dst)@[i],
        forall|i: int| old(dst)@.len() <= i < final(dst)@.len() ==> final(dst)@[i] == 0u8,
{
    let mut i: usize = 0;
    while i < n
        invariant
            i <= n,
            dst@.len() == old(dst)@.len() + i,
            forall|j: int| 0 <= j < old(dst)@.len() ==> dst@[j] == old(dst)@[j],
            forall|j: int| old(dst)@.len() <= j < dst@.len() ==> dst@[j] == 0u8,
        decreases n - i,
    {
        dst.push(0u8);
        i = i + 1;
    }
}

/// The difference of two signed machine words that fits an unsigned one.
fn i64_sub_as_u64(a: i64, b: i64) -> (r: u64)
    requires
        b <= a,
    ensures
        r as int == a - b,
{
    if b >= 0 {
        (a - b) as u64
    } else {
        let nb1 = -(b + 1);
        if a >= 0 {
            (a as u64) + (nb1 as u64) + 1
        } else {
            let na1 = -(a + 1);
            (nb1 as u64) - (na1 as u64)
        }
    }
}

/// Adding an already-wrapped term wraps the same as adding the term.
proof fn lemma_wrap_parts(a: int, b: int)
    ensures
        wrap_i64(a + wrap_i64(b)) == wrap_i64(a + b),
{
    lemma2_to64();
    lemma2_to64_rest();
    lemma_pow2_adds(63, 1);
    let p = pow2(64) as int;
    let k = (b + pow2(63)) / p;
    assert(wrap_i64(b) == b - k * p) by {
        vstd::arithmetic::div_mod::lemma_fundamental_div_mod(b + pow2(63), p);
    }
    assert((a + (b - k * p) + pow2(63)) % p == (a + b + pow2(63)) % p) by {
        vstd::arithmetic::div_mod::lemma_mod_multiples_vanish(
            -k,
            a + b + pow2(63) as int,
            p,
        );
        assert(a + (b - k * p) + pow2(63) == (-k) * p + (a + b + pow2(63))) by (nonlinear_arith);
    }
}

} // verus!
