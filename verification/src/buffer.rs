//! A bit-addressable buffer with independent read and write positions.
//!
//! The buffer is the single transport under the codec: every write appends
//! bits at the end of the stream, every read consumes bits before the
//! visible length. Byte order on the way in and out is big-endian within a
//! byte, most significant bit first.

use crate::bits::{
    bit_val, bits_to_nat, byte_bits, bytes_bits, lemma_bits_of_nat_inverse, lemma_bits_to_nat_bound,
    lemma_nat_of_bits_inverse, lemma_nat_to_bits_index, lemma_nat_to_bits_len, nat_to_bits,
};
use crate::error::Error;
use vstd::arithmetic::power2::{lemma2_to64, pow2};
use vstd::prelude::*;

verus! {

/// A power of two small enough for one byte, `pow2(7 - k)`: the weight of
/// bit `k` in a byte, bit 0 being the most significant.
fn bit_weight(k: usize) -> (r: u8)
    requires
        k < 8,
    ensures
        r as nat == pow2((7 - k) as nat),
{
    proof {
        lemma2_to64();
    }
    if k == 0 {
        128
    } else if k == 1 {
        64
    } else if k == 2 {
        32
    } else if k == 3 {
        16
    } else if k == 4 {
        8
    } else if k == 5 {
        4
    } else if k == 6 {
        2
    } else {
        1
    }
}

/// Bit `k` of a byte, most significant first.
fn get_bit_in_byte(b: u8, k: usize) -> (r: bool)
    requires
        k < 8,
    ensures
        r == byte_bits(b)[k as int],
{
    proof {
        lemma_nat_to_bits_index(b as nat, 8, k as int);
        lemma_nat_to_bits_len(b as nat, 8);
        vstd::arithmetic::power2::lemma_pow2_pos((7 - k) as nat);
    }
    let w = bit_weight(k);
    (b / w) % 2 == 1
}

/// Updating one bit of a sequence changes the denoted value by that bit's
/// weight.
#[verifier::spinoff_prover]
proof fn lemma_btn_update(s: Seq<bool>, k: int, v: bool)
    requires
        0 <= k < s.len(),
    ensures
        bits_to_nat(s.update(k, v)) == bits_to_nat(s) - bit_val(s[k]) * pow2((s.len() - 1 - k) as nat)
            + bit_val(v) * pow2((s.len() - 1 - k) as nat),
    decreases s.len(),
{
    if k == s.len() - 1 {
        assert(s.update(k, v).drop_last() =~= s.drop_last());
        assert(s.update(k, v).last() == v);
        lemma2_to64();
        assert(pow2(0) == 1);
    } else {
        lemma_btn_update(s.drop_last(), k, v);
        assert(s.update(k, v).drop_last() =~= s.drop_last().update(k, v));
        assert(s.update(k, v).last() == s.last());
        let p = pow2((s.len() - 2 - k) as nat);
        vstd::arithmetic::power2::lemma_pow2_adds((s.len() - 2 - k) as nat, 1);
        lemma2_to64();
        let a = bits_to_nat(s.drop_last());
        let b = bits_to_nat(s.drop_last().update(k, v));
        assert(b == a - bit_val(s[k]) * p + bit_val(v) * p);
        assert(bits_to_nat(s.update(k, v)) == b * 2 + bit_val(s.last()));
        assert((a - bit_val(s[k]) * p + bit_val(v) * p) * 2 == a * 2 - bit_val(s[k]) * (p * 2)
            + bit_val(v) * (p * 2)) by (nonlinear_arith);
        assert(pow2((s.len() - 1 - k) as nat) == p * 2);
    }
}

/// A byte with bit `k` set to `want` and every other bit kept.
fn set_bit_in_byte(b: u8, k: usize, want: bool) -> (r: u8)
    requires
        k < 8,
    ensures
        byte_bits(r) == byte_bits(b).update(k as int, want),
{
    proof {
        lemma2_to64();
        lemma_nat_to_bits_len(b as nat, 8);
        lemma_nat_to_bits_index(b as nat, 8, k as int);
        lemma_btn_update(byte_bits(b), k as int, want);
        lemma_bits_of_nat_inverse(b as nat, 8);
        lemma_bits_to_nat_bound(byte_bits(b).update(k as int, want));
    }
    let cur = get_bit_in_byte(b, k);
    let w = bit_weight(k);
    proof {
        lemma2_to64();
        assert(byte_bits(b).len() == 8);
        assert(byte_bits(b)[k as int] == cur);
        assert(bits_to_nat(byte_bits(b)) == b as nat);
        let p = pow2((7 - k) as nat);
        if cur && !want {
            assert(bits_to_nat(byte_bits(b).update(k as int, want)) == b as nat - bit_val(
                byte_bits(b)[k as int],
            ) * p + bit_val(want) * p);
            assert(bit_val(byte_bits(b)[k as int]) == 1);
            assert(bit_val(want) == 0);
            assert(b as nat - 1 * p + 0 * p == b as nat - p) by (nonlinear_arith);
            assert(bits_to_nat(byte_bits(b).update(k as int, want)) == b - p);
            assert(b as nat >= p);
        }
        if !cur && want {
            assert(bits_to_nat(byte_bits(b).update(k as int, want)) == b as nat - bit_val(
                byte_bits(b)[k as int],
            ) * p + bit_val(want) * p);
            assert(bit_val(byte_bits(b)[k as int]) == 0);
            assert(bit_val(want) == 1);
            assert(bits_to_nat(byte_bits(b).update(k as int, want)) == b as nat - 0 * p + 1 * p);
            assert(b as nat - 0 * p + 1 * p == b as nat + p) by (nonlinear_arith);
            assert(bits_to_nat(byte_bits(b).update(k as int, want)) == b + p);
            assert(b as nat + p < 256);
        }
    }
    let r: u8 = if want && !cur {
        b + w
    } else if !want && cur {
        b - w
    } else {
        b
    };
    proof {
        assert(r as nat == bits_to_nat(byte_bits(b).update(k as int, want)));
        lemma_nat_of_bits_inverse(byte_bits(b).update(k as int, want));
    }
    r
}

/// An ordered sequence of bits with a write end, a visible end for readers,
/// and a read position.
///
/// Invariant: `read_pos <= visible_len <= ` the number of bits written.
pub struct BitBuffer {
    bits: Vec<bool>,
    read_pos: usize,
    visible_len: usize,
}

impl View for BitBuffer {
    type V = Seq<bool>;

    /// The bits written so far, in order.
    closed spec fn view(&self) -> Seq<bool> {
        self.bits@
    }
}

impl BitBuffer {
    /// Well-formedness: the read position never passes the visible length,
    /// which never passes the write end.
    pub closed spec fn wf(&self) -> bool {
        self.read_pos <= self.visible_len <= self.bits@.len()
    }

    /// The read position, in bits from the start.
    pub closed spec fn rpos(&self) -> int {
        self.read_pos as int
    }

    /// The visible length, in bits: reads stop here.
    pub closed spec fn vlen(&self) -> int {
        self.visible_len as int
    }

    /// The bits a reader may consume.
    pub open spec fn readable(&self) -> Seq<bool> {
        self@.take(self.vlen())
    }

    /// What well-formedness guarantees about the positions.
    pub broadcast proof fn lemma_wf_bounds(b: &BitBuffer)
        ensures
            #[trigger] b.wf() ==> 0 <= b.rpos() <= b.vlen() <= b@.len() && b.readable().len()
                == b.vlen(),
    {
    }

    /// An empty buffer.
    pub fn new() -> (r: BitBuffer)
        ensures
            r.wf(),
            r@ == Seq::<bool>::empty(),
            r.rpos() == 0,
            r.vlen() == 0,
    {
        BitBuffer { bits: Vec::new(), read_pos: 0, visible_len: 0 }
    }

    /// A buffer holding the first `bit_len` bits of `bytes`, visible and
    /// positioned for reading from the start.
    pub fn from_bytes(bytes: &[u8], bit_len: usize) -> (r: BitBuffer)
        requires
            bit_len <= 8 * bytes@.len(),
        ensures
            r.wf(),
            r@ == bytes_bits(bytes@).take(bit_len as int),
            r.rpos() == 0,
            r.vlen() == bit_len,
    {
        let mut bits: Vec<bool> = Vec::new();
        let mut i: usize = 0;
        while i < bit_len
            invariant
                i <= bit_len <= 8 * bytes@.len(),
                bits@ =~= bytes_bits(bytes@).take(i as int),
            decreases bit_len - i,
        {
            let b = get_bit_in_byte(bytes[i / 8], i % 8);
            proof {
                assert(bytes_bits(bytes@)[i as int] == byte_bits(bytes@[i as int / 8])[i as int
                    % 8]);
            }
            bits.push(b);
            i = i + 1;
        }
        BitBuffer { bits, read_pos: 0, visible_len: bit_len }
    }

    /// The number of bits written.
    pub fn bit_len(&self) -> (r: usize)
        ensures
            r == self@.len(),
    {
        self.bits.len()
    }

    /// The written bits packed into bytes, most significant bit first;
    /// trailing bits of the last byte are zero.
    pub fn into_bytes_vec(&self) -> (r: Vec<u8>)
        ensures
            r@.len() == (self@.len() + 7) / 8,
            forall|i: int|
                0 <= i < 8 * r@.len() ==> bytes_bits(r@)[i] == if i < self@.len() {
                    self@[i]
                } else {
                    false
                },
    {
        let n = self.bits.len();
        let byte_count = n / 8 + if n % 8 == 0 {
            0usize
        } else {
            1usize
        };
        let mut out: Vec<u8> = Vec::new();
        let mut j: usize = 0;
        while j < byte_count
            invariant
                j <= byte_count,
                n == self@.len(),
                byte_count == (n + 7) / 8,
                byte_count <= usize::MAX / 8 + 1,
                out@.len() == j,
                forall|i: int|
                    0 <= i < 8 * j ==> bytes_bits(out@)[i] == if i < n {
                        self@[i]
                    } else {
                        false
                    },
            decreases byte_count - j,
        {
            let ghost prev = out@;
            let mut acc: u8 = 0;
            let mut k: usize = 0;
            let ghost target = Seq::new(
                8,
                |t: int|
                    if 8 * j + t < n {
                        self@[8 * j + t]
                    } else {
                        false
                    },
            );
            while k < 8
                invariant
                    k <= 8,
                    j < byte_count,
                    n == self@.len(),
                    byte_count == (n + 7) / 8,
                    target == Seq::new(
                        8,
                        |t: int|
                            if 8 * j + t < n {
                                self@[8 * j + t]
                            } else {
                                false
                            },
                    ),
                    acc as nat == bits_to_nat(target.take(k as int)),
                decreases 8 - k,
            {
                let bit = if 8 * j + k < n {
                    self.bits[8 * j + k]
                } else {
                    false
                };
                proof {
                    assert(target.take(k + 1).drop_last() =~= target.take(k as int));
                    assert(target.take(k + 1).last() == target[k as int]);
                    lemma_bits_to_nat_bound(target.take(k + 1));
                    lemma2_to64();
                    assert(pow2(8) == 256);
                    if k + 1 < 8 {
                        vstd::arithmetic::power2::lemma_pow2_strictly_increases((k + 1) as nat, 8);
                    }
                }
                acc = acc * 2 + if bit {
                    1
                } else {
                    0
                };
                k = k + 1;
            }
            proof {
                assert(target.take(8) =~= target);
                assert(acc as nat == bits_to_nat(target));
                lemma_nat_of_bits_inverse(target);
                assert(byte_bits(acc) == target);
            }
            out.push(acc);
            proof {
                assert forall|i: int| 0 <= i < 8 * (j + 1) implies bytes_bits(out@)[i] == (if i < n {
                    self@[i]
                } else {
                    false
                }) by {
                    assert(out@[i / 8] == if i / 8 < j {
                        prev[i / 8]
                    } else {
                        acc
                    });
                    if i < 8 * j {
                        assert(bytes_bits(out@)[i] == byte_bits(prev[i / 8])[i % 8]);
                        assert(bytes_bits(prev)[i] == byte_bits(prev[i / 8])[i % 8]);
                    } else {
                        assert(i / 8 == j && i % 8 == i - 8 * j);
                        assert(byte_bits(acc)[i % 8] == target[i - 8 * j]);
                    }
                }
            }
            j = j + 1;
        }
        proof {
            assert(out@.len() == (self@.len() + 7) / 8);
        }
        out
    }

    /// Append one bit at the write end; the new bit becomes visible.
    pub fn write_bit(&mut self, bit: bool) -> (r: Result<(), Error>)
        requires
            old(self).wf(),
            old(self)@.len() + 1 <= usize::MAX,
        ensures
            final(self).wf(),
            r is Ok,
            final(self)@ == old(self)@.push(bit),
            final(self).rpos() == old(self).rpos(),
            final(self).vlen() == final(self)@.len(),
    {
        self.bits.push(bit);
        self.visible_len = self.bits.len();
        Ok(())
    }

    /// Read one bit at the read position.
    /// Fails with `EndOfStream`, and consumes nothing, at the visible end.
    pub fn read_bit(&mut self) -> (r: Result<bool, Error>)
        requires
            old(self).wf(),
        ensures
            final(self).wf(),
            final(self)@ == old(self)@,
            final(self).vlen() == old(self).vlen(),
            old(self).rpos() < old(self).vlen() ==> r == Ok::<bool, Error>(
                old(self).readable()[old(self).rpos()],
            ) && final(self).rpos() == old(self).rpos() + 1,
            old(self).rpos() >= old(self).vlen() ==> r == Err::<bool, Error>(Error::EndOfStream)
                && final(self).rpos() == old(self).rpos(),
    {
        if self.read_pos < self.visible_len {
            let b = self.bits[self.read_pos];
            self.read_pos = self.read_pos + 1;
            Ok(b)
        } else {
            Err(Error::EndOfStream)
        }
    }

    /// Append `bit_len` bits of `src`, starting at bit `src_bit_offset`.
    pub fn write_bits_with_offset_len(
        &mut self,
        src: &[u8],
        src_bit_offset: usize,
        src_bit_len: usize,
    ) -> (r: Result<(), Error>)
        requires
            old(self).wf(),
            src_bit_offset + src_bit_len <= 8 * src@.len(),
            src_bit_offset + src_bit_len <= usize::MAX,
            old(self)@.len() + src_bit_len <= usize::MAX,
        ensures
            final(self).wf(),
            r is Ok,
            final(self)@ == old(self)@ + bytes_bits(src@).subrange(
                src_bit_offset as int,
                src_bit_offset + src_bit_len,
            ),
            final(self).rpos() == old(self).rpos(),
            final(self).vlen() == final(self)@.len(),
    {
        let mut i: usize = 0;
        while i < src_bit_len
            invariant
                i <= src_bit_len,
                src_bit_offset + src_bit_len <= 8 * src@.len(),
                src_bit_offset + src_bit_len <= usize::MAX,
                old(self)@.len() + src_bit_len <= usize::MAX,
                self.bits@ =~= old(self)@ + bytes_bits(src@).subrange(
                    src_bit_offset as int,
                    src_bit_offset + i,
                ),
                self.read_pos == old(self).read_pos,
                self.visible_len == old(self).visible_len,
            decreases src_bit_len - i,
        {
            let g = src_bit_offset + i;
            let b = get_bit_in_byte(src[g / 8], g % 8);
            proof {
                assert(bytes_bits(src@)[g as int] == byte_bits(src@[g as int / 8])[g as int % 8]);
            }
            self.bits.push(b);
            i = i + 1;
        }
        self.visible_len = self.bits.len();
        proof {
            assert(self.wf()) by {
                assert(old(self).read_pos <= old(self).visible_len <= self.bits@.len());
            }
        }
        Ok(())
    }

    /// Append all bits of `src`.
    pub fn write_bits(&mut self, src: &[u8]) -> (r: Result<(), Error>)
        requires
            old(self).wf(),
            8 * src@.len() <= usize::MAX,
            old(self)@.len() + 8 * src@.len() <= usize::MAX,
        ensures
            final(self).wf(),
            r is Ok,
            final(self)@ == old(self)@ + bytes_bits(src@),
            final(self).rpos() == old(self).rpos(),
            final(self).vlen() == final(self)@.len(),
    {
        let r = self.write_bits_with_offset_len(src, 0, 8 * src.len());
        proof {
            assert(bytes_bits(src@).subrange(0, 8 * src@.len() as int) =~= bytes_bits(src@));
        }
        r
    }

    /// Append the bits of `src` from bit `src_bit_offset` to the end.
    pub fn write_bits_with_offset(&mut self, src: &[u8], src_bit_offset: usize) -> (r: Result<
        (),
        Error,
    >)
        requires
            old(self).wf(),
            src_bit_offset <= 8 * src@.len(),
            8 * src@.len() <= usize::MAX,
            old(self)@.len() + 8 * src@.len() <= usize::MAX,
        ensures
            final(self).wf(),
            r is Ok,
            final(self)@ == old(self)@ + bytes_bits(src@).skip(src_bit_offset as int),
            final(self).rpos() == old(self).rpos(),
            final(self).vlen() == final(self)@.len(),
    {
        let r = self.write_bits_with_offset_len(src, src_bit_offset, 8 * src.len() - src_bit_offset);
        proof {
            assert(bytes_bits(src@).subrange(src_bit_offset as int, 8 * src@.len() as int)
                =~= bytes_bits(src@).skip(src_bit_offset as int));
        }
        r
    }

    /// Append the first `bit_len` bits of `src`.
    pub fn write_bits_with_len(&mut self, src: &[u8], bit_len: usize) -> (r: Result<(), Error>)
        requires
            old(self).wf(),
            bit_len <= 8 * src@.len(),
            old(self)@.len() + bit_len <= usize::MAX,
        ensures
            final(self).wf(),
            r is Ok,
            final(self)@ == old(self)@ + bytes_bits(src@).take(bit_len as int),
            final(self).rpos() == old(self).rpos(),
            final(self).vlen() == final(self)@.len(),
    {
        let r = self.write_bits_with_offset_len(src, 0, bit_len);
        proof {
            assert(bytes_bits(src@).subrange(0, bit_len as int) =~= bytes_bits(src@).take(
                bit_len as int,
            ));
        }
        r
    }

    /// Read `dst_bit_len` bits into `dst`, placing them from bit
    /// `dst_bit_offset` on and leaving every other bit of `dst` unchanged.
    /// Fails with `EndOfStream`, consuming nothing and leaving `dst`
    /// unchanged, when fewer bits are visible.
    pub fn read_bits_with_offset_len(
        &mut self,
        dst: &mut Vec<u8>,
        dst_bit_offset: usize,
        dst_bit_len: usize,
    ) -> (r: Result<(), Error>)
        requires
            old(self).wf(),
            dst_bit_offset + dst_bit_len <= 8 * old(dst)@.len(),
            dst_bit_offset + dst_bit_len <= usize::MAX,
        ensures
            final(self).wf(),
            final(self)@ == old(self)@,
            final(self).vlen() == old(self).vlen(),
            final(dst)@.len() == old(dst)@.len(),
            old(self).rpos() + dst_bit_len <= old(self).vlen() ==> {
                &&& r is Ok
                &&& final(self).rpos() == old(self).rpos() + dst_bit_len
                &&& forall|i: int|
                    0 <= i < 8 * final(dst)@.len() ==> bytes_bits(final(dst)@)[i] == if dst_bit_offset <= i
                        < dst_bit_offset + dst_bit_len {
                        old(self).readable()[old(self).rpos() + (i - dst_bit_offset)]
                    } else {
                        bytes_bits(old(dst)@)[i]
                    }
            },
            old(self).rpos() + dst_bit_len > old(self).vlen() ==> r == Err::<(), Error>(
                Error::EndOfStream,
            ) && final(self).rpos() == old(self).rpos() && final(dst)@ == old(dst)@,
    {
        if dst_bit_len > self.visible_len - self.read_pos {
            return Err(Error::EndOfStream);
        }
        let mut i: usize = 0;
        while i < dst_bit_len
            invariant
                i <= dst_bit_len,
                dst_bit_offset + dst_bit_len <= 8 * dst@.len(),
                dst_bit_offset + dst_bit_len <= usize::MAX,
                old(self).wf(),
                old(self).read_pos + dst_bit_len <= old(self).visible_len,
                self == old(self),
                dst@.len() == old(dst)@.len(),
                forall|t: int|
                    0 <= t < 8 * dst@.len() ==> bytes_bits(dst@)[t] == if dst_bit_offset <= t
                        < dst_bit_offset + i {
                        old(self).readable()[old(self).rpos() + (t - dst_bit_offset)]
                    } else {
                        bytes_bits(old(dst)@)[t]
                    },
            decreases dst_bit_len - i,
        {
            let g = dst_bit_offset + i;
            let bit = self.bits[self.read_pos + i];
            proof {
                assert(old(self).readable()[old(self).rpos() + i] == self.bits@[self.read_pos + i]);
            }
            let ghost dst_prev = dst@;
            let j = g / 8;
            let nb = set_bit_in_byte(dst[j], g % 8, bit);
            dst[j] = nb;
            proof {
                assert(dst@ == dst_prev.update(j as int, nb));
                assert forall|t: int| 0 <= t < 8 * dst@.len() implies bytes_bits(dst@)[t] == (
                if dst_bit_offset <= t < dst_bit_offset + i + 1 {
                    old(self).readable()[old(self).rpos() + (t - dst_bit_offset)]
                } else {
                    bytes_bits(old(dst)@)[t]
                }) by {
                    lemma_nat_to_bits_len(dst@[t / 8] as nat, 8);
                    lemma_nat_to_bits_len(dst_prev[t / 8] as nat, 8);
                    lemma_nat_to_bits_len(dst_prev[j as int] as nat, 8);
                    assert(bytes_bits(dst@)[t] == byte_bits(dst@[t / 8])[t % 8]);
                    assert(bytes_bits(dst_prev)[t] == byte_bits(dst_prev[t / 8])[t % 8]);
                    if t / 8 == j as int {
                        assert(byte_bits(dst@[t / 8]) == byte_bits(dst_prev[j as int]).update(
                            g as int % 8,
                            bit,
                        ));
                        assert(g as int / 8 == j as int && g as int % 8 == g - 8 * (j as int));
                        if t == g {
                            assert(t % 8 == g as int % 8);
                        } else {
                            assert(t % 8 != g as int % 8) by {
                                assert(t == 8 * (t / 8) + t % 8 && g == 8 * (g as int / 8) + g as int
                                    % 8);
                            }
                        }
                    }
                }
            }
            i = i + 1;
        }
        self.read_pos = self.read_pos + dst_bit_len;
        Ok(())
    }

    /// Read `8 * len(dst)` bits into `dst`.
    pub fn read_bits(&mut self, dst: &mut Vec<u8>) -> (r: Result<(), Error>)
        requires
            old(self).wf(),
            8 * old(dst)@.len() <= usize::MAX,
        ensures
            final(self).wf(),
            final(self)@ == old(self)@,
            final(self).vlen() == old(self).vlen(),
            final(dst)@.len() == old(dst)@.len(),
            old(self).rpos() + 8 * old(dst)@.len() <= old(self).vlen() ==> {
                &&& r is Ok
                &&& final(self).rpos() == old(self).rpos() + 8 * old(dst)@.len()
                &&& bytes_bits(final(dst)@) == old(self).readable().subrange(
                    old(self).rpos(),
                    old(self).rpos() + 8 * final(dst)@.len(),
                )
            },
            old(self).rpos() + 8 * old(dst)@.len() > old(self).vlen() ==> r == Err::<(), Error>(
                Error::EndOfStream,
            ) && final(self).rpos() == old(self).rpos() && final(dst)@ == old(dst)@,
    {
        let n = dst.len();
        let r = self.read_bits_with_offset_len(dst, 0, 8 * n);
        proof {
            if old(self).rpos() + 8 * old(dst)@.len() <= old(self).vlen() {
                assert(bytes_bits(dst@) =~= old(self).readable().subrange(
                    old(self).rpos(),
                    old(self).rpos() + 8 * dst@.len(),
                ));
            }
        }
        r
    }

    /// Read `8 * len(dst) - dst_bit_offset` bits into `dst`, placing them
    /// from bit `dst_bit_offset` on.
    pub fn read_bits_with_offset(&mut self, dst: &mut Vec<u8>, dst_bit_offset: usize) -> (r: Result<
        (),
        Error,
    >)
        requires
            old(self).wf(),
            dst_bit_offset <= 8 * old(dst)@.len(),
            8 * old(dst)@.len() <= usize::MAX,
        ensures
            final(self).wf(),
            final(self)@ == old(self)@,
            final(self).vlen() == old(self).vlen(),
            final(dst)@.len() == old(dst)@.len(),
            old(self).rpos() + (8 * old(dst)@.len() - dst_bit_offset) <= old(self).vlen() ==> {
                &&& r is Ok
                &&& final(self).rpos() == old(self).rpos() + (8 * old(dst)@.len() - dst_bit_offset)
                &&& forall|i: int|
                    0 <= i < 8 * final(dst)@.len() ==> bytes_bits(final(dst)@)[i] == if dst_bit_offset <= i {
                        old(self).readable()[old(self).rpos() + (i - dst_bit_offset)]
                    } else {
                        bytes_bits(old(dst)@)[i]
                    }
            },
            old(self).rpos() + (8 * old(dst)@.len() - dst_bit_offset) > old(self).vlen() ==> r
                == Err::<(), Error>(Error::EndOfStream) && final(self).rpos() == old(self).rpos() && final(dst)@
                == old(dst)@,
    {
        let n = dst.len();
        self.read_bits_with_offset_len(dst, dst_bit_offset, 8 * n - dst_bit_offset)
    }

    /// Read `dst_bit_len` bits into `dst` from its start; the remaining
    /// bits of `dst` are left unchanged.
    pub fn read_bits_with_len(&mut self, dst: &mut Vec<u8>, dst_bit_len: usize) -> (r: Result<
        (),
        Error,
    >)
        requires
            old(self).wf(),
            dst_bit_len <= 8 * old(dst)@.len(),
        ensures
            final(self).wf(),
            final(self)@ == old(self)@,
            final(self).vlen() == old(self).vlen(),
            final(dst)@.len() == old(dst)@.len(),
            old(self).rpos() + dst_bit_len <= old(self).vlen() ==> {
                &&& r is Ok
                &&& final(self).rpos() == old(self).rpos() + dst_bit_len
                &&& forall|i: int|
                    0 <= i < 8 * final(dst)@.len() ==> bytes_bits(final(dst)@)[i] == if i < dst_bit_len {
                        old(self).readable()[old(self).rpos() + i]
                    } else {
                        bytes_bits(old(dst)@)[i]
                    }
            },
            old(self).rpos() + dst_bit_len > old(self).vlen() ==> r == Err::<(), Error>(
                Error::EndOfStream,
            ) && final(self).rpos() == old(self).rpos() && final(dst)@ == old(dst)@,
    {
        self.read_bits_with_offset_len(dst, 0, dst_bit_len)
    }

    /// The read position.
    pub fn pos(&self) -> (r: usize)
        ensures
            r == self.rpos(),
    {
        self.read_pos
    }

    /// Move the read position, clamped to the visible length; the position
    /// actually taken is returned.
    pub fn set_pos(&mut self, position: usize) -> (r: usize)
        requires
            old(self).wf(),
        ensures
            final(self).wf(),
            final(self)@ == old(self)@,
            final(self).vlen() == old(self).vlen(),
            final(self).rpos() == if position <= old(self).vlen() {
                position as int
            } else {
                old(self).vlen()
            },
            r == final(self).rpos(),
    {
        if position <= self.visible_len {
            self.read_pos = position;
        } else {
            self.read_pos = self.visible_len;
        }
        self.read_pos
    }

    /// The visible length, in bits.
    pub fn len(&self) -> (r: usize)
        ensures
            r == self.vlen(),
    {
        self.visible_len
    }

    /// Whether nothing is visible.
    pub fn is_empty(&self) -> (r: bool)
        ensures
            r == (self.vlen() == 0),
    {
        self.visible_len == 0
    }

    /// Change the visible length, clamped to the written bits; the read
    /// position is clamped along. The length actually taken is returned.
    pub fn set_len(&mut self, len: usize) -> (r: usize)
        requires
            old(self).wf(),
        ensures
            final(self).wf(),
            final(self)@ == old(self)@,
            final(self).vlen() == if len <= final(self)@.len() {
                len as int
            } else {
                final(self)@.len() as int
            },
            final(self).rpos() == if old(self).rpos() <= final(self).vlen() {
                old(self).rpos()
            } else {
                final(self).vlen()
            },
            r == final(self).vlen(),
    {
        if len <= self.bits.len() {
            self.visible_len = len;
        } else {
            self.visible_len = self.bits.len();
        }
        if self.read_pos > self.visible_len {
            self.read_pos = self.visible_len;
        }
        self.visible_len
    }

    /// The bits still to read before the visible end.
    pub fn remaining(&self) -> (r: usize)
        requires
            self.wf(),
        ensures
            r == self.vlen() - self.rpos(),
    {
        self.visible_len - self.read_pos
    }
}

} // verus!

verus! {

impl BitBuffer {
    /// Run `f` with the read position moved to `pos`, then restore the
    /// position: whatever `f` reads, the read position afterwards equals
    /// its value before the call. `f` takes the buffer by value and hands
    /// it back beside its result; it may move the read position freely but
    /// must leave the stream and the visible length as they were.
    pub fn with_read_position_at<T, F: FnOnce(BitBuffer) -> (BitBuffer, T)>(
        &mut self,
        pos: usize,
        f: F,
    ) -> (res: T)
        requires
            old(self).wf(),
            forall|b: BitBuffer| b.wf() ==> call_requires(f, (b,)),
            forall|b: BitBuffer, o: (BitBuffer, T)|
                call_ensures(f, (b,), o) ==> o.0.wf() && o.0@ == b@ && o.0.vlen() == b.vlen(),
        ensures
            final(self).wf(),
            final(self)@ == old(self)@,
            final(self).vlen() == old(self).vlen(),
            final(self).rpos() == old(self).rpos(),
            exists|b: BitBuffer, o: (BitBuffer, T)|
                call_ensures(f, (b,), o) && o.1 == res && b@ == old(self)@ && b.vlen() == old(self).vlen(),
    {
        let original_pos = self.pos();
        self.set_pos(pos);
        let mut moved = BitBuffer::new();
        core::mem::swap(self, &mut moved);
        let (back, result) = f(moved);
        *self = back;
        self.set_pos(original_pos);
        result
    }
}

/// Reading side of a bit transport: the minimal contract the buffer
/// satisfies. `source` is the whole bit stream, `limit` the visible end,
/// `position` the read position; `inv` is the implementor's invariant.
pub trait BitRead {
    spec fn source(&self) -> Seq<bool>;

    spec fn position(&self) -> int;

    spec fn limit(&self) -> int;

    spec fn inv(&self) -> bool;

    /// Read one bit; fail with `EndOfStream`, consuming nothing, at the end.
    fn read_bit(&mut self) -> (r: Result<bool, Error>)
        requires
            old(self).inv(),
        ensures
            final(self).inv(),
            final(self).source() == old(self).source(),
            final(self).limit() == old(self).limit(),
            old(self).position() < old(self).limit() ==> r == Ok::<bool, Error>(
                old(self).source()[old(self).position()],
            ) && final(self).position() == old(self).position() + 1,
            old(self).position() >= old(self).limit() ==> r == Err::<bool, Error>(
                Error::EndOfStream,
            ) && final(self).position() == old(self).position(),
    ;

    /// Read `8 * len(dst)` bits into `dst`.
    fn read_bits(&mut self, dst: &mut Vec<u8>) -> (r: Result<(), Error>)
        requires
            old(self).inv(),
            8 * old(dst)@.len() <= usize::MAX,
        ensures
            final(self).inv(),
            final(self).source() == old(self).source(),
            final(self).limit() == old(self).limit(),
            final(dst)@.len() == old(dst)@.len(),
            old(self).position() + 8 * old(dst)@.len() <= old(self).limit() ==> r is Ok && final(self).position() == old(self).position() + 8 * old(dst)@.len() && bytes_bits(final(dst)@)
                == old(self).source().subrange(
                old(self).position(),
                old(self).position() + 8 * old(dst)@.len(),
            ),
            old(self).position() + 8 * old(dst)@.len() > old(self).limit() ==> r == Err::<
                (),
                Error,
            >(Error::EndOfStream) && final(self).position() == old(self).position() && final(dst)@
                == old(dst)@,
    ;

    /// Read `8 * len(dst) - dst_bit_offset` bits, placed from that offset on.
    fn read_bits_with_offset(&mut self, dst: &mut Vec<u8>, dst_bit_offset: usize) -> (r: Result<
        (),
        Error,
    >)
        requires
            old(self).inv(),
            dst_bit_offset <= 8 * old(dst)@.len(),
            8 * old(dst)@.len() <= usize::MAX,
        ensures
            final(self).inv(),
            final(self).source() == old(self).source(),
            final(self).limit() == old(self).limit(),
            final(dst)@.len() == old(dst)@.len(),
            old(self).position() + (8 * old(dst)@.len() - dst_bit_offset) <= old(self).limit()
                ==> r is Ok && final(self).position() == old(self).position() + (8 * old(dst)@.len() - dst_bit_offset) && (forall|i: int|
                0 <= i < 8 * final(dst)@.len() ==> bytes_bits(final(dst)@)[i] == (
                if dst_bit_offset <= i {
                    old(self).source()[old(self).position() + (i - dst_bit_offset)]
                } else {
                    bytes_bits(old(dst)@)[i]
                })),
            old(self).position() + (8 * old(dst)@.len() - dst_bit_offset) > old(self).limit() ==> r
                == Err::<(), Error>(Error::EndOfStream) && final(self).position() == old(self).position() && final(dst)@ == old(dst)@,
    ;

    /// Read `dst_bit_len` bits into the front of `dst`.
    fn read_bits_with_len(&mut self, dst: &mut Vec<u8>, dst_bit_len: usize) -> (r: Result<
        (),
        Error,
    >)
        requires
            old(self).inv(),
            dst_bit_len <= 8 * old(dst)@.len(),
        ensures
            final(self).inv(),
            final(self).source() == old(self).source(),
            final(self).limit() == old(self).limit(),
            final(dst)@.len() == old(dst)@.len(),
            old(self).position() + dst_bit_len <= old(self).limit() ==> r is Ok && final(self).position() == old(self).position() + dst_bit_len && (forall|i: int|
                0 <= i < 8 * final(dst)@.len() ==> bytes_bits(final(dst)@)[i] == (
                if i < dst_bit_len {
                    old(self).source()[old(self).position() + i]
                } else {
                    bytes_bits(old(dst)@)[i]
                })),
            old(self).position() + dst_bit_len > old(self).limit() ==> r == Err::<(), Error>(
                Error::EndOfStream,
            ) && final(self).position() == old(self).position() && final(dst)@ == old(dst)@,
    ;

    /// Read `dst_bit_len` bits, placed from `dst_bit_offset` on.
    fn read_bits_with_offset_len(
        &mut self,
        dst: &mut Vec<u8>,
        dst_bit_offset: usize,
        dst_bit_len: usize,
    ) -> (r: Result<(), Error>)
        requires
            old(self).inv(),
            dst_bit_offset + dst_bit_len <= 8 * old(dst)@.len(),
            dst_bit_offset + dst_bit_len <= usize::MAX,
        ensures
            final(self).inv(),
            final(self).source() == old(self).source(),
            final(self).limit() == old(self).limit(),
            final(dst)@.len() == old(dst)@.len(),
            old(self).position() + dst_bit_len <= old(self).limit() ==> r is Ok && final(self).position() == old(self).position() + dst_bit_len && (forall|i: int|
                0 <= i < 8 * final(dst)@.len() ==> bytes_bits(final(dst)@)[i] == (
                if dst_bit_offset <= i < dst_bit_offset + dst_bit_len {
                    old(self).source()[old(self).position() + (i - dst_bit_offset)]
                } else {
                    bytes_bits(old(dst)@)[i]
                })),
            old(self).position() + dst_bit_len > old(self).limit() ==> r == Err::<(), Error>(
                Error::EndOfStream,
            ) && final(self).position() == old(self).position() && final(dst)@ == old(dst)@,
    ;
}

/// A `BitRead` whose read window can be inspected and moved.
pub trait ScopedBitRead: BitRead {
    /// The read position.
    fn pos(&self) -> (r: usize)
        requires
            self.inv(),
        ensures
            r == self.position(),
    ;

    /// Move the read position, clamped to the visible length; the position
    /// actually taken is returned.
    fn set_pos(&mut self, position: usize) -> (r: usize)
        requires
            old(self).inv(),
        ensures
            final(self).inv(),
            final(self).source() == old(self).source(),
            final(self).limit() == old(self).limit(),
            final(self).position() == (if position <= old(self).limit() {
                position as int
            } else {
                old(self).limit()
            }),
            r == final(self).position(),
    ;

    /// The visible length, in bits.
    fn len(&self) -> (r: usize)
        requires
            self.inv(),
        ensures
            r == self.limit(),
    ;

    /// Change the visible length, clamped to the written bits; the length
    /// actually taken is returned. What stays visible keeps its bits.
    fn set_len(&mut self, len: usize) -> (r: usize)
        requires
            old(self).inv(),
        ensures
            final(self).inv(),
            final(self).limit() <= len,
            final(self).limit() == len || final(self).limit() >= old(self).limit(),
            forall|i: int|
                0 <= i < final(self).limit() && i < old(self).limit() ==> final(self).source()[i]
                    == old(self).source()[i],
            final(self).position() == (if old(self).position() <= final(self).limit() {
                old(self).position()
            } else {
                final(self).limit()
            }),
            r == final(self).limit(),
    ;

    /// Whether nothing is visible.
    fn is_empty(&self) -> (r: bool)
        requires
            self.inv(),
        ensures
            r == (self.limit() == 0),
    ;

    /// The bits still to read before the visible end.
    fn remaining(&self) -> (r: usize)
        requires
            self.inv(),
        ensures
            r == self.limit() - self.position(),
    ;
}

/// Writing side of a bit transport: every write appends at the end of the
/// stream and leaves the read position alone.
pub trait BitWrite {
    spec fn sink(&self) -> Seq<bool>;

    spec fn winv(&self) -> bool;

    /// Append one bit.
    fn write_bit(&mut self, bit: bool) -> (r: Result<(), Error>)
        requires
            old(self).winv(),
            old(self).sink().len() + 1 <= usize::MAX,
        ensures
            final(self).winv(),
            r is Ok,
            final(self).sink() == old(self).sink().push(bit),
    ;

    /// Append all bits of `src`.
    fn write_bits(&mut self, src: &[u8]) -> (r: Result<(), Error>)
        requires
            old(self).winv(),
            8 * src@.len() <= usize::MAX,
            old(self).sink().len() + 8 * src@.len() <= usize::MAX,
        ensures
            final(self).winv(),
            r is Ok,
            final(self).sink() == old(self).sink() + bytes_bits(src@),
    ;

    /// Append the bits of `src` from bit `src_bit_offset` to the end.
    fn write_bits_with_offset(&mut self, src: &[u8], src_bit_offset: usize) -> (r: Result<
        (),
        Error,
    >)
        requires
            old(self).winv(),
            src_bit_offset <= 8 * src@.len(),
            8 * src@.len() <= usize::MAX,
            old(self).sink().len() + 8 * src@.len() <= usize::MAX,
        ensures
            final(self).winv(),
            r is Ok,
            final(self).sink() == old(self).sink() + bytes_bits(src@).skip(src_bit_offset as int),
    ;

    /// Append the first `bit_len` bits of `src`.
    fn write_bits_with_len(&mut self, src: &[u8], bit_len: usize) -> (r: Result<(), Error>)
        requires
            old(self).winv(),
            bit_len <= 8 * src@.len(),
            old(self).sink().len() + bit_len <= usize::MAX,
        ensures
            final(self).winv(),
            r is Ok,
            final(self).sink() == old(self).sink() + bytes_bits(src@).take(bit_len as int),
    ;

    /// Append `src_bit_len` bits of `src`, starting at bit `src_bit_offset`.
    fn write_bits_with_offset_len(
        &mut self,
        src: &[u8],
        src_bit_offset: usize,
        src_bit_len: usize,
    ) -> (r: Result<(), Error>)
        requires
            old(self).winv(),
            src_bit_offset + src_bit_len <= 8 * src@.len(),
            src_bit_offset + src_bit_len <= usize::MAX,
            old(self).sink().len() + src_bit_len <= usize::MAX,
        ensures
            final(self).winv(),
            r is Ok,
            final(self).sink() == old(self).sink() + bytes_bits(src@).subrange(
                src_bit_offset as int,
                src_bit_offset + src_bit_len,
            ),
    ;
}

impl BitRead for BitBuffer {
    open spec fn source(&self) -> Seq<bool> {
        self.readable()
    }

    open spec fn position(&self) -> int {
        self.rpos()
    }

    open spec fn limit(&self) -> int {
        self.vlen()
    }

    open spec fn inv(&self) -> bool {
        self.wf()
    }

    fn read_bit(&mut self) -> (r: Result<bool, Error>) {
        BitBuffer::read_bit(self)
    }

    fn read_bits(&mut self, dst: &mut Vec<u8>) -> (r: Result<(), Error>) {
        BitBuffer::read_bits(self, dst)
    }

    fn read_bits_with_offset(&mut self, dst: &mut Vec<u8>, dst_bit_offset: usize) -> (r: Result<
        (),
        Error,
    >) {
        BitBuffer::read_bits_with_offset(self, dst, dst_bit_offset)
    }

    fn read_bits_with_len(&mut self, dst: &mut Vec<u8>, dst_bit_len: usize) -> (r: Result<
        (),
        Error,
    >) {
        BitBuffer::read_bits_with_len(self, dst, dst_bit_len)
    }

    fn read_bits_with_offset_len(
        &mut self,
        dst: &mut Vec<u8>,
        dst_bit_offset: usize,
        dst_bit_len: usize,
    ) -> (r: Result<(), Error>) {
        BitBuffer::read_bits_with_offset_len(self, dst, dst_bit_offset, dst_bit_len)
    }
}

impl ScopedBitRead for BitBuffer {
    fn pos(&self) -> (r: usize) {
        BitBuffer::pos(self)
    }

    fn set_pos(&mut self, position: usize) -> (r: usize) {
        BitBuffer::set_pos(self, position)
    }

    fn len(&self) -> (r: usize) {
        BitBuffer::len(self)
    }

    fn set_len(&mut self, len: usize) -> (r: usize) {
        BitBuffer::set_len(self, len)
    }

    fn is_empty(&self) -> (r: bool) {
        BitBuffer::is_empty(self)
    }

    fn remaining(&self) -> (r: usize) {
        BitBuffer::remaining(self)
    }
}

impl BitWrite for BitBuffer {
    open spec fn sink(&self) -> Seq<bool> {
        self@
    }

    open spec fn winv(&self) -> bool {
        self.wf()
    }

    fn write_bit(&mut self, bit: bool) -> (r: Result<(), Error>) {
        BitBuffer::write_bit(self, bit)
    }

    fn write_bits(&mut self, src: &[u8]) -> (r: Result<(), Error>) {
        BitBuffer::write_bits(self, src)
    }

    fn write_bits_with_offset(&mut self, src: &[u8], src_bit_offset: usize) -> (r: Result<
        (),
        Error,
    >) {
        BitBuffer::write_bits_with_offset(self, src, src_bit_offset)
    }

    fn write_bits_with_len(&mut self, src: &[u8], bit_len: usize) -> (r: Result<(), Error>) {
        BitBuffer::write_bits_with_len(self, src, bit_len)
    }

    fn write_bits_with_offset_len(
        &mut self,
        src: &[u8],
        src_bit_offset: usize,
        src_bit_len: usize,
    ) -> (r: Result<(), Error>) {
        BitBuffer::write_bits_with_offset_len(self, src, src_bit_offset, src_bit_len)
    }
}

} // verus!
