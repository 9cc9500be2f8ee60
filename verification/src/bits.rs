//! Mathematical model of bit sequences.
//!
//! The whole wire format is specified over `Seq<bool>`, one `bool` per bit,
//! most significant bit first. This module defines the correspondence
//! between bit sequences and the unsigned integers they denote, and between
//! byte sequences and their bits.

use vstd::arithmetic::power2::{lemma2_to64, lemma_pow2_adds, lemma_pow2_strictly_increases, pow2};
use vstd::prelude::*;

verus! {

/// The numeric value of a single bit.
pub open spec fn bit_val(b: bool) -> nat {
    if b {
        1
    } else {
        0
    }
}

/// The unsigned integer denoted by a bit sequence, most significant bit first.
pub open spec fn bits_to_nat(s: Seq<bool>) -> nat
    decreases s.len(),
{
    if s.len() == 0 {
        0
    } else {
        bits_to_nat(s.drop_last()) * 2 + bit_val(s.last())
    }
}

/// The `width`-bit representation of `v`, most significant bit first.
/// Bits above `width` are discarded: the result denotes `v % pow2(width)`.
pub open spec fn nat_to_bits(v: nat, width: nat) -> Seq<bool>
    decreases width,
{
    if width == 0 {
        Seq::empty()
    } else {
        nat_to_bits(v / 2, (width - 1) as nat).push(v % 2 == 1)
    }
}

/// The number of binary digits of `v`: the least `w` with `v < pow2(w)`.
pub open spec fn min_bits(v: nat) -> nat
    decreases v,
{
    if v == 0 {
        0
    } else {
        min_bits(v / 2) + 1
    }
}

/// The eight bits of a byte, most significant first.
pub open spec fn byte_bits(b: u8) -> Seq<bool> {
    nat_to_bits(b as nat, 8)
}

/// The bits of a byte sequence, in order, most significant bit of each byte first.
pub open spec fn bytes_bits(s: Seq<u8>) -> Seq<bool> {
    Seq::new(s.len() * 8, |i: int| byte_bits(s[i / 8])[i % 8])
}

pub proof fn lemma_nat_to_bits_len(v: nat, width: nat)
    ensures
        nat_to_bits(v, width).len() == width,
    decreases width,
{
    if width > 0 {
        lemma_nat_to_bits_len(v / 2, (width - 1) as nat);
    }
}

pub proof fn lemma_bits_to_nat_bound(s: Seq<bool>)
    ensures
        bits_to_nat(s) < pow2(s.len()),
    decreases s.len(),
{
    if s.len() == 0 {
        lemma2_to64();
    } else {
        lemma_bits_to_nat_bound(s.drop_last());
        lemma_pow2_adds((s.len() - 1) as nat, 1);
        lemma2_to64();
    }
}

/// Encoding then decoding returns the value, provided it fits the width.
pub proof fn lemma_bits_of_nat_inverse(v: nat, width: nat)
    requires
        v < pow2(width),
    ensures
        bits_to_nat(nat_to_bits(v, width)) == v,
    decreases width,
{
    lemma_nat_to_bits_len(v, width);
    if width == 0 {
        lemma2_to64();
    } else {
        let s = nat_to_bits(v, width);
        lemma_nat_to_bits_len(v / 2, (width - 1) as nat);
        assert(s.drop_last() =~= nat_to_bits(v / 2, (width - 1) as nat));
        lemma_pow2_adds((width - 1) as nat, 1);
        lemma2_to64();
        lemma_bits_of_nat_inverse(v / 2, (width - 1) as nat);
    }
}

/// Decoding then re-encoding at the same width returns the bit sequence.
pub proof fn lemma_nat_of_bits_inverse(s: Seq<bool>)
    ensures
        nat_to_bits(bits_to_nat(s), s.len()) == s,
    decreases s.len(),
{
    if s.len() > 0 {
        lemma_nat_of_bits_inverse(s.drop_last());
        let v = bits_to_nat(s);
        assert(v / 2 == bits_to_nat(s.drop_last()) && (v % 2 == 1) == s.last());
        assert(nat_to_bits(v, s.len()) =~= s);
    } else {
        assert(nat_to_bits(bits_to_nat(s), s.len()) =~= s);
    }
}

/// `min_bits` names the least sufficient width: `v` fits it, and every
/// shorter width loses the leading digit.
pub proof fn lemma_min_bits(v: nat)
    ensures
        v < pow2(min_bits(v)),
        v > 0 ==> pow2((min_bits(v) - 1) as nat) <= v,
    decreases v,
{
    if v == 0 {
        lemma2_to64();
    } else {
        lemma_min_bits(v / 2);
        lemma_pow2_adds((min_bits(v / 2)) as nat, 1);
        lemma2_to64();
        if v / 2 > 0 {
            lemma_pow2_adds((min_bits(v / 2) - 1) as nat, 1);
        }
    }
}

/// `min_bits` is monotone.
pub proof fn lemma_min_bits_mono(a: nat, b: nat)
    requires
        a <= b,
    ensures
        min_bits(a) <= min_bits(b),
    decreases b,
{
    if a > 0 {
        lemma_min_bits_mono(a / 2, b / 2);
    }
}

/// The bit at index `i` of a `width`-bit representation is binary digit
/// `width - 1 - i` of the value.
pub proof fn lemma_nat_to_bits_index(v: nat, width: nat, i: int)
    requires
        0 <= i < width,
    ensures
        nat_to_bits(v, width)[i] == (v / pow2((width - 1 - i) as nat) % 2 == 1),
    decreases width,
{
    lemma_nat_to_bits_len(v, width);
    lemma_nat_to_bits_len(v / 2, (width - 1) as nat);
    if i == width - 1 {
        lemma2_to64();
        assert(nat_to_bits(v, width)[i] == (v % 2 == 1));
        assert(v / pow2(0) == v);
    } else {
        assert(nat_to_bits(v, width)[i] == nat_to_bits(v / 2, (width - 1) as nat)[i]);
        lemma_nat_to_bits_index(v / 2, (width - 1) as nat, i);
        lemma_pow2_adds(1, (width - 2 - i) as nat);
        lemma2_to64();
        assert((v / 2) / pow2((width - 2 - i) as nat) == v / pow2((width - 1 - i) as nat)) by {
            vstd::arithmetic::power2::lemma_pow2_pos((width - 2 - i) as nat);
            vstd::arithmetic::div_mod::lemma_div_denominator(
                v as int,
                2,
                pow2((width - 2 - i) as nat) as int,
            );
        }
    }
}

} // verus!
