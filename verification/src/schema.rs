//! A small schema, shaped as the code generator emits one: an extensible
//! enumeration and a two-field sequence, serializing through the typed
//! descriptor layer. They exercise every trait of the layer and anchor its
//! laws to concrete types.

use crate::bits::{bits_to_nat, lemma_nat_of_bits_inverse, min_bits, nat_to_bits};
use crate::buffer::BitBuffer;
use crate::descriptor::common::{Readable, Writable};
use crate::descriptor::enumerated;
use crate::descriptor::sequence;
use crate::error::Error;
use crate::wire::{enc_bool, enc_cwn, nnbi_width};
use vstd::arithmetic::power2::{lemma2_to64, pow2};
use vstd::prelude::*;

verus! {

broadcast use crate::buffer::BitBuffer::lemma_wf_bounds;

/// An extensible enumeration: three standard variants and two added after
/// the extension marker.
#[derive(Clone, Copy, Debug, PartialEq, Eq, Structural)]
pub enum Signal {
    Red,
    Amber,
    Green,
    Blink,
    Off,
}

impl crate::descriptor::common::Constraint for Signal {

}

impl enumerated::Constraint for Signal {
    open spec fn spec_variant_count() -> u64 {
        5
    }

    open spec fn spec_std_variant_count() -> u64 {
        3
    }

    open spec fn spec_extensible() -> bool {
        true
    }

    open spec fn spec_index(&self) -> u64 {
        match *self {
            Signal::Red => 0,
            Signal::Amber => 1,
            Signal::Green => 2,
            Signal::Blink => 3,
            Signal::Off => 4,
        }
    }

    open spec fn spec_from_index(index: u64) -> Option<Signal> {
        if index == 0 {
            Some(Signal::Red)
        } else if index == 1 {
            Some(Signal::Amber)
        } else if index == 2 {
            Some(Signal::Green)
        } else if index == 3 {
            Some(Signal::Blink)
        } else if index == 4 {
            Some(Signal::Off)
        } else {
            None
        }
    }

    proof fn lemma_descriptor_wf() {
    }

    proof fn lemma_index_round_trip(&self) {
    }

    fn variant_count() -> (r: u64) {
        5
    }

    fn std_variant_count() -> (r: u64) {
        3
    }

    fn extensible() -> (r: bool) {
        true
    }

    fn to_choice_index(&self) -> (r: u64) {
        match *self {
            Signal::Red => 0,
            Signal::Amber => 1,
            Signal::Green => 2,
            Signal::Blink => 3,
            Signal::Off => 4,
        }
    }

    fn from_choice_index(index: u64) -> (r: Option<Signal>) {
        if index == 0 {
            Some(Signal::Red)
        } else if index == 1 {
            Some(Signal::Amber)
        } else if index == 2 {
            Some(Signal::Green)
        } else if index == 3 {
            Some(Signal::Blink)
        } else if index == 4 {
            Some(Signal::Off)
        } else {
            None
        }
    }
}

/// A sequence of a boolean and an integer constrained to `[0, 15]`: one
/// presence-free preamble, then the two fields in order.
#[derive(Clone, Copy, Debug, PartialEq, Eq, Structural)]
pub struct Header {
    pub flag: bool,
    pub level: i64,
}

impl Header {
    /// The field constraint: the level fits its range.
    pub open spec fn wf(&self) -> bool {
        0 <= self.level <= 15
    }
}

impl crate::descriptor::common::Constraint for Header {

}

/// The level range takes four bits.
proof fn lemma_level_width()
    ensures
        min_bits(15) == 4,
        nnbi_width(0, 15) == 4,
        pow2(4) == 16,
{
    reveal_with_fuel(min_bits, 6);
    lemma2_to64();
}

impl sequence::Constraint for Header {
    open spec fn spec_field_count() -> u64 {
        2
    }

    open spec fn spec_std_optional_fields() -> u64 {
        0
    }

    open spec fn spec_extended_after_field() -> Option<u64> {
        None
    }

    open spec fn enc_seq(&self) -> Seq<bool> {
        enc_bool(self.flag) + enc_cwn(0, 15, self.level as int)
    }

    fn read_seq(reader: &mut BitBuffer) -> (r: Result<Self, Error>) {
        let ghost s = old(reader).readable();
        let ghost p0 = old(reader).rpos();
        let flag = match reader.read_boolean() {
            Ok(b) => b,
            Err(e) => {
                return Err(e);
            },
        };
        let level = match reader.read_constrained_whole_number(0, 15) {
            Ok(v) => v,
            Err(e) => {
                return Err(e);
            },
        };
        let v = Header { flag, level };
        proof {
            lemma_level_width();
            lemma2_to64();
            vstd::arithmetic::power2::lemma2_to64_rest();
            vstd::arithmetic::power2::lemma_pow2_adds(63, 1);
            let raw = bits_to_nat(s.subrange(p0 + 1, p0 + 5));
            crate::bits::lemma_bits_to_nat_bound(s.subrange(p0 + 1, p0 + 5));
            vstd::arithmetic::power2::lemma_pow2_strictly_increases(4, 63);
            crate::wire::lemma_wrap_u64_id(raw as int);
            vstd::arithmetic::div_mod::lemma_small_mod(
                (pow2(63) + raw) as nat,
                pow2(64),
            );
            assert(level == raw);
            assert(enc_cwn(0, 15, level as int) == nat_to_bits(raw, 4));
            lemma_nat_of_bits_inverse(s.subrange(p0 + 1, p0 + 5));
            assert(s.subrange(p0, p0 + 5) =~= enc_bool(flag) + enc_cwn(0, 15, level as int));
            assert(v.enc_seq().len() == 5);
        }
        Ok(v)
    }

    fn write_seq(&self, writer: &mut BitBuffer) -> (r: Result<(), Error>) {
        let _ = writer.write_boolean(self.flag);
        let r = writer.write_constrained_whole_number(0, 15, self.level);
        match r {
            Ok(()) => {
                proof {
                    assert(final(writer)@ =~= old(writer)@ + self.enc_seq());
                }
                Ok(())
            },
            Err(e) => Err(e),
        }
    }
}

impl Writable for Header {
    open spec fn enc(&self) -> Seq<bool> {
        <Header as sequence::Constraint>::enc_seq(self)
    }

    fn write(&self, writer: &mut BitBuffer) -> (r: Result<(), Error>) {
        <Header as sequence::Constraint>::write_seq(self, writer)
    }
}

impl Readable for Header {
    fn read(reader: &mut BitBuffer) -> (r: Result<Header, Error>) {
        <Header as sequence::Constraint>::read_seq(reader)
    }
}

/// No two well-formed headers share a wire image: together with the
/// contracts of `read_seq` and `write_seq`, decoding an encoded header
/// yields the header that was encoded.
pub proof fn lemma_header_enc_injective(a: Header, b: Header)
    requires
        a.wf(),
        b.wf(),
        <Header as sequence::Constraint>::enc_seq(&a) == <Header as sequence::Constraint>::enc_seq(
            &b,
        ),
    ensures
        a == b,
{
    lemma_level_width();
    let ea = <Header as sequence::Constraint>::enc_seq(&a);
    let eb = <Header as sequence::Constraint>::enc_seq(&b);
    crate::bits::lemma_nat_to_bits_len(a.level as nat, 4);
    crate::bits::lemma_nat_to_bits_len(b.level as nat, 4);
    assert(ea[0] == a.flag && eb[0] == b.flag);
    assert(ea.subrange(1, 5) =~= nat_to_bits(a.level as nat, 4));
    assert(eb.subrange(1, 5) =~= nat_to_bits(b.level as nat, 4));
    crate::bits::lemma_bits_of_nat_inverse(a.level as nat, 4);
    crate::bits::lemma_bits_of_nat_inverse(b.level as nat, 4);
}

} // verus!
