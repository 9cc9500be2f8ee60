//! The descriptor for an enumeration: the variant index is the whole wire
//! image, encoded as a choice index.

use crate::buffer::BitBuffer;
use crate::error::Error;
use crate::wire::{enc_index, sdec_index, wrap_u64};
use core::marker::PhantomData;
use vstd::prelude::*;

verus! {

/// The static metadata of an enumeration, with its value-to-index mapping.
///
/// Every implementor proves the mapping bijective on the defined variants
/// (`lemma_index_round_trip`) and the counts consistent
/// (`lemma_descriptor_wf`); the codec's wire decisions rest on both.
pub trait Constraint: crate::descriptor::common::Constraint + Sized {
    /// The number of variants, extensions included.
    spec fn spec_variant_count() -> u64;

    /// The number of variants in the standard root.
    spec fn spec_std_variant_count() -> u64;

    /// Whether the enumeration admits extension variants.
    spec fn spec_extensible() -> bool;

    /// The ordinal of a variant.
    spec fn spec_index(&self) -> u64;

    /// The variant of an ordinal, absent when the ordinal is out of range.
    spec fn spec_from_index(index: u64) -> Option<Self>;

    /// The counts are consistent: at least one standard variant, extensions
    /// only where the marker admits them, and every variant standard where
    /// it does not.
    proof fn lemma_descriptor_wf()
        ensures
            1 <= Self::spec_std_variant_count() <= Self::spec_variant_count(),
            Self::spec_extensible() ==> Self::spec_variant_count()
                > Self::spec_std_variant_count(),
            !Self::spec_extensible() ==> Self::spec_variant_count()
                == Self::spec_std_variant_count(),
    ;

    /// The law: the value-to-index mapping round-trips on every defined
    /// variant.
    proof fn lemma_index_round_trip(&self)
        ensures
            self.spec_index() < Self::spec_variant_count(),
            Self::spec_from_index(self.spec_index()) == Some(*self),
    ;

    /// The number of variants, extensions included.
    fn variant_count() -> (r: u64)
        ensures
            r == Self::spec_variant_count(),
    ;

    /// The number of variants in the standard root.
    fn std_variant_count() -> (r: u64)
        ensures
            r == Self::spec_std_variant_count(),
    ;

    /// Whether the enumeration admits extension variants.
    fn extensible() -> (r: bool)
        ensures
            r == Self::spec_extensible(),
    ;

    /// The ordinal of this variant.
    fn to_choice_index(&self) -> (r: u64)
        ensures
            r == self.spec_index(),
    ;

    /// The variant of an ordinal.
    fn from_choice_index(index: u64) -> (r: Option<Self>)
        ensures
            r == Self::spec_from_index(index),
    ;
}

/// The descriptor: a phantom carrier of the constraint.
pub struct Enumerated<C: Constraint>(PhantomData<C>);

impl<C: Constraint> Enumerated<C> {
    /// The wire image of a variant: its index as a choice index.
    pub open spec fn enc_value(value: &C) -> Seq<bool> {
        enc_index(C::spec_std_variant_count(), C::spec_extensible(), value.spec_index())
    }

    /// Write a variant as its choice index.
    pub fn write_value(writer: &mut BitBuffer, value: &C) -> (r: Result<(), Error>)
        requires
            old(writer).wf(),
            old(writer)@.len() + 200 <= usize::MAX,
        ensures
            final(writer).wf(),
            r is Ok,
            final(writer)@ == old(writer)@ + Self::enc_value(value),
            final(writer).rpos() == old(writer).rpos(),
            final(writer).vlen() == final(writer)@.len(),
    {
        proof {
            C::lemma_descriptor_wf();
            value.lemma_index_round_trip();
        }
        let idx = value.to_choice_index();
        writer.write_enumeration_index(C::std_variant_count(), C::extensible(), idx)
    }

    /// Read a variant by its choice index; an index with no variant is
    /// refused with `InvalidChoiceIndex`.
    pub fn read_value(reader: &mut BitBuffer) -> (r: Result<C, Error>)
        requires
            old(reader).wf(),
        ensures
            final(reader).wf(),
            final(reader)@ == old(reader)@,
            final(reader).vlen() == old(reader).vlen(),
            match sdec_index(
                old(reader).readable(),
                old(reader).rpos(),
                C::spec_std_variant_count(),
                C::spec_extensible(),
            ) {
                Ok((i, p)) => match C::spec_from_index(i as u64) {
                    Some(v) => r == Ok::<C, Error>(v) && final(reader).rpos() == p,
                    None => r == Err::<C, Error>(
                        Error::InvalidChoiceIndex(i as u64, C::spec_std_variant_count()),
                    ) && final(reader).rpos() == p,
                },
                Err(e) => r == Err::<C, Error>(e) && old(reader).rpos() <= final(reader).rpos()
                    <= final(reader).vlen(),
            },
    {
        proof {
            C::lemma_descriptor_wf();
        }
        let idx = match reader.read_enumeration_index(C::std_variant_count(), C::extensible()) {
            Ok(i) => i,
            Err(e) => {
                return Err(e);
            },
        };
        match C::from_choice_index(idx) {
            Some(v) => Ok(v),
            None => Err(Error::InvalidChoiceIndex(idx, C::std_variant_count())),
        }
    }
}

/// The enumeration round trip: the variant of a defined variant's ordinal
/// is that variant.
pub proof fn lemma_enumeration_round_trip<C: Constraint>(v: C)
    ensures
        C::spec_from_index(v.spec_index()) == Some(v),
{
    v.lemma_index_round_trip();
}

/// Decoding what `write_value` wrote yields the written variant's index,
/// and consumes exactly its wire image.
pub proof fn lemma_enumerated_wire_round_trip<C: Constraint>(s: Seq<bool>, pos: int, v: C)
    requires
        0 <= pos,
        pos + Enumerated::<C>::enc_value(&v).len() <= s.len(),
        s.subrange(pos, pos + Enumerated::<C>::enc_value(&v).len()) == Enumerated::<C>::enc_value(
            &v,
        ),
    ensures
        sdec_index(s, pos, C::spec_std_variant_count(), C::spec_extensible()) == Ok::<
            (nat, int),
            Error,
        >((v.spec_index() as nat, pos + Enumerated::<C>::enc_value(&v).len())),
{
    C::lemma_descriptor_wf();
    v.lemma_index_round_trip();
    crate::wire::lemma_round_trip_index(
        s,
        pos,
        C::spec_std_variant_count(),
        C::spec_extensible(),
        v.spec_index(),
    );
}

} // verus!
