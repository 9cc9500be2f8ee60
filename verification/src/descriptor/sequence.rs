//! The descriptor for a sequence: the constraint carries the field counts
//! and the field-by-field serialization, preamble included.

use crate::buffer::BitBuffer;
use crate::descriptor::common::Constraint as CommonConstraint;
use crate::error::Error;
use core::marker::PhantomData;
use vstd::prelude::*;

verus! {

/// The static metadata of a sequence, with its field-by-field
/// serialization. `enc_seq` is the wire image of a value: the preamble of
/// presence bits followed by the fields in declaration order; `write_seq`
/// emits exactly that and `read_seq` consumes exactly the image of what it
/// returns.
pub trait Constraint: CommonConstraint + Sized {
    /// The number of fields in the standard root.
    spec fn spec_field_count() -> u64;

    /// The number of optional or defaulted fields in the standard root.
    spec fn spec_std_optional_fields() -> u64;

    /// The field after which the extension root ends, where the sequence
    /// is extensible.
    spec fn spec_extended_after_field() -> Option<u64>;

    /// The wire image of a value.
    spec fn enc_seq(&self) -> Seq<bool>;

    /// Read a value; what is consumed is the image of what is returned.
    fn read_seq(reader: &mut BitBuffer) -> (r: Result<Self, Error>)
        requires
            old(reader).wf(),
        ensures
            final(reader).wf(),
            final(reader)@ == old(reader)@,
            final(reader).vlen() == old(reader).vlen(),
            match r {
                Ok(v) => final(reader).rpos() == old(reader).rpos() + v.enc_seq().len() && old(
                    reader,
                ).readable().subrange(old(reader).rpos(), final(reader).rpos()) == v.enc_seq(),
                Err(_) => old(reader).rpos() <= final(reader).rpos() <= final(reader).vlen(),
            },
    ;

    /// Write a value: append exactly its image.
    fn write_seq(&self, writer: &mut BitBuffer) -> (r: Result<(), Error>)
        requires
            old(writer).wf(),
            old(writer)@.len() + self.enc_seq().len() + 400 <= usize::MAX,
        ensures
            final(writer).wf(),
            final(writer).rpos() == old(writer).rpos(),
            r is Ok ==> final(writer)@ == old(writer)@ + self.enc_seq() && final(writer).vlen()
                == final(writer)@.len(),
    ;
}

/// The descriptor: a phantom carrier of the constraint.
pub struct Sequence<C: Constraint>(PhantomData<C>);

impl<C: Constraint> Sequence<C> {
    /// Write a sequence value through its constraint.
    pub fn write_value(writer: &mut BitBuffer, value: &C) -> (r: Result<(), Error>)
        requires
            old(writer).wf(),
            old(writer)@.len() + value.enc_seq().len() + 400 <= usize::MAX,
        ensures
            final(writer).wf(),
            final(writer).rpos() == old(writer).rpos(),
            r is Ok ==> final(writer)@ == old(writer)@ + value.enc_seq() && final(writer).vlen()
                == final(writer)@.len(),
    {
        value.write_seq(writer)
    }

    /// Read a sequence value through its constraint.
    pub fn read_value(reader: &mut BitBuffer) -> (r: Result<C, Error>)
        requires
            old(reader).wf(),
        ensures
            final(reader).wf(),
            final(reader)@ == old(reader)@,
            final(reader).vlen() == old(reader).vlen(),
            match r {
                Ok(v) => final(reader).rpos() == old(reader).rpos() + v.enc_seq().len() && old(
                    reader,
                ).readable().subrange(old(reader).rpos(), final(reader).rpos()) == v.enc_seq(),
                Err(_) => old(reader).rpos() <= final(reader).rpos() <= final(reader).vlen(),
            },
    {
        C::read_seq(reader)
    }
}

} // verus!
