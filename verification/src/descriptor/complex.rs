//! The descriptor for a nested structured value: it routes straight to the
//! value's own serialization.

use crate::buffer::BitBuffer;
use crate::descriptor::common::{Readable, Writable};
use crate::error::Error;
use core::marker::PhantomData;
use vstd::prelude::*;

verus! {

/// The constraint of a nested structured value.
pub trait Constraint: crate::descriptor::common::Constraint {

}

/// The descriptor: a phantom pairing of the value type and its constraint.
pub struct Complex<V, C: Constraint>(PhantomData<V>, PhantomData<C>);

impl<V: Writable, C: Constraint> Complex<V, C> {
    /// Write the value through its own serialization.
    pub fn write_value(writer: &mut BitBuffer, value: &V) -> (r: Result<(), Error>)
        requires
            old(writer).wf(),
            old(writer)@.len() + value.enc().len() + 400 <= usize::MAX,
        ensures
            final(writer).wf(),
            final(writer).rpos() == old(writer).rpos(),
            r is Ok ==> final(writer)@ == old(writer)@ + value.enc() && final(writer).vlen()
                == final(writer)@.len(),
    {
        value.write(writer)
    }
}

impl<V: Readable, C: Constraint> Complex<V, C> {
    /// Read a value through its own deserialization.
    pub fn read_value(reader: &mut BitBuffer) -> (r: Result<V, Error>)
        requires
            old(reader).wf(),
        ensures
            final(reader).wf(),
            final(reader)@ == old(reader)@,
            final(reader).vlen() == old(reader).vlen(),
            match r {
                Ok(v) => final(reader).rpos() == old(reader).rpos() + v.enc().len() && old(
                    reader,
                ).readable().subrange(old(reader).rpos(), final(reader).rpos()) == v.enc(),
                Err(_) => old(reader).rpos() <= final(reader).rpos() <= final(reader).vlen(),
            },
    {
        V::read(reader)
    }
}

} // verus!
