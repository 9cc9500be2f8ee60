//! What every descriptor constraint shares, and the contracts of values
//! that serialize through the bit transport.

use crate::buffer::BitBuffer;
use crate::error::Error;
use vstd::prelude::*;

verus! {

/// The base of every descriptor constraint.
pub trait Constraint {

}

/// A value that can serialize itself into the bit transport.
/// `enc` is its wire image; a successful write appends exactly that.
pub trait Writable {
    spec fn enc(&self) -> Seq<bool>;

    fn write(&self, writer: &mut BitBuffer) -> (r: Result<(), Error>)
        requires
            old(writer).wf(),
            old(writer)@.len() + self.enc().len() + 400 <= usize::MAX,
        ensures
            final(writer).wf(),
            final(writer).rpos() == old(writer).rpos(),
            r is Ok ==> final(writer)@ == old(writer)@ + self.enc() && final(writer).vlen()
                == final(writer)@.len(),
    ;
}

/// A value that can deserialize itself from the bit transport. What a
/// successful read consumes is exactly the wire image of what it returns.
pub trait Readable: Writable + Sized {
    fn read(reader: &mut BitBuffer) -> (r: Result<Self, Error>)
        requires
            old(reader).wf(),
        ensures
            final(reader).wf(),
            final(reader)@ == old(reader)@,
            final(reader).vlen() == old(reader).vlen(),
            match r {
                Ok(v) => final(reader).rpos() == old(reader).rpos() + v.enc().len() && old(
                    reader,
                ).readable().subrange(old(reader).rpos(), final(reader).rpos()) == v.enc(),
                Err(_) => old(reader).rpos() <= final(reader).rpos() <= final(reader).vlen(),
            },
    ;
}

impl BitBuffer {
    /// Write any serializable value: the top-level entry of the writer.
    pub fn write<T: Writable>(&mut self, value: &T) -> (r: Result<(), Error>)
        requires
            old(self).wf(),
            old(self)@.len() + value.enc().len() + 400 <= usize::MAX,
        ensures
            final(self).wf(),
            final(self).rpos() == old(self).rpos(),
            r is Ok ==> final(self)@ == old(self)@ + value.enc()
                && final(self).vlen() == final(self)@.len(),
    {
        value.write(self)
    }

    /// Read any deserializable value: the top-level entry of the reader.
    pub fn read<T: Readable>(&mut self) -> (r: Result<T, Error>)
        requires
            old(self).wf(),
        ensures
            final(self).wf(),
            final(self)@ == old(self)@,
            final(self).vlen() == old(self).vlen(),
            match r {
                Ok(v) => final(self).rpos() == old(self).rpos() + v.enc().len()
                    && old(self).readable().subrange(old(self).rpos(), final(self).rpos())
                    == v.enc(),
                Err(_) => old(self).rpos() <= final(self).rpos() <= final(self).vlen(),
            },
    {
        T::read(self)
    }

    /// The bits still to read before the visible end.
    pub fn bits_remaining(&self) -> (r: usize)
        requires
            self.wf(),
        ensures
            r == self.vlen() - self.rpos(),
    {
        self.remaining()
    }
}

} // verus!
