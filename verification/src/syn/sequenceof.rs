//! The descriptor for a sequence-of: a length under the size constraint,
//! then each element in order.

use crate::buffer::BitBuffer;
use crate::descriptor::common::{Readable, Writable};
use crate::error::Error;
use crate::wire::{bound_or, enc_len_det, len_det_chunk, sdec_len_det, sdec_len_unbounded,
    LENGTH_16K, LENGTH_64K};
use core::marker::PhantomData;
use vstd::prelude::*;

verus! {

broadcast use crate::buffer::BitBuffer::lemma_wf_bounds;

/// The size constraint of a sequence-of.
pub trait Constraint: crate::descriptor::common::Constraint {
    /// The least admitted element count, absent when unconstrained.
    spec fn spec_min() -> Option<u64>;

    /// The greatest admitted element count, absent when unconstrained.
    spec fn spec_max() -> Option<u64>;

    /// Whether counts beyond the bounds are admitted as extensions.
    spec fn spec_extensible() -> bool;

    /// The least admitted element count.
    fn min() -> (r: Option<u64>)
        ensures
            r == Self::spec_min(),
    ;

    /// The greatest admitted element count.
    fn max() -> (r: Option<u64>)
        ensures
            r == Self::spec_max(),
    ;

    /// Whether counts beyond the bounds are admitted as extensions.
    fn extensible() -> (r: bool)
        ensures
            r == Self::spec_extensible(),
    ;
}

/// No size constraint at all.
pub struct NoConstraint;

impl crate::descriptor::common::Constraint for NoConstraint {

}

impl Constraint for NoConstraint {
    open spec fn spec_min() -> Option<u64> {
        None
    }

    open spec fn spec_max() -> Option<u64> {
        None
    }

    open spec fn spec_extensible() -> bool {
        false
    }

    fn min() -> (r: Option<u64>) {
        None
    }

    fn max() -> (r: Option<u64>) {
        None
    }

    fn extensible() -> (r: bool) {
        false
    }
}

/// The wire images of the elements from index `i` on, in order.
pub open spec fn enc_elems<T: Writable>(vs: Seq<T>, i: int) -> Seq<bool>
    decreases vs.len() - i,
{
    if i < 0 || i >= vs.len() {
        Seq::empty()
    } else {
        vs[i].enc() + enc_elems(vs, i + 1)
    }
}

/// Appending an element appends its image.
pub proof fn lemma_enc_elems_push<T: Writable>(vs: Seq<T>, v: T, i: int)
    requires
        0 <= i <= vs.len(),
    ensures
        enc_elems(vs.push(v), i) == enc_elems(vs, i) + v.enc(),
    decreases vs.len() - i,
{
    if i == vs.len() {
        assert(enc_elems(vs.push(v), i) =~= vs.push(v)[i].enc() + enc_elems(vs.push(v), i + 1));
        assert(enc_elems(vs.push(v), i + 1) =~= Seq::<bool>::empty());
        assert(enc_elems(vs.push(v), i) =~= enc_elems(vs, i) + v.enc());
    } else {
        lemma_enc_elems_push(vs, v, i + 1);
        assert(vs.push(v)[i] == vs[i]);
        assert(enc_elems(vs.push(v), i) =~= enc_elems(vs, i) + v.enc());
    }
}

/// The count part of a sequence-of: the extension bit where the type is
/// extensible, then the length determinant form the bounds call for.
pub open spec fn enc_count(lb: Option<u64>, ub: Option<u64>, ext: bool, n: u64) -> Seq<bool> {
    let lbu = bound_or(lb, 0);
    let ubu = bound_or(ub, i64::MAX as u64);
    let oor = n < lbu || n > ubu;
    let pre: Seq<bool> = if ext {
        seq![oor]
    } else {
        Seq::empty()
    };
    if oor {
        pre + enc_len_det(None, None, n)
    } else if lb is Some && lb == ub && ubu < LENGTH_64K {
        pre
    } else {
        pre + enc_len_det(lb, ub, n)
    }
}

/// The count part decoded: the dual of [`enc_count`].
pub open spec fn sdec_count(s: Seq<bool>, pos: int, lb: Option<u64>, ub: Option<u64>, ext: bool) -> Result<
    (nat, int),
    Error,
> {
    let ubu = bound_or(ub, i64::MAX as u64);
    if ext {
        if !(0 <= pos && pos + 1 <= s.len()) {
            Err(Error::EndOfStream)
        } else if s[pos] {
            match sdec_len_unbounded(s, pos + 1) {
                Ok((l, p, _c)) => Ok((l, p)),
                Err(e) => Err(e),
            }
        } else {
            sdec_count_root(s, pos + 1, lb, ub)
        }
    } else {
        sdec_count_root(s, pos, lb, ub)
    }
}

/// The count of an in-range sequence-of.
pub open spec fn sdec_count_root(s: Seq<bool>, pos: int, lb: Option<u64>, ub: Option<u64>) -> Result<
    (nat, int),
    Error,
> {
    let ubu = bound_or(ub, i64::MAX as u64);
    if lb is Some && lb == ub && ubu < LENGTH_64K {
        Ok((ubu as nat, pos))
    } else {
        match sdec_len_det(s, pos, lb, ub) {
            Ok((l, p, _c)) => Ok((l, p)),
            Err(e) => Err(e),
        }
    }
}

/// The descriptor: a phantom pairing of the element type and the size
/// constraint.
pub struct SequenceOf<T, C: Constraint = NoConstraint>(PhantomData<T>, PhantomData<C>);

impl<T: Writable + Readable, C: Constraint> SequenceOf<T, C> {
    /// The wire image of a sequence-of value.
    pub open spec fn enc_value(vs: Seq<T>) -> Seq<bool> {
        enc_count(C::spec_min(), C::spec_max(), C::spec_extensible(), vs.len() as u64) + enc_elems(
            vs,
            0,
        )
    }

    /// Write the count, then each element. A count outside a non-extensible
    /// constraint is refused with `SizeNotInRange`; a count that would need
    /// fragmentation with `UnsupportedOperation`.
    pub fn write_value(writer: &mut BitBuffer, values: &Vec<T>) -> (r: Result<(), Error>)
        requires
            old(writer).wf(),
            old(writer)@.len() + Self::enc_value(values@).len() + 400 <= usize::MAX,
            ({
                let lbu = bound_or(C::spec_min(), 0);
                let ubu = bound_or(C::spec_max(), i64::MAX as u64);
                let n = values@.len() as u64;
                lbu <= n <= ubu ==> ((C::spec_min() is Some || C::spec_max() is Some) && ubu
                    >= LENGTH_64K && C::spec_min() != C::spec_max() ==> lbu + lbu <= n && n - lbu
                    <= ubu)
            }),
        ensures
            final(writer).wf(),
            final(writer).rpos() == old(writer).rpos(),
            ({
                let lbu = bound_or(C::spec_min(), 0);
                let ubu = bound_or(C::spec_max(), i64::MAX as u64);
                let n = values@.len() as u64;
                let oor = n < lbu || n > ubu;
                if oor && !C::spec_extensible() {
                    r == Err::<(), Error>(Error::SizeNotInRange(n, lbu, ubu)) && *final(writer)
                        == *old(writer)
                } else if (oor && len_det_chunk(None, None, n) is Some) || (!oor && len_det_chunk(
                    C::spec_min(),
                    C::spec_max(),
                    n,
                ) is Some) {
                    r == Err::<(), Error>(Error::UnsupportedOperation) && *final(writer) == *old(
                        writer,
                    )
                } else {
                    r is Ok ==> final(writer)@ == old(writer)@ + Self::enc_value(values@)
                        && final(writer).vlen() == final(writer)@.len()
                }
            }),
    {
        let lbu = match C::min() {
            Some(l) => l,
            None => 0,
        };
        let ubu = match C::max() {
            Some(u) => u,
            None => 0x7fff_ffff_ffff_ffffu64,
        };
        let n = values.len() as u64;
        let oor = n < lbu || n > ubu;
        if oor && !C::extensible() {
            return Err(Error::SizeNotInRange(n, lbu, ubu));
        }
        let bounds_equal = match (C::min(), C::max()) {
            (Some(a), Some(b)) => a == b,
            (None, None) => true,
            _ => false,
        };
        proof {
            assert(bounds_equal == (C::spec_min() == C::spec_max()));
        }
        let unbounded_first = !((C::min().is_some() || C::max().is_some()) && ubu >= LENGTH_64K)
            && !(C::max().is_some() && ubu <= LENGTH_64K);
        if oor && n >= LENGTH_16K {
            return Err(Error::UnsupportedOperation);
        }
        if !oor && unbounded_first && n >= LENGTH_16K {
            return Err(Error::UnsupportedOperation);
        }
        proof {
            assert(oor ==> len_det_chunk(None, None, n) is None);
            assert(!oor ==> len_det_chunk(C::spec_min(), C::spec_max(), n) is None);
        }
        if C::extensible() {
            let _ = writer.write_bit(oor);
        }
        if oor {
            let _ = writer.write_length_determinant(None, None, n);
        } else if C::min().is_some() && bounds_equal && ubu < LENGTH_64K {
        } else {
            let _ = writer.write_length_determinant(C::min(), C::max(), n);
        }
        let ghost base = old(writer)@ + enc_count(
            C::spec_min(),
            C::spec_max(),
            C::spec_extensible(),
            n,
        );
        proof {
            assert(writer@ =~= base);
        }
        let mut i: usize = 0;
        while i < values.len()
            invariant
                i <= values@.len(),
                old(writer).wf(),
                writer.wf(),
                writer.rpos() == old(writer).rpos(),
                ({
                    let lbu = bound_or(C::spec_min(), 0);
                    let ubu = bound_or(C::spec_max(), i64::MAX as u64);
                    let nn = values@.len() as u64;
                    let oor2 = nn < lbu || nn > ubu;
                    (oor2 ==> C::spec_extensible() && len_det_chunk(None, None, nn) is None)
                        && (!oor2 ==> len_det_chunk(C::spec_min(), C::spec_max(), nn) is None)
                }),
                base == old(writer)@ + enc_count(
                    C::spec_min(),
                    C::spec_max(),
                    C::spec_extensible(),
                    values@.len() as u64,
                ),
                writer@ + enc_elems(values@, i as int) =~= base + enc_elems(values@, 0),
                writer@.len() + enc_elems(values@, i as int).len() + 400 <= usize::MAX,
            decreases values@.len() - i,
        {
            let ghost before = writer@;
            match (&values[i]).write(writer) {
                Ok(()) => {},
                Err(e) => {
                    return Err(e);
                },
            }
            proof {
                assert(enc_elems(values@, i as int) == values@[i as int].enc() + enc_elems(
                    values@,
                    i + 1,
                ));
                assert(writer@ + enc_elems(values@, i + 1) =~= before + enc_elems(
                    values@,
                    i as int,
                ));
            }
            i = i + 1;
        }
        let m = writer.bit_len();
        let _ = writer.set_len(m);
        proof {
            assert(enc_elems(values@, values@.len() as int) =~= Seq::<bool>::empty());
            assert(writer@ =~= old(writer)@ + Self::enc_value(values@));
        }
        Ok(())
    }

    /// Read the count, then that many elements.
    #[verifier::rlimit(100)]
    pub fn read_value(reader: &mut BitBuffer) -> (r: Result<Vec<T>, Error>)
        requires
            old(reader).wf(),
        ensures
            final(reader).wf(),
            final(reader)@ == old(reader)@,
            final(reader).vlen() == old(reader).vlen(),
            match sdec_count(
                old(reader).readable(),
                old(reader).rpos(),
                C::spec_min(),
                C::spec_max(),
                C::spec_extensible(),
            ) {
                Ok((n0, p0)) => match r {
                    Ok(vs) => vs@.len() == n0 as u64
                        && final(reader).rpos() == p0 + enc_elems(vs@, 0).len()
                        && old(reader).readable().subrange(p0, final(reader).rpos())
                        == enc_elems(vs@, 0),
                    Err(_) => old(reader).rpos() <= final(reader).rpos() <= final(reader).vlen(),
                },
                Err(e) => r == Err::<Vec<T>, Error>(e)
                    && old(reader).rpos() <= final(reader).rpos() <= final(reader).vlen(),
            },
    {
        let ubu = match C::max() {
            Some(u) => u,
            None => 0x7fff_ffff_ffff_ffffu64,
        };
        let bounds_equal = match (C::min(), C::max()) {
            (Some(a), Some(b)) => a == b,
            (None, None) => true,
            _ => false,
        };
        proof {
            assert(bounds_equal == (C::spec_min() == C::spec_max()));
        }
        let mut is_extension = false;
        if C::extensible() {
            is_extension = match reader.read_bit() {
                Ok(b) => b,
                Err(e) => {
                    return Err(e);
                },
            };
        }
        let n: u64 = if is_extension {
            match reader.read_length_determinant(None, None) {
                Ok(l) => l,
                Err(e) => {
                    return Err(e);
                },
            }
        } else if C::min().is_some() && bounds_equal && ubu < LENGTH_64K {
            ubu
        } else {
            match reader.read_length_determinant(C::min(), C::max()) {
                Ok(l) => l,
                Err(e) => {
                    return Err(e);
                },
            }
        };
        let ghost p0 = reader.rpos();
        let ghost s = old(reader).readable();
        let mut out: Vec<T> = Vec::new();
        let mut i: u64 = 0;
        proof {
            assert(enc_elems(out@, 0) =~= Seq::<bool>::empty());
            assert(s.subrange(p0, p0) =~= Seq::<bool>::empty());
            assert(match sdec_count(
                s,
                old(reader).rpos(),
                C::spec_min(),
                C::spec_max(),
                C::spec_extensible(),
            ) {
                Ok((n0, q)) => q == p0 && n == n0 as u64,
                Err(_) => false,
            });
        }
        while i < n
            invariant
                i <= n,
                match sdec_count(
                    s,
                    old(reader).rpos(),
                    C::spec_min(),
                    C::spec_max(),
                    C::spec_extensible(),
                ) {
                    Ok((n0, q)) => q == p0 && n == n0 as u64,
                    Err(_) => false,
                },
                old(reader).wf(),
                reader.wf(),
                reader@ == old(reader)@,
                reader.vlen() == old(reader).vlen(),
                s == old(reader).readable(),
                out@.len() == i,
                old(reader).rpos() <= p0,
                0 <= p0 <= reader.rpos(),
                reader.rpos() == p0 + enc_elems(out@, 0).len(),
                s.subrange(p0, reader.rpos()) =~= enc_elems(out@, 0),
            decreases n - i,
        {
            let ghost out_prev = out@;
            let ghost rp_prev = reader.rpos();
            let v = match T::read(reader) {
                Ok(v) => v,
                Err(e) => {
                    return Err(e);
                },
            };
            out.push(v);
            proof {
                lemma_enc_elems_push(out_prev, v, 0);
                assert(s.len() == old(reader).vlen());
                assert(0 <= p0 <= rp_prev);
                assert(reader.rpos() <= reader.vlen());
                assert(rp_prev <= reader.rpos() <= s.len());
                assert(s.subrange(rp_prev, reader.rpos()) =~= v.enc());
                assert(s.subrange(p0, reader.rpos()) =~= s.subrange(p0, rp_prev) + s.subrange(
                    rp_prev,
                    reader.rpos(),
                ));
                assert(s.subrange(p0, reader.rpos()) =~= enc_elems(out@, 0));
            }
            i = i + 1;
        }
        Ok(out)
    }
}

} // verus!
