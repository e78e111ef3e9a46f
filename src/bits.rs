//! Bit sequences held in `bitvec`'s `BitVec`, and the operations on them that
//! the decoder relies on.

use bitvec::order::Msb0;
use bitvec::vec::BitVec;
use vstd::prelude::*;

verus! {

/// A sequence of bits, stored most-significant-bit first in a
/// `bitvec::vec::BitVec`.
#[verifier::external_body]
pub struct Bits {
    inner: BitVec<u8, Msb0>,
}

/// The bits held by a bit-vector, in order.
pub uninterp spec fn bits_of(v: Bits) -> Seq<bool>;

/// The largest length a `BitVec` can encode.
pub open spec fn max_bits() -> nat {
    (usize::MAX / 8) as nat
}

/// Relies on `BitVec::new`: an empty bit-vector.
#[verifier::external_body]
pub(crate) fn bits_new() -> (r: Bits)
    ensures
        bits_of(r) == Seq::<bool>::empty(),
{
    Bits { inner: BitVec::new() }
}

/// Relies on `BitVec::push`: appends one bit; it panics past `max_bits`.
#[verifier::external_body]
pub(crate) fn bits_push(v: &mut Bits, b: bool)
    requires
        bits_of(*old(v)).len() < max_bits(),
    ensures
        bits_of(*final(v)) == bits_of(*old(v)).push(b),
{
    v.inner.push(b)
}

/// Relies on `BitVec::len`: the number of bits, which the bit-vector's
/// encoding keeps at most `max_bits`.
#[verifier::external_body]
pub(crate) fn bits_len(v: &Bits) -> (r: usize)
    ensures
        r as nat == bits_of(*v).len(),
        r as nat <= max_bits(),
{
    v.inner.len()
}

/// Relies on indexing a `BitSlice` by position: the bit at `i`.
#[verifier::external_body]
pub(crate) fn bits_get(v: &Bits, i: usize) -> (r: bool)
    requires
        (i as nat) < bits_of(*v).len(),
    ensures
        r == bits_of(*v)[i as int],
{
    v.inner[i]
}

} // verus!

verus! {

impl Bits {
    /// A bit-vector holding `b`, in order.
    pub fn from_bools(b: &Vec<bool>) -> (r: Bits)
        requires
            b@.len() <= max_bits(),
        ensures
            bits_of(r) == b@,
    {
        let mut r = bits_new();
        let mut i: usize = 0;
        while i < b.len()
            invariant
                i <= b@.len(),
                b@.len() <= max_bits(),
                bits_of(r) == b@.take(i as int),
            decreases b@.len() - i,
        {
            bits_push(&mut r, b[i]);
            i = i + 1;
            assert(b@.take(i as int) =~= b@.take(i - 1).push(b@[i - 1]));
        }
        assert(b@.take(i as int) =~= b@);
        r
    }

    /// The bits held, in order, as plain booleans.
    pub fn to_bools(&self) -> (r: Vec<bool>)
        ensures
            r@ == bits_of(*self),
    {
        let n = bits_len(self);
        let mut r: Vec<bool> = Vec::new();
        let mut i: usize = 0;
        while i < n
            invariant
                i <= n,
                n as nat == bits_of(*self).len(),
                r@ == bits_of(*self).take(i as int),
            decreases n - i,
        {
            r.push(bits_get(self, i));
            i = i + 1;
            assert(r@ =~= bits_of(*self).take(i as int));
        }
        assert(r@ =~= bits_of(*self));
        r
    }

    /// The number of bits held.
    pub fn len(&self) -> (r: usize)
        ensures
            r as nat == bits_of(*self).len(),
    {
        bits_len(self)
    }
}

} // verus!
