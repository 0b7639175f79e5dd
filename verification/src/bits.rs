//! Bit sequences, held in `bitvec`'s growable bit vector.
//!
//! The vector is opaque to the verifier. [`Bits`] wraps it, [`bit_seq`] names
//! what it holds, and each operation the library performs on it is a small
//! function whose contract is taken on trust from `bitvec`'s source. Everything
//! else in this module is proved from those contracts.

use bitvec::order::Lsb0;
use bitvec::vec::BitVec;
use vstd::prelude::*;

verus! {

/// A growable sequence of bits: `bitvec`'s `BitVec<usize, Lsb0>`, which stores
/// the bits in machine words, least significant bit first. The verifier does not
/// look inside; what it knows of a value is [`bit_seq`].
#[verifier::external_body]
#[derive(Debug)]
pub struct Bits {
    inner: BitVec<usize, Lsb0>,
}

/// The bits that a [`Bits`] holds, first pushed first.
pub uninterp spec fn bit_seq(v: Bits) -> Seq<bool>;

impl View for Bits {
    type V = Seq<bool>;

    open spec fn view(&self) -> Seq<bool> {
        bit_seq(*self)
    }
}

/// The most bits a [`Bits`] can hold: `bitvec` keeps the length in a `usize` of
/// which it reserves the three lowest bits.
pub open spec fn max_bits() -> nat {
    (usize::MAX / 8) as nat
}

/// `BitVec::new`: a vector that holds no bit.
#[verifier::external_body]
pub(crate) fn empty_bits() -> (v: Bits)
    ensures
        bit_seq(v) == Seq::<bool>::empty(),
{
    Bits { inner: BitVec::new() }
}

/// `BitVec::push`: appends one bit. `bitvec` panics when the new length would
/// pass its maximum, which the precondition rules out.
#[verifier::external_body]
pub(crate) fn push_bit(v: &mut Bits, bit: bool)
    requires
        bit_seq(*old(v)).len() < max_bits(),
    ensures
        bit_seq(*final(v)) == bit_seq(*old(v)).push(bit),
{
    v.inner.push(bit)
}

/// `BitVec::pop`: removes the last bit and returns it; on an empty vector it
/// returns `None` and changes nothing.
#[verifier::external_body]
pub(crate) fn pop_bit(v: &mut Bits) -> (bit: Option<bool>)
    ensures
        bit_seq(*old(v)).len() == 0 ==> bit is None && bit_seq(*final(v)) == bit_seq(*old(v)),
        bit_seq(*old(v)).len() > 0 ==> bit == Some(bit_seq(*old(v)).last()) && bit_seq(*final(v))
            == bit_seq(*old(v)).drop_last(),
{
    v.inner.pop()
}

/// `BitVec::clone`: a vector that holds the same bits.
#[verifier::external_body]
pub(crate) fn clone_bits(v: &Bits) -> (copy: Bits)
    ensures
        bit_seq(copy) == bit_seq(*v),
{
    Bits { inner: v.inner.clone() }
}

/// `BitVec::len`: the number of bits held.
#[verifier::external_body]
pub(crate) fn bit_count(v: &Bits) -> (n: usize)
    ensures
        n == bit_seq(*v).len(),
{
    v.inner.len()
}

/// Indexing a `BitVec`: the bit at place `i`. `bitvec` panics on an index at or
/// past the length, which the precondition rules out.
#[verifier::external_body]
pub(crate) fn bit_at(v: &Bits, i: usize) -> (bit: bool)
    requires
        i < bit_seq(*v).len(),
    ensures
        bit == bit_seq(*v)[i as int],
{
    v.inner[i]
}

/// `BitVec::extend` with the bits of another vector: appends them in order.
/// `bitvec` panics when the new length would pass its maximum, which the
/// precondition rules out.
#[verifier::external_body]
pub(crate) fn append_bits(v: &mut Bits, more: &Bits)
    requires
        bit_seq(*old(v)).len() + bit_seq(*more).len() <= max_bits(),
    ensures
        bit_seq(*final(v)) == bit_seq(*old(v)) + bit_seq(*more),
{
    v.inner.extend(&more.inner)
}

impl Bits {
    /// The number of bits held.
    pub fn len(&self) -> (n: usize)
        ensures
            n == self@.len(),
    {
        bit_count(self)
    }

    /// The bits as a vector of `bool`, in order.
    pub fn to_vec(&self) -> (bits: Vec<bool>)
        ensures
            bits@ == self@,
    {
        let n = bit_count(self);
        let mut bits: Vec<bool> = Vec::new();
        let mut i: usize = 0;
        while i < n
            invariant
                i <= n,
                n == self@.len(),
                bits@ == self@.take(i as int),
            decreases n - i,
        {
            bits.push(bit_at(self, i));
            i += 1;
            assert(bits@ =~= self@.take(i as int));
        }
        assert(self@.take(n as int) =~= self@);
        bits
    }

    /// The bit sequence that holds `bits` in order, or `None` where they are more
    /// than a bit sequence can hold.
    pub fn from_slice(bits: &[bool]) -> (packed: Option<Bits>)
        ensures
            bits@.len() <= max_bits() ==> packed is Some && packed.unwrap()@ == bits@,
            bits@.len() > max_bits() ==> packed is None,
    {
        if bits.len() > usize::MAX / 8 {
            return None;
        }
        let mut packed = empty_bits();
        let mut i: usize = 0;
        while i < bits.len()
            invariant
                i <= bits.len(),
                bits@.len() <= max_bits(),
                packed@ == bits@.take(i as int),
            decreases bits.len() - i,
        {
            push_bit(&mut packed, bits[i]);
            i += 1;
            assert(packed@ =~= bits@.take(i as int));
        }
        assert(bits@.take(i as int) =~= bits@);
        Some(packed)
    }
}

} // verus!
