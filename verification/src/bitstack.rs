//! The evaluator's stack of bits, held in a `bitvec` bit-vector.
//!
//! The vector's type parameters carry trait bounds of its own crate that
//! cannot be declared here, so the vector sits in an opaque struct;
//! `stack_bits` names its contents, bottom of the stack first, and the
//! wrappers state how each operation moves them.

use vstd::prelude::*;

use bitvec::order::Lsb0;
use bitvec::vec::BitVec;

verus! {

/// A stack of bits backed by `bitvec::vec::BitVec`.
#[verifier::external_body]
pub struct BitStack {
    bits: BitVec<usize, Lsb0>,
}

/// The bits held by the stack, in order; the last one is the top.
pub uninterp spec fn stack_bits(v: BitStack) -> Seq<bool>;

impl BitStack {
    /// Relies on `BitVec::new`: a freshly constructed bit-vector is
    /// empty.
    #[verifier::external_body]
    pub(crate) fn new() -> (r: BitStack)
        ensures
            stack_bits(r) == Seq::<bool>::empty(),
    {
        BitStack { bits: BitVec::new() }
    }

    /// Relies on `BitVec::push`: appends one bit after the others.  It
    /// panics only when the new length would exceed
    /// `BitSlice::MAX_BITS` (`!0 >> 3` bits); the precondition stays
    /// below that on every target.
    #[verifier::external_body]
    pub(crate) fn push(&mut self, bit: bool)
        requires
            stack_bits(*old(self)).len() < 0x1fff_ffff,
        ensures
            stack_bits(*final(self)) == stack_bits(*old(self)).push(bit),
    {
        self.bits.push(bit);
    }

    /// Relies on `BitVec::pop`: removes and returns the last bit, or
    /// returns `None` and changes nothing when the vector is empty.
    #[verifier::external_body]
    pub(crate) fn pop(&mut self) -> (r: Option<bool>)
        ensures
            stack_bits(*old(self)).len() == 0 ==> r is None && stack_bits(*final(self))
                == stack_bits(*old(self)),
            stack_bits(*old(self)).len() > 0 ==> r == Some(stack_bits(*old(self)).last())
                && stack_bits(*final(self)) == stack_bits(*old(self)).drop_last(),
    {
        self.bits.pop()
    }
}

} // verus!
