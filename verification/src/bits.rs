//! The solver's bit stores are `bitvec` bit-vectors. Verus refuses the
//! declaration of `BitVec` itself (its generic bounds are bitvec's own
//! traits), so an opaque struct of ours holds one. This module gives its
//! contents a name, `bits_of`, and wraps the few operations the solver uses.

use vstd::prelude::*;

verus! {

/// A sequence of bits, stored in a `bitvec::vec::BitVec`.
#[verifier::external_body]
pub struct Bits {
    bits: bitvec::vec::BitVec,
}

/// The bits a bit store holds, as a sequence of booleans.
pub uninterp spec fn bits_of(bv: Bits) -> Seq<bool>;

/// Relies on bitvec's `BitVec::repeat`: a bit-vector of `len` copies of `bit`.
/// `repeat` asserts the length against bitvec's bit-span cap, which an eighth
/// of the address space stays below.
#[verifier::external_body]
pub(crate) fn bits_repeat(bit: bool, len: usize) -> (r: Bits)
    requires
        len <= usize::MAX / 8,
    ensures
        bits_of(r) == Seq::new(len as nat, |i: int| bit),
{
    Bits { bits: bitvec::vec::BitVec::repeat(bit, len) }
}

/// Relies on bitvec's `Index<usize>` impl for `BitSlice`, reached through
/// `BitVec`'s deref: the bit at `index`.
#[verifier::external_body]
pub(crate) fn bits_get(bv: &Bits, index: usize) -> (r: bool)
    requires
        index < bits_of(*bv).len(),
    ensures
        r == bits_of(*bv)[index as int],
{
    bv.bits[index]
}

/// Relies on bitvec's `BitSlice::set`: writes one bit and keeps the others.
#[verifier::external_body]
pub(crate) fn bits_set(bv: &mut Bits, index: usize, value: bool)
    requires
        index < bits_of(*old(bv)).len(),
    ensures
        bits_of(*final(bv)) == bits_of(*old(bv)).update(index as int, value),
{
    bv.bits.set(index, value);
}

} // verus!
