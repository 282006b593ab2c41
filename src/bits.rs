//! A packed vector of type bits, one per position, kept in a `BitVec`.
use bitvec::order::Lsb0;
use bitvec::vec::BitVec;
use vstd::prelude::*;

verus! {

/// One bit per position. Verus does not take the declaration of `BitVec`
/// itself (its parameters are bound by traits of the bitvec crate), so the
/// vector stays in this struct, seen only through the functions below.
#[verifier::external_body]
pub struct TypeBits {
    bits: BitVec<usize, Lsb0>,
}

/// The most bits a `BitVec` can hold (`BitSlice::MAX_BITS`).
pub const MAX_TYPE_BITS: usize = usize::MAX >> 3;

/// The bits held, in index order.
pub uninterp spec fn type_bits(b: TypeBits) -> Seq<bool>;

/// Relies on `BitVec::repeat`: a vector of `len` bits, each equal to `bit`;
/// it panics beyond `MAX_TYPE_BITS`.
#[verifier::external_body]
pub(crate) fn bits_repeat(bit: bool, len: usize) -> (r: TypeBits)
    requires
        len <= MAX_TYPE_BITS,
    ensures
        type_bits(r) == Seq::new(len as nat, |_i: int| bit),
{
    TypeBits { bits: BitVec::repeat(bit, len) }
}

/// Relies on `BitSlice::set`: writes the bit at `index`, which must be in range.
#[verifier::external_body]
pub(crate) fn bits_set(b: &mut TypeBits, index: usize, value: bool)
    requires
        index < type_bits(*old(b)).len(),
    ensures
        type_bits(*final(b)) == type_bits(*old(b)).update(index as int, value),
{
    b.bits.set(index, value)
}

/// Relies on `Index<usize>` of `BitSlice`: reads the bit at `index`, which must
/// be in range.
#[verifier::external_body]
pub(crate) fn bits_get(b: &TypeBits, index: usize) -> (r: bool)
    requires
        index < type_bits(*b).len(),
    ensures
        r == type_bits(*b)[index as int],
{
    b.bits[index]
}

} // verus!
