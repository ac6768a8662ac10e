use vstd::prelude::*;

verus! {

/// A set of small numbers in one wide integer: bit `i` is up where `i` is in
/// the set.
pub type StopBitfield = bnum::BUint<7>;

/// The number of bits of a `StopBitfield`.
pub const STOP_BITFIELD_SIZE_BITS: usize = 7 * 64;

#[verifier::external_type_specification]
#[verifier::external_body]
pub struct ExBUint<const N: usize>(bnum::BUint<N>);

/// The positions of the bits that are up in a wide integer, the least
/// significant bit being at position 0.
pub uninterp spec fn bits_of(b: bnum::BUint<7>) -> Set<nat>;

/// `BUint::ZERO`: the integer in which no bit is up.
#[verifier::external_body]
pub(crate) fn bitfield_empty() -> (b: StopBitfield)
    ensures
        bits_of(b) == Set::<nat>::empty(),
{
    StopBitfield::ZERO
}

/// `BUint::ONE` shifted left by `index` places with `<<`: the integer in
/// which the bit at `index` is up and no other. The shift overflows from the
/// integer's width on, which the precondition leaves out.
#[verifier::external_body]
pub(crate) fn bitfield_bit(index: u32) -> (r: StopBitfield)
    requires
        index < STOP_BITFIELD_SIZE_BITS,
    ensures
        bits_of(r) == Set::<nat>::empty().insert(index as nat),
{
    StopBitfield::ONE << index
}

/// `|` on two wide integers: the integer in which the bits are up that are
/// up in one of the two.
#[verifier::external_body]
pub(crate) fn bitfield_union(a: StopBitfield, b: StopBitfield) -> (r: StopBitfield)
    ensures
        bits_of(r) == bits_of(a).union(bits_of(b)),
{
    a | b
}

/// `==` on two wide integers: whether the same bits are up in both.
#[verifier::external_body]
pub(crate) fn bitfield_same(a: &StopBitfield, b: &StopBitfield) -> (r: bool)
    ensures
        r == (bits_of(*a) == bits_of(*b)),
{
    a == b
}

} // verus!
