//! Fixed-width bitsets from the `fixedbitset` crate, with trusted contracts.
//!
//! The condensed access representation keeps its read and write sets as such
//! bitsets so that a compatibility check is a pair of disjointness tests.
//! Each value is described by two names: the set of enabled bit positions,
//! and the number of bits it was sized for.

use vstd::prelude::*;

use fixedbitset::FixedBitSet;

verus! {

#[verifier::external_type_specification]
#[verifier::external_body]
pub struct ExFixedBitSet(FixedBitSet);

/// The set of bit positions enabled in `s`.
pub uninterp spec fn bitset_elems(s: FixedBitSet) -> Set<usize>;

/// The number of bits `s` was sized for; positions at or past it are never
/// enabled.
pub uninterp spec fn bitset_len(s: FixedBitSet) -> nat;

/// Relies on FixedBitSet::new: an empty set sized for no bits.
#[verifier::external_body]
pub fn bitset_new() -> (r: FixedBitSet)
    ensures
        bitset_elems(r) =~= Set::<usize>::empty(),
        bitset_len(r) == 0,
{
    FixedBitSet::new()
}

/// Relies on FixedBitSet::with_capacity: sized for `bits` bits, all clear.
#[verifier::external_body]
pub fn bitset_with_capacity(bits: usize) -> (r: FixedBitSet)
    ensures
        bitset_elems(r) =~= Set::<usize>::empty(),
        bitset_len(r) == bits,
{
    FixedBitSet::with_capacity(bits)
}

/// Relies on FixedBitSet::grow: enlarges to `bits` bits if smaller, keeping
/// every enabled bit.
#[verifier::external_body]
pub fn bitset_grow(s: &mut FixedBitSet, bits: usize)
    ensures
        bitset_elems(*final(s)) =~= bitset_elems(*old(s)),
        bitset_len(*final(s)) == if bits > bitset_len(*old(s)) {
            bits as nat
        } else {
            bitset_len(*old(s))
        },
{
    s.grow(bits);
}

/// Relies on FixedBitSet::insert, which panics at or past the sized length.
#[verifier::external_body]
pub fn bitset_insert(s: &mut FixedBitSet, bit: usize)
    requires
        bit < bitset_len(*old(s)),
    ensures
        bitset_elems(*final(s)) =~= bitset_elems(*old(s)).insert(bit),
        bitset_len(*final(s)) == bitset_len(*old(s)),
{
    s.insert(bit);
}

/// Relies on FixedBitSet::contains: whether `bit` is enabled; positions past
/// the sized length are reported as disabled.
#[verifier::external_body]
pub fn bitset_contains(s: &FixedBitSet, bit: usize) -> (r: bool)
    ensures
        r == bitset_elems(*s).contains(bit),
{
    s.contains(bit)
}

/// Relies on FixedBitSet::clear: disables every bit, keeping the size.
#[verifier::external_body]
pub fn bitset_clear(s: &mut FixedBitSet)
    ensures
        bitset_elems(*final(s)) =~= Set::<usize>::empty(),
        bitset_len(*final(s)) == bitset_len(*old(s)),
{
    s.clear();
}

/// Relies on FixedBitSet::union_with: in-place union; the receiver grows to
/// the other's size if that is larger.
#[verifier::external_body]
pub fn bitset_union_with(s: &mut FixedBitSet, other: &FixedBitSet)
    ensures
        bitset_elems(*final(s)) =~= bitset_elems(*old(s)).union(bitset_elems(*other)),
        bitset_len(*final(s)) == if bitset_len(*other) > bitset_len(*old(s)) {
            bitset_len(*other)
        } else {
            bitset_len(*old(s))
        },
{
    s.union_with(other);
}

/// Relies on FixedBitSet::is_disjoint: whether no bit is enabled in both.
#[verifier::external_body]
pub fn bitset_is_disjoint(s: &FixedBitSet, other: &FixedBitSet) -> (r: bool)
    ensures
        r == bitset_elems(*s).disjoint(bitset_elems(*other)),
{
    s.is_disjoint(other)
}

/// Relies on FixedBitSet::count_ones over the full range, which counts the
/// enabled bits and so is zero exactly of an empty set.
#[verifier::external_body]
pub fn bitset_count_ones(s: &FixedBitSet) -> (r: usize)
    ensures
        (r == 0) <==> bitset_elems(*s).is_empty(),
{
    s.count_ones(..)
}

/// Relies on FixedBitSet's Clone impl: the copy has the same enabled
/// bits and size.
#[verifier::external_body]
pub fn bitset_clone(s: &FixedBitSet) -> (r: FixedBitSet)
    ensures
        bitset_elems(r) =~= bitset_elems(*s),
        bitset_len(r) == bitset_len(*s),
{
    s.clone()
}

} // verus!
