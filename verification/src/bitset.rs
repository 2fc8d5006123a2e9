//! A set of small non-negative integers over `fixedbitset::FixedBitSet`.

use vstd::prelude::*;
use fixedbitset::FixedBitSet;

verus! {

#[verifier::external_type_specification]
#[verifier::external_body]
pub struct ExFixedBitSet(FixedBitSet);

/// The bits that are set in a `FixedBitSet`.
pub uninterp spec fn fixed_bits(b: FixedBitSet) -> Set<int>;

/// The number of bit positions a `FixedBitSet` has.
pub uninterp spec fn fixed_len(b: FixedBitSet) -> nat;

/// `FixedBitSet::with_capacity`: `n` positions, all clear.
#[verifier::external_body]
fn fixed_with_capacity(n: usize) -> (r: FixedBitSet)
    ensures
        fixed_bits(r) == Set::<int>::empty(),
        fixed_len(r) == n,
{
    FixedBitSet::with_capacity(n)
}

/// `FixedBitSet::contains`: whether bit `i` is set; false past the end.
#[verifier::external_body]
fn fixed_contains(b: &FixedBitSet, i: usize) -> (r: bool)
    ensures
        r == (i < fixed_len(*b) && fixed_bits(*b).contains(i as int)),
{
    b.contains(i)
}

/// `FixedBitSet::insert`: sets bit `i`, which must be in range.
#[verifier::external_body]
fn fixed_insert(b: &mut FixedBitSet, i: usize)
    requires
        i < fixed_len(*old(b)),
    ensures
        fixed_bits(*final(b)) == fixed_bits(*old(b)).insert(i as int),
        fixed_len(*final(b)) == fixed_len(*old(b)),
{
    b.insert(i);
}

/// A set of integers in `0..capacity`.
pub struct BitSet {
    bits: FixedBitSet,
}

impl BitSet {
    /// The members of the set.
    pub closed spec fn members(&self) -> Set<int> {
        fixed_bits(self.bits).intersect(Set::new(|i: int| 0 <= i < fixed_len(self.bits)))
    }

    /// The number of positions.
    pub closed spec fn capacity(&self) -> nat {
        fixed_len(self.bits)
    }

    /// An empty set with `n` positions.
    pub fn new(n: usize) -> (r: Self)
        ensures
            r.members() == Set::<int>::empty(),
            r.capacity() == n,
    {
        let r = BitSet { bits: fixed_with_capacity(n) };
        proof {
            assert(r.members() =~= Set::<int>::empty());
        }
        r
    }

    /// Whether `i` is a member.
    pub fn contains(&self, i: usize) -> (r: bool)
        ensures
            r == self.members().contains(i as int),
    {
        fixed_contains(&self.bits, i)
    }

    /// Add `i`, which must be below the capacity.
    pub fn insert(&mut self, i: usize)
        requires
            (i as int) < old(self).capacity(),
        ensures
            final(self).members() == old(self).members().insert(i as int),
            final(self).capacity() == old(self).capacity(),
    {
        fixed_insert(&mut self.bits, i);
        proof {
            assert(self.members() =~= old(self).members().insert(i as int));
        }
    }

    /// Members are below the capacity.
    pub proof fn lemma_members_in_range(&self)
        ensures
            forall|i: int| #[trigger] self.members().contains(i) ==> 0 <= i < self.capacity(),
    {
    }
}

} // verus!
