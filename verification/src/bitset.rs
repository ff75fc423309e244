//! A set of vertex indices, backed by `bit_set::BitSet`, the bit-vector
//! representation that both the graph and the solver work on. The
//! mathematical contents of a set are named by `bs_elems`; every operation
//! the crate needs is wrapped with a contract over that name.

use vstd::prelude::*;

verus! {

/// A set of small integers (vertex indices) stored as a bit vector.
#[verifier::external_body]
pub struct VertexSet {
    bits: bit_set::BitSet,
}

/// The set of integers held by a `VertexSet`'s underlying `bit_set::BitSet`.
pub uninterp spec fn bs_elems(s: VertexSet) -> Set<usize>;

impl View for VertexSet {
    type V = Set<usize>;

    open spec fn view(&self) -> Set<usize> {
        bs_elems(*self)
    }
}

impl VertexSet {
    /// Relies on `bit_set::BitSet::new`: it creates a set with no elements.
    #[verifier::external_body]
    pub fn new() -> (r: VertexSet)
        ensures
            bs_elems(r) == Set::<usize>::empty(),
    {
        VertexSet { bits: bit_set::BitSet::new() }
    }

    /// Relies on `bit_set::BitSet::insert`: it adds the value to the set and
    /// keeps everything else.
    #[verifier::external_body]
    pub fn insert(&mut self, v: usize)
        ensures
            bs_elems(*final(self)) == bs_elems(*old(self)).insert(v),
    {
        self.bits.insert(v);
    }

    /// Relies on `bit_set::BitSet::remove`: it takes the value out of the
    /// set and keeps everything else.
    #[verifier::external_body]
    pub fn remove(&mut self, v: usize)
        ensures
            bs_elems(*final(self)) == bs_elems(*old(self)).remove(v),
    {
        self.bits.remove(v);
    }

    /// Relies on `bit_set::BitSet::contains`: the membership test.
    #[verifier::external_body]
    pub fn contains(&self, v: usize) -> (r: bool)
        ensures
            r == bs_elems(*self).contains(v),
    {
        self.bits.contains(v)
    }

    /// Relies on `bit_set::BitSet::count`: it counts the set bits, which is
    /// the cardinality of the set.
    #[verifier::external_body]
    pub fn count(&self) -> (r: usize)
        ensures
            r == bs_elems(*self).len(),
    {
        self.bits.count()
    }

    /// Relies on `bit_set::BitSet::is_empty`: true exactly when no bit is
    /// set.
    #[verifier::external_body]
    pub fn is_empty(&self) -> (r: bool)
        ensures
            r == bs_elems(*self).is_empty(),
    {
        self.bits.is_empty()
    }

    /// Relies on `bit_set::BitSet::intersection` collected into a fresh set:
    /// the elements present in both arguments.
    #[verifier::external_body]
    pub fn intersection(&self, other: &VertexSet) -> (r: VertexSet)
        ensures
            bs_elems(r) == bs_elems(*self).intersect(bs_elems(*other)),
    {
        VertexSet { bits: self.bits.intersection(&other.bits).collect() }
    }

    /// Relies on `bit_set::BitSet::iter`: it walks the storage blocks from
    /// low to high and each block from its least significant bit up, so the
    /// first element it yields is the minimum of the set.
    #[verifier::external_body]
    pub(crate) fn min_elem(&self) -> (r: usize)
        requires
            !bs_elems(*self).is_empty(),
        ensures
            bs_elems(*self).contains(r),
            forall|x: usize| bs_elems(*self).contains(x) ==> r <= x,
    {
        self.bits.iter().next().unwrap()
    }
}

} // verus!
