//! The sparse set of present cells inside a region, stored as a compressed
//! bitmap over flattened cell indices (`y * 1024 + x`). The storage is the
//! `bit_set` crate's `BitSet`; everything this library assumes of it is
//! collected here.

use vstd::prelude::*;

verus! {

/// A set of small indices backed by `bit_set::BitSet`. The struct is opaque
/// to the verifier; its contents are spoken of through `cellset_contents`.
#[verifier::external_body]
pub struct CellSet {
    inner: bit_set::BitSet,
}

/// The set of indices stored in a `CellSet`, as mathematical integers.
pub uninterp spec fn cellset_contents(s: CellSet) -> Set<int>;

impl CellSet {
    /// Relies on bit_set::BitSet::new: a freshly created set has no elements.
    #[verifier::external_body]
    pub fn new() -> (s: CellSet)
        ensures
            cellset_contents(s) == Set::<int>::empty(),
    {
        CellSet { inner: bit_set::BitSet::new() }
    }

    /// Relies on bit_set::BitSet::insert: adds `value` to the set and returns
    /// whether it was absent. The bound on `value` keeps the backing bit
    /// vector, which grows to `value + 1` bits, from an allocation that could
    /// abort.
    #[verifier::external_body]
    pub fn insert(&mut self, value: usize) -> (added: bool)
        requires
            value < 0x100000,
        ensures
            cellset_contents(*final(self)) == cellset_contents(*old(self)).insert(value as int),
            added == !cellset_contents(*old(self)).contains(value as int),
    {
        self.inner.insert(value)
    }

    /// Relies on bit_set::BitSet::contains: membership test.
    #[verifier::external_body]
    pub fn contains(&self, value: usize) -> (r: bool)
        ensures
            r == cellset_contents(*self).contains(value as int),
    {
        self.inner.contains(value)
    }

    /// Relies on bit_set::BitSet::iter: yields exactly the stored indices, in
    /// strictly increasing order (the iterator walks the bit vector's blocks
    /// in order and each block's bits from the least significant up).
    #[verifier::external_body]
    pub fn elements(&self) -> (r: Vec<usize>)
        ensures
            forall|i: int| 0 <= i < r@.len()
                ==> cellset_contents(*self).contains(#[trigger] r@[i] as int),
            forall|v: int| cellset_contents(*self).contains(v)
                ==> exists|i: int| 0 <= i < r@.len() && #[trigger] r@[i] as int == v,
            forall|i: int, j: int| 0 <= i < j < r@.len() ==> r@[i] < r@[j],
    {
        self.inner.iter().collect()
    }
}

} // verus!
