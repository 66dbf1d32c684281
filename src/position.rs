use vstd::prelude::*;

verus! {

/// Fixed-point scale of all costs: one cost unit is this many hundredths.
pub const COST_SCALE: u64 = 100;

/// Exclusive bound of a packed position: positions pack into 96 bits.
pub open spec fn pack_bound() -> nat {
    0x1_0000_0000_0000_0000_0000_0000nat
}

/// A point in graph space. Positions compose by adding an offset, and have a
/// symmetric, non-negative distance between them, used as the search
/// heuristic (in hundredths of a cost unit). Each position packs one to one
/// into a 96-bit number, which keys the visited store.
pub trait GraphPosition: Sized + Copy {
    spec fn spec_offset(self, offset: Self) -> Self;

    spec fn spec_distance(self, other: Self) -> nat;

    spec fn spec_pack(self) -> nat;

    /// The position reached from `self` by `offset`.
    fn offset_by(self, offset: Self) -> (r: Self)
        ensures
            r == self.spec_offset(offset),
    ;

    /// Distance between two positions.
    fn distance(a: &Self, b: &Self) -> (r: u64)
        ensures
            r == a.spec_distance(*b),
    ;

    /// Distance from `self` to `other`.
    fn distance_to(&self, other: &Self) -> (r: u64)
        ensures
            r == self.spec_distance(*other),
    {
        Self::distance(self, other)
    }

    /// Whether two positions are the same.
    fn same_as(&self, other: &Self) -> (r: bool)
        ensures
            r == (*self == *other),
    ;

    /// The 96-bit packing of this position.
    fn pack(&self) -> (r: u128)
        ensures
            r == self.spec_pack(),
            r < pack_bound(),
    ;

    proof fn lemma_pack_bound(self)
        ensures
            self.spec_pack() < pack_bound(),
    ;

    proof fn lemma_pack_injective(a: Self, b: Self)
        requires
            a.spec_pack() == b.spec_pack(),
        ensures
            a == b,
    ;

    proof fn lemma_distance_symmetric(a: Self, b: Self)
        ensures
            a.spec_distance(b) == b.spec_distance(a),
    ;
}

} // verus!
