//! Merge candidates and the order in which they are considered.

use vstd::prelude::*;
use crate::distance::{rank, rank_of};

verus! {

/// A pair of clusters `lo < hi` at a distance, waiting to be merged.
#[derive(Clone, Copy, Debug, PartialEq, Eq, Structural)]
pub struct Candidate {
    /// Bit pattern of the distance between the two clusters.
    pub dist: u64,
    /// The smaller cluster id.
    pub lo: usize,
    /// The larger cluster id.
    pub hi: usize,
}

/// The strict order of candidates: by distance, then by the smaller id,
/// then by the larger id. Two candidates that agree in all three can differ
/// only in the sign of a zero distance; the pattern decides between those.
pub open spec fn precedes(x: Candidate, y: Candidate) -> bool {
    let rx = rank(x.dist);
    let ry = rank(y.dist);
    rx < ry || (rx == ry && (x.lo < y.lo || (x.lo == y.lo && (x.hi < y.hi || (x.hi == y.hi
        && x.dist < y.dist)))))
}

/// `x` is `y` or comes before it.
pub open spec fn at_most(x: Candidate, y: Candidate) -> bool {
    !precedes(y, x)
}

/// Of two different candidates one comes first.
pub proof fn lemma_precedes_total(x: Candidate, y: Candidate)
    ensures
        x == y || precedes(x, y) || precedes(y, x),
        !(precedes(x, y) && precedes(y, x)),
        !precedes(x, x),
{
}

/// The order is transitive.
pub proof fn lemma_precedes_transitive(x: Candidate, y: Candidate, z: Candidate)
    requires
        precedes(x, y),
        precedes(y, z),
    ensures
        precedes(x, z),
{
}

/// Two candidates that are each at most the other are one candidate.
pub proof fn lemma_at_most_antisymmetric(x: Candidate, y: Candidate)
    requires
        at_most(x, y),
        at_most(y, x),
    ensures
        x == y,
{
}

/// `at_most` is transitive.
pub proof fn lemma_at_most_transitive(x: Candidate, y: Candidate, z: Candidate)
    requires
        at_most(x, y),
        at_most(y, z),
    ensures
        at_most(x, z),
{
}

impl Candidate {
    /// Tests whether this candidate comes before `other`.
    pub fn before(&self, other: &Candidate) -> (r: bool)
        ensures
            r == precedes(*self, *other),
    {
        let rx: i128 = rank_of(self.dist);
        let ry: i128 = rank_of(other.dist);
        if rx != ry {
            rx < ry
        } else if self.lo != other.lo {
            self.lo < other.lo
        } else if self.hi != other.hi {
            self.hi < other.hi
        } else {
            self.dist < other.dist
        }
    }
}

} // verus!
