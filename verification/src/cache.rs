//! Distances between clusters: the condensed matrix for pairs of points,
//! and a sparse table for pairs in which a merged cluster takes part.

use vstd::prelude::*;
use std::collections::HashMap;
use crate::condensed::{pair_count, condensed_offset, condensed_index, lemma_offset_in_range};

verus! {

/// The distances known between the clusters over `points` points.
pub struct Distances {
    /// The number of points.
    pub points: nat,
    /// The condensed matrix of the points.
    pub base: Seq<u64>,
    /// The distances derived since, by pair `(lo, hi)` with `lo < hi`.
    pub derived: Map<(int, int), u64>,
}

impl Distances {
    /// The condensed matrix has its length, and every derived pair is in
    /// order and names at least one merged cluster.
    pub open spec fn wf(self) -> bool {
        &&& self.base.len() == pair_count(self.points as int)
        &&& forall|p: (int, int)| #[trigger]
            self.derived.contains_key(p) ==> 0 <= p.0 < p.1 && p.1 >= self.points
    }

    /// Whether a distance may be stored for `i` and `j`: they differ, one
    /// of them is a merged cluster, and nothing is stored for them yet.
    pub open spec fn vacant(self, i: int, j: int) -> bool {
        let lo = if i < j { i } else { j };
        let hi = if i < j { j } else { i };
        0 <= lo < hi && hi >= self.points && !self.derived.contains_key((lo, hi))
    }

    /// The distance between clusters `i` and `j` in either order, if it is
    /// known.
    pub open spec fn lookup(self, i: int, j: int) -> Option<u64> {
        let lo = if i < j { i } else { j };
        let hi = if i < j { j } else { i };
        if lo < 0 || lo == hi {
            None
        } else if hi < self.points {
            Some(self.base[condensed_offset(lo, hi, self.points as int)])
        } else if self.derived.contains_key((lo, hi)) {
            Some(self.derived[(lo, hi)])
        } else {
            None
        }
    }

    /// The distances with `value` stored for `i` and `j`.
    pub open spec fn store(self, i: int, j: int, value: u64) -> Distances {
        let lo = if i < j { i } else { j };
        let hi = if i < j { j } else { i };
        Distances { derived: self.derived.insert((lo, hi), value), ..self }
    }
}

/// A stored distance is found again under both orders of its pair, and no
/// other pair is affected.
pub proof fn lemma_store_lookup(d: Distances, i: int, j: int, value: u64, x: int, y: int)
    requires
        d.vacant(i, j),
    ensures
        d.store(i, j, value).lookup(i, j) == Some(value),
        d.store(i, j, value).lookup(j, i) == Some(value),
        !((x == i && y == j) || (x == j && y == i)) ==> d.store(i, j, value).lookup(x, y)
            == d.lookup(x, y),
        d.wf() ==> d.store(i, j, value).wf(),
{
}

/// The key under which the table holds the pair `(lo, hi)`.
spec fn pair_key(lo: int, hi: int) -> int {
    lo * 0x1_0000_0000_0000_0000 + hi
}

proof fn lemma_pair_key_injective(lo1: int, hi1: int, lo2: int, hi2: int)
    requires
        0 <= lo1,
        0 <= lo2,
        0 <= hi1 < 0x1_0000_0000_0000_0000,
        0 <= hi2 < 0x1_0000_0000_0000_0000,
        pair_key(lo1, hi1) == pair_key(lo2, hi2),
    ensures
        lo1 == lo2,
        hi1 == hi2,
{
}

/// The distances between clusters, as the merge loop holds them.
pub struct DistanceCache {
    n: usize,
    base: Vec<u64>,
    table: HashMap<u128, u64>,
}

impl View for DistanceCache {
    type V = Distances;

    closed spec fn view(&self) -> Distances {
        Distances {
            points: self.n as nat,
            base: self.base@,
            derived: Map::new(
                |p: (int, int)|
                    0 <= p.0 < p.1 <= usize::MAX && self.table@.contains_key(
                        pair_key(p.0, p.1) as u128,
                    ),
                |p: (int, int)| self.table@[pair_key(p.0, p.1) as u128],
            ),
        }
    }
}

impl DistanceCache {
    /// The cache holds well-formed distances.
    pub closed spec fn wf(&self) -> bool {
        &&& self@.wf()
        &&& forall|k: u128| #[trigger]
            self.table@.contains_key(k) ==> exists|lo: int, hi: int|
                0 <= lo < hi <= usize::MAX && hi >= self.n && k == pair_key(lo, hi)
    }

    /// What `wf` says of the view.
    pub proof fn lemma_wf(&self)
        requires
            self.wf(),
        ensures
            self@.wf(),
    {
    }

    fn key(lo: usize, hi: usize) -> (k: u128)
        ensures
            k == pair_key(lo as int, hi as int),
    {
        (lo as u128) * 0x1_0000_0000_0000_0000u128 + (hi as u128)
    }

    /// A cache over the condensed matrix `base` of `n` points, with no
    /// derived distance.
    pub fn new(base: Vec<u64>, n: usize) -> (c: DistanceCache)
        requires
            base@.len() == pair_count(n as int),
        ensures
            c.wf(),
            c@ == (Distances { points: n as nat, base: base@, derived: Map::empty() }),
    {
        broadcast use vstd::std_specs::hash::group_hash_axioms;

        let c = DistanceCache { n, base, table: HashMap::new() };
        assert(c@.derived =~= Map::empty());
        c
    }

    /// The distance between clusters `i` and `j`, in either order, if it
    /// is known: from the condensed matrix when both are single points,
    /// else from the table.
    pub fn get(&self, i: usize, j: usize) -> (r: Option<u64>)
        requires
            self.wf(),
        ensures
            r == self@.lookup(i as int, j as int),
    {
        broadcast use vstd::std_specs::hash::group_hash_axioms;

        if i == j {
            return None;
        }
        let lo: usize = if i < j { i } else { j };
        let hi: usize = if i < j { j } else { i };
        if hi < self.n {
            let m: usize = self.base.len();
            assert(m == pair_count(self.n as int));
            proof {
                lemma_offset_in_range(lo as int, hi as int, self.n as int);
            }
            Some(self.base[condensed_index(lo, hi, self.n)])
        } else {
            let k: u128 = Self::key(lo, hi);
            match self.table.get(&k) {
                Some(v) => Some(*v),
                None => None,
            }
        }
    }

    /// Stores the distance between clusters `i` and `j`, unless one is
    /// known already or the pair takes none: a distance is written once.
    /// Returns whether it was stored.
    pub fn put(&mut self, i: usize, j: usize, value: u64) -> (stored: bool)
        requires
            old(self).wf(),
        ensures
            final(self).wf(),
            stored == old(self)@.vacant(i as int, j as int),
            stored ==> final(self)@ == old(self)@.store(i as int, j as int, value),
            !stored ==> final(self)@ == old(self)@,
    {
        broadcast use vstd::std_specs::hash::group_hash_axioms;

        if i == j {
            return false;
        }
        let lo: usize = if i < j { i } else { j };
        let hi: usize = if i < j { j } else { i };
        if hi < self.n {
            return false;
        }
        let k: u128 = Self::key(lo, hi);
        if self.table.contains_key(&k) {
            return false;
        }
        self.table.insert(k, value);
        proof {
            let before = old(self)@;
            let after = self@;
            assert forall|p: (int, int)| #[trigger]
                after.derived.contains_key(p) <==> before.derived.insert(
                    (lo as int, hi as int),
                    value,
                ).contains_key(p) by {
                if 0 <= p.0 < p.1 <= usize::MAX && pair_key(p.0, p.1) == k {
                    lemma_pair_key_injective(p.0, p.1, lo as int, hi as int);
                }
            }
            assert forall|p: (int, int)| #[trigger]
                after.derived.contains_key(p) implies after.derived[p] == before.derived.insert(
                (lo as int, hi as int),
                value,
            )[p] by {
                if pair_key(p.0, p.1) == k {
                    lemma_pair_key_injective(p.0, p.1, lo as int, hi as int);
                }
            }
            assert(after.derived =~= before.derived.insert((lo as int, hi as int), value));
            assert forall|q: u128| #[trigger] self.table@.contains_key(q) implies exists|
                a: int,
                b: int,
            |
                0 <= a < b <= usize::MAX && b >= self.n && q == pair_key(a, b) by {
                if q == k {
                    assert(0 <= lo < hi <= usize::MAX && hi >= self.n && q == pair_key(
                        lo as int,
                        hi as int,
                    ));
                } else {
                    assert(old(self).table@.contains_key(q));
                }
            }
        }
        true
    }
}

} // verus!
