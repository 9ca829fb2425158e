//! The merge loop as a state machine over mathematical values.
//!
//! A state holds everything the loop knows. Between two states stands one
//! value that the loop cannot compute itself: the distance from a surviving
//! cluster to the cluster that was just formed. The state says which terms
//! it wants combined (`request`), and `step` takes the answer.

use vstd::prelude::*;
use vstd::multiset::Multiset;
use crate::cache::Distances;
use crate::candidate::Candidate;
use crate::condensed::{pair_count, pair_at};
use crate::distance::is_finite;
use crate::queue::{is_closest_live, taken_through};
use crate::tally::{active_count, active_mass};

verus! {

/// Why a clustering was refused or could not be completed.
#[derive(Clone, Copy, Debug, PartialEq, Eq, Structural)]
pub enum LinkageError {
    /// The method is not Ward's.
    UnsupportedMethod,
    /// The input is not the condensed matrix of two or more points.
    InvalidInputShape,
    /// A distance of the input is an infinity or a NaN.
    NonFiniteInput,
    /// No pair of active clusters is left to merge, or a distance that an
    /// update needs was never stored.
    InternalInvariantViolation,
}

/// One merge: clusters `a < b` were joined at distance `dist` into a
/// cluster of `size` points. The merge in row `k` of a clustering of `n`
/// points creates cluster `n + k`.
#[derive(Clone, Copy, Debug, PartialEq, Eq, Structural)]
pub struct Merge {
    /// The smaller id of the two clusters joined.
    pub a: usize,
    /// The larger id of the two clusters joined.
    pub b: usize,
    /// Bit pattern of the distance at which they were joined.
    pub dist: u64,
    /// The number of points in the new cluster.
    pub size: usize,
}

/// The terms of one Lance–Williams update: clusters `a` and `b` were
/// merged, and the distance from a surviving cluster `i` to the new
/// cluster is wanted.
#[derive(Clone, Copy, Debug, PartialEq, Eq, Structural)]
pub struct WardTerms {
    /// The number of points in `a`.
    pub size_a: usize,
    /// The number of points in `b`.
    pub size_b: usize,
    /// The number of points in `i`.
    pub size_i: usize,
    /// Bit pattern of the distance between `a` and `i`.
    pub d_ai: u64,
    /// Bit pattern of the distance between `b` and `i`.
    pub d_bi: u64,
    /// Bit pattern of the distance between `a` and `b`.
    pub d_ab: u64,
}

/// The id of the cluster that row `k` of a clustering of `n` points
/// creates.
pub open spec fn made_by(n: int, k: int) -> int {
    n + k
}

/// The points held by cluster `id` according to the rows written so far.
pub open spec fn cluster_size(rows: Seq<Merge>, n: int, id: int) -> int {
    if id < n {
        1
    } else {
        rows[id - n].size as int
    }
}

/// Whether the merge joins cluster `id` to another.
pub open spec fn joins(r: Merge, id: int) -> bool {
    r.a == id || r.b == id
}

/// Whether two merges have no cluster in common.
pub open spec fn disjoint(x: Merge, y: Merge) -> bool {
    x.a != y.a && x.a != y.b && x.b != y.a && x.b != y.b
}

/// Whether row `k` joins two different clusters that exist when it is
/// written, at a finite distance, into a cluster of as many points as the
/// two hold together.
pub open spec fn row_ok(rows: Seq<Merge>, n: int, k: int) -> bool {
    let r = rows[k];
    &&& r.a < r.b < n + k
    &&& r.size == cluster_size(rows, n, r.a as int) + cluster_size(rows, n, r.b as int)
    &&& is_finite(r.dist)
}

/// Whether `rows` are the first merges of a clustering of `n` points: each
/// row joins two different clusters that exist when it is written, no
/// cluster is joined twice, and each size is the sum of the sizes joined.
pub open spec fn is_partial_dendrogram(rows: Seq<Merge>, n: int) -> bool {
    &&& forall|k: int| 0 <= k < rows.len() ==> #[trigger] row_ok(rows, n, k)
    &&& forall|k1: int, k2: int|
        0 <= k1 < k2 < rows.len() ==> #[trigger] disjoint(rows[k1], rows[k2])
}

/// Whether both clusters that the merge joined are inactive.
pub open spec fn retired(active: Seq<bool>, r: Merge) -> bool {
    !active[r.a as int] && !active[r.b as int]
}

/// Whether cluster `i` is active or was joined by a row.
pub open spec fn accounted(active: Seq<bool>, rows: Seq<Merge>, i: int) -> bool {
    active[i] || exists|k: int| 0 <= k < rows.len() && joins(#[trigger] rows[k], i)
}

/// Whether `rows` are a complete clustering of `n` points: `n - 1` merges,
/// the last of which holds every point.
pub open spec fn is_dendrogram(rows: Seq<Merge>, n: int) -> bool {
    &&& n >= 2
    &&& rows.len() == n - 1
    &&& is_partial_dendrogram(rows, n)
    &&& rows.last().size == n
}

/// The live candidate of `q` that comes first, if any candidate is live.
pub open spec fn closest_live(q: Multiset<Candidate>, active: Seq<bool>) -> Option<Candidate> {
    if exists|c: Candidate| is_closest_live(q, active, c) {
        Some(choose|c: Candidate| is_closest_live(q, active, c))
    } else {
        None
    }
}

/// The candidate for the entry at offset `k` of the condensed matrix `d` of
/// `n` points.
pub open spec fn candidate_at(d: Seq<u64>, n: int, k: int) -> Candidate {
    Candidate { dist: d[k], lo: pair_at(k, n).0 as usize, hi: pair_at(k, n).1 as usize }
}

/// The first position from `from` on and below `limit` whose flag is set;
/// `limit` when there is none.
pub open spec fn first_active(active: Seq<bool>, from: int, limit: int) -> int
    decreases limit - from,
{
    if from >= limit {
        limit
    } else if 0 <= from < active.len() && active[from] {
        from
    } else {
        first_active(active, from + 1, limit)
    }
}

/// Whether `method` names Ward's method.
pub open spec fn is_ward(method: Seq<char>) -> bool {
    method == seq!['w', 'a', 'r', 'd']
}

/// Whether `m` is the number of pairs of two or more points.
pub open spec fn has_point_count(m: nat) -> bool {
    exists|n: int| n >= 2 && pair_count(n) == m
}

/// The number of points that have `m` pairs.
pub open spec fn points_of(m: nat) -> int {
    choose|n: int| n >= 2 && pair_count(n) == m
}

/// Whether every distance is finite.
pub open spec fn all_finite(d: Seq<u64>) -> bool {
    forall|k: int| 0 <= k < d.len() ==> is_finite(#[trigger] d[k])
}

/// Whether `d` and `method` are an input that is clustered: the method is
/// Ward's, and `d` is the condensed matrix of two or more points at finite
/// distances.
pub open spec fn is_valid_input(d: Seq<u64>, method: Seq<char>) -> bool {
    is_ward(method) && has_point_count(d.len()) && all_finite(d)
}

/// What the merge loop knows.
pub struct State {
    /// The distances between clusters.
    pub distances: Distances,
    /// The number of points of each cluster, by id.
    pub sizes: Seq<usize>,
    /// Whether each cluster exists and has not been merged away.
    pub active: Seq<bool>,
    /// The candidates waiting, stale ones included.
    pub queue: Multiset<Candidate>,
    /// The merges made so far.
    pub rows: Seq<Merge>,
    /// The surviving cluster whose distance to the newest cluster is
    /// awaited; the newest cluster itself when none is.
    pub cursor: int,
}

impl State {
    /// The number of points.
    pub open spec fn points(self) -> int {
        self.distances.points as int
    }

    /// The number of clusters that exist or have existed.
    pub open spec fn created(self) -> int {
        self.points() + self.rows.len()
    }

    /// The id of the newest cluster; zero before the first merge.
    pub open spec fn horizon(self) -> int {
        if self.rows.len() == 0 {
            0
        } else {
            self.created() - 1
        }
    }

    /// The first active cluster from `from` on that is older than the
    /// newest; the newest when there is none.
    pub open spec fn scan(self, from: int) -> int {
        first_active(self.active, from, self.horizon())
    }

    /// The terms of the update for cluster `i` after the last merge, if
    /// the three distances are known.
    pub open spec fn terms(self, i: int) -> Option<WardTerms> {
        let a = self.rows.last().a as int;
        let b = self.rows.last().b as int;
        match (self.distances.lookup(i, a), self.distances.lookup(i, b), self.distances.lookup(a, b)) {
            (Some(d_ai), Some(d_bi), Some(d_ab)) => Some(
                WardTerms {
                    size_a: self.sizes[a],
                    size_b: self.sizes[b],
                    size_i: self.sizes[i],
                    d_ai,
                    d_bi,
                    d_ab,
                },
            ),
            _ => None,
        }
    }

    /// The terms whose combination is awaited, if any is.
    pub open spec fn request(self) -> Option<WardTerms> {
        if self.cursor < self.horizon() {
            self.terms(self.cursor)
        } else {
            None
        }
    }

    /// Whether every merge has been made and nothing is awaited.
    pub open spec fn finished(self) -> bool {
        self.rows.len() == self.points() - 1 && self.cursor >= self.horizon()
    }

    /// The state after merging the two clusters of `c`: a row is written,
    /// the new cluster gets the next id and the size of both, the two are
    /// retired, the queue loses `c` and what came before it, and the
    /// cursor stands at the first survivor.
    pub open spec fn merge(self, c: Candidate) -> State {
        let size = (self.sizes[c.lo as int] + self.sizes[c.hi as int]) as usize;
        let id = self.created();
        let merged = State {
            distances: self.distances,
            sizes: self.sizes.update(id, size),
            active: self.active.update(c.lo as int, false).update(c.hi as int, false).update(
                id,
                true,
            ),
            queue: taken_through(self.queue, c),
            rows: self.rows.push(Merge { a: c.lo, b: c.hi, dist: c.dist, size }),
            cursor: 0,
        };
        State { cursor: merged.scan(0), ..merged }
    }

    /// The state with `root` taken in as the distance from the cluster at
    /// the cursor to the newest cluster: a finite one is stored and queued,
    /// any other is dropped.
    pub open spec fn taken(self, root: u64) -> State {
        let i = self.cursor;
        let id = self.horizon();
        if is_finite(root) {
            State {
                distances: self.distances.store(i, id, root),
                queue: self.queue.insert(Candidate { dist: root, lo: i as usize, hi: id as usize }),
                ..self
            }
        } else {
            self
        }
    }

    /// The state after the awaited distance has arrived as `root`: it is
    /// taken in, and the cursor moves to the next survivor.
    pub open spec fn absorb(self, root: u64) -> State {
        State { cursor: self.scan(self.cursor + 1), ..self.taken(root) }
    }

    /// Brings the state to where it awaits a distance or is finished:
    /// while no survivor is left to update and merges remain, the closest
    /// live pair is merged. Fails when no live pair is left, or when a
    /// distance that the awaited update needs is not known.
    #[verifier::opaque]
    pub open spec fn settle(self) -> Result<State, LinkageError>
        decreases self.points() - self.rows.len(),
    {
        if self.cursor < self.horizon() {
            if self.terms(self.cursor) is Some {
                Ok(self)
            } else {
                Err(LinkageError::InternalInvariantViolation)
            }
        } else if self.rows.len() + 1 >= self.points() {
            Ok(self)
        } else {
            match closest_live(self.queue, self.active) {
                Some(c) => self.merge(c).settle(),
                None => Err(LinkageError::InternalInvariantViolation),
            }
        }
    }

    /// The state after the answer `root` to the request; a finished state
    /// stays as it is.
    #[verifier::opaque]
    pub open spec fn step(self, root: u64) -> Result<State, LinkageError> {
        if self.cursor < self.horizon() {
            self.absorb(root).settle()
        } else {
            Ok(self)
        }
    }

    /// The state before the first merge over the condensed matrix `d` of
    /// `n` points: every point is a cluster of its own, and every entry
    /// of the matrix is a candidate.
    pub open spec fn initial(d: Seq<u64>, n: int) -> State {
        State {
            distances: Distances { points: n as nat, base: d, derived: Map::empty() },
            sizes: Seq::new((2 * n - 1) as nat, |i: int| 1usize),
            active: Seq::new((2 * n - 1) as nat, |i: int| i < n),
            queue: Seq::new(d.len(), |k: int| candidate_at(d, n, k)).to_multiset(),
            rows: Seq::empty(),
            cursor: 0,
        }
    }

    /// The state in which the clustering of the condensed matrix `d` by
    /// `method` first awaits a distance or is finished, or the reason why
    /// there is none: the method is checked first, then the length of the
    /// matrix, then its entries.
    #[verifier::opaque]
    pub open spec fn begin(d: Seq<u64>, method: Seq<char>) -> Result<State, LinkageError> {
        if !is_ward(method) {
            Err(LinkageError::UnsupportedMethod)
        } else if !has_point_count(d.len()) {
            Err(LinkageError::InvalidInputShape)
        } else if !all_finite(d) {
            Err(LinkageError::NonFiniteInput)
        } else {
            State::initial(d, points_of(d.len())).settle()
        }
    }

    /// The state after the answers `roots` have been given in turn, from
    /// this state on.
    pub open spec fn run(self, roots: Seq<u64>) -> Result<State, LinkageError>
        decreases roots.len(),
    {
        if roots.len() == 0 {
            Ok(self)
        } else {
            match self.run(roots.drop_last()) {
                Ok(s) => s.step(roots.last()),
                Err(e) => Err(e),
            }
        }
    }

    /// The ids and flags are in step with the rows.
    pub open spec fn shape_ok(self) -> bool {
        &&& self.points() >= 2
        &&& pair_count(self.points()) <= usize::MAX
        &&& self.distances.wf()
        &&& self.sizes.len() == 2 * self.points() - 1
        &&& self.active.len() == 2 * self.points() - 1
        &&& self.rows.len() <= self.points() - 1
        &&& forall|i: int| self.created() <= i < self.active.len() ==> !#[trigger] self.active[i]
        &&& self.rows.len() >= 1 ==> self.active[self.created() - 1]
        &&& 0 <= self.cursor <= self.horizon()
        &&& self.cursor < self.horizon() ==> self.active[self.cursor]
    }

    /// Every candidate names two clusters that exist, in order, at the
    /// finite distance that is known for them.
    pub open spec fn queue_ok(self) -> bool {
        forall|c: Candidate| #[trigger]
            self.queue.count(c) > 0 ==> {
                &&& c.lo < c.hi < self.created()
                &&& is_finite(c.dist)
                &&& self.distances.lookup(c.lo as int, c.hi as int) == Some(c.dist)
            }
    }

    /// Derived distances are between clusters that exist, and those to
    /// the newest cluster are from clusters that the cursor has passed.
    pub open spec fn cache_ok(self) -> bool {
        forall|p: (int, int)| #[trigger]
            self.distances.derived.contains_key(p) ==> {
                &&& p.1 < self.created()
                &&& p.1 == self.created() - 1 ==> p.0 < self.cursor
            }
    }

    /// One cluster fewer is active after each merge, the active clusters
    /// hold every point once, and the sizes are those of the rows.
    pub open spec fn tally_ok(self) -> bool {
        &&& active_count(self.active) == self.points() - self.rows.len()
        &&& active_mass(self.sizes, self.active) == self.points()
        &&& forall|i: int| 0 <= i < self.created() ==> (#[trigger] self.sizes[i]) == cluster_size(
            self.rows,
            self.points(),
            i,
        )
    }

    /// The rows are the first merges of a clustering, and the clusters
    /// that they joined are those that are retired.
    pub open spec fn rows_ok(self) -> bool {
        &&& is_partial_dendrogram(self.rows, self.points())
        &&& forall|k: int| 0 <= k < self.rows.len() ==> #[trigger] retired(self.active, self.rows[k])
        &&& forall|i: int|
            0 <= i < self.created() ==> #[trigger] accounted(self.active, self.rows, i)
    }

    /// What holds of every state that the loop reaches.
    pub open spec fn wf(self) -> bool {
        &&& self.shape_ok()
        &&& self.queue_ok()
        &&& self.cache_ok()
        &&& self.tally_ok()
        &&& self.rows_ok()
    }

    /// Whether the state awaits a distance whose terms are known, or is
    /// finished.
    pub open spec fn settled(self) -> bool {
        if self.cursor < self.horizon() {
            self.terms(self.cursor) is Some
        } else {
            self.rows.len() == self.points() - 1
        }
    }
}

} // verus!
