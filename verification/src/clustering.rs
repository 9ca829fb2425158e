//! The merge loop over machine values.

use vstd::prelude::*;
use vstd::string::*;
use crate::cache::DistanceCache;
use crate::candidate::Candidate;
use crate::condensed::{
    pair_count, condensed_offset, row_start, point_count, lemma_point_count_unique,
    lemma_pair_at_offset, lemma_row_start_total, lemma_ids_fit,
};
use crate::distance::{finite, is_finite};
use crate::invariants::{
    lemma_closest_live_is, lemma_closest_live_none, lemma_merge_wf, lemma_absorb_wf,
    lemma_initial_wf, lemma_finished_dendrogram, lemma_step_wf, lemma_settle_wf,
};
use crate::laws::lemma_begin;
use crate::model::{
    State, Merge, WardTerms, LinkageError, candidate_at, first_active, is_ward, points_of,
    has_point_count, is_dendrogram, is_valid_input, row_ok,
};
use crate::progress::{complete, lemma_step_complete};
use crate::queue::CandidateQueue;

verus! {

/// Tests whether `method` names Ward's method.
pub fn names_ward(method: &str) -> (r: bool)
    ensures
        r == is_ward(method@),
{
    if method.unicode_len() != 4 {
        return false;
    }
    let r = method.get_char(0) == 'w' && method.get_char(1) == 'a' && method.get_char(2) == 'r'
        && method.get_char(3) == 'd';
    proof {
        if r {
            assert(method@ =~= seq!['w', 'a', 'r', 'd']);
        }
    }
    r
}

/// The first position from `from` on and below `limit` whose flag is set;
/// `limit` when there is none.
fn first_active_from(active: &Vec<bool>, from: usize, limit: usize) -> (r: usize)
    requires
        from <= limit <= active@.len(),
    ensures
        r == first_active(active@, from as int, limit as int),
{
    let mut i: usize = from;
    while i < limit && !active[i]
        invariant
            from <= i <= limit <= active@.len(),
            first_active(active@, i as int, limit as int) == first_active(
                active@,
                from as int,
                limit as int,
            ),
        decreases limit - i,
    {
        i = i + 1;
    }
    i
}

/// A clustering under way: it awaits the distance from one surviving
/// cluster to the newest cluster, or it is finished.
pub struct Clustering {
    n: usize,
    cache: DistanceCache,
    sizes: Vec<usize>,
    active: Vec<bool>,
    queue: CandidateQueue,
    rows: Vec<Merge>,
    cursor: usize,
    pending: Option<WardTerms>,
}

impl View for Clustering {
    type V = State;

    closed spec fn view(&self) -> State {
        State {
            distances: self.cache@,
            sizes: self.sizes@,
            active: self.active@,
            queue: self.queue@,
            rows: self.rows@,
            cursor: self.cursor as int,
        }
    }
}

impl Clustering {
    /// The parts are well-formed and stand for a well-formed state.
    spec fn sound(&self) -> bool {
        &&& self.cache.wf()
        &&& self.queue.wf()
        &&& self.n == self@.points()
        &&& self@.wf()
    }

    /// The clustering stands for a well-formed state that awaits a
    /// distance or is finished.
    pub closed spec fn wf(&self) -> bool {
        &&& self.sound()
        &&& self@.settled()
        &&& self.pending == self@.request()
    }

    /// What `wf` says of the state.
    pub proof fn lemma_wf(&self)
        requires
            self.wf(),
        ensures
            self@.wf(),
            self@.settled(),
    {
    }

    /// The rows and the cursor are within their bounds.
    pub proof fn lemma_bounds(&self)
        requires
            self.wf(),
        ensures
            self@.rows.len() < self@.points(),
            0 <= self@.cursor <= self@.horizon(),
    {
    }

    fn horizon(&self) -> (h: usize)
        requires
            self.sound(),
        ensures
            h == self@.horizon(),
            h < self.active@.len(),
    {
        proof {
            lemma_ids_fit(self.n as int);
        }
        if self.rows.len() == 0 {
            0
        } else {
            self.n + self.rows.len() - 1
        }
    }

    fn terms_at(&self, i: usize) -> (r: Option<WardTerms>)
        requires
            self.sound(),
            self.rows@.len() >= 1,
            i < self.sizes@.len(),
        ensures
            r == self@.terms(i as int),
    {
        let last = self.rows[self.rows.len() - 1];
        assert(last == self.rows@.last());
        assert(row_ok(self.rows@, self.n as int, self.rows@.len() - 1));
        assert(last.a < last.b < self.sizes@.len());
        let d_ai = match self.cache.get(i, last.a) {
            Some(x) => x,
            None => {
                return None;
            },
        };
        let d_bi = match self.cache.get(i, last.b) {
            Some(x) => x,
            None => {
                return None;
            },
        };
        let d_ab = match self.cache.get(last.a, last.b) {
            Some(x) => x,
            None => {
                return None;
            },
        };
        Some(
            WardTerms {
                size_a: self.sizes[last.a],
                size_b: self.sizes[last.b],
                size_i: self.sizes[i],
                d_ai,
                d_bi,
                d_ab,
            },
        )
    }

    fn settle(self) -> (r: Result<Clustering, LinkageError>)
        requires
            self.sound(),
        ensures
            match self@.settle() {
                Ok(s) => r matches Ok(l) && l@ == s && l.wf(),
                Err(e) => r matches Err(x) && x == e,
            },
    {
        let mut st = self;
        loop
            invariant
                st.sound(),
                st@.settle() == self@.settle(),
            decreases st@.points() - st@.rows.len(),
        {
            reveal(State::settle);
            let horizon = st.horizon();
            if st.cursor < horizon {
                match st.terms_at(st.cursor) {
                    Some(t) => {
                        st.pending = Some(t);
                        return Ok(st);
                    },
                    None => {
                        return Err(LinkageError::InternalInvariantViolation);
                    },
                }
            }
            if st.rows.len() + 1 >= st.n {
                st.pending = None;
                return Ok(st);
            }
            let ghost before = st@;
            match st.queue.pop_closest_active(&st.active) {
                None => {
                    proof {
                        lemma_closest_live_none(before.queue, before.active);
                    }
                    return Err(LinkageError::InternalInvariantViolation);
                },
                Some(c) => {
                    proof {
                        lemma_closest_live_is(before.queue, before.active, c);
                        lemma_merge_wf(before, c);
                        lemma_ids_fit(st.n as int);
                    }
                    let size: usize = st.sizes[c.lo] + st.sizes[c.hi];
                    let id: usize = st.n + st.rows.len();
                    st.rows.push(Merge { a: c.lo, b: c.hi, dist: c.dist, size });
                    st.sizes.set(id, size);
                    st.active.set(c.lo, false);
                    st.active.set(c.hi, false);
                    st.active.set(id, true);
                    st.cursor = first_active_from(&st.active, 0, id);
                    assert(st@ == before.merge(c));
                },
            }
        }
    }

    /// Begins the clustering of the condensed matrix `d` by `method`, and
    /// makes the first merge.
    pub fn start(d: &[u64], method: &str) -> (r: Result<Clustering, LinkageError>)
        ensures
            match State::begin(d@, method@) {
                Ok(s) => r matches Ok(l) && l@ == s && l.wf(),
                Err(e) => r matches Err(x) && x == e,
            },
            r matches Ok(l) ==> l@.points() == points_of(d@.len()),
            r is Ok <==> is_valid_input(d@, method@),
    {
        reveal(State::begin);
        let m: usize = d.len();
        proof {
            lemma_begin(d@, method@);
        }
        if !names_ward(method) {
            return Err(LinkageError::UnsupportedMethod);
        }
        let n: usize = match point_count(m) {
            Some(n) => n,
            None => {
                return Err(LinkageError::InvalidInputShape);
            },
        };
        proof {
            assert(has_point_count(m as nat));
            lemma_point_count_unique(n as int, points_of(m as nat));
            lemma_ids_fit(n as int);
        }
        let mut base: Vec<u64> = Vec::new();
        let mut queue = CandidateQueue::new();
        let mut i: usize = 0;
        let mut j: usize = 1;
        let mut k: usize = 0;
        proof {
            let none = Seq::new(0nat, |x: int| candidate_at(d@, n as int, x));
            vstd::seq_lib::to_multiset_len(none);
            assert(none.to_multiset() =~= queue@);
        }
        while k < m
            invariant
                is_ward(method@),
                has_point_count(m as nat),
                points_of(m as nat) == n,
                m == d@.len(),
                m == pair_count(n as int),
                n >= 2,
                k <= m,
                base@ == d@.take(k as int),
                forall|x: int| 0 <= x < k ==> is_finite(#[trigger] d@[x]),
                queue.wf(),
                queue@ == Seq::new(k as nat, |x: int| candidate_at(d@, n as int, x)).to_multiset(),
                k < m ==> 0 <= i < j < n && condensed_offset(i as int, j as int, n as int) == k,
            decreases m - k,
        {
            let x: u64 = d[k];
            if !finite(x) {
                reveal(State::begin);
                assert(!is_finite(d@[k as int]));
                return Err(LinkageError::NonFiniteInput);
            }
            base.push(x);
            queue.push(Candidate { dist: x, lo: i, hi: j });
            proof {
                let before = Seq::new(k as nat, |x: int| candidate_at(d@, n as int, x));
                let after = Seq::new((k + 1) as nat, |x: int| candidate_at(d@, n as int, x));
                lemma_pair_at_offset(i as int, j as int, n as int);
                assert(after =~= before.push(Candidate { dist: x, lo: i, hi: j }));
                vstd::seq_lib::to_multiset_build(before, Candidate { dist: x, lo: i, hi: j });
                assert(base@ =~= d@.take(k + 1));
                lemma_row_start_total(n as int);
                assert(row_start(n as int, n as int) == row_start(n - 1, n as int));
                assert(row_start(i + 1, n as int) == row_start(i as int, n as int) + (n - (i + 1)));
            }
            if j + 1 < n {
                j = j + 1;
            } else {
                i = i + 1;
                j = i + 1;
            }
            k = k + 1;
        }
        assert(base@ =~= d@);
        let total: usize = 2 * n - 1;
        let mut sizes: Vec<usize> = Vec::new();
        let mut active: Vec<bool> = Vec::new();
        let mut c: usize = 0;
        while c < total
            invariant
                c <= total,
                sizes@ =~= Seq::new(c as nat, |i: int| 1usize),
                active@ =~= Seq::new(c as nat, |i: int| i < n),
            decreases total - c,
        {
            sizes.push(1);
            active.push(c < n);
            c = c + 1;
        }
        let cache = DistanceCache::new(base, n);
        let st = Clustering {
            n,
            cache,
            sizes,
            active,
            queue,
            rows: Vec::new(),
            cursor: 0,
            pending: None,
        };
        proof {
            let s = State::initial(d@, n as int);
            assert(st@.sizes =~= s.sizes);
            assert(st@.active =~= s.active);
            assert(st@.rows =~= s.rows);
            assert(st@ == s);
            lemma_initial_wf(d@, n as int);
            lemma_settle_wf(s);
        }
        st.settle()
    }

    /// The terms whose combination is awaited, or `None` when the
    /// clustering is finished.
    pub fn request(&self) -> (r: Option<WardTerms>)
        requires
            self.wf(),
        ensures
            r == self@.request(),
            r is None <==> self@.finished(),
    {
        self.pending
    }

    /// Whether every merge has been made.
    pub fn is_finished(&self) -> (r: bool)
        requires
            self.wf(),
        ensures
            r == self@.finished(),
    {
        self.pending.is_none()
    }

    /// The number of points.
    pub fn points(&self) -> (n: usize)
        requires
            self.wf(),
        ensures
            n == self@.points(),
    {
        self.n
    }

    /// Takes `root`, the bit pattern of the distance that was awaited, and
    /// goes on to the next request, merging when the newest cluster has
    /// its distances. A finished clustering stays as it is.
    pub fn supply(self, root: u64) -> (r: Result<Clustering, LinkageError>)
        requires
            self.wf(),
        ensures
            match self@.step(root) {
                Ok(s) => r matches Ok(l) && l@ == s && l.wf(),
                Err(e) => r matches Err(x) && x == e,
            },
            r matches Ok(l) ==> l@.points() == self@.points(),
            r matches Ok(l) ==> self@.request() is Some ==> l@.rows.len() > self@.rows.len() || (
            l@.rows.len() == self@.rows.len() && l@.cursor > self@.cursor),
            r matches Err(e) ==> e == LinkageError::InternalInvariantViolation,
            is_finite(root) && complete(self@) ==> (r matches Ok(l) && complete(l@)),
    {
        reveal(State::step);
        proof {
            lemma_step_wf(self@, root);
            if is_finite(root) && complete(self@) {
                lemma_step_complete(self@, root);
            }
        }
        if self.pending.is_none() {
            return Ok(self);
        }
        let mut st = self;
        let ghost before = st@;
        proof {
            lemma_absorb_wf(before, root);
            lemma_step_wf(before, root);
        }
        let i: usize = st.cursor;
        let id: usize = st.horizon();
        if finite(root) {
            let stored = st.cache.put(i, id, root);
            assert(stored);
            st.queue.push(Candidate { dist: root, lo: i, hi: id });
        }
        st.cursor = first_active_from(&st.active, i + 1, id);
        assert(st@ == before.absorb(root));
        st.settle()
    }

    /// The merges made so far, in the order in which they were made; of a
    /// finished clustering, all of them.
    pub fn into_rows(self) -> (rows: Vec<Merge>)
        requires
            self.wf(),
        ensures
            rows@ == self@.rows,
            self@.finished() ==> is_dendrogram(rows@, self@.points()),
    {
        proof {
            if self@.finished() {
                lemma_finished_dendrogram(self@);
            }
        }
        self.rows
    }
}

} // verus!
