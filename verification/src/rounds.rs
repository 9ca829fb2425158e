//! The clustering merge by merge: what the loop comes to when the answer to
//! each request is a function of its terms.

use vstd::prelude::*;
use crate::cache::lemma_store_lookup;
use crate::candidate::Candidate;
use crate::condensed::lemma_ids_fit;
use crate::distance::is_finite;
use crate::invariants::{
    lemma_absorb_wf, lemma_initial_wf, lemma_merge_wf, lemma_step_wf, lemma_first_active,
};
use crate::laws::lemma_begin;
use crate::model::{
    State, Merge, WardTerms, LinkageError, closest_live, first_active, points_of, is_valid_input,
    row_ok,
};
use crate::ward::{answers, answers_at, completes};

verus! {

/// Whether `update` answers each request as `g` does.
pub open spec fn follows<F: Fn(WardTerms) -> u64>(update: F, g: spec_fn(WardTerms) -> u64) -> bool {
    forall|t: WardTerms, x: u64| call_ensures(update, (t,), x) ==> x == g(t)
}

impl State {
    /// The state with the cursor at `i`.
    pub open spec fn at(self, i: int) -> State {
        State { cursor: i, ..self }
    }

    /// The state after every surviving cluster from the cursor on has its
    /// distance to the newest cluster, as `g` gives it. Fails where a
    /// distance that `g` is to combine is not known.
    pub open spec fn sweep(self, g: spec_fn(WardTerms) -> u64) -> Result<State, LinkageError>
        decreases self.horizon() - self.cursor,
    {
        let i = self.cursor;
        if i >= self.horizon() {
            Ok(self)
        } else if !(0 <= i < self.active.len() && self.active[i]) {
            self.at(i + 1).sweep(g)
        } else {
            match self.terms(i) {
                Some(t) => self.taken(g(t)).at(i + 1).sweep(g),
                None => Err(LinkageError::InternalInvariantViolation),
            }
        }
    }

    /// The state after `rounds` more merges, each of the closest live
    /// pair and each followed by the distances from every survivor to the
    /// new cluster. Fails where no live pair is left.
    pub open spec fn after_rounds(self, g: spec_fn(WardTerms) -> u64, rounds: nat) -> Result<
        State,
        LinkageError,
    >
        decreases rounds,
    {
        if rounds == 0 {
            Ok(self)
        } else {
            match closest_live(self.queue, self.active) {
                Some(c) => match self.merge(c).sweep(g) {
                    Ok(t) => t.after_rounds(g, (rounds - 1) as nat),
                    Err(e) => Err(e),
                },
                None => Err(LinkageError::InternalInvariantViolation),
            }
        }
    }

    /// The number of merges still to be made.
    pub open spec fn remaining(self) -> nat {
        if self.rows.len() + 1 >= self.points() {
            0
        } else {
            (self.points() - 1 - self.rows.len()) as nat
        }
    }

    /// The state at the end of the clustering that is under way in this
    /// state.
    pub open spec fn resume(self, g: spec_fn(WardTerms) -> u64) -> Result<State, LinkageError> {
        match self.sweep(g) {
            Ok(t) => t.after_rounds(g, self.remaining()),
            Err(e) => Err(e),
        }
    }
}

/// The merges of the clustering of the condensed matrix `d` when `g`
/// combines the terms of each update: one round for each point but one.
pub open spec fn ward_rows(d: Seq<u64>, g: spec_fn(WardTerms) -> u64) -> Result<
    Seq<Merge>,
    LinkageError,
> {
    let n = points_of(d.len());
    match State::initial(d, n).after_rounds(g, (n - 1) as nat) {
        Ok(t) => Ok(t.rows),
        Err(e) => Err(e),
    }
}

/// Whether cluster `e` is still to get its distance to the newest cluster.
pub open spec fn pending(s: State, e: int) -> bool {
    s.cursor <= e < s.horizon() && s.active[e]
}

/// Whether cluster `e` is still to get its distance to the newest
/// cluster, and `g` gives a finite one.
pub open spec fn fresh(s: State, g: spec_fn(WardTerms) -> u64, e: int) -> bool {
    pending(s, e) && s.terms(e) is Some && is_finite(g(s.terms(e)->Some_0))
}

/// The distance between `i` and `j` after the sweep of `s`.
pub open spec fn swept_lookup(s: State, g: spec_fn(WardTerms) -> u64, i: int, j: int) -> Option<
    u64,
> {
    let lo = if i < j { i } else { j };
    let hi = if i < j { j } else { i };
    if hi == s.horizon() && fresh(s, g, lo) {
        Some(g(s.terms(lo)->Some_0))
    } else {
        s.distances.lookup(i, j)
    }
}

/// How often `x` waits after the sweep of `s`.
pub open spec fn swept_count(s: State, g: spec_fn(WardTerms) -> u64, x: Candidate) -> nat {
    if x.hi == s.horizon() && fresh(s, g, x.lo as int) && x.dist == g(
        s.terms(x.lo as int)->Some_0,
    ) {
        s.queue.count(x) + 1
    } else {
        s.queue.count(x)
    }
}

/// `t` knows between `i` and `j` what the sweep of `s` leaves.
pub open spec fn swept_distance(
    s: State,
    g: spec_fn(WardTerms) -> u64,
    t: State,
    i: int,
    j: int,
) -> bool {
    t.distances.lookup(i, j) == swept_lookup(s, g, i, j)
}

/// `t` holds `x` as often as the sweep of `s` leaves it.
pub open spec fn swept_entry(s: State, g: spec_fn(WardTerms) -> u64, t: State, x: Candidate) -> bool {
    t.queue.count(x) == swept_count(s, g, x)
}

/// Whether `t` is `s` after its sweep: every pending cluster had its
/// terms, and those with a finite answer have their distance to the newest
/// cluster and their candidate; nothing else has changed, whatever the
/// order of the sweep.
pub open spec fn swept(s: State, g: spec_fn(WardTerms) -> u64, t: State) -> bool {
    &&& t.rows == s.rows
    &&& t.sizes == s.sizes
    &&& t.active == s.active
    &&& t.cursor == s.horizon()
    &&& t.distances.points == s.distances.points
    &&& t.distances.base == s.distances.base
    &&& forall|e: int| #[trigger] pending(s, e) ==> s.terms(e) is Some
    &&& forall|i: int, j: int| 0 <= i && 0 <= j ==> #[trigger] swept_distance(s, g, t, i, j)
    &&& forall|x: Candidate| #[trigger] swept_entry(s, g, t, x)
}

/// Taking in the distance of the cluster at the cursor leaves the terms
/// of every other cluster as they are.
pub proof fn lemma_terms_kept(s: State, root: u64, e: int)
    requires
        s.wf(),
        s.cursor < s.horizon(),
        0 <= e < s.horizon(),
    ensures
        s.absorb(root).terms(e) == s.terms(e),
{
    let top = s.rows.len() - 1;
    assert(row_ok(s.rows, s.points(), top));
    assert(s.rows.last() == s.rows[top]);
    let a = s.rows[top].a as int;
    let b = s.rows[top].b as int;
    lemma_absorb_wf(s, root);
    lemma_store_lookup(s.distances, s.cursor, s.horizon(), root, e, a);
    lemma_store_lookup(s.distances, s.cursor, s.horizon(), root, e, b);
    lemma_store_lookup(s.distances, s.cursor, s.horizon(), root, a, b);
}

/// What a sweep leaves does not depend on its order.
pub proof fn lemma_sweep_closed(s: State, g: spec_fn(WardTerms) -> u64)
    requires
        s.wf(),
    ensures
        match s.sweep(g) {
            Ok(t) => swept(s, g, t) && t.wf(),
            Err(e) => e == LinkageError::InternalInvariantViolation && exists|e: int|
                pending(s, e) && s.terms(e) is None,
        },
    decreases s.horizon() - s.cursor,
{
    broadcast use vstd::multiset::group_multiset_axioms;

    let i = s.cursor;
    let h = s.horizon();
    if i >= h {
        let t = s;
        assert forall|a: int, b: int| 0 <= a && 0 <= b implies #[trigger] swept_distance(
            s,
            g,
            t,
            a,
            b,
        ) by {}
        assert forall|x: Candidate| #[trigger] swept_entry(s, g, t, x) by {}
    } else {
        match s.terms(i) {
            None => {
                assert(pending(s, i) && s.terms(i) is None);
            },
            Some(tm) => {
                let r = g(tm);
                let s1 = s.absorb(r);
                lemma_absorb_wf(s, r);
                lemma_ids_fit(s.points());
                lemma_sweep_skip(s.taken(r).at(i + 1), g);
                assert(s.taken(r).at(i + 1).at(first_active(s.active, i + 1, h)) == s1);
                lemma_first_active(s.active, i + 1, h);
                lemma_sweep_closed(s1, g);
                assert forall|e: int| pending(s1, e) implies pending(s, e) && s1.terms(e)
                    == s.terms(e) by {
                    lemma_terms_kept(s, r, e);
                }
                assert forall|e: int| pending(s, e) && e != i implies pending(s1, e) by {}
                match s1.sweep(g) {
                    Err(_) => {
                        let e = choose|e: int| pending(s1, e) && s1.terms(e) is None;
                        assert(pending(s, e) && s.terms(e) is None);
                    },
                    Ok(t) => {
                        assert forall|e: int| #[trigger] pending(s, e) implies s.terms(e)
                            is Some by {
                            if e != i {
                                assert(pending(s1, e));
                            }
                        }
                        assert forall|a: int, b: int| 0 <= a && 0 <= b implies #[trigger] swept_distance(
                            s,
                            g,
                            t,
                            a,
                            b,
                        ) by {
                            assert(swept_distance(s1, g, t, a, b));
                            lemma_store_lookup(s.distances, i, h, r, a, b);
                            let lo = if a < b { a } else { b };
                            if pending(s, lo) && lo != i {
                                assert(pending(s1, lo));
                            }
                        }
                        assert forall|x: Candidate| #[trigger] swept_entry(s, g, t, x) by {
                            assert(swept_entry(s1, g, t, x));
                            if pending(s, x.lo as int) && x.lo != i {
                                assert(pending(s1, x.lo as int));
                            }
                        }
                    },
                }
            },
        }
    }
}

/// A sweep passes over inactive clusters.
pub proof fn lemma_sweep_skip(s: State, g: spec_fn(WardTerms) -> u64)
    requires
        0 <= s.cursor <= s.horizon() <= s.active.len(),
    ensures
        s.sweep(g) == s.at(first_active(s.active, s.cursor, s.horizon())).sweep(g),
    decreases s.horizon() - s.cursor,
{
    let i = s.cursor;
    if i >= s.horizon() {
        assert(s.at(i) == s);
    } else if s.active[i] {
        assert(s.at(i) == s);
    } else {
        lemma_sweep_skip(s.at(i + 1), g);
        assert(s.at(i + 1).at(first_active(s.active, i + 1, s.horizon())) == s.at(
            first_active(s.active, i, s.horizon()),
        ));
    }
}

/// Settling does not change what the clustering comes to.
pub proof fn lemma_resume_settle(s: State, g: spec_fn(WardTerms) -> u64)
    requires
        s.wf(),
    ensures
        s.resume(g) == (match s.settle() {
            Ok(t) => t.resume(g),
            Err(e) => Err(e),
        }),
    decreases s.points() - s.rows.len(),
{
    reveal(State::settle);
    if s.cursor < s.horizon() {
    } else if s.rows.len() + 1 >= s.points() {
    } else {
        match closest_live(s.queue, s.active) {
            Some(c) => {
                let m = s.merge(c);
                lemma_merge_wf(s, c);
                lemma_resume_settle(m, g);
                assert(m.remaining() + 1 == s.remaining());
            },
            None => {},
        }
    }
}

/// The answer of `g` to the request does not change what the clustering
/// comes to.
pub proof fn lemma_resume_step(s: State, g: spec_fn(WardTerms) -> u64)
    requires
        s.wf(),
        s.settled(),
        s.request() is Some,
    ensures
        s.resume(g) == (match s.step(g(s.request()->Some_0)) {
            Ok(t) => t.resume(g),
            Err(e) => Err(e),
        }),
{
    reveal(State::step);
    let t = s.request()->Some_0;
    let next = s.absorb(g(t));
    lemma_absorb_wf(s, g(t));
    lemma_sweep_skip(s.taken(g(t)).at(s.cursor + 1), g);
    assert(s.taken(g(t)).at(s.cursor + 1).at(
        first_active(s.active, s.cursor + 1, s.horizon()),
    ) == next);
    assert(next.remaining() == s.remaining());
    lemma_resume_settle(next, g);
}

/// A run whose answers are those of `g` does not change what the
/// clustering comes to.
pub proof fn lemma_resume_run<F: Fn(WardTerms) -> u64>(
    update: F,
    g: spec_fn(WardTerms) -> u64,
    first: State,
    roots: Seq<u64>,
)
    requires
        first.wf(),
        first.settled(),
        follows(update, g),
        answers(update, first, roots),
    ensures
        first.resume(g) == (match first.run(roots) {
            Ok(s) => s.resume(g),
            Err(e) => Err(e),
        }),
        first.run(roots) matches Ok(s) ==> s.wf() && s.settled(),
    decreases roots.len(),
{
    if roots.len() > 0 {
        let front = roots.drop_last();
        let k = roots.len() - 1;
        assert forall|j: int| 0 <= j < front.len() implies #[trigger] answers_at(
            update,
            first,
            front,
            j,
        ) by {
            assert(answers_at(update, first, roots, j));
            assert(front.take(j) =~= roots.take(j));
        }
        lemma_resume_run(update, g, first, front);
        assert(answers_at(update, first, roots, k));
        assert(roots.take(k) =~= front);
        let s = first.run(front)->Ok_0;
        lemma_resume_step(s, g);
        lemma_step_wf(s, roots.last());
    }
}

/// Where `update` answers as `g` does, a complete run comes to the rows
/// of the clustering merge by merge.
pub proof fn lemma_completes_resume<F: Fn(WardTerms) -> u64>(
    update: F,
    g: spec_fn(WardTerms) -> u64,
    first: State,
    roots: Seq<u64>,
    result: Result<Seq<Merge>, LinkageError>,
)
    requires
        first.wf(),
        first.settled(),
        follows(update, g),
        completes(update, first, roots, result),
    ensures
        result == (match first.resume(g) {
            Ok(t) => Ok::<Seq<Merge>, LinkageError>(t.rows),
            Err(e) => Err(e),
        }),
{
    lemma_resume_run(update, g, first, roots);
}

/// Where `update` answers as `g` does, clustering a valid input comes to
/// the rows of the clustering merge by merge.
pub proof fn lemma_linkage_rows<F: Fn(WardTerms) -> u64>(
    update: F,
    g: spec_fn(WardTerms) -> u64,
    d: Seq<u64>,
    method: Seq<char>,
    roots: Seq<u64>,
    result: Result<Seq<Merge>, LinkageError>,
)
    requires
        d.len() <= usize::MAX,
        is_valid_input(d, method),
        follows(update, g),
        completes(update, State::begin(d, method)->Ok_0, roots, result),
    ensures
        result == ward_rows(d, g),
{
    reveal(State::begin);
    let n = points_of(d.len());
    let start = State::initial(d, n);
    lemma_begin(d, method);
    lemma_initial_wf(d, n);
    lemma_resume_settle(start, g);
    lemma_completes_resume(update, g, State::begin(d, method)->Ok_0, roots, result);
}

} // verus!
