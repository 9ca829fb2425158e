//! Why the merge loop comes to its end when every distance that it is
//! given is finite: no distance is then missed, and a live pair is always
//! left to merge.

use vstd::prelude::*;
use vstd::multiset::Multiset;
use crate::cache::lemma_store_lookup;
use crate::candidate::{Candidate, at_most, lemma_at_most_transitive};
use crate::condensed::{
    pair_count, condensed_offset, lemma_pair_at_offset, lemma_offset_in_range, lemma_ids_fit,
};
use crate::distance::is_finite;
use crate::invariants::{lemma_merge_wf, lemma_absorb_wf, lemma_first_active, lemma_initial_wf};
use crate::model::{
    State, Merge, closest_live, candidate_at, joins, disjoint, row_ok, retired, accounted,
};
use crate::queue::{is_live, is_closest_live};
use crate::tally::lemma_find_two_active;

verus! {

/// Whether no row up to row `upto` joins cluster `i`.
pub open spec fn unjoined_through(rows: Seq<Merge>, i: int, upto: int) -> bool {
    forall|k: int| 0 <= k <= upto && k < rows.len() ==> !joins(#[trigger] rows[k], i)
}

/// Whether the distance between clusters `i < j` is due in state `s`: `i`
/// was active when `j` was made, and if `j` is the newest cluster, the
/// cursor has passed `i`.
pub open spec fn due(s: State, i: int, j: int) -> bool {
    &&& 0 <= i < j < s.created()
    &&& j < s.points() || j < s.horizon() || i < s.cursor
    &&& j < s.points() || unjoined_through(s.rows, i, j - s.points())
}

/// The candidate for the pair `i < j` at the distance that is known for
/// it.
pub open spec fn entry(s: State, i: int, j: int) -> Candidate {
    Candidate { dist: s.distances.lookup(i, j).unwrap(), lo: i as usize, hi: j as usize }
}

/// Whether every distance that is due is known, and queued where both
/// clusters are still active.
pub open spec fn complete(s: State) -> bool {
    &&& forall|i: int, j: int| #[trigger] due(s, i, j) ==> s.distances.lookup(i, j) is Some
    &&& forall|i: int, j: int|
        #[trigger] due(s, i, j) && s.active[i] && s.active[j] ==> s.queue.count(entry(s, i, j)) > 0
}

/// Among the live candidates of a queue that has one, one comes first.
pub proof fn lemma_closest_live_exists(q: Multiset<Candidate>, active: Seq<bool>, x: Candidate)
    requires
        q.count(x) > 0,
        is_live(x, active),
    ensures
        exists|c: Candidate| is_closest_live(q, active, c),
        closest_live(q, active) is Some,
    decreases q.len(),
{
    broadcast use vstd::multiset::group_multiset_axioms;

    if forall|y: Candidate| q.contains(y) && is_live(y, active) ==> at_most(x, y) {
        assert(is_closest_live(q, active, x));
    } else {
        let y = choose|y: Candidate| q.contains(y) && is_live(y, active) && !at_most(x, y);
        let rest = q.remove(x);
        assert(Multiset::singleton(x).subset_of(q));
        assert(rest.len() < q.len());
        lemma_closest_live_exists(rest, active, y);
        let c = choose|c: Candidate| is_closest_live(rest, active, c);
        assert(is_closest_live(q, active, c)) by {
            assert forall|z: Candidate| q.contains(z) && is_live(z, active) implies at_most(c, z) by {
                if z == x {
                    assert(rest.contains(y));
                    lemma_at_most_transitive(c, y, x);
                } else {
                    assert(rest.contains(z));
                }
            }
        }
    }
}

/// Before the first merge every pair of points has its distance and its
/// candidate.
pub proof fn lemma_initial_complete(d: Seq<u64>, n: int)
    requires
        n >= 2,
        d.len() == pair_count(n),
        d.len() <= usize::MAX,
    ensures
        complete(State::initial(d, n)),
{
    broadcast use vstd::seq_lib::group_to_multiset_ensures;

    let s = State::initial(d, n);
    lemma_ids_fit(n);
    let all = Seq::new(d.len(), |k: int| candidate_at(d, n, k));
    assert forall|i: int, j: int| #[trigger]
        due(s, i, j) && s.active[i] && s.active[j] implies s.queue.count(entry(s, i, j)) > 0 by {
        let k = condensed_offset(i, j, n);
        lemma_offset_in_range(i, j, n);
        lemma_pair_at_offset(i, j, n);
        assert(all[k] == entry(s, i, j));
        assert(all.contains(entry(s, i, j)));
    }
}

/// A merge leaves every due distance known and queued.
pub proof fn lemma_merge_complete(s: State, c: Candidate)
    requires
        s.wf(),
        complete(s),
        s.cursor >= s.horizon(),
        s.rows.len() + 1 < s.points(),
        is_closest_live(s.queue, s.active, c),
    ensures
        complete(s.merge(c)),
{
    broadcast use vstd::multiset::group_multiset_axioms;

    let n = s.points();
    let id = s.created();
    let t = s.merge(c);
    lemma_merge_wf(s, c);
    lemma_ids_fit(n);
    lemma_first_active(t.active, 0, id);
    assert forall|i: int, j: int| #[trigger] due(t, i, j) implies due(s, i, j) && j < id by {
        if j == id {
            assert(!t.active[i]);
            assert(accounted(t.active, t.rows, i));
            let k = choose|k: int| 0 <= k < t.rows.len() && joins(#[trigger] t.rows[k], i);
            assert(!joins(t.rows[k], i));
        } else if j >= n {
            assert forall|k: int| 0 <= k <= j - n && k < s.rows.len() implies !joins(
                #[trigger] s.rows[k],
                i,
            ) by {
                assert(t.rows[k] == s.rows[k]);
            }
        }
    }
    assert forall|i: int, j: int| #[trigger]
        due(t, i, j) && t.active[i] && t.active[j] implies t.queue.count(entry(t, i, j)) > 0 by {
        assert(due(s, i, j) && j < id);
        let x = entry(s, i, j);
        assert(s.queue.count(x) > 0);
        assert(is_live(x, s.active));
        assert(at_most(c, x));
        assert(x != c);
    }
}

/// Taking in a finite distance leaves every due distance known and
/// queued.
pub proof fn lemma_absorb_complete(s: State, root: u64)
    requires
        s.wf(),
        complete(s),
        s.cursor < s.horizon(),
        is_finite(root),
    ensures
        complete(s.absorb(root)),
{
    broadcast use vstd::multiset::group_multiset_axioms;

    let n = s.points();
    let i0 = s.cursor;
    let id = s.horizon();
    let t = s.absorb(root);
    lemma_absorb_wf(s, root);
    lemma_ids_fit(n);
    lemma_first_active(s.active, i0 + 1, id);
    assert forall|i: int, j: int| #[trigger] due(t, i, j) implies (i == i0 && j == id) || due(
        s,
        i,
        j,
    ) by {
        if j == id && i > i0 {
            assert(!s.active[i]);
            assert(accounted(s.active, s.rows, i));
            let k = choose|k: int| 0 <= k < s.rows.len() && joins(#[trigger] s.rows[k], i);
            assert(!joins(s.rows[k], i));
        }
    }
    assert forall|i: int, j: int| #[trigger] due(t, i, j) implies t.distances.lookup(i, j)
        is Some && (s.distances.lookup(i, j) is Some ==> t.distances.lookup(i, j)
        == s.distances.lookup(i, j)) by {
        lemma_store_lookup(s.distances, i0, id, root, i, j);
    }
    assert forall|i: int, j: int| #[trigger]
        due(t, i, j) && t.active[i] && t.active[j] implies t.queue.count(entry(t, i, j)) > 0 by {
        lemma_store_lookup(s.distances, i0, id, root, i, j);
        if !(i == i0 && j == id) {
            assert(s.queue.count(entry(s, i, j)) > 0);
        }
    }
}

/// The distances that the awaited update needs are known.
pub proof fn lemma_terms_known(s: State)
    requires
        s.wf(),
        complete(s),
        s.cursor < s.horizon(),
    ensures
        s.terms(s.cursor) is Some,
{
    let n = s.points();
    let i = s.cursor;
    let top = s.rows.len() - 1;
    let a = s.rows[top].a as int;
    let b = s.rows[top].b as int;
    assert(s.rows.last() == s.rows[top]);
    assert(row_ok(s.rows, n, top));
    assert(retired(s.active, s.rows[top]));
    assert forall|k: int| 0 <= k < top implies !joins(#[trigger] s.rows[k], a) && !joins(
        s.rows[k],
        b,
    ) by {
        assert(disjoint(s.rows[k], s.rows[top]));
    }
    assert forall|k: int| 0 <= k < s.rows.len() implies !joins(#[trigger] s.rows[k], i) by {
        assert(retired(s.active, s.rows[k]));
    }
    assert(due(s, a, b));
    if a < i {
        assert(due(s, a, i));
    } else {
        assert(due(s, i, a));
    }
    if b < i {
        assert(due(s, b, i));
    } else {
        assert(due(s, i, b));
    }
}

/// Where every due distance is known and queued, settling succeeds and
/// leaves it so.
pub proof fn lemma_settle_complete(s: State)
    requires
        s.wf(),
        complete(s),
    ensures
        s.settle() is Ok,
        complete(s.settle()->Ok_0),
    decreases s.points() - s.rows.len(),
{
    reveal(State::settle);
    if s.cursor < s.horizon() {
        lemma_terms_known(s);
    } else if s.rows.len() + 1 >= s.points() {
    } else {
        let p = lemma_find_two_active(s.active);
        let i = p.0;
        let j = p.1;
        assert forall|k: int| 0 <= k < s.rows.len() implies !joins(#[trigger] s.rows[k], i) by {
            assert(retired(s.active, s.rows[k]));
        }
        assert(due(s, i, j));
        lemma_ids_fit(s.points());
        let x = entry(s, i, j);
        assert(is_live(x, s.active));
        lemma_closest_live_exists(s.queue, s.active, x);
        let c = closest_live(s.queue, s.active)->Some_0;
        lemma_merge_wf(s, c);
        lemma_merge_complete(s, c);
        lemma_settle_complete(s.merge(c));
    }
}

/// Where every due distance is known and queued, a step with a finite
/// answer succeeds and leaves it so.
pub proof fn lemma_step_complete(s: State, root: u64)
    requires
        s.wf(),
        complete(s),
        is_finite(root),
    ensures
        s.step(root) is Ok,
        complete(s.step(root)->Ok_0),
{
    reveal(State::step);
    if s.cursor < s.horizon() {
        lemma_absorb_wf(s, root);
        lemma_absorb_complete(s, root);
        lemma_settle_complete(s.absorb(root));
    }
}

/// A clustering of a valid input begins with every due distance known
/// and queued: the first merge cannot fail.
pub proof fn lemma_begin_complete(d: Seq<u64>, n: int)
    requires
        n >= 2,
        d.len() == pair_count(n),
        d.len() <= usize::MAX,
        forall|k: int| 0 <= k < d.len() ==> is_finite(d[k]),
    ensures
        State::initial(d, n).settle() is Ok,
        complete(State::initial(d, n).settle()->Ok_0),
{
    lemma_initial_wf(d, n);
    lemma_initial_complete(d, n);
    lemma_settle_complete(State::initial(d, n));
}

} // verus!
