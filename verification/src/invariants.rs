//! Proofs that the merge loop keeps its states well-formed.

use vstd::prelude::*;
use vstd::multiset::Multiset;
use crate::cache::lemma_store_lookup;
use crate::candidate::{Candidate, lemma_at_most_antisymmetric};
use crate::condensed::{pair_count, lemma_offset_pair_at, lemma_ids_fit};
use crate::distance::is_finite;
use crate::model::{
    State, LinkageError, closest_live, candidate_at, cluster_size, is_dendrogram, disjoint,
    first_active, joins, row_ok, retired, accounted,
};
use crate::queue::{is_live, is_closest_live};
use crate::tally::{
    lemma_count_flag, lemma_mass_flag, lemma_mass_size, lemma_mass_two, lemma_single, lemma_prefix,
};

verus! {

/// The closest live candidate is unique.
pub proof fn lemma_closest_live_is(q: Multiset<Candidate>, active: Seq<bool>, c: Candidate)
    requires
        is_closest_live(q, active, c),
    ensures
        closest_live(q, active) == Some(c),
{
    let other = choose|x: Candidate| is_closest_live(q, active, x);
    lemma_at_most_antisymmetric(c, other);
}

/// Where nothing in the queue is live there is no closest live candidate.
pub proof fn lemma_closest_live_none(q: Multiset<Candidate>, active: Seq<bool>)
    requires
        forall|x: Candidate| q.contains(x) ==> !is_live(x, active),
    ensures
        closest_live(q, active) is None,
{
}

/// `first_active` stops at a set flag, or at the limit, and passes over
/// clear flags only.
pub proof fn lemma_first_active(active: Seq<bool>, from: int, limit: int)
    requires
        0 <= from <= limit <= active.len(),
    ensures
        from <= first_active(active, from, limit) <= limit,
        first_active(active, from, limit) < limit ==> active[first_active(active, from, limit)],
        forall|i: int| from <= i < first_active(active, from, limit) ==> !active[i],
    decreases limit - from,
{
    if from < limit && !active[from] {
        lemma_first_active(active, from + 1, limit);
    }
}

/// The two clusters of the closest live candidate exist, differ and hold
/// no more than all points between them.
pub proof fn lemma_closest_pair(s: State, c: Candidate)
    requires
        s.wf(),
        is_closest_live(s.queue, s.active, c),
    ensures
        c.lo < c.hi < s.created(),
        s.active[c.lo as int],
        s.active[c.hi as int],
        is_finite(c.dist),
        s.sizes[c.lo as int] + s.sizes[c.hi as int] <= s.points(),
        s.points() <= usize::MAX,
{
    assert(s.queue.count(c) > 0);
    lemma_ids_fit(s.points());
    lemma_mass_two(s.sizes, s.active, c.lo as int, c.hi as int);
}

proof fn lemma_merge_tally(s: State, c: Candidate)
    requires
        s.wf(),
        s.rows.len() + 1 < s.points(),
        is_closest_live(s.queue, s.active, c),
    ensures
        s.merge(c).tally_ok(),
{
    let n = s.points();
    let lo = c.lo as int;
    let hi = c.hi as int;
    let id = s.created();
    let t = s.merge(c);
    lemma_closest_pair(s, c);
    let size = (s.sizes[lo] + s.sizes[hi]) as usize;
    let a0 = s.active.update(lo, false);
    let a1 = a0.update(hi, false);
    let z1 = s.sizes.update(id, size);
    assert(!s.active[id]);
    lemma_count_flag(s.active, lo, false);
    lemma_count_flag(a0, hi, false);
    lemma_count_flag(a1, id, true);
    lemma_mass_size(s.sizes, s.active, id, size);
    lemma_mass_flag(z1, s.active, lo, false);
    lemma_mass_flag(z1, a0, hi, false);
    lemma_mass_flag(z1, a1, id, true);
    assert forall|i: int| 0 <= i < t.created() implies (#[trigger] t.sizes[i]) == cluster_size(
        t.rows,
        n,
        i,
    ) by {
        if i < id {
            assert(s.sizes[i] == cluster_size(s.rows, n, i));
            if i >= n {
                assert(t.rows[i - n] == s.rows[i - n]);
            }
        }
    }
}

proof fn lemma_merge_rows(s: State, c: Candidate)
    requires
        s.wf(),
        s.rows.len() + 1 < s.points(),
        is_closest_live(s.queue, s.active, c),
    ensures
        s.merge(c).rows_ok(),
{
    let n = s.points();
    let lo = c.lo as int;
    let hi = c.hi as int;
    let id = s.created();
    let top = s.rows.len() as int;
    let t = s.merge(c);
    lemma_closest_pair(s, c);
    assert(s.sizes[lo] == cluster_size(s.rows, n, lo));
    assert(s.sizes[hi] == cluster_size(s.rows, n, hi));
    assert forall|k: int| 0 <= k < t.rows.len() implies #[trigger] row_ok(t.rows, n, k) by {
        if k < top {
            assert(row_ok(s.rows, n, k));
            let r = s.rows[k];
            assert(t.rows[k] == r);
            if r.a >= n {
                assert(t.rows[r.a - n] == s.rows[r.a - n]);
            }
            if r.b >= n {
                assert(t.rows[r.b - n] == s.rows[r.b - n]);
            }
        } else {
            if lo >= n {
                assert(t.rows[lo - n] == s.rows[lo - n]);
            }
            if hi >= n {
                assert(t.rows[hi - n] == s.rows[hi - n]);
            }
        }
    }
    assert forall|k1: int, k2: int| 0 <= k1 < k2 < t.rows.len() implies #[trigger] disjoint(
        t.rows[k1],
        t.rows[k2],
    ) by {
        assert(t.rows[k1] == s.rows[k1]);
        if k2 < top {
            assert(t.rows[k2] == s.rows[k2]);
            assert(disjoint(s.rows[k1], s.rows[k2]));
        } else {
            assert(retired(s.active, s.rows[k1]));
        }
    }
    assert forall|k: int| 0 <= k < t.rows.len() implies #[trigger] retired(t.active, t.rows[k]) by {
        if k < top {
            assert(t.rows[k] == s.rows[k]);
            assert(retired(s.active, s.rows[k]));
            assert(row_ok(s.rows, n, k));
        }
    }
    assert forall|i: int| 0 <= i < t.created() implies #[trigger] accounted(
        t.active,
        t.rows,
        i,
    ) by {
        if i == lo || i == hi {
            assert(joins(t.rows[top], i));
        } else if i < id {
            assert(accounted(s.active, s.rows, i));
            if !s.active[i] {
                let k = choose|k: int| 0 <= k < s.rows.len() && joins(#[trigger] s.rows[k], i);
                assert(t.rows[k] == s.rows[k]);
                assert(joins(t.rows[k], i));
            }
        }
    }
}

proof fn lemma_merge_rest(s: State, c: Candidate)
    requires
        s.wf(),
        s.cursor >= s.horizon(),
        s.rows.len() + 1 < s.points(),
        is_closest_live(s.queue, s.active, c),
    ensures
        s.merge(c).shape_ok(),
        s.merge(c).queue_ok(),
        s.merge(c).cache_ok(),
{
    broadcast use vstd::multiset::group_multiset_axioms;

    let t = s.merge(c);
    lemma_closest_pair(s, c);
    lemma_first_active(t.active, 0, t.horizon());
    assert forall|x: Candidate| #[trigger] t.queue.count(x) > 0 implies {
        &&& x.lo < x.hi < t.created()
        &&& is_finite(x.dist)
        &&& t.distances.lookup(x.lo as int, x.hi as int) == Some(x.dist)
    } by {
        assert(s.queue.count(x) > 0);
    }
}

/// A merge of the closest live pair keeps the state well-formed.
pub proof fn lemma_merge_wf(s: State, c: Candidate)
    requires
        s.wf(),
        s.cursor >= s.horizon(),
        s.rows.len() + 1 < s.points(),
        is_closest_live(s.queue, s.active, c),
    ensures
        s.merge(c).wf(),
        s.merge(c).rows.len() == s.rows.len() + 1,
        s.merge(c).distances == s.distances,
        s.sizes[c.lo as int] + s.sizes[c.hi as int] <= s.points(),
        c.lo < c.hi < s.created(),
{
    lemma_closest_pair(s, c);
    lemma_merge_tally(s, c);
    lemma_merge_rows(s, c);
    lemma_merge_rest(s, c);
}

/// Taking in an awaited distance keeps the state well-formed and moves
/// the cursor on.
pub proof fn lemma_absorb_wf(s: State, root: u64)
    requires
        s.wf(),
        s.cursor < s.horizon(),
    ensures
        s.absorb(root).wf(),
        s.absorb(root).rows == s.rows,
        s.absorb(root).sizes == s.sizes,
        s.absorb(root).active == s.active,
        s.absorb(root).cursor > s.cursor,
        s.distances.vacant(s.cursor, s.horizon()),
        s.absorb(root).distances.points == s.distances.points,
        s.absorb(root).distances.base == s.distances.base,
{
    broadcast use vstd::multiset::group_multiset_axioms;

    let n = s.points();
    let i = s.cursor;
    let id = s.horizon();
    let t = s.absorb(root);
    lemma_ids_fit(n);
    assert(s.distances.vacant(i, id));
    lemma_first_active(s.active, i + 1, id);
    if is_finite(root) {
        let fresh = Candidate { dist: root, lo: i as usize, hi: id as usize };
        lemma_store_lookup(s.distances, i, id, root, 0, 0);
        assert(t.queue_ok()) by {
            assert forall|x: Candidate| #[trigger] t.queue.count(x) > 0 implies {
                &&& x.lo < x.hi < t.created()
                &&& is_finite(x.dist)
                &&& t.distances.lookup(x.lo as int, x.hi as int) == Some(x.dist)
            } by {
                if x != fresh {
                    assert(s.queue.count(x) > 0);
                    lemma_store_lookup(s.distances, i, id, root, x.lo as int, x.hi as int);
                }
            }
        }
        assert(t.cache_ok());
        assert(t.shape_ok());
    }
}

/// Settling keeps the state well-formed, and leaves it settled.
pub proof fn lemma_settle_wf(s: State)
    requires
        s.wf(),
    ensures
        match s.settle() {
            Ok(t) => {
                &&& t.wf()
                &&& t.settled()
                &&& t.points() == s.points()
                &&& t.distances.base == s.distances.base
                &&& t.rows.len() >= s.rows.len()
                &&& t.rows.take(s.rows.len() as int) == s.rows
                &&& t.rows.len() == s.rows.len() ==> t == s
            },
            Err(e) => e == LinkageError::InternalInvariantViolation,
        },
    decreases s.points() - s.rows.len(),
{
    reveal(State::settle);
    if s.cursor < s.horizon() {
        assert(s.rows.take(s.rows.len() as int) =~= s.rows);
    } else if s.rows.len() + 1 >= s.points() {
        assert(s.rows.take(s.rows.len() as int) =~= s.rows);
    } else {
        match closest_live(s.queue, s.active) {
            Some(c) => {
                let m = s.merge(c);
                lemma_merge_wf(s, c);
                lemma_settle_wf(m);
                match m.settle() {
                    Ok(t) => {
                        assert(t.rows.take(s.rows.len() as int) =~= t.rows.take(
                            m.rows.len() as int,
                        ).take(s.rows.len() as int));
                        assert(m.rows.take(s.rows.len() as int) =~= s.rows);
                    },
                    Err(_) => {},
                }
            },
            None => {},
        }
    }
}

/// A step keeps the state well-formed and settled, and brings the loop
/// nearer its end: a row is added, or the cursor moves on.
pub proof fn lemma_step_wf(s: State, root: u64)
    requires
        s.wf(),
        s.settled(),
    ensures
        match s.step(root) {
            Ok(t) => {
                &&& t.wf()
                &&& t.settled()
                &&& t.points() == s.points()
                &&& t.distances.base == s.distances.base
                &&& t.rows.len() >= s.rows.len()
                &&& t.rows.take(s.rows.len() as int) == s.rows
                &&& s.cursor < s.horizon() ==> t.rows.len() > s.rows.len() || (t.rows.len()
                    == s.rows.len() && t.cursor > s.cursor)
            },
            Err(e) => e == LinkageError::InternalInvariantViolation,
        },
{
    reveal(State::step);
    if s.cursor < s.horizon() {
        lemma_absorb_wf(s, root);
        lemma_settle_wf(s.absorb(root));
    } else {
        assert(s.rows.take(s.rows.len() as int) =~= s.rows);
    }
}

/// The state before the first merge is well-formed.
pub proof fn lemma_initial_wf(d: Seq<u64>, n: int)
    requires
        n >= 2,
        d.len() == pair_count(n),
        d.len() <= usize::MAX,
        forall|k: int| 0 <= k < d.len() ==> is_finite(d[k]),
    ensures
        State::initial(d, n).wf(),
{
    broadcast use vstd::seq_lib::group_to_multiset_ensures;

    let s = State::initial(d, n);
    lemma_ids_fit(n);
    lemma_prefix(s.sizes, s.active, n);
    assert(s.queue_ok()) by {
        let all = Seq::new(d.len(), |k: int| candidate_at(d, n, k));
        assert forall|c: Candidate| #[trigger] s.queue.count(c) > 0 implies {
            &&& c.lo < c.hi < s.created()
            &&& is_finite(c.dist)
            &&& s.distances.lookup(c.lo as int, c.hi as int) == Some(c.dist)
        } by {
            assert(all.contains(c));
            let k = choose|k: int| 0 <= k < all.len() && all[k] == c;
            lemma_offset_pair_at(k, n);
        }
    }
}

/// A well-formed state that holds the last row awaits nothing more.
pub proof fn lemma_last_row_finishes(s: State)
    requires
        s.wf(),
        s.rows.len() == s.points() - 1,
    ensures
        s.finished(),
{
    lemma_single(s.sizes, s.active, 2 * s.points() - 2);
}

/// The rows of a finished state are a complete clustering.
pub proof fn lemma_finished_dendrogram(s: State)
    requires
        s.wf(),
        s.finished(),
    ensures
        is_dendrogram(s.rows, s.points()),
{
    let n = s.points();
    lemma_single(s.sizes, s.active, 2 * n - 2);
    assert(s.sizes[2 * n - 2] == cluster_size(s.rows, n, 2 * n - 2));
    assert(s.rows.last() == s.rows[n - 2]);
}

} // verus!
