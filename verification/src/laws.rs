//! What holds of every clustering.

use vstd::prelude::*;
use crate::candidate::{Candidate, at_most};
use crate::condensed::{
    pair_count, condensed_offset, row_start, lemma_ids_fit, lemma_point_count_unique,
};
use crate::distance::is_finite;
use crate::invariants::{
    lemma_initial_wf, lemma_settle_wf, lemma_step_wf, lemma_finished_dendrogram, lemma_merge_wf,
    lemma_last_row_finishes,
};
use crate::queue::{is_live, is_closest_live};
use crate::model::{
    State, Merge, WardTerms, LinkageError, is_dendrogram, is_partial_dendrogram, points_of,
    has_point_count, all_finite, is_ward, is_valid_input, disjoint, closest_live, row_ok,
    made_by,
};
use crate::progress::{
    complete, due, entry, lemma_begin_complete, lemma_step_complete, lemma_initial_complete,
};
use crate::ward::{answers, answers_at, completes};

verus! {

/// A clustering begins exactly when the method is Ward's, the matrix is
/// that of two or more points and every distance is finite; the method is
/// held against this first, then the length of the matrix, then its
/// distances. It begins, after the first merge, in a well-formed state over
/// those points, in which every due distance is known.
pub proof fn lemma_begin(d: Seq<u64>, method: Seq<char>)
    requires
        d.len() <= usize::MAX,
    ensures
        !is_ward(method) ==> State::begin(d, method) == Err::<State, LinkageError>(
            LinkageError::UnsupportedMethod,
        ),
        is_ward(method) && !has_point_count(d.len()) ==> State::begin(d, method) == Err::<
            State,
            LinkageError,
        >(LinkageError::InvalidInputShape),
        is_ward(method) && has_point_count(d.len()) && !all_finite(d) ==> State::begin(d, method)
            == Err::<State, LinkageError>(LinkageError::NonFiniteInput),
        is_valid_input(d, method) ==> (State::begin(d, method) matches Ok(s) && s.wf()
            && s.settled() && complete(s) && s.points() == points_of(d.len()) && s.distances.base
            == d && s.rows.len() >= 1),
{
    reveal(State::begin);
    if is_valid_input(d, method) {
        let n = points_of(d.len());
        lemma_initial_wf(d, n);
        lemma_settle_wf(State::initial(d, n));
        lemma_begin_complete(d, n);
    }
}

/// A run in which every answer is finite does not fail: no distance is
/// missed, and a live pair is left for every merge.
pub proof fn lemma_finite_run(first: State, roots: Seq<u64>)
    requires
        first.wf(),
        first.settled(),
        complete(first),
        forall|k: int| 0 <= k < roots.len() ==> is_finite(roots[k]),
    ensures
        first.run(roots) matches Ok(s) && s.wf() && s.settled() && complete(s),
    decreases roots.len(),
{
    if roots.len() > 0 {
        let front = roots.drop_last();
        assert forall|k: int| 0 <= k < front.len() implies is_finite(front[k]) by {
            assert(front[k] == roots[k]);
        }
        lemma_finite_run(first, front);
        let s = first.run(front)->Ok_0;
        lemma_step_wf(s, roots.last());
        lemma_step_complete(s, roots.last());
    }
}

/// Every state that a run reaches from a well-formed state is well-formed,
/// over the same points.
pub proof fn lemma_run_wf(first: State, roots: Seq<u64>)
    requires
        first.wf(),
        first.settled(),
    ensures
        match first.run(roots) {
            Ok(s) => s.wf() && s.settled() && s.points() == first.points(),
            Err(e) => e == LinkageError::InternalInvariantViolation,
        },
    decreases roots.len(),
{
    if roots.len() > 0 {
        lemma_run_wf(first, roots.drop_last());
        match first.run(roots.drop_last()) {
            Ok(s) => {
                lemma_step_wf(s, roots.last());
            },
            Err(_) => {},
        }
    }
}

/// A row, once written, stays as it is.
pub proof fn lemma_rows_kept(first: State, roots: Seq<u64>)
    requires
        first.wf(),
        first.settled(),
    ensures
        first.run(roots) matches Ok(s) ==> first.rows.len() <= s.rows.len() && s.rows.take(
            first.rows.len() as int,
        ) == first.rows,
    decreases roots.len(),
{
    if roots.len() > 0 {
        lemma_rows_kept(first, roots.drop_last());
        lemma_run_wf(first, roots.drop_last());
        match first.run(roots.drop_last()) {
            Ok(s) => {
                lemma_step_wf(s, roots.last());
                match s.step(roots.last()) {
                    Ok(t) => {
                        assert(t.rows.take(first.rows.len() as int) =~= t.rows.take(
                            s.rows.len() as int,
                        ).take(first.rows.len() as int));
                    },
                    Err(_) => {},
                }
            },
            Err(_) => {},
        }
    } else {
        assert(first.rows.take(first.rows.len() as int) =~= first.rows);
    }
}

/// The first merge joins the closest pair of points: the first row of a
/// clustering of `n` points names two points at their distance in `d`,
/// and as a candidate it is at most every pair of points.
pub proof fn lemma_first_merge(d: Seq<u64>, method: Seq<char>, i: int, j: int)
    requires
        d.len() <= usize::MAX,
        is_valid_input(d, method),
        0 <= i < j < points_of(d.len()),
    ensures
        ({
            let n = points_of(d.len());
            let first = State::begin(d, method)->Ok_0.rows[0];
            &&& first.a < first.b < n
            &&& first.dist == d[condensed_offset(first.a as int, first.b as int, n)]
            &&& first.size == 2
            &&& at_most(
                Candidate { dist: first.dist, lo: first.a, hi: first.b },
                Candidate { dist: d[condensed_offset(i, j, n)], lo: i as usize, hi: j as usize },
            )
        }),
{
    reveal(State::begin);
    reveal(State::settle);
    let n = points_of(d.len());
    let s = State::initial(d, n);
    lemma_ids_fit(n);
    lemma_initial_wf(d, n);
    lemma_initial_complete(d, n);
    lemma_begin_complete(d, n);
    let c = closest_live(s.queue, s.active)->Some_0;
    assert(is_closest_live(s.queue, s.active, c));
    lemma_merge_wf(s, c);
    lemma_settle_wf(s.merge(c));
    let t = s.merge(c).settle()->Ok_0;
    assert(t.rows.take(1)[0] == t.rows[0]);
    assert(s.merge(c).rows[0] == Merge { a: c.lo, b: c.hi, dist: c.dist, size: 2 });
    assert(s.queue.count(c) > 0);
    assert(due(s, i, j));
    assert(s.queue.count(entry(s, i, j)) > 0);
    assert(is_live(entry(s, i, j), s.active));
}

/// Two points are clustered by the one merge that joins them at their
/// distance.
pub proof fn lemma_two_points(d: Seq<u64>, method: Seq<char>)
    requires
        d.len() == 1,
        is_ward(method),
        is_finite(d[0]),
    ensures
        State::begin(d, method) matches Ok(s) && s.finished() && s.rows == seq![
            Merge { a: 0, b: 1, dist: d[0], size: 2 },
        ],
{
    assert(pair_count(2) == 1) by (nonlinear_arith);
    assert(has_point_count(d.len()));
    lemma_point_count_unique(2, points_of(d.len()));
    lemma_begin(d, method);
    lemma_first_merge(d, method, 0, 1);
    let s = State::begin(d, method)->Ok_0;
    lemma_last_row_finishes(s);
    assert(condensed_offset(0, 1, 2) == 0) by {
        reveal_with_fuel(row_start, 2);
    }
    assert(s.rows =~= seq![Merge { a: 0, b: 1, dist: d[0], size: 2 }]);
}

/// A finished state is the end of its run: nothing answers it, and its
/// rows are the result.
pub proof fn lemma_finished_completes<F: Fn(WardTerms) -> u64>(
    update: F,
    first: State,
    roots: Seq<u64>,
    result: Result<Seq<Merge>, LinkageError>,
)
    requires
        first.finished(),
        completes(update, first, roots, result),
    ensures
        roots.len() == 0,
        result == Ok::<Seq<Merge>, LinkageError>(first.rows),
{
    if roots.len() > 0 {
        assert(answers_at(update, first, roots, 0));
        assert(roots.take(0) =~= Seq::<u64>::empty());
    }
}

/// The rows of every well-formed state are the first merges of a
/// clustering: each size is the sum of the two sizes joined, where an
/// single point has size one. The rows of a finished state are a
/// complete clustering: one row fewer than points, the last of which holds
/// every point.
pub proof fn lemma_rows(s: State)
    requires
        s.wf(),
    ensures
        is_partial_dendrogram(s.rows, s.points()),
        s.finished() ==> is_dendrogram(s.rows, s.points()),
{
    if s.finished() {
        lemma_finished_dendrogram(s);
    }
}

/// Every merged cluster of a complete clustering is created by one row
/// and no other: the ids from `n` to `2n - 2` are given out in the order of
/// the rows.
pub proof fn lemma_made_once(rows: Seq<Merge>, n: int, id: int, k1: int, k2: int)
    requires
        is_dendrogram(rows, n),
        n <= id <= 2 * n - 2,
        made_by(n, k1) == id,
        made_by(n, k2) == id,
    ensures
        0 <= id - n < rows.len(),
        made_by(n, id - n) == id,
        k1 == k2,
{
}

/// A cluster is merged away at most once, and only by a row that comes
/// after the row that created it: if rows `k1` and `k2` both join cluster
/// `id`, they are one row, and `id` is older than the cluster that the
/// row creates.
pub proof fn lemma_joined_once(rows: Seq<Merge>, n: int, id: int, k1: int, k2: int)
    requires
        is_partial_dendrogram(rows, n),
        0 <= k1 < rows.len(),
        0 <= k2 < rows.len(),
        rows[k1].a == id || rows[k1].b == id,
        rows[k2].a == id || rows[k2].b == id,
    ensures
        k1 == k2,
        id < n + k1,
{
    assert(row_ok(rows, n, k1));
    if k1 < k2 {
        assert(disjoint(rows[k1], rows[k2]));
    } else if k2 < k1 {
        assert(disjoint(rows[k2], rows[k1]));
    }
}

/// Whether `update` has one answer only to each request.
pub open spec fn answers_in_one_way<F: Fn(WardTerms) -> u64>(update: F) -> bool {
    forall|t: WardTerms, x: u64, y: u64|
        call_ensures(update, (t,), x) && call_ensures(update, (t,), y) ==> x == y
}

proof fn lemma_prefixes_agree<F: Fn(WardTerms) -> u64>(
    update: F,
    first: State,
    roots1: Seq<u64>,
    roots2: Seq<u64>,
    k: int,
)
    requires
        answers_in_one_way(update),
        answers(update, first, roots1),
        answers(update, first, roots2),
        0 <= k <= roots1.len(),
        k <= roots2.len(),
    ensures
        roots1.take(k) == roots2.take(k),
    decreases k,
{
    if k == 0 {
        assert(roots1.take(0) =~= roots2.take(0));
    } else {
        lemma_prefixes_agree(update, first, roots1, roots2, k - 1);
        assert(answers_at(update, first, roots1, k - 1));
        assert(answers_at(update, first, roots2, k - 1));
        assert(roots1.take(k) =~= roots1.take(k - 1).push(roots1[k - 1]));
        assert(roots2.take(k) =~= roots2.take(k - 1).push(roots2[k - 1]));
    }
}

/// Clustering is a function of its input: where `update` has one answer
/// only to each request, two complete runs from one state are given the
/// same answers and come to the same result.
pub proof fn lemma_outcome_unique<F: Fn(WardTerms) -> u64>(
    update: F,
    first: State,
    roots1: Seq<u64>,
    roots2: Seq<u64>,
    result1: Result<Seq<Merge>, LinkageError>,
    result2: Result<Seq<Merge>, LinkageError>,
)
    requires
        answers_in_one_way(update),
        completes(update, first, roots1, result1),
        completes(update, first, roots2, result2),
    ensures
        roots1 == roots2,
        result1 == result2,
{
    let len1 = roots1.len() as int;
    let len2 = roots2.len() as int;
    assert(roots1.take(len1) =~= roots1);
    assert(roots2.take(len2) =~= roots2);
    if len1 < len2 {
        lemma_prefixes_agree(update, first, roots1, roots2, len1);
        assert(answers_at(update, first, roots2, len1));
    } else if len2 < len1 {
        lemma_prefixes_agree(update, first, roots1, roots2, len2);
        assert(answers_at(update, first, roots1, len2));
    } else {
        lemma_prefixes_agree(update, first, roots1, roots2, len1);
    }
}

} // verus!
