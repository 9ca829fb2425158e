//! Ward clustering in one call.

use vstd::prelude::*;
use crate::clustering::Clustering;
use crate::distance::is_finite;
use crate::laws::{lemma_begin, lemma_two_points, lemma_finished_completes};
use crate::model::{
    State, Merge, WardTerms, LinkageError, is_dendrogram, points_of, is_ward, has_point_count,
    all_finite, is_valid_input,
};
use crate::progress::complete;
use crate::rounds::{follows, ward_rows, lemma_linkage_rows};

verus! {

/// Whether `roots` are answers that `update` may give, in turn, to the
/// requests of a run from `first`.
pub open spec fn answers<F: Fn(WardTerms) -> u64>(update: F, first: State, roots: Seq<u64>) -> bool {
    forall|k: int| 0 <= k < roots.len() ==> #[trigger] answers_at(update, first, roots, k)
}

/// Whether `roots[k]` is an answer that `update` may give to the request
/// of the state that the `k` answers before it lead to.
pub open spec fn answers_at<F: Fn(WardTerms) -> u64>(
    update: F,
    first: State,
    roots: Seq<u64>,
    k: int,
) -> bool {
    match first.run(roots.take(k)) {
        Ok(s) => s.request() matches Some(t) && call_ensures(update, (t,), roots[k]),
        Err(_) => false,
    }
}

/// Whether `result` is what a run from `first` comes to when `update`
/// gives the answers `roots`: the rows of the finished state, or the
/// error that ended the run.
pub open spec fn completes<F: Fn(WardTerms) -> u64>(
    update: F,
    first: State,
    roots: Seq<u64>,
    result: Result<Seq<Merge>, LinkageError>,
) -> bool {
    &&& answers(update, first, roots)
    &&& match first.run(roots) {
        Ok(s) => s.finished() && result == Ok::<Seq<Merge>, LinkageError>(s.rows),
        Err(e) => result == Err::<Seq<Merge>, LinkageError>(e),
    }
}

/// The rows of a result as a sequence.
pub open spec fn rows_of(r: Result<Vec<Merge>, LinkageError>) -> Result<Seq<Merge>, LinkageError> {
    match r {
        Ok(rows) => Ok(rows@),
        Err(e) => Err(e),
    }
}

/// Whether every answer of `update` is finite.
pub open spec fn answers_finitely<F: Fn(WardTerms) -> u64>(update: F) -> bool {
    forall|t: WardTerms, x: u64| call_ensures(update, (t,), x) ==> is_finite(x)
}

/// Whether `r` is the error `e`.
pub open spec fn fails_with(r: Result<Vec<Merge>, LinkageError>, e: LinkageError) -> bool {
    r matches Err(x) && x == e
}

/// One more answer to the request of the state that the answers so far
/// have led to is an answer again.
pub proof fn lemma_answers_extend<F: Fn(WardTerms) -> u64>(
    update: F,
    first: State,
    roots: Seq<u64>,
    root: u64,
)
    requires
        answers(update, first, roots),
        first.run(roots) matches Ok(s) && s.request() matches Some(t) && call_ensures(
            update,
            (t,),
            root,
        ),
    ensures
        answers(update, first, roots.push(root)),
        first.run(roots.push(root)) == first.run(roots).unwrap().step(root),
{
    let more = roots.push(root);
    assert(more.drop_last() =~= roots);
    assert forall|k: int| 0 <= k < more.len() implies #[trigger] answers_at(
        update,
        first,
        more,
        k,
    ) by {
        if k < roots.len() {
            assert(answers_at(update, first, roots, k));
            assert(more.take(k) =~= roots.take(k));
        } else {
            assert(more.take(k) =~= roots);
        }
    }
}

/// Clusters the points whose condensed distance matrix is `d` by Ward's
/// method. `d` holds binary64 bit patterns, and `update` is asked for the
/// bit pattern of each new distance: the square root of the Lance–Williams
/// combination of the terms it is given. A root that is not finite stands
/// for a combination that is negative or not finite, and is dropped.
///
/// Returns the merges in the order in which they were made. Fails with
/// `UnsupportedMethod` if `method` is not `"ward"`; else with
/// `InvalidInputShape` if `d` is not the condensed matrix of two or more
/// points; else with `NonFiniteInput` if a distance in `d` is not finite;
/// and with `InternalInvariantViolation` only after `update` has given a
/// root that is not finite.
pub fn linkage<F: Fn(WardTerms) -> u64>(d: &[u64], method: &str, update: F) -> (r: Result<
    Vec<Merge>,
    LinkageError,
>)
    requires
        forall|t: WardTerms| call_requires(update, (t,)),
    ensures
        match State::begin(d@, method@) {
            Ok(first) => exists|roots: Seq<u64>| completes(update, first, roots, rows_of(r)),
            Err(e) => r matches Err(x) && x == e,
        },
        r matches Ok(rows) ==> is_dendrogram(rows@, points_of(d@.len())),
        !is_ward(method@) ==> fails_with(r, LinkageError::UnsupportedMethod),
        is_ward(method@) && !has_point_count(d@.len()) ==> fails_with(
            r,
            LinkageError::InvalidInputShape,
        ),
        is_ward(method@) && has_point_count(d@.len()) && !all_finite(d@) ==> fails_with(
            r,
            LinkageError::NonFiniteInput,
        ),
        is_valid_input(d@, method@) ==> r is Ok || (fails_with(
            r,
            LinkageError::InternalInvariantViolation,
        ) && !answers_finitely(update)),
        d@.len() == 1 && is_valid_input(d@, method@) ==> rows_of(r) == Ok::<
            Seq<Merge>,
            LinkageError,
        >(seq![Merge { a: 0, b: 1, dist: d@[0], size: 2 }]),
        forall|g: spec_fn(WardTerms) -> u64|
            is_valid_input(d@, method@) && #[trigger] follows(update, g) ==> rows_of(r)
                == ward_rows(d@, g),
{
    let m: usize = d.len();
    proof {
        lemma_begin(d@, method@);
    }
    let mut st = match Clustering::start(d, method) {
        Ok(st) => st,
        Err(e) => {
            return Err(e);
        },
    };
    let ghost first = st@;
    let ghost mut roots: Seq<u64> = Seq::empty();
    loop
        invariant
            st.wf(),
            State::begin(d@, method@) == Ok::<State, LinkageError>(first),
            first.run(roots) == Ok::<State, LinkageError>(st@),
            answers(update, first, roots),
            st@.points() == points_of(d@.len()),
            m == d@.len(),
            is_valid_input(d@, method@),
            answers_finitely(update) ==> complete(st@),
            forall|t: WardTerms| call_requires(update, (t,)),
        decreases st@.points() - st@.rows.len(), st@.horizon() - st@.cursor,
    {
        proof {
            st.lemma_bounds();
        }
        match st.request() {
            None => {
                let rows = st.into_rows();
                let out: Result<Vec<Merge>, LinkageError> = Ok(rows);
                assert(completes(update, State::begin(d@, method@)->Ok_0, roots, rows_of(out)));
                proof {
                    if d@.len() == 1 {
                        lemma_two_points(d@, method@);
                        lemma_finished_completes(update, first, roots, rows_of(out));
                    }
                    assert forall|g: spec_fn(WardTerms) -> u64| #[trigger]
                        follows(update, g) implies rows_of(out) == ward_rows(d@, g) by {
                        lemma_linkage_rows(update, g, d@, method@, roots, rows_of(out));
                    }
                }
                return out;
            },
            Some(t) => {
                let root = update(t);
                proof {
                    lemma_answers_extend(update, first, roots, root);
                    roots = roots.push(root);
                }
                match st.supply(root) {
                    Ok(next) => {
                        proof {
                            next.lemma_bounds();
                        }
                        st = next;
                    },
                    Err(e) => {
                        let out: Result<Vec<Merge>, LinkageError> = Err(e);
                        assert(completes(
                            update,
                            State::begin(d@, method@)->Ok_0,
                            roots,
                            rows_of(out),
                        ));
                        proof {
                            if d@.len() == 1 {
                                lemma_two_points(d@, method@);
                                lemma_finished_completes(update, first, roots, rows_of(out));
                            }
                            assert forall|g: spec_fn(WardTerms) -> u64| #[trigger]
                                follows(update, g) implies rows_of(out) == ward_rows(d@, g) by {
                                lemma_linkage_rows(update, g, d@, method@, roots, rows_of(out));
                            }
                        }
                        return out;
                    },
                }
            },
        }
    }
}

} // verus!
