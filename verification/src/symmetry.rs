//! Clustering and the names of the points: exchanging the labels of two
//! points exchanges them in the result and changes nothing else, as long as
//! no merge has to choose between two pairs at the same distance.

use vstd::prelude::*;
use crate::candidate::{Candidate, at_most};
use crate::condensed::{
    pair_count, pair_at, condensed_offset, lemma_ids_fit, lemma_offset_in_range,
    lemma_pair_at_offset, lemma_offset_pair_at,
};
use crate::distance::{is_finite, rank};
use crate::invariants::{
    lemma_closest_live_is, lemma_closest_pair, lemma_merge_wf, lemma_first_active,
    lemma_initial_wf,
};
use crate::model::{
    State, Merge, WardTerms, LinkageError, closest_live, row_ok, candidate_at, has_point_count,
    all_finite, points_of,
};
use crate::progress::lemma_closest_live_exists;
use crate::queue::{is_live, is_closest_live};
use crate::rounds::{pending, fresh, swept_distance, swept_entry, ward_rows, lemma_sweep_closed};

verus! {

/// The label of cluster `i` after the labels `p` and `q` are exchanged.
pub open spec fn swap_id(p: int, q: int, i: int) -> int {
    if i == p {
        q
    } else if i == q {
        p
    } else {
        i
    }
}

/// The candidate for the same pair under the exchanged labels.
pub open spec fn mirror(p: int, q: int, c: Candidate) -> Candidate {
    let lo = swap_id(p, q, c.lo as int);
    let hi = swap_id(p, q, c.hi as int);
    if lo < hi {
        Candidate { dist: c.dist, lo: lo as usize, hi: hi as usize }
    } else {
        Candidate { dist: c.dist, lo: hi as usize, hi: lo as usize }
    }
}

/// The merge of the same two clusters under the exchanged labels.
pub open spec fn mirror_row(p: int, q: int, r: Merge) -> Merge {
    let a = swap_id(p, q, r.a as int);
    let b = swap_id(p, q, r.b as int);
    if a < b {
        Merge { a: a as usize, b: b as usize, dist: r.dist, size: r.size }
    } else {
        Merge { a: b as usize, b: a as usize, dist: r.dist, size: r.size }
    }
}

/// The terms with the two merged clusters in the other order.
pub open spec fn flip(t: WardTerms) -> WardTerms {
    WardTerms {
        size_a: t.size_b,
        size_b: t.size_a,
        size_i: t.size_i,
        d_ai: t.d_bi,
        d_bi: t.d_ai,
        d_ab: t.d_ab,
    }
}

/// Whether `g` does not depend on the order of the two merged clusters,
/// wherever it gives a finite distance.
pub open spec fn unbiased(g: spec_fn(WardTerms) -> u64) -> bool {
    forall|t: WardTerms|
        is_finite(g(t)) ==> #[trigger] g(flip(t)) == g(t)
}

/// Cluster `i` has in `s` the size and the flag that its exchanged label
/// has in `t`.
pub open spec fn same_cluster(s: State, t: State, p: int, q: int, i: int) -> bool {
    &&& t.sizes[swap_id(p, q, i)] == s.sizes[i]
    &&& t.active[swap_id(p, q, i)] == s.active[i]
}

/// Clusters `i` and `j` have in `s` the distance that their exchanged
/// labels have in `t`.
pub open spec fn same_distance(s: State, t: State, p: int, q: int, i: int, j: int) -> bool {
    t.distances.lookup(swap_id(p, q, i), swap_id(p, q, j)) == s.distances.lookup(i, j)
}

/// The candidate `x` waits in `s` as often as its mirror image in `t`.
pub open spec fn same_count(s: State, t: State, p: int, q: int, x: Candidate) -> bool {
    t.queue.count(mirror(p, q, x)) == s.queue.count(x)
}

/// Whether `t` is `s` with the labels of the points `p` and `q` exchanged:
/// the same rows, sizes, flags and distances under the exchanged labels,
/// and the same live candidates.
pub open spec fn mirrors(s: State, t: State, p: int, q: int) -> bool {
    &&& 0 <= p < q < s.points()
    &&& s.points() == t.points()
    &&& s.rows.len() == t.rows.len()
    &&& forall|k: int|
        0 <= k < s.rows.len() ==> #[trigger] t.rows[k] == mirror_row(p, q, s.rows[k])
    &&& forall|i: int| 0 <= i < s.sizes.len() ==> #[trigger] same_cluster(s, t, p, q, i)
    &&& forall|i: int, j: int| 0 <= i && 0 <= j ==> #[trigger] same_distance(s, t, p, q, i, j)
    &&& forall|x: Candidate|
        x.lo < x.hi && is_live(x, s.active) ==> #[trigger] same_count(s, t, p, q, x)
}

/// Whether `c` is closer than every other live candidate of `s`.
pub open spec fn strictly_closest(s: State, c: Candidate) -> bool {
    forall|x: Candidate|
        #[trigger] s.queue.count(x) > 0 && is_live(x, s.active) && x != c ==> rank(x.dist) != rank(
            c.dist,
        )
}

/// Exchanging the labels twice changes nothing.
pub proof fn lemma_mirror_twice(p: int, q: int, c: Candidate)
    requires
        0 <= p < q <= usize::MAX,
        c.lo < c.hi,
    ensures
        mirror(p, q, mirror(p, q, c)) == c,
        mirror(p, q, c).lo < mirror(p, q, c).hi,
        mirror(p, q, c).dist == c.dist,
{
}

/// A candidate is live in `s` exactly when its mirror image is live in
/// `t`.
pub proof fn lemma_mirror_live(s: State, t: State, p: int, q: int, c: Candidate)
    requires
        s.shape_ok(),
        t.shape_ok(),
        mirrors(s, t, p, q),
        c.lo < c.hi,
    ensures
        is_live(mirror(p, q, c), t.active) == is_live(c, s.active),
{
    lemma_ids_fit(s.points());
    if c.hi < s.active.len() {
        assert(same_cluster(s, t, p, q, c.lo as int));
        assert(same_cluster(s, t, p, q, c.hi as int));
    }
}

/// The closest live candidate of `t` is the mirror image of that of
/// `s`, where that one is closer than every other.
pub proof fn lemma_closest_mirror(s: State, t: State, p: int, q: int, c: Candidate)
    requires
        s.wf(),
        t.wf(),
        mirrors(s, t, p, q),
        is_closest_live(s.queue, s.active, c),
        strictly_closest(s, c),
    ensures
        is_closest_live(t.queue, t.active, mirror(p, q, c)),
        closest_live(t.queue, t.active) == Some(mirror(p, q, c)),
{
    let c2 = mirror(p, q, c);
    lemma_ids_fit(s.points());
    lemma_closest_pair(s, c);
    lemma_mirror_live(s, t, p, q, c);
    assert(same_count(s, t, p, q, c));
    assert forall|y: Candidate| t.queue.contains(y) && is_live(y, t.active) implies at_most(
        c2,
        y,
    ) by {
        assert(t.queue.count(y) > 0);
        let x = mirror(p, q, y);
        lemma_mirror_twice(p, q, y);
        lemma_mirror_live(s, t, p, q, x);
        assert(same_count(s, t, p, q, x));
        assert(s.queue.count(x) > 0);
        if x != c {
            assert(at_most(c, x));
            assert(rank(x.dist) != rank(c.dist));
        }
    }
    lemma_closest_live_is(t.queue, t.active, c2);
}

/// Where `s` has no live candidate, `t` has none.
pub proof fn lemma_none_mirror(s: State, t: State, p: int, q: int)
    requires
        s.wf(),
        t.wf(),
        mirrors(s, t, p, q),
        closest_live(s.queue, s.active) is None,
    ensures
        closest_live(t.queue, t.active) is None,
{
    lemma_ids_fit(s.points());
    if closest_live(t.queue, t.active) is Some {
        let y = closest_live(t.queue, t.active)->Some_0;
        assert(is_closest_live(t.queue, t.active, y));
        assert(t.queue.count(y) > 0);
        let x = mirror(p, q, y);
        lemma_mirror_twice(p, q, y);
        lemma_mirror_live(s, t, p, q, x);
        assert(same_count(s, t, p, q, x));
        lemma_closest_live_exists(s.queue, s.active, x);
    }
}

/// Merging mirror images of one pair keeps the states mirror images.
pub proof fn lemma_merge_mirror(s: State, t: State, p: int, q: int, c: Candidate)
    requires
        s.wf(),
        t.wf(),
        mirrors(s, t, p, q),
        s.cursor >= s.horizon(),
        t.cursor >= t.horizon(),
        s.rows.len() + 1 < s.points(),
        is_closest_live(s.queue, s.active, c),
        is_closest_live(t.queue, t.active, mirror(p, q, c)),
    ensures
        mirrors(s.merge(c), t.merge(mirror(p, q, c)), p, q),
{
    broadcast use vstd::multiset::group_multiset_axioms;

    let c2 = mirror(p, q, c);
    let m = s.merge(c);
    let m2 = t.merge(c2);
    let id = s.created();
    let top = s.rows.len() as int;
    lemma_ids_fit(s.points());
    lemma_closest_pair(s, c);
    lemma_closest_pair(t, c2);
    assert(same_cluster(s, t, p, q, c.lo as int));
    assert(same_cluster(s, t, p, q, c.hi as int));
    assert forall|k: int| 0 <= k < m.rows.len() implies #[trigger] m2.rows[k] == mirror_row(
        p,
        q,
        m.rows[k],
    ) by {
        if k < top {
            assert(t.rows[k] == mirror_row(p, q, s.rows[k]));
        }
    }
    assert forall|i: int| 0 <= i < m.sizes.len() implies #[trigger] same_cluster(m, m2, p, q, i) by {
        assert(same_cluster(s, t, p, q, i));
    }
    assert forall|i: int, j: int| 0 <= i && 0 <= j implies #[trigger] same_distance(
        m,
        m2,
        p,
        q,
        i,
        j,
    ) by {
        assert(same_distance(s, t, p, q, i, j));
    }
    assert forall|x: Candidate| x.lo < x.hi && is_live(x, m.active) implies #[trigger] same_count(
        m,
        m2,
        p,
        q,
        x,
    ) by {
        let x2 = mirror(p, q, x);
        lemma_mirror_twice(p, q, x);
        lemma_mirror_twice(p, q, c);
        if x.hi == id {
            assert(s.queue.count(x) == 0);
            assert(t.queue.count(x2) == 0);
        } else {
            lemma_mirror_live(s, t, p, q, x);
            assert(same_count(s, t, p, q, x));
            assert(x != c);
            assert(x2 != c2);
            if s.queue.count(x) > 0 {
                assert(at_most(c, x));
                assert(at_most(c2, x2));
            }
        }
    }
}

/// Whether the cursor of `s` has passed no active cluster.
pub open spec fn at_first(s: State) -> bool {
    forall|e: int| 0 <= e < s.horizon() && #[trigger] s.active[e] ==> s.cursor <= e
}

/// The terms of an update in `t` are those in `s`, with the two merged
/// clusters in the same or in the other order.
pub proof fn lemma_terms_mirror(s: State, t: State, p: int, q: int, e: int)
    requires
        s.wf(),
        t.wf(),
        mirrors(s, t, p, q),
        s.rows.len() >= 1,
        0 <= e < s.horizon(),
    ensures
        s.terms(e) is None <==> t.terms(swap_id(p, q, e)) is None,
        s.terms(e) is Some ==> t.terms(swap_id(p, q, e))->Some_0 == s.terms(e)->Some_0
            || t.terms(swap_id(p, q, e))->Some_0 == flip(s.terms(e)->Some_0),
{
    let top = s.rows.len() - 1;
    lemma_ids_fit(s.points());
    assert(row_ok(s.rows, s.points(), top));
    assert(s.rows.last() == s.rows[top]);
    assert(t.rows.last() == t.rows[top]);
    assert(t.rows[top] == mirror_row(p, q, s.rows[top]));
    let a = s.rows[top].a as int;
    let b = s.rows[top].b as int;
    assert(same_distance(s, t, p, q, e, a));
    assert(same_distance(s, t, p, q, e, b));
    assert(same_distance(s, t, p, q, a, b));
    assert(same_distance(s, t, p, q, b, a));
    assert(same_cluster(s, t, p, q, a));
    assert(same_cluster(s, t, p, q, b));
    assert(same_cluster(s, t, p, q, e));
}

/// A cluster gets a finite distance in `t` exactly when it does in `s`,
/// and the same one.
pub proof fn lemma_fresh_mirror(
    s: State,
    t: State,
    g: spec_fn(WardTerms) -> u64,
    p: int,
    q: int,
    e: int,
)
    requires
        s.wf(),
        t.wf(),
        mirrors(s, t, p, q),
        at_first(s),
        at_first(t),
        unbiased(g),
        0 <= e,
    ensures
        pending(t, swap_id(p, q, e)) == pending(s, e),
        fresh(t, g, swap_id(p, q, e)) == fresh(s, g, e),
        fresh(s, g, e) ==> g(t.terms(swap_id(p, q, e))->Some_0) == g(s.terms(e)->Some_0),
{
    lemma_ids_fit(s.points());
    if e < s.horizon() {
        assert(same_cluster(s, t, p, q, e));
        lemma_terms_mirror(s, t, p, q, e);
        if s.terms(e) is Some {
            let x = s.terms(e)->Some_0;
            let y = t.terms(swap_id(p, q, e))->Some_0;
            if y == flip(x) {
                assert(flip(y) == x);
                if is_finite(g(x)) {
                    assert(g(flip(x)) == g(x));
                }
                if is_finite(g(y)) {
                    assert(g(flip(y)) == g(y));
                }
            }
        }
    }
}

/// Sweeping mirror images leaves mirror images, or fails on both.
pub proof fn lemma_sweep_mirror(s: State, t: State, g: spec_fn(WardTerms) -> u64, p: int, q: int)
    requires
        s.wf(),
        t.wf(),
        mirrors(s, t, p, q),
        at_first(s),
        at_first(t),
        unbiased(g),
    ensures
        s.sweep(g) is Ok <==> t.sweep(g) is Ok,
        s.sweep(g) is Ok ==> mirrors(s.sweep(g)->Ok_0, t.sweep(g)->Ok_0, p, q),
        s.sweep(g) matches Err(e) ==> t.sweep(g) == Err::<State, LinkageError>(e),
{
    lemma_ids_fit(s.points());
    lemma_sweep_closed(s, g);
    lemma_sweep_closed(t, g);
    let h = s.horizon();
    if s.sweep(g) is Err {
        let e = choose|e: int| pending(s, e) && s.terms(e) is None;
        lemma_fresh_mirror(s, t, g, p, q, e);
        lemma_terms_mirror(s, t, p, q, e);
        assert(pending(t, swap_id(p, q, e)));
    } else if t.sweep(g) is Err {
        let e2 = choose|e: int| pending(t, e) && t.terms(e) is None;
        let e = swap_id(p, q, e2);
        lemma_fresh_mirror(s, t, g, p, q, e);
        lemma_terms_mirror(s, t, p, q, e);
        assert(pending(s, e));
    } else {
        let s2 = s.sweep(g)->Ok_0;
        let t2 = t.sweep(g)->Ok_0;
        assert forall|k: int| 0 <= k < s2.rows.len() implies #[trigger] t2.rows[k] == mirror_row(
            p,
            q,
            s2.rows[k],
        ) by {
            assert(t.rows[k] == mirror_row(p, q, s.rows[k]));
        }
        assert forall|i: int| 0 <= i < s2.sizes.len() implies #[trigger] same_cluster(
            s2,
            t2,
            p,
            q,
            i,
        ) by {
            assert(same_cluster(s, t, p, q, i));
        }
        assert forall|i: int, j: int| 0 <= i && 0 <= j implies #[trigger] same_distance(
            s2,
            t2,
            p,
            q,
            i,
            j,
        ) by {
            assert(swept_distance(s, g, s2, i, j));
            assert(swept_distance(t, g, t2, swap_id(p, q, i), swap_id(p, q, j)));
            assert(same_distance(s, t, p, q, i, j));
            let lo = if i < j { i } else { j };
            lemma_fresh_mirror(s, t, g, p, q, lo);
        }
        assert forall|x: Candidate|
            x.lo < x.hi && is_live(x, s2.active) implies #[trigger] same_count(s2, t2, p, q, x) by {
            assert(swept_entry(s, g, s2, x));
            assert(swept_entry(t, g, t2, mirror(p, q, x)));
            assert(same_count(s, t, p, q, x));
            lemma_fresh_mirror(s, t, g, p, q, x.lo as int);
        }
    }
}

/// Whether at each of the next `rounds` merges from `s` one live candidate
/// is closer than every other, so that no merge has to choose by label.
pub open spec fn untied(s: State, g: spec_fn(WardTerms) -> u64, rounds: nat) -> bool
    decreases rounds,
{
    if rounds == 0 {
        true
    } else {
        match closest_live(s.queue, s.active) {
            Some(c) => strictly_closest(s, c) && match s.merge(c).sweep(g) {
                Ok(t) => untied(t, g, (rounds - 1) as nat),
                Err(_) => true,
            },
            None => true,
        }
    }
}

/// Merge by merge, mirror images stay mirror images, or fail together.
pub proof fn lemma_rounds_mirror(
    s: State,
    t: State,
    g: spec_fn(WardTerms) -> u64,
    p: int,
    q: int,
    rounds: nat,
)
    requires
        s.wf(),
        t.wf(),
        mirrors(s, t, p, q),
        s.cursor >= s.horizon(),
        t.cursor >= t.horizon(),
        s.rows.len() + rounds < s.points(),
        unbiased(g),
        untied(s, g, rounds),
    ensures
        s.after_rounds(g, rounds) is Ok <==> t.after_rounds(g, rounds) is Ok,
        s.after_rounds(g, rounds) is Ok ==> mirrors(
            s.after_rounds(g, rounds)->Ok_0,
            t.after_rounds(g, rounds)->Ok_0,
            p,
            q,
        ),
        s.after_rounds(g, rounds) matches Err(e) ==> t.after_rounds(g, rounds) == Err::<
            State,
            LinkageError,
        >(e),
    decreases rounds,
{
    if rounds > 0 {
        match closest_live(s.queue, s.active) {
            None => {
                lemma_none_mirror(s, t, p, q);
            },
            Some(c) => {
                let c2 = mirror(p, q, c);
                assert(is_closest_live(s.queue, s.active, c));
                lemma_closest_mirror(s, t, p, q, c);
                lemma_merge_wf(s, c);
                lemma_merge_wf(t, c2);
                lemma_merge_mirror(s, t, p, q, c);
                let m = s.merge(c);
                let m2 = t.merge(c2);
                lemma_ids_fit(s.points());
                lemma_first_active(m.active, 0, m.horizon());
                lemma_first_active(m2.active, 0, m2.horizon());
                lemma_sweep_mirror(m, m2, g, p, q);
                lemma_sweep_closed(m, g);
                lemma_sweep_closed(m2, g);
                if m.sweep(g) is Ok {
                    lemma_rounds_mirror(
                        m.sweep(g)->Ok_0,
                        m2.sweep(g)->Ok_0,
                        g,
                        p,
                        q,
                        (rounds - 1) as nat,
                    );
                }
            },
        }
    }
}

/// The offset of the pair of points `i` and `j`, in either order.
pub open spec fn pair_offset(i: int, j: int, n: int) -> int {
    if i < j {
        condensed_offset(i, j, n)
    } else {
        condensed_offset(j, i, n)
    }
}

/// Whether `d2` is the condensed matrix `d` of `n` points with the labels
/// of the points `p` and `q` exchanged.
pub open spec fn relabelled(d: Seq<u64>, d2: Seq<u64>, n: int, p: int, q: int) -> bool {
    &&& d2.len() == d.len()
    &&& forall|i: int, j: int|
        0 <= i < j < n ==> d2[pair_offset(swap_id(p, q, i), swap_id(p, q, j), n)]
            == #[trigger] d[condensed_offset(i, j, n)]
}

/// The rows with the labels of the points `p` and `q` exchanged.
pub open spec fn mirror_rows(r: Result<Seq<Merge>, LinkageError>, p: int, q: int) -> Result<
    Seq<Merge>,
    LinkageError,
> {
    match r {
        Ok(rows) => Ok(Seq::new(rows.len(), |k: int| mirror_row(p, q, rows[k]))),
        Err(e) => Err(e),
    }
}

/// Before the first merge a pair of points waits once, at its distance.
pub proof fn lemma_initial_count(d: Seq<u64>, n: int, x: Candidate)
    requires
        n >= 2,
        d.len() == pair_count(n),
        d.len() <= usize::MAX,
        x.lo < x.hi < n,
    ensures
        State::initial(d, n).queue.count(x) == (if x.dist == d[condensed_offset(
            x.lo as int,
            x.hi as int,
            n,
        )] {
            1nat
        } else {
            0nat
        }),
{
    broadcast use vstd::seq_lib::group_to_multiset_ensures;

    let all = Seq::new(d.len(), |k: int| candidate_at(d, n, k));
    let k0 = condensed_offset(x.lo as int, x.hi as int, n);
    lemma_ids_fit(n);
    lemma_offset_in_range(x.lo as int, x.hi as int, n);
    lemma_pair_at_offset(x.lo as int, x.hi as int, n);
    assert forall|k1: int, k2: int|
        0 <= k1 < all.len() && 0 <= k2 < all.len() && k1 != k2 implies all[k1] != all[k2] by {
        lemma_offset_pair_at(k1, n);
        lemma_offset_pair_at(k2, n);
        if all[k1] == all[k2] {
            assert(pair_at(k1, n).0 == pair_at(k2, n).0);
            assert(pair_at(k1, n).1 == pair_at(k2, n).1);
        }
    }
    assert(all.no_duplicates());
    all.lemma_multiset_has_no_duplicates();
    assert(State::initial(d, n).queue == all.to_multiset());
    if x.dist == d[k0] {
        assert(all[k0] == x);
        assert(all.contains(x));
    } else {
        if all.contains(x) {
            let k = choose|k: int| 0 <= k < all.len() && all[k] == x;
            lemma_offset_pair_at(k, n);
        }
    }
}

/// The states before the first merge over a matrix and over the matrix
/// with two labels exchanged are mirror images.
pub proof fn lemma_initial_mirror(d: Seq<u64>, d2: Seq<u64>, n: int, p: int, q: int)
    requires
        n >= 2,
        d.len() == pair_count(n),
        d.len() <= usize::MAX,
        0 <= p < q < n,
        relabelled(d, d2, n, p, q),
    ensures
        mirrors(State::initial(d, n), State::initial(d2, n), p, q),
{
    let s = State::initial(d, n);
    let t = State::initial(d2, n);
    lemma_ids_fit(n);
    assert forall|i: int, j: int| 0 <= i && 0 <= j implies #[trigger] same_distance(
        s,
        t,
        p,
        q,
        i,
        j,
    ) by {
        let lo = if i < j { i } else { j };
        let hi = if i < j { j } else { i };
        if lo < hi < n {
            assert(d2[pair_offset(swap_id(p, q, lo), swap_id(p, q, hi), n)] == d[condensed_offset(
                lo,
                hi,
                n,
            )]);
        }
    }
    assert forall|x: Candidate| x.lo < x.hi && is_live(x, s.active) implies #[trigger] same_count(
        s,
        t,
        p,
        q,
        x,
    ) by {
        lemma_initial_count(d, n, x);
        lemma_initial_count(d2, n, mirror(p, q, x));
        assert(d2[pair_offset(swap_id(p, q, x.lo as int), swap_id(p, q, x.hi as int), n)]
            == d[condensed_offset(x.lo as int, x.hi as int, n)]);
    }
}

/// Exchanging the labels of two points in the condensed matrix exchanges
/// them in the rows of the clustering and changes nothing else, where no
/// merge has two closest pairs to choose from and `g` does not depend on
/// the order of the two clusters merged.
pub proof fn lemma_relabelled(
    d: Seq<u64>,
    d2: Seq<u64>,
    g: spec_fn(WardTerms) -> u64,
    p: int,
    q: int,
)
    requires
        d.len() <= usize::MAX,
        has_point_count(d.len()),
        all_finite(d),
        0 <= p < q < points_of(d.len()),
        relabelled(d, d2, points_of(d.len()), p, q),
        unbiased(g),
        untied(State::initial(d, points_of(d.len())), g, (points_of(d.len()) - 1) as nat),
    ensures
        ward_rows(d2, g) == mirror_rows(ward_rows(d, g), p, q),
{
    let n = points_of(d.len());
    let s = State::initial(d, n);
    let t = State::initial(d2, n);
    assert forall|k: int| 0 <= k < d2.len() implies is_finite(#[trigger] d2[k]) by {
        lemma_offset_pair_at(k, n);
        let i2 = pair_at(k, n).0;
        let j2 = pair_at(k, n).1;
        let i = swap_id(p, q, i2);
        let j = swap_id(p, q, j2);
        let lo = if i < j { i } else { j };
        let hi = if i < j { j } else { i };
        lemma_offset_in_range(lo, hi, n);
        assert(d2[pair_offset(swap_id(p, q, lo), swap_id(p, q, hi), n)] == d[condensed_offset(
            lo,
            hi,
            n,
        )]);
    }
    lemma_initial_wf(d, n);
    lemma_initial_wf(d2, n);
    lemma_initial_mirror(d, d2, n, p, q);
    lemma_rounds_mirror(s, t, g, p, q, (n - 1) as nat);
    match s.after_rounds(g, (n - 1) as nat) {
        Ok(s2) => {
            let t2 = t.after_rounds(g, (n - 1) as nat)->Ok_0;
            assert(t2.rows =~= Seq::new(s2.rows.len(), |k: int| mirror_row(p, q, s2.rows[k])));
        },
        Err(_) => {},
    }
}

} // verus!
