//! A priority queue of merge candidates with lazy deletion.
//!
//! The queue is a binary min-heap. Candidates whose clusters have been
//! retired stay in it until they reach the top, where they are discarded.

use vstd::prelude::*;
use vstd::multiset::Multiset;
use crate::candidate::{Candidate, precedes, at_most, lemma_at_most_transitive};

verus! {

/// Whether both clusters of a candidate are marked active.
pub open spec fn is_live(c: Candidate, active: Seq<bool>) -> bool {
    c.lo < active.len() && c.hi < active.len() && active[c.lo as int] && active[c.hi as int]
}

/// Whether `c` is the live candidate of `q` that comes first.
pub open spec fn is_closest_live(q: Multiset<Candidate>, active: Seq<bool>, c: Candidate) -> bool {
    &&& q.contains(c)
    &&& is_live(c, active)
    &&& forall|x: Candidate| q.contains(x) && is_live(x, active) ==> at_most(c, x)
}

/// What is left of `q` once `c` has been taken from its top: nothing that
/// came before `c`, and one `c` less.
pub open spec fn taken_through(q: Multiset<Candidate>, c: Candidate) -> Multiset<Candidate> {
    q.filter(|x: Candidate| !precedes(x, c)).remove(c)
}

/// Between `before` and `now` only stale candidates have gone, each of
/// them at most everything that is left.
spec fn only_stale_gone(before: Multiset<Candidate>, now: Multiset<Candidate>, active: Seq<bool>) -> bool {
    &&& forall|x: Candidate| #[trigger] now.count(x) <= before.count(x)
    &&& forall|x: Candidate| #[trigger] now.count(x) < before.count(x) ==> !is_live(x, active)
    &&& forall|x: Candidate, y: Candidate|
        now.count(x) < before.count(x) && now.count(y) > 0 ==> #[trigger] at_most(x, y)
}

/// Each entry is at most its two children.
pub open spec fn heap_ordered(s: Seq<Candidate>) -> bool {
    forall|k: int| 1 <= k < s.len() ==> at_most(s[(k - 1) / 2], #[trigger] s[k])
}

spec fn exchanged(s: Seq<Candidate>, i: int, j: int) -> Seq<Candidate> {
    s.update(i, s[j]).update(j, s[i])
}

/// The heap order holds everywhere but between `i` and its parent, and
/// the children of `i` are no less than that parent.
spec fn rising(s: Seq<Candidate>, i: int) -> bool {
    &&& forall|k: int| 1 <= k < s.len() && k != i ==> at_most(s[(k - 1) / 2], #[trigger] s[k])
    &&& forall|k: int|
        1 <= k < s.len() && (k - 1) / 2 == i && i >= 1 ==> at_most(s[(i - 1) / 2], #[trigger] s[k])
}

/// The heap order holds everywhere but between `i` and its children, and
/// those children are no less than the parent of `i`.
spec fn sinking(s: Seq<Candidate>, i: int) -> bool {
    &&& forall|k: int|
        1 <= k < s.len() && (k - 1) / 2 != i ==> at_most(s[(k - 1) / 2], #[trigger] s[k])
    &&& forall|k: int|
        1 <= k < s.len() && (k - 1) / 2 == i && i >= 1 ==> at_most(s[(i - 1) / 2], #[trigger] s[k])
}

proof fn lemma_rise(s: Seq<Candidate>, i: int)
    requires
        rising(s, i),
        1 <= i < s.len(),
        precedes(s[i], s[(i - 1) / 2]),
    ensures
        rising(exchanged(s, i, (i - 1) / 2), (i - 1) / 2),
{
    let p = (i - 1) / 2;
    let t = exchanged(s, i, p);
    assert forall|k: int| 1 <= k < t.len() && k != p implies at_most(
        t[(k - 1) / 2],
        #[trigger] t[k],
    ) by {
        let pk = (k - 1) / 2;
        if k == i {
        } else if pk == i {
            assert(at_most(s[p], s[k]));
        } else if pk == p {
            assert(at_most(s[p], s[k]));
            lemma_at_most_transitive(s[i], s[p], s[k]);
        } else {
            assert(at_most(s[pk], s[k]));
        }
    }
    assert forall|k: int| 1 <= k < t.len() && (k - 1) / 2 == p && p >= 1 implies at_most(
        t[(p - 1) / 2],
        #[trigger] t[k],
    ) by {
        let pp = (p - 1) / 2;
        assert(at_most(s[pp], s[p]));
        if k != i {
            assert(at_most(s[p], s[k]));
            lemma_at_most_transitive(s[pp], s[p], s[k]);
        }
    }
}

proof fn lemma_sink(s: Seq<Candidate>, i: int, m: int)
    requires
        sinking(s, i),
        0 <= i < m < s.len(),
        (m - 1) / 2 == i,
        precedes(s[m], s[i]),
        forall|k: int| 1 <= k < s.len() && (k - 1) / 2 == i ==> at_most(s[m], #[trigger] s[k]),
    ensures
        sinking(exchanged(s, i, m), m),
{
    let t = exchanged(s, i, m);
    assert forall|k: int| 1 <= k < t.len() && (k - 1) / 2 != m implies at_most(
        t[(k - 1) / 2],
        #[trigger] t[k],
    ) by {
        let pk = (k - 1) / 2;
        if pk == i {
            assert(at_most(s[m], s[k]));
        } else if k == i {
            assert(at_most(s[pk], s[m]));
        } else {
            assert(at_most(s[pk], s[k]));
        }
    }
    assert forall|k: int| 1 <= k < t.len() && (k - 1) / 2 == m && m >= 1 implies at_most(
        t[(m - 1) / 2],
        #[trigger] t[k],
    ) by {
        assert(at_most(s[m], s[k]));
    }
}

/// The first entry of a heap is at most every entry.
proof fn lemma_root_least(s: Seq<Candidate>, k: int)
    requires
        heap_ordered(s),
        0 <= k < s.len(),
    ensures
        at_most(s[0], s[k]),
    decreases k,
{
    if k > 0 {
        let p = (k - 1) / 2;
        lemma_root_least(s, p);
        assert(at_most(s[p], s[k]));
        lemma_at_most_transitive(s[0], s[p], s[k]);
    }
}

proof fn lemma_exchanged_multiset(s: Seq<Candidate>, i: int, j: int)
    requires
        0 <= i < s.len(),
        0 <= j < s.len(),
    ensures
        exchanged(s, i, j).to_multiset() == s.to_multiset(),
{
    broadcast use vstd::seq_lib::group_to_multiset_ensures;

    vstd::seq_lib::to_multiset_update(s, i, s[j]);
    vstd::seq_lib::to_multiset_update(s.update(i, s[j]), j, s[i]);
    assert(s.contains(s[i]));
    assert(s.contains(s[j]));
    assert(exchanged(s, i, j).to_multiset() =~= s.to_multiset());
}

/// A minimum-first queue of merge candidates.
pub struct CandidateQueue {
    items: Vec<Candidate>,
}

impl View for CandidateQueue {
    type V = Multiset<Candidate>;

    /// The candidates in the queue, each as often as it was pushed and not
    /// yet popped.
    closed spec fn view(&self) -> Multiset<Candidate> {
        self.items@.to_multiset()
    }
}

impl CandidateQueue {
    /// The heap order holds.
    pub closed spec fn wf(&self) -> bool {
        heap_ordered(self.items@)
    }

    /// The number of candidates in the queue, stale ones included.
    pub closed spec fn spec_len(&self) -> nat {
        self.items@.len()
    }

    /// An empty queue.
    pub fn new() -> (q: CandidateQueue)
        ensures
            q.wf(),
            q@ == Multiset::<Candidate>::empty(),
    {
        let q = CandidateQueue { items: Vec::new() };
        assert(q.items@.to_multiset() =~= Multiset::<Candidate>::empty()) by {
            broadcast use vstd::seq_lib::group_to_multiset_ensures;

            assert(q.items@.to_multiset().len() == 0);
        }
        q
    }

    /// The number of candidates in the queue, stale ones included.
    pub fn len(&self) -> (n: usize)
        ensures
            n == self.spec_len(),
            n == self@.len(),
    {
        proof {
            vstd::seq_lib::to_multiset_len(self.items@);
        }
        self.items.len()
    }

    fn exchange(&mut self, i: usize, j: usize)
        requires
            i < old(self).items@.len(),
            j < old(self).items@.len(),
        ensures
            final(self).items@ == exchanged(old(self).items@, i as int, j as int),
            final(self)@ == old(self)@,
    {
        let x = self.items[i];
        let y = self.items[j];
        proof {
            lemma_exchanged_multiset(self.items@, i as int, j as int);
        }
        self.items.set(i, y);
        self.items.set(j, x);
    }

    /// Adds a candidate.
    pub fn push(&mut self, c: Candidate)
        requires
            old(self).wf(),
        ensures
            final(self).wf(),
            final(self)@ == old(self)@.insert(c),
            final(self).spec_len() == old(self).spec_len() + 1,
    {
        let mut i: usize = self.items.len();
        self.items.push(c);
        proof {
            vstd::seq_lib::to_multiset_build(old(self).items@, c);
        }
        while i > 0
            invariant
                i < self.items@.len(),
                self.items@.len() == old(self).items@.len() + 1,
                rising(self.items@, i as int),
                self@ == old(self)@.insert(c),
            decreases i,
        {
            let p: usize = (i - 1) / 2;
            if !self.items[i].before(&self.items[p]) {
                return ;
            }
            proof {
                lemma_rise(self.items@, i as int);
            }
            self.exchange(i, p);
            i = p;
        }
    }

    /// Takes out the candidate that comes first, if there is one.
    pub fn pop(&mut self) -> (r: Option<Candidate>)
        requires
            old(self).wf(),
        ensures
            final(self).wf(),
            match r {
                Some(c) => {
                    &&& old(self)@.contains(c)
                    &&& forall|x: Candidate| old(self)@.contains(x) ==> at_most(c, x)
                    &&& final(self)@ == old(self)@.remove(c)
                    &&& final(self).spec_len() + 1 == old(self).spec_len()
                },
                None => old(self)@ == Multiset::<Candidate>::empty() && final(self)@ == old(self)@
                    && old(self).spec_len() == 0,
            },
    {
        broadcast use vstd::seq_lib::group_to_multiset_ensures;

        let n: usize = self.items.len();
        if n == 0 {
            assert(self.items@.to_multiset() =~= Multiset::<Candidate>::empty()) by {
                assert(self.items@.to_multiset().len() == 0);
            }
            return None;
        }
        let top = self.items[0];
        let ghost before = self.items@;
        assert forall|x: Candidate| before.to_multiset().contains(x) implies at_most(top, x) by {
            assert(before.contains(x));
            let k = choose|k: int| 0 <= k < before.len() && before[k] == x;
            lemma_root_least(before, k);
        }
        assert(before.contains(top));
        let last = self.items.pop().unwrap();
        proof {
            vstd::seq_lib::to_multiset_remove(before, n - 1);
            assert(before.remove(n - 1) =~= self.items@);
        }
        if n == 1 {
            return Some(top);
        }
        proof {
            vstd::seq_lib::to_multiset_update(self.items@, 0, last);
            assert(before.to_multiset().remove(last).insert(last).remove(top)
                =~= before.to_multiset().remove(top));
        }
        self.items.set(0, last);
        let m: usize = n - 1;
        let mut i: usize = 0;
        assert(sinking(self.items@, 0)) by {
            assert forall|k: int| 1 <= k < self.items@.len() && (k - 1) / 2 != 0 implies at_most(
                self.items@[(k - 1) / 2],
                #[trigger] self.items@[k],
            ) by {
                assert(at_most(before[(k - 1) / 2], before[k]));
            }
        }
        while i < m / 2
            invariant
                m == self.items@.len(),
                m + 1 == old(self).items@.len(),
                i < m,
                sinking(self.items@, i as int),
                before == old(self).items@,
                before.to_multiset().contains(top),
                forall|x: Candidate| before.to_multiset().contains(x) ==> at_most(top, x),
                self@ == before.to_multiset().remove(top),
            decreases m - i,
        {
            let l: usize = 2 * i + 1;
            let mut least: usize = l;
            if l + 1 < m && self.items[l + 1].before(&self.items[l]) {
                least = l + 1;
            }
            let ghost s = self.items@;
            assert forall|k: int| 1 <= k < s.len() && (k - 1) / 2 == i implies at_most(
                s[least as int],
                #[trigger] s[k],
            ) by {
                assert(k == l || k == l + 1);
            }
            if self.items[least].before(&self.items[i]) {
                proof {
                    lemma_sink(s, i as int, least as int);
                }
                self.exchange(i, least);
                i = least;
            } else {
                assert forall|k: int| 1 <= k < s.len() && (k - 1) / 2 == i implies at_most(
                    s[i as int],
                    #[trigger] s[k],
                ) by {
                    lemma_at_most_transitive(s[i as int], s[least as int], s[k]);
                }
                assert(heap_ordered(s));
                return Some(top);
            }
        }
        assert(heap_ordered(self.items@)) by {
            assert forall|k: int| 1 <= k < self.items@.len() implies at_most(
                self.items@[(k - 1) / 2],
                #[trigger] self.items@[k],
            ) by {
                assert((k - 1) / 2 != i);
            }
        }
        Some(top)
    }

    /// Takes out candidates from the top until one comes whose clusters are
    /// both active, and returns it. The stale candidates that came before it
    /// are discarded. Returns `None`, leaving the queue empty, when no live
    /// candidate is left.
    pub fn pop_closest_active(&mut self, active: &Vec<bool>) -> (r: Option<Candidate>)
        requires
            old(self).wf(),
        ensures
            final(self).wf(),
            match r {
                Some(c) => is_closest_live(old(self)@, active@, c) && final(self)@ == taken_through(
                    old(self)@,
                    c,
                ),
                None => final(self)@ == Multiset::<Candidate>::empty() && forall|x: Candidate|
                    old(self)@.contains(x) ==> !is_live(x, active@),
            },
    {
        loop
            invariant
                self.wf(),
                only_stale_gone(old(self)@, self@, active@),
            decreases self.spec_len(),
        {
            let ghost cur = self@;
            match self.pop() {
                None => {
                    assert forall|x: Candidate| old(self)@.contains(x) implies !is_live(
                        x,
                        active@,
                    ) by {
                        assert(cur.count(x) == 0);
                    }
                    return None;
                },
                Some(c) => {
                    assert(cur.count(c) > 0);
                    if c.lo < active.len() && c.hi < active.len() && active[c.lo] && active[c.hi] {
                        assert(self@ =~= taken_through(old(self)@, c)) by {
                            assert forall|x: Candidate|
                                self@.count(x) == taken_through(old(self)@, c).count(x) by {
                                if cur.count(x) < old(self)@.count(x) {
                                    assert(at_most(x, c));
                                }
                                if precedes(x, c) && cur.count(x) > 0 {
                                    assert(at_most(c, x));
                                }
                            }
                        }
                        assert forall|x: Candidate|
                            old(self)@.contains(x) && is_live(x, active@) implies at_most(c, x) by {
                            assert(cur.count(x) == old(self)@.count(x));
                        }
                        return Some(c);
                    }
                    assert forall|x: Candidate, y: Candidate|
                        self@.count(x) < old(self)@.count(x) && self@.count(y) > 0 implies #[trigger] at_most(
                        x,
                        y,
                    ) by {
                        if cur.count(x) < old(self)@.count(x) {
                            assert(cur.count(y) > 0);
                        } else {
                            assert(x == c);
                            assert(cur.contains(y));
                        }
                    }
                },
            }
        }
    }
}

} // verus!
