//! Counting the active clusters and the points they hold.

use vstd::prelude::*;

verus! {

/// The number of flags that are set.
pub open spec fn active_count(active: Seq<bool>) -> int
    decreases active.len(),
{
    if active.len() == 0 {
        0
    } else {
        active_count(active.drop_last()) + if active.last() {
            1int
        } else {
            0int
        }
    }
}

/// The sum of the sizes at the positions whose flag is set.
pub open spec fn active_mass(sizes: Seq<usize>, active: Seq<bool>) -> int
    decreases active.len(),
{
    if active.len() == 0 {
        0
    } else {
        active_mass(sizes, active.drop_last()) + if active.last() {
            sizes[active.len() - 1] as int
        } else {
            0int
        }
    }
}

pub proof fn lemma_count_bounds(active: Seq<bool>)
    ensures
        0 <= active_count(active) <= active.len(),
    decreases active.len(),
{
    if active.len() > 0 {
        lemma_count_bounds(active.drop_last());
    }
}

pub proof fn lemma_mass_nonnegative(sizes: Seq<usize>, active: Seq<bool>)
    ensures
        0 <= active_mass(sizes, active),
    decreases active.len(),
{
    if active.len() > 0 {
        lemma_mass_nonnegative(sizes, active.drop_last());
    }
}

/// Setting or clearing one flag changes the count by that flag alone.
pub proof fn lemma_count_flag(active: Seq<bool>, i: int, v: bool)
    requires
        0 <= i < active.len(),
    ensures
        active_count(active.update(i, v)) == active_count(active) - (if active[i] {
            1int
        } else {
            0int
        }) + (if v {
            1int
        } else {
            0int
        }),
    decreases active.len(),
{
    let after = active.update(i, v);
    if i == active.len() - 1 {
        assert(after.drop_last() =~= active.drop_last());
    } else {
        lemma_count_flag(active.drop_last(), i, v);
        assert(after.drop_last() =~= active.drop_last().update(i, v));
    }
}

/// Setting or clearing one flag changes the mass by the size at that
/// position alone.
pub proof fn lemma_mass_flag(sizes: Seq<usize>, active: Seq<bool>, i: int, v: bool)
    requires
        0 <= i < active.len(),
    ensures
        active_mass(sizes, active.update(i, v)) == active_mass(sizes, active) - (if active[i] {
            sizes[i] as int
        } else {
            0int
        }) + (if v {
            sizes[i] as int
        } else {
            0int
        }),
    decreases active.len(),
{
    let after = active.update(i, v);
    if i == active.len() - 1 {
        assert(after.drop_last() =~= active.drop_last());
    } else {
        lemma_mass_flag(sizes, active.drop_last(), i, v);
        assert(after.drop_last() =~= active.drop_last().update(i, v));
    }
}

/// The size at a position whose flag is clear does not count.
pub proof fn lemma_mass_size(sizes: Seq<usize>, active: Seq<bool>, i: int, x: usize)
    requires
        0 <= i < sizes.len(),
        active.len() <= sizes.len(),
        i < active.len() ==> !active[i],
    ensures
        active_mass(sizes.update(i, x), active) == active_mass(sizes, active),
    decreases active.len(),
{
    if active.len() > 0 {
        lemma_mass_size(sizes, active.drop_last(), i, x);
    }
}

/// Two different active positions hold no more than the whole mass.
pub proof fn lemma_mass_two(sizes: Seq<usize>, active: Seq<bool>, i: int, j: int)
    requires
        0 <= i < active.len(),
        0 <= j < active.len(),
        i != j,
        active[i],
        active[j],
    ensures
        sizes[i] + sizes[j] <= active_mass(sizes, active),
{
    lemma_mass_flag(sizes, active, i, false);
    lemma_mass_flag(sizes, active.update(i, false), j, false);
    lemma_mass_nonnegative(sizes, active.update(i, false).update(j, false));
}

/// Where no flag is set there is no mass and every flag is clear.
pub proof fn lemma_count_zero(sizes: Seq<usize>, active: Seq<bool>)
    requires
        active_count(active) == 0,
    ensures
        active_mass(sizes, active) == 0,
        forall|i: int| 0 <= i < active.len() ==> !active[i],
    decreases active.len(),
{
    if active.len() > 0 {
        lemma_count_bounds(active.drop_last());
        lemma_count_zero(sizes, active.drop_last());
        assert forall|i: int| 0 <= i < active.len() implies !active[i] by {
            if i < active.len() - 1 {
                assert(active.drop_last()[i] == active[i]);
            }
        }
    }
}

/// A single active position holds the whole mass.
pub proof fn lemma_single(sizes: Seq<usize>, active: Seq<bool>, i: int)
    requires
        0 <= i < active.len(),
        active[i],
        active_count(active) == 1,
    ensures
        active_mass(sizes, active) == sizes[i],
        forall|j: int| 0 <= j < active.len() && j != i ==> !active[j],
{
    let rest = active.update(i, false);
    lemma_count_flag(active, i, false);
    lemma_mass_flag(sizes, active, i, false);
    lemma_count_zero(sizes, rest);
    assert forall|j: int| 0 <= j < active.len() && j != i implies !active[j] by {
        assert(rest[j] == active[j]);
    }
}

/// Where a flag is set, a position is found that has it.
pub proof fn lemma_find_active(active: Seq<bool>) -> (i: int)
    requires
        active_count(active) >= 1,
    ensures
        0 <= i < active.len(),
        active[i],
    decreases active.len(),
{
    if active.last() {
        active.len() - 1
    } else {
        lemma_find_active(active.drop_last())
    }
}

/// Where two flags are set, two positions are found that have them.
pub proof fn lemma_find_two_active(active: Seq<bool>) -> (p: (int, int))
    requires
        active_count(active) >= 2,
    ensures
        0 <= p.0 < p.1 < active.len(),
        active[p.0],
        active[p.1],
    decreases active.len(),
{
    if active.len() == 0 {
        (0, 0)
    } else if active.last() {
        (lemma_find_active(active.drop_last()), active.len() - 1)
    } else {
        lemma_find_two_active(active.drop_last())
    }
}

/// Flags set on the first `n` positions only, over sizes that are one
/// there, count `n` and weigh `n`.
pub proof fn lemma_prefix(sizes: Seq<usize>, active: Seq<bool>, n: int)
    requires
        0 <= n <= active.len() <= sizes.len(),
        forall|i: int| 0 <= i < active.len() ==> active[i] == (i < n),
        forall|i: int| 0 <= i < n ==> sizes[i] == 1,
    ensures
        active_count(active) == n,
        active_mass(sizes, active) == n,
    decreases active.len(),
{
    if active.len() > 0 {
        let front = active.drop_last();
        if n == active.len() {
            lemma_prefix(sizes, front, n - 1);
        } else {
            lemma_prefix(sizes, front, n);
        }
    }
}

} // verus!
