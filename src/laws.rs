//! Facts that hold of every set of problems the library hands out.
use vstd::prelude::*;

use crate::builder::{fisher_yates, swapped, swaps_down, valid_draws};
use crate::problem::{all_wf, conflicts, pairwise_unique, Op, Operation};

verus! {

/// In a set of distinct problems no two share a canonical key, and no
/// addition has the commuted key of another problem: `5 + 3` and `3 + 5`
/// never occur together.
pub proof fn lemma_no_shared_keys(s: Seq<Operation>)
    requires
        pairwise_unique(s),
    ensures
        forall|i: int, j: int|
            0 <= i < s.len() && 0 <= j < s.len() && i != j ==> #[trigger] s[i].key() != #[trigger] s[j].key(),
        forall|i: int, j: int|
            0 <= i < s.len() && 0 <= j < s.len() && i != j && s[i].op == Op::Add
                ==> #[trigger] s[i].commuted_key() != #[trigger] s[j].key(),
{
    assert forall|i: int, j: int|
        0 <= i < s.len() && 0 <= j < s.len() && i != j implies #[trigger] s[i].key() != #[trigger] s[j].key() by {
        assert(!conflicts(s[i], s[j]));
    }
    assert forall|i: int, j: int|
        0 <= i < s.len() && 0 <= j < s.len() && i != j && s[i].op == Op::Add implies #[trigger] s[i].commuted_key()
        != #[trigger] s[j].key() by {
        assert(!conflicts(s[i], s[j]));
    }
}

/// In a set of well-formed problems every subtraction has `a >= b`.
pub proof fn lemma_subtractions_non_negative(s: Seq<Operation>)
    requires
        all_wf(s),
    ensures
        forall|i: int| 0 <= i < s.len() && #[trigger] s[i].op == Op::Sub ==> s[i].a >= s[i].b,
{
    assert forall|i: int| 0 <= i < s.len() && #[trigger] s[i].op == Op::Sub implies s[i].a >= s[i].b by {
        assert(s[i].wf());
    }
}

/// Swaps at positions `i` and below leave every later position alone.
proof fn lemma_swaps_down_fixed(t: Seq<Operation>, d: Seq<usize>, i: int, k: int)
    requires
        i < k < t.len(),
        i < d.len(),
        forall|m: int| 1 <= m <= i ==> #[trigger] d[m] <= m,
    ensures
        swaps_down(t, d, i).len() == t.len(),
        swaps_down(t, d, i)[k] == t[k],
    decreases i,
{
    if i > 0 {
        lemma_swaps_down_fixed(swapped(t, i, d[i] as int), d, i - 1, k);
    }
}

proof fn lemma_swapped_distinct(t: Seq<Operation>, i: int, j: int)
    requires
        0 <= i < t.len(),
        0 <= j < t.len(),
        t.no_duplicates(),
    ensures
        swapped(t, i, j).no_duplicates(),
{
    let u = swapped(t, i, j);
    let src = |p: int| if p == i { j } else if p == j { i } else { p };
    assert(forall|p: int| 0 <= p < u.len() ==> u[p] == t[src(p)]);
}

proof fn lemma_swaps_down_injective(t: Seq<Operation>, d1: Seq<usize>, d2: Seq<usize>, i: int)
    requires
        t.no_duplicates(),
        i < t.len(),
        i < d1.len(),
        i < d2.len(),
        forall|m: int| 1 <= m <= i ==> #[trigger] d1[m] <= m,
        forall|m: int| 1 <= m <= i ==> #[trigger] d2[m] <= m,
        swaps_down(t, d1, i) == swaps_down(t, d2, i),
    ensures
        forall|m: int| 1 <= m <= i ==> #[trigger] d1[m] == d2[m],
    decreases i,
{
    if i > 0 {
        let t1 = swapped(t, i, d1[i] as int);
        let t2 = swapped(t, i, d2[i] as int);
        lemma_swaps_down_fixed(t1, d1, i - 1, i);
        lemma_swaps_down_fixed(t2, d2, i - 1, i);
        assert(t[d1[i] as int] == t[d2[i] as int]);
        assert(d1[i] == d2[i]);
        assert(t1 == t2);
        lemma_swapped_distinct(t, i, d1[i] as int);
        lemma_swaps_down_injective(t1, d1, d2, i - 1);
    }
}

/// A shuffle of distinct problems is decided by its draws: two different
/// valid draw sequences never give the same order. (Position 0 takes no
/// part in the swaps.)
pub proof fn lemma_fisher_yates_injective(s: Seq<Operation>, d1: Seq<usize>, d2: Seq<usize>)
    requires
        s.no_duplicates(),
        valid_draws(d1, s.len()),
        valid_draws(d2, s.len()),
        fisher_yates(s, d1) == fisher_yates(s, d2),
    ensures
        forall|i: int| 1 <= i < s.len() ==> #[trigger] d1[i] == d2[i],
{
    if s.len() > 0 {
        lemma_swaps_down_injective(s, d1, d2, s.len() - 1);
    }
}

} // verus!
