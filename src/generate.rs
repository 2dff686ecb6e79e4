//! The three problem generators and the pipeline that turns a worksheet
//! configuration into a shuffled set of distinct problems.
use vstd::prelude::*;

use crate::builder::OpsBuilder;
use crate::problem::{
    admissible, all_wf, conflicts, excluded, is_excluded, pairwise_unique, Op, Operation,
};
use crate::random::RandomSource;
use crate::render::line_of;

verus! {

/// Random draws the general generator may spend per requested problem before
/// it turns to trying every operand pair of the range in order.
pub const ATTEMPTS_PER_PROBLEM: u64 = 10000;

/// Why a set of problems could not be produced.
#[derive(Clone, Copy, Debug, PartialEq, Eq, Structural)]
pub enum GenError {
    /// The operand range is empty (`lo > hi`).
    EmptyRange,
    /// The worksheet asks for no problem at all.
    NoProblems,
    /// More distinct problems were requested than could be found.
    CapacityExceeded,
}

/// A problem the general generator may produce for the range `lo..=hi`.
pub open spec fn general_ok(p: Operation, lo: u32, hi: u32) -> bool {
    &&& lo <= p.a <= hi
    &&& lo <= p.b <= hi
    &&& !excluded(p.a as int, p.b as int)
    &&& p.wf()
}

/// The problem `a - 9`.
pub open spec fn minus_nine(a: u32) -> Operation {
    Operation { a, b: 9, op: Op::Sub }
}

/// The problem `a - (a - 9)`.
pub open spec fn nine_result(a: u32) -> Operation {
    Operation { a, b: (a - 9) as u32, op: Op::Sub }
}

/// A "subtract nine" problem: `a - 9` with `a` in `11..=18`.
pub open spec fn sub_nine_ok(p: Operation) -> bool {
    p.op == Op::Sub && p.b == 9 && 11 <= p.a <= 18
}

/// A "result is nine" problem: `a - (a - 9)` with `a` in `11..=18`.
pub open spec fn to_nine_ok(p: Operation) -> bool {
    p.op == Op::Sub && p.a - p.b == 9 && 11 <= p.a <= 18
}

/// `t` is `s` followed by problems that each satisfy `f`.
pub open spec fn extends_with(s: Seq<Operation>, t: Seq<Operation>, f: spec_fn(Operation) -> bool) -> bool {
    &&& s.len() <= t.len()
    &&& t.subrange(0, s.len() as int) == s
    &&& forall|i: int| s.len() <= i < t.len() ==> f(#[trigger] t[i])
}

/// Some set of fewer than `n` distinct general problems over `lo..=hi`
/// blocks every general problem of the range: the range cannot supply `n`
/// more once that set is taken.
pub open spec fn range_exhausted_below(n: u32, lo: u32, hi: u32) -> bool {
    exists|s: Seq<Operation>|
        {
            &&& s.len() < n
            &&& pairwise_unique(s)
            &&& forall|i: int| 0 <= i < s.len() ==> general_ok(#[trigger] s[i], lo, hi)
            &&& forall|p: Operation| general_ok(p, lo, hi) ==> !#[trigger] admissible(s, p)
        }
}

/// The general generator's decision on one draw of operands and operator:
/// no problem for an excluded pair or for a subtraction that would go below
/// zero, else the problem drawn.
pub fn candidate(a: u32, b: u32, add: bool) -> (r: Option<Operation>)
    ensures
        r == (if excluded(a as int, b as int) || (!add && a < b) {
            None
        } else {
            Some(Operation { a, b, op: if add { Op::Add } else { Op::Sub } })
        }),
{
    if is_excluded(a, b) || (!add && a < b) {
        None
    } else {
        Some(Operation { a, b, op: if add { Op::Add } else { Op::Sub } })
    }
}

/// Offers random general problems over `lo..=hi` until `n` were accepted.
/// Once the budget of draws is spent it offers every pair of the range in
/// order, so it fails only when no general problem of the range is left.
pub fn fill_general(ops: &mut OpsBuilder, rng: &mut RandomSource, n: u32, lo: u32, hi: u32) -> (r:
    Result<(), GenError>)
    requires
        old(ops).wf(),
        lo <= hi,
    ensures
        final(ops).wf(),
        extends_with(old(ops)@, final(ops)@, |p: Operation| general_ok(p, lo, hi)),
        r is Ok ==> final(ops)@.len() == old(ops)@.len() + n,
        r is Err ==> r == Err::<(), GenError>(GenError::CapacityExceeded),
        r is Err ==> final(ops)@.len() < old(ops)@.len() + n,
        r is Err ==> forall|p: Operation| general_ok(p, lo, hi) ==> !#[trigger] admissible(final(ops)@, p),
        n == 0 ==> r is Ok,
{
    let ghost start = ops@;
    let budget: u64 = (n as u64 + 1) * ATTEMPTS_PER_PROBLEM;
    let mut attempts: u64 = 0;
    let mut accepted: u32 = 0;
    assert(start.subrange(0, start.len() as int) =~= start);
    while accepted < n && attempts < budget
        invariant
            ops.wf(),
            accepted <= n,
            ops@.len() == start.len() + accepted,
            extends_with(start, ops@, |p: Operation| general_ok(p, lo, hi)),
            lo <= hi,
        decreases budget - attempts,
    {
        attempts = attempts + 1;
        let a = rng.between(lo, hi);
        let b = rng.between(lo, hi);
        if !is_excluded(a, b) {
            let add = rng.coin();
            if let Some(c) = candidate(a, b, add) {
                let ghost before = ops@;
                if ops.offer(c) {
                    accepted = accepted + 1;
                    assert(ops@.subrange(0, start.len() as int) =~= before.subrange(
                        0,
                        start.len() as int,
                    ));
                }
            }
        }
    }
    // the draws are spent: try every pair of the range in turn
    let mut a: u64 = lo as u64;
    while a <= hi as u64 && accepted < n
        invariant
            ops.wf(),
            accepted <= n,
            ops@.len() == start.len() + accepted,
            extends_with(start, ops@, |p: Operation| general_ok(p, lo, hi)),
            lo <= hi,
            lo <= a <= hi as u64 + 1,
            accepted < n ==> forall|p: Operation|
                general_ok(p, lo, hi) && p.a < a ==> !#[trigger] admissible(ops@, p),
        decreases hi as u64 + 1 - a,
    {
        let mut b: u64 = lo as u64;
        while b <= hi as u64 && accepted < n
            invariant
                ops.wf(),
                accepted <= n,
                ops@.len() == start.len() + accepted,
                extends_with(start, ops@, |p: Operation| general_ok(p, lo, hi)),
                lo <= hi,
                lo <= a <= hi,
                lo <= b <= hi as u64 + 1,
                accepted < n ==> forall|p: Operation|
                    general_ok(p, lo, hi) && (p.a < a || (p.a == a && p.b < b)) ==> !#[trigger] admissible(
                        ops@,
                        p,
                    ),
            decreases hi as u64 + 1 - b,
        {
            let x = a as u32;
            let y = b as u32;
            if let Some(c) = candidate(x, y, true) {
                if accepted < n {
                    let ghost before = ops@;
                    accepted = offer_counted(ops, c, accepted);
                    assert(ops@.subrange(0, start.len() as int) =~= before.subrange(0, start.len() as int));
                }
            }
            if let Some(c) = candidate(x, y, false) {
                if accepted < n {
                    let ghost before = ops@;
                    accepted = offer_counted(ops, c, accepted);
                    assert(ops@.subrange(0, start.len() as int) =~= before.subrange(0, start.len() as int));
                }
            }
            proof {
                if accepted < n {
                    assert forall|p: Operation|
                        general_ok(p, lo, hi) && (p.a < a || (p.a == a && p.b < b + 1)) implies !#[trigger] admissible(
                        ops@,
                        p,
                    ) by {
                        if p.a == a && p.b == b {
                            if p.op == Op::Add {
                                assert(p == Operation { a: x, b: y, op: Op::Add });
                            } else {
                                assert(p == Operation { a: x, b: y, op: Op::Sub });
                            }
                        }
                    }
                }
            }
            b = b + 1;
        }
        a = a + 1;
    }
    if accepted < n {
        Err(GenError::CapacityExceeded)
    } else {
        Ok(())
    }
}

/// Offers `c` and counts it when it is accepted. Afterwards `c` is blocked,
/// and so is every problem that was blocked before.
fn offer_counted(ops: &mut OpsBuilder, c: Operation, accepted: u32) -> (r: u32)
    requires
        old(ops).wf(),
        c.wf(),
        accepted < u32::MAX,
    ensures
        final(ops).wf(),
        final(ops)@ == (if admissible(old(ops)@, c) { old(ops)@.push(c) } else { old(ops)@ }),
        r == accepted + if admissible(old(ops)@, c) { 1int } else { 0int },
        !admissible(final(ops)@, c),
        forall|p: Operation| !admissible(old(ops)@, p) ==> !#[trigger] admissible(final(ops)@, p),
{
    let ghost before = ops@;
    let taken = ops.offer(c);
    proof {
        if taken {
            assert(conflicts(ops@[before.len() as int], c));
        }
        assert forall|p: Operation| !admissible(before, p) implies !#[trigger] admissible(ops@, p) by {
            let k = choose|k: int| 0 <= k < before.len() && #[trigger] conflicts(before[k], p);
            assert(ops@[k] == before[k]);
        }
    }
    if taken {
        accepted + 1
    } else {
        accepted
    }
}

/// How many problems of `s` are admissible next to `ops`.
pub open spec fn count_admissible(ops: Seq<Operation>, s: Seq<Operation>) -> nat
    decreases s.len(),
{
    if s.len() == 0 {
        0
    } else {
        count_admissible(ops, s.drop_last()) + if admissible(ops, s.last()) {
            1nat
        } else {
            0nat
        }
    }
}

proof fn lemma_count_remove(ops: Seq<Operation>, s: Seq<Operation>, i: int)
    requires
        0 <= i < s.len(),
    ensures
        count_admissible(ops, s) == count_admissible(ops, s.remove(i)) + if admissible(ops, s[i]) {
            1nat
        } else {
            0nat
        },
    decreases s.len(),
{
    if i == s.len() - 1 {
        assert(s.remove(i) =~= s.drop_last());
    } else {
        assert(s.remove(i).drop_last() =~= s.drop_last().remove(i));
        assert(s.remove(i).last() == s.last());
        lemma_count_remove(ops, s.drop_last(), i);
    }
}

proof fn lemma_count_same(o1: Seq<Operation>, o2: Seq<Operation>, s: Seq<Operation>)
    requires
        forall|j: int| 0 <= j < s.len() ==> admissible(o1, #[trigger] s[j]) == admissible(o2, s[j]),
    ensures
        count_admissible(o1, s) == count_admissible(o2, s),
    decreases s.len(),
{
    if s.len() > 0 {
        assert(admissible(o1, s[s.len() - 1]) == admissible(o2, s[s.len() - 1]));
        lemma_count_same(o1, o2, s.drop_last());
    }
}

proof fn lemma_count_at_least(ops: Seq<Operation>, s: Seq<Operation>, m: int)
    requires
        0 <= m <= s.len(),
        forall|j: int| 0 <= j < m ==> admissible(ops, #[trigger] s[j]),
    ensures
        count_admissible(ops, s) >= m,
    decreases s.len(),
{
    if s.len() > 0 {
        if s.len() > m {
            lemma_count_at_least(ops, s.drop_last(), m);
        } else {
            assert(admissible(ops, s[s.len() - 1]));
            lemma_count_at_least(ops, s.drop_last(), m - 1);
        }
    }
}

proof fn lemma_count_at_most(ops: Seq<Operation>, s: Seq<Operation>)
    ensures
        count_admissible(ops, s) <= s.len(),
    decreases s.len(),
{
    if s.len() > 0 {
        lemma_count_at_most(ops, s.drop_last());
    }
}

/// Every problem of `s` is admissible next to no problems at all.
proof fn lemma_count_fresh(s: Seq<Operation>)
    ensures
        count_admissible(Seq::<Operation>::empty(), s) == s.len(),
{
    lemma_count_at_most(Seq::<Operation>::empty(), s);
    lemma_count_at_least(Seq::<Operation>::empty(), s, s.len() as int);
}

/// Offers problems of `pool`, picked at random without repetition, until `n`
/// were accepted or the pool is used up. Since no two pool problems conflict,
/// it succeeds exactly when `n` is at most the number of pool problems still
/// admissible at the start.
pub fn fill_from_pool(ops: &mut OpsBuilder, rng: &mut RandomSource, pool: Vec<Operation>, n: u32) -> (r:
    Result<(), GenError>)
    requires
        old(ops).wf(),
        all_wf(pool@),
        pairwise_unique(pool@),
    ensures
        final(ops).wf(),
        extends_with(old(ops)@, final(ops)@, |p: Operation| pool@.contains(p)),
        r is Ok ==> final(ops)@.len() == old(ops)@.len() + n,
        r is Err ==> r == Err::<(), GenError>(GenError::CapacityExceeded),
        r is Ok <==> n <= count_admissible(old(ops)@, pool@),
        r is Ok && n == pool@.len() ==> forall|j: int|
            0 <= j < pool@.len() ==> final(ops)@.contains(#[trigger] pool@[j]),
{
    let ghost start = ops@;
    let ghost all = pool@;
    let ghost total = count_admissible(start, all);
    let mut rem = pool;
    let mut accepted: u32 = 0;
    let ghost mut dropped: int = 0;
    assert(start.subrange(0, start.len() as int) =~= start);
    assert forall|j: int| 0 <= j < all.len() implies rem@.contains(#[trigger] all[j]) by {
        assert(rem@[j] == all[j]);
    }
    while accepted < n && rem.len() > 0
        invariant
            ops.wf(),
            accepted <= n,
            dropped >= 0,
            accepted + rem@.len() + dropped == all.len(),
            forall|j: int|
                0 <= j < all.len() ==> dropped > 0 || rem@.contains(#[trigger] all[j]) || ops@.contains(
                    all[j],
                ),
            ops@.len() == start.len() + accepted,
            extends_with(start, ops@, |p: Operation| all.contains(p)),
            forall|j: int| 0 <= j < rem@.len() ==> all.contains(#[trigger] rem@[j]),
            all_wf(rem@),
            pairwise_unique(rem@),
            accepted + count_admissible(ops@, rem@) == total,
            total == count_admissible(start, all),
        decreases rem@.len(),
    {
        let ghost r0 = rem@;
        let ghost before = ops@;
        let idx = rng.below(rem.len());
        let x = rem.remove(idx);
        proof {
            assert(x == r0[idx as int]);
            assert(rem@ =~= r0.remove(idx as int));
            lemma_count_remove(before, r0, idx as int);
            assert(forall|j: int| 0 <= j < rem@.len() ==> rem@[j] == r0[if j < idx { j } else { j + 1 }]);
            assert forall|i: int, j: int|
                0 <= i < rem@.len() && 0 <= j < rem@.len() && i != j implies !#[trigger] conflicts(
                rem@[i],
                rem@[j],
            ) by {
                let i2 = if i < idx { i } else { i + 1 };
                let j2 = if j < idx { j } else { j + 1 };
                assert(!conflicts(r0[i2], r0[j2]));
            }
            assert forall|j: int| 0 <= j < rem@.len() implies all.contains(#[trigger] rem@[j]) by {
                let j2 = if j < idx { j } else { j + 1 };
                assert(all.contains(r0[j2]));
            }
            assert forall|j: int| 0 <= j < rem@.len() implies #[trigger] rem@[j].wf() by {
                let j2 = if j < idx { j } else { j + 1 };
                assert(r0[j2].wf());
            }
            assert(all.contains(r0[idx as int]));
            assert(x.wf());
        }
        let ghost d0 = dropped;
        if ops.offer(x) {
            accepted = accepted + 1;
            proof {
                assert(ops@.subrange(0, start.len() as int) =~= before.subrange(0, start.len() as int));
                assert(ops@ == before.push(x));
                assert forall|j: int| 0 <= j < rem@.len() implies admissible(ops@, #[trigger] rem@[j])
                    == admissible(before, rem@[j]) by {
                    let j2 = if j < idx { j } else { j + 1 };
                    assert(!conflicts(r0[idx as int], r0[j2]));
                    assert(ops@[before.len() as int] == x);
                    if admissible(before, rem@[j]) {
                        assert forall|k: int| 0 <= k < ops@.len() implies !#[trigger] conflicts(
                            ops@[k],
                            rem@[j],
                        ) by {
                            if k < before.len() {
                                assert(ops@[k] == before[k]);
                            }
                        }
                    } else {
                        let k = choose|k: int| 0 <= k < before.len() && #[trigger] conflicts(before[k], rem@[j]);
                        assert(ops@[k] == before[k]);
                    }
                }
                lemma_count_same(ops@, before, rem@);
            }
        } else {
            proof {
                dropped = dropped + 1;
            }
        }
        proof {
            assert forall|j: int|
                0 <= j < all.len() implies dropped > 0 || rem@.contains(#[trigger] all[j]) || ops@.contains(
                all[j],
            ) by {
                if d0 == 0 {
                    if r0.contains(all[j]) {
                        let k = choose|k: int| 0 <= k < r0.len() && r0[k] == all[j];
                        if k < idx {
                            assert(rem@[k] == all[j]);
                        } else if k > idx {
                            assert(rem@[k - 1] == all[j]);
                        } else if dropped == 0 {
                            assert(ops@[before.len() as int] == x);
                        }
                    } else {
                        let k = choose|k: int| 0 <= k < before.len() && before[k] == all[j];
                        assert(ops@[k] == all[j]);
                    }
                }
            }
        }
    }
    proof {
        if rem@.len() == 0 {
            assert(count_admissible(ops@, rem@) == 0);
        }
    }
    if accepted < n {
        Err(GenError::CapacityExceeded)
    } else {
        Ok(())
    }
}

/// The eight "subtract nine" problems `11 - 9` to `18 - 9`.
fn sub_nine_pool() -> (r: Vec<Operation>)
    ensures
        r@.len() == 8,
        forall|i: int| 0 <= i < 8 ==> #[trigger] r@[i] == (Operation { a: (11 + i) as u32, b: 9, op: Op::Sub }),
        all_wf(r@),
        pairwise_unique(r@),
{
    let mut v: Vec<Operation> = Vec::new();
    let mut a: u32 = 11;
    while a <= 18
        invariant
            11 <= a <= 19,
            v@.len() == a - 11,
            forall|i: int| 0 <= i < v@.len() ==> #[trigger] v@[i] == (Operation { a: (11 + i) as u32, b: 9, op: Op::Sub }),
        decreases 19 - a,
    {
        v.push(Operation { a, b: 9, op: Op::Sub });
        a = a + 1;
    }
    v
}

/// The eight "result is nine" problems `11 - 2` to `18 - 9`.
fn to_nine_pool() -> (r: Vec<Operation>)
    ensures
        r@.len() == 8,
        forall|i: int| 0 <= i < 8 ==> #[trigger] r@[i] == (Operation { a: (11 + i) as u32, b: (2 + i) as u32, op: Op::Sub }),
        all_wf(r@),
        pairwise_unique(r@),
{
    let mut v: Vec<Operation> = Vec::new();
    let mut a: u32 = 11;
    while a <= 18
        invariant
            11 <= a <= 19,
            v@.len() == a - 11,
            forall|i: int| 0 <= i < v@.len() ==> #[trigger] v@[i] == (Operation { a: (11 + i) as u32, b: (2 + i) as u32, op: Op::Sub }),
        decreases 19 - a,
    {
        v.push(Operation { a, b: a - 9, op: Op::Sub });
        a = a + 1;
    }
    v
}

/// `n` distinct general problems over `lo..=hi`: operands drawn uniformly
/// from the range, excluded pairs and negative subtractions redrawn, the
/// operator a fair coin.
pub fn generate_ops(rng: &mut RandomSource, n: u32, lo: u32, hi: u32) -> (r: Result<Vec<Operation>, GenError>)
    ensures
        lo > hi <==> r == Err::<Vec<Operation>, GenError>(GenError::EmptyRange),
        lo <= hi && n == 0 <==> r == Err::<Vec<Operation>, GenError>(GenError::NoProblems),
        lo <= hi && n > 0 && r is Err ==> r == Err::<Vec<Operation>, GenError>(GenError::CapacityExceeded),
        r == Err::<Vec<Operation>, GenError>(GenError::CapacityExceeded) ==> range_exhausted_below(n, lo, hi),
        r is Ok ==> ({
            let v = r->Ok_0@;
            &&& v.len() == n
            &&& pairwise_unique(v)
            &&& forall|i: int| 0 <= i < v.len() ==> general_ok(#[trigger] v[i], lo, hi)
        }),
{
    if lo > hi {
        return Err(GenError::EmptyRange);
    }
    if n == 0 {
        return Err(GenError::NoProblems);
    }
    let mut ops = OpsBuilder::new();
    let res = fill_general(&mut ops, rng, n, lo, hi);
    proof {
        ops.lemma_wf();
        assert(forall|i: int| 0 <= i < ops@.len() ==> general_ok(#[trigger] ops@[i], lo, hi));
        if res is Err {
            assert(ops@.subrange(0, 0) =~= Seq::<Operation>::empty());
            assert(range_exhausted_below(n, lo, hi));
        }
    }
    match res {
        Ok(()) => Ok(ops.into_operations()),
        Err(e) => Err(e),
    }
}

/// `n` distinct "subtract nine" problems, `a - 9` with `a` drawn uniformly
/// from `11..=18`; there are only eight of them.
pub fn generate_sub_with_nine(rng: &mut RandomSource, n: u32) -> (r: Result<Vec<Operation>, GenError>)
    ensures
        n <= 8 <==> r is Ok,
        n > 8 <==> r == Err::<Vec<Operation>, GenError>(GenError::CapacityExceeded),
        r is Ok ==> ({
            let v = r->Ok_0@;
            &&& v.len() == n
            &&& pairwise_unique(v)
            &&& forall|i: int| 0 <= i < v.len() ==> sub_nine_ok(#[trigger] v[i])
        }),
        n == 8 ==> forall|a: u32| 11 <= a <= 18 ==> r->Ok_0@.contains(#[trigger] minus_nine(a)),
{
    let mut ops = OpsBuilder::new();
    let pool = sub_nine_pool();
    let ghost all = pool@;
    proof {
        lemma_count_fresh(all);
    }
    let res = fill_from_pool(&mut ops, rng, pool, n);
    proof {
        ops.lemma_wf();
        if n == 8 {
            assert(forall|j: int| 0 <= j < 8 ==> ops@.contains(#[trigger] all[j]));
            assert forall|a: u32| 11 <= a <= 18 implies ops@.contains(#[trigger] minus_nine(a)) by {
                assert(all[a - 11] == minus_nine(a));
            }
        }
        assert forall|i: int| 0 <= i < ops@.len() implies sub_nine_ok(#[trigger] ops@[i]) by {
            assert(all.contains(ops@[i]));
        }
    }
    match res {
        Ok(()) => Ok(ops.into_operations()),
        Err(e) => Err(e),
    }
}

/// `n` distinct "result is nine" problems, `a - (a - 9)` with `a` drawn
/// uniformly from `11..=18`; there are only eight of them.
pub fn generate_sub_to_nine(rng: &mut RandomSource, n: u32) -> (r: Result<Vec<Operation>, GenError>)
    ensures
        n <= 8 <==> r is Ok,
        n > 8 <==> r == Err::<Vec<Operation>, GenError>(GenError::CapacityExceeded),
        r is Ok ==> ({
            let v = r->Ok_0@;
            &&& v.len() == n
            &&& pairwise_unique(v)
            &&& forall|i: int| 0 <= i < v.len() ==> to_nine_ok(#[trigger] v[i])
        }),
        n == 8 ==> forall|a: u32| 11 <= a <= 18 ==> r->Ok_0@.contains(#[trigger] nine_result(a)),
{
    let mut ops = OpsBuilder::new();
    let pool = to_nine_pool();
    let ghost all = pool@;
    proof {
        lemma_count_fresh(all);
    }
    let res = fill_from_pool(&mut ops, rng, pool, n);
    proof {
        ops.lemma_wf();
        if n == 8 {
            assert(forall|j: int| 0 <= j < 8 ==> ops@.contains(#[trigger] all[j]));
            assert forall|a: u32| 11 <= a <= 18 implies ops@.contains(#[trigger] nine_result(a)) by {
                assert(all[a - 11] == nine_result(a));
            }
        }
        assert forall|i: int| 0 <= i < ops@.len() implies to_nine_ok(#[trigger] ops@[i]) by {
            assert(all.contains(ops@[i]));
        }
    }
    match res {
        Ok(()) => Ok(ops.into_operations()),
        Err(e) => Err(e),
    }
}

/// What one worksheet asks for.
#[derive(Clone, Copy, Debug, PartialEq, Eq, Structural)]
pub struct WorksheetConfig {
    /// Number of general problems.
    pub count: u32,
    /// Smallest operand of a general problem.
    pub lo: u32,
    /// Largest operand of a general problem.
    pub hi: u32,
    /// Number of "subtract nine" problems.
    pub sub_nine: u32,
    /// Number of "result is nine" problems.
    pub to_nine: u32,
}

impl WorksheetConfig {
    pub open spec fn total(self) -> int {
        self.count + self.sub_nine + self.to_nine
    }
}

/// `ops` is, in some order, `cfg.sub_nine` "subtract nine" problems,
/// `cfg.to_nine` "result is nine" problems and `cfg.count` general problems.
pub open spec fn made_of(ops: Seq<Operation>, cfg: WorksheetConfig) -> bool {
    exists|s: Seq<Operation>, t: Seq<Operation>, g: Seq<Operation>|
        {
            &&& s.len() == cfg.sub_nine
            &&& t.len() == cfg.to_nine
            &&& g.len() == cfg.count
            &&& forall|i: int| 0 <= i < s.len() ==> sub_nine_ok(#[trigger] s[i])
            &&& forall|i: int| 0 <= i < t.len() ==> to_nine_ok(#[trigger] t[i])
            &&& forall|i: int| 0 <= i < g.len() ==> general_ok(#[trigger] g[i], cfg.lo, cfg.hi)
            &&& #[trigger] (s + t + g).to_multiset() == ops.to_multiset()
        }
}

/// Some set of fewer than `n` distinct worksheet problems for `cfg` blocks
/// every general problem of the range: a worksheet can hold no more.
pub open spec fn worksheet_blocked_below(n: int, cfg: WorksheetConfig) -> bool {
    exists|s: Seq<Operation>|
        {
            &&& s.len() < n
            &&& pairwise_unique(s)
            &&& forall|i: int|
                0 <= i < s.len() ==> general_ok(#[trigger] s[i], cfg.lo, cfg.hi) || sub_nine_ok(s[i])
                    || to_nine_ok(s[i])
            &&& forall|p: Operation| general_ok(p, cfg.lo, cfg.hi) ==> !#[trigger] admissible(s, p)
        }
}

/// The only reasons a worksheet for a valid configuration can fail: too many
/// special problems (all eight "result is nine" problems are out of reach once
/// `18 - 9` was drawn as a "subtract nine" problem), or a range that runs out
/// of general problems.
pub open spec fn capacity_cause(cfg: WorksheetConfig) -> bool {
    cfg.sub_nine > 8 || cfg.to_nine > 8 || (cfg.to_nine == 8 && cfg.sub_nine > 0)
        || worksheet_blocked_below(cfg.total(), cfg)
}

/// Builds a whole worksheet: the special problems first, then the general
/// ones, all offered to one registry so that no problem occurs twice, then
/// shuffled.
pub fn build_worksheet(rng: &mut RandomSource, cfg: &WorksheetConfig) -> (r: Result<OpsBuilder, GenError>)
    ensures
        cfg.lo > cfg.hi <==> r == Err::<OpsBuilder, GenError>(GenError::EmptyRange),
        cfg.lo <= cfg.hi && cfg.total() == 0 <==> r == Err::<OpsBuilder, GenError>(GenError::NoProblems),
        cfg.lo <= cfg.hi && cfg.total() > 0 && (cfg.sub_nine > 8 || cfg.to_nine > 8) ==> r == Err::<
            OpsBuilder,
            GenError,
        >(GenError::CapacityExceeded),
        cfg.lo <= cfg.hi && cfg.total() > 0 && r is Err ==> r == Err::<OpsBuilder, GenError>(
            GenError::CapacityExceeded,
        ),
        r == Err::<OpsBuilder, GenError>(GenError::CapacityExceeded) ==> capacity_cause(*cfg),
        cfg.total() > 0 && cfg.count == 0 && cfg.sub_nine <= 8 && cfg.to_nine <= 7 ==> (r is Ok
            <==> cfg.lo <= cfg.hi),
        cfg.total() > 0 && cfg.count == 0 && cfg.sub_nine == 0 && cfg.to_nine <= 8 ==> (r is Ok
            <==> cfg.lo <= cfg.hi),
        r is Ok ==> ({
            let b = r->Ok_0;
            &&& b.wf()
            &&& b@.len() == cfg.total()
            &&& made_of(b@, *cfg)
            &&& forall|i: int|
                0 <= i < b@.len() ==> general_ok(#[trigger] b@[i], cfg.lo, cfg.hi) || sub_nine_ok(b@[i])
                    || to_nine_ok(b@[i])
        }),
{
    if cfg.lo > cfg.hi {
        return Err(GenError::EmptyRange);
    }
    if cfg.count == 0 && cfg.sub_nine == 0 && cfg.to_nine == 0 {
        return Err(GenError::NoProblems);
    }
    if cfg.sub_nine > 8 || cfg.to_nine > 8 {
        return Err(GenError::CapacityExceeded);
    }
    let ghost lo = cfg.lo;
    let ghost hi = cfg.hi;
    let ghost kind = |p: Operation| general_ok(p, lo, hi) || sub_nine_ok(p) || to_nine_ok(p);
    let mut ops = OpsBuilder::new();
    let pool = sub_nine_pool();
    let ghost pool1 = pool@;
    let ghost s0 = ops@;
    proof {
        lemma_count_fresh(pool1);
    }
    if let Err(e) = fill_from_pool(&mut ops, rng, pool, cfg.sub_nine) {
        return Err(e);
    }
    let ghost s1 = ops@;
    let pool = to_nine_pool();
    let ghost pool2 = pool@;
    proof {
        // the "subtract nine" problems block at most `18 - 9` of this pool
        if s1.len() == 0 {
            assert(s1 =~= Seq::<Operation>::empty());
            lemma_count_fresh(pool2);
        } else {
            assert forall|j: int| 0 <= j < 7 implies admissible(s1, #[trigger] pool2[j]) by {
                assert forall|k: int| 0 <= k < s1.len() implies !#[trigger] conflicts(s1[k], pool2[j]) by {
                    assert(pool1.contains(s1[k]));
                }
            }
            lemma_count_at_least(s1, pool2, 7);
        }
    }
    if let Err(e) = fill_from_pool(&mut ops, rng, pool, cfg.to_nine) {
        return Err(e);
    }
    let ghost s2 = ops@;
    let res = fill_general(&mut ops, rng, cfg.count, cfg.lo, cfg.hi);
    let ghost s3 = ops@;
    proof {
        assert forall|i: int| 0 <= i < s3.len() implies kind(#[trigger] s3[i]) by {
            if i >= s2.len() {
                assert(general_ok(s3[i], lo, hi));
            } else {
                assert(s3[i] == s3.subrange(0, s2.len() as int)[i]);
                if i >= s1.len() {
                    assert(pool2.contains(s2[i]));
                } else {
                    assert(s2[i] == s2.subrange(0, s1.len() as int)[i]);
                    assert(pool1.contains(s1[i]));
                }
            }
        }
        if res is Err {
            ops.lemma_wf();
            assert(worksheet_blocked_below(cfg.total(), *cfg));
        }
    }
    if let Err(e) = res {
        return Err(e);
    }
    let shuffled = ops.shuffle(rng);
    proof {
        let ps = s1;
        let pt = s2.subrange(s1.len() as int, s2.len() as int);
        let pg = s3.subrange(s2.len() as int, s3.len() as int);
        assert(s3 =~= ps + pt + pg) by {
            assert(s2 =~= s2.subrange(0, s1.len() as int) + pt);
            assert(s3 =~= s3.subrange(0, s2.len() as int) + pg);
        }
        assert forall|i: int| 0 <= i < ps.len() implies sub_nine_ok(#[trigger] ps[i]) by {
            assert(pool1.contains(s1[i]));
        }
        assert forall|i: int| 0 <= i < pt.len() implies to_nine_ok(#[trigger] pt[i]) by {
            assert(pool2.contains(s2[s1.len() + i]));
        }
        assert forall|i: int| 0 <= i < pg.len() implies general_ok(#[trigger] pg[i], lo, hi) by {
            assert(general_ok(s3[s2.len() + i], lo, hi));
        }
        assert(made_of(shuffled@, *cfg));
        broadcast use vstd::seq_lib::to_multiset_contains;

        assert forall|i: int| 0 <= i < shuffled@.len() implies kind(#[trigger] shuffled@[i]) by {
            assert(shuffled@.contains(shuffled@[i]));
            assert(shuffled@.to_multiset().count(shuffled@[i]) > 0);
            assert(s3.contains(shuffled@[i]));
        }
    }
    Ok(shuffled)
}

/// `v` are the printed lines, in order, of a worksheet for `cfg`: distinct,
/// well-formed problems made as `made_of` says.
pub open spec fn printed_worksheet(v: Seq<String>, cfg: WorksheetConfig) -> bool {
    exists|b: Seq<Operation>|
        {
            &&& #[trigger] made_of(b, cfg)
            &&& pairwise_unique(b)
            &&& all_wf(b)
            &&& b.len() == v.len()
            &&& forall|i: int| 0 <= i < v.len() ==> (#[trigger] v[i])@ == line_of(b[i])
        }
}

/// The printed lines of a freshly built worksheet, in shuffled order, one per
/// problem; the caller ends the output with a `Done` line.
pub fn worksheet_lines(rng: &mut RandomSource, cfg: &WorksheetConfig) -> (r: Result<Vec<String>, GenError>)
    ensures
        cfg.lo > cfg.hi <==> r == Err::<Vec<String>, GenError>(GenError::EmptyRange),
        cfg.lo <= cfg.hi && cfg.total() == 0 <==> r == Err::<Vec<String>, GenError>(GenError::NoProblems),
        cfg.lo <= cfg.hi && cfg.total() > 0 && (cfg.sub_nine > 8 || cfg.to_nine > 8) ==> r == Err::<
            Vec<String>,
            GenError,
        >(GenError::CapacityExceeded),
        cfg.lo <= cfg.hi && cfg.total() > 0 && r is Err ==> r == Err::<Vec<String>, GenError>(
            GenError::CapacityExceeded,
        ),
        cfg.total() > 0 && cfg.count == 0 && cfg.sub_nine <= 8 && cfg.to_nine <= 7 ==> (r is Ok
            <==> cfg.lo <= cfg.hi),
        cfg.total() > 0 && cfg.count == 0 && cfg.sub_nine == 0 && cfg.to_nine <= 8 ==> (r is Ok
            <==> cfg.lo <= cfg.hi),
        r == Err::<Vec<String>, GenError>(GenError::CapacityExceeded) ==> capacity_cause(*cfg),
        r is Ok ==> r->Ok_0@.len() == cfg.total() && printed_worksheet(r->Ok_0@, *cfg),
{
    match build_worksheet(rng, cfg) {
        Ok(b) => {
            let v = b.lines();
            proof {
                b.lemma_wf();
                assert(made_of(b@, *cfg));
                assert(printed_worksheet(v@, *cfg));
            }
            Ok(v)
        },
        Err(e) => Err(e),
    }
}

} // verus!
