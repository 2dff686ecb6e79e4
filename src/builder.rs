//! The collection of accepted problems, with the registry of keys that keeps
//! it free of duplicates.
use vstd::prelude::*;

use crate::problem::{admissible, all_wf, conflicts, pairwise_unique, Key, Op, Operation};
use crate::random::RandomSource;
use crate::render::{line_of, render};

verus! {

/// Some problem of `s` blocks the key `k`.
pub open spec fn registered(s: Seq<Operation>, k: Key) -> bool {
    exists|i: int| 0 <= i < s.len() && #[trigger] s[i].covers(k)
}

/// What `acc` becomes when each problem of `new` is offered in turn: one that
/// counts as the same as an earlier accepted problem is dropped, any other is
/// appended.
pub open spec fn merged(acc: Seq<Operation>, new: Seq<Operation>) -> Seq<Operation>
    decreases new.len(),
{
    if new.len() == 0 {
        acc
    } else {
        let prev = merged(acc, new.drop_last());
        if admissible(prev, new.last()) {
            prev.push(new.last())
        } else {
            prev
        }
    }
}

/// `s` with the problems at positions `i` and `j` exchanged.
pub open spec fn swapped(s: Seq<Operation>, i: int, j: int) -> Seq<Operation> {
    s.update(i, s[j]).update(j, s[i])
}

/// Draws for a Fisher-Yates shuffle of `n` problems: one per position, the
/// draw at position `i` being at most `i`.
pub open spec fn valid_draws(d: Seq<usize>, n: nat) -> bool {
    d.len() == n && forall|i: int| 1 <= i < n ==> #[trigger] d[i] <= i
}

/// The swaps of positions `i`, `i - 1`, ..., 1 with their draws, in that order.
pub open spec fn swaps_down(s: Seq<Operation>, d: Seq<usize>, i: int) -> Seq<Operation>
    decreases i,
{
    if i <= 0 {
        s
    } else {
        swaps_down(swapped(s, i, d[i] as int), d, i - 1)
    }
}

/// The order a Fisher-Yates shuffle with draws `d` gives: for `i` from the
/// last position down to 1, positions `i` and `d[i]` are swapped.
pub open spec fn fisher_yates(s: Seq<Operation>, d: Seq<usize>) -> Seq<Operation> {
    swaps_down(s, d, s.len() - 1)
}

/// Swapping two positions keeps the problems, their validity, their
/// distinctness and the keys they block.
proof fn lemma_swap_keeps(s: Seq<Operation>, i: int, j: int)
    requires
        0 <= i < s.len(),
        0 <= j < s.len(),
    ensures
        ({
            let t = swapped(s, i, j);
            &&& t.len() == s.len()
            &&& t.to_multiset() == s.to_multiset()
            &&& all_wf(s) ==> all_wf(t)
            &&& pairwise_unique(s) ==> pairwise_unique(t)
            &&& forall|k: Key| registered(s, k) <==> registered(t, k)
        }),
{
    broadcast use vstd::seq_lib::to_multiset_update, vstd::seq_lib::to_multiset_contains, vstd::multiset::group_multiset_axioms;

    let t = s.update(i, s[j]).update(j, s[i]);
    let m = s.to_multiset();
    let u = s.update(i, s[j]);
    assert(u.to_multiset() == m.insert(s[j]).remove(s[i]));
    assert(u[j] == s[j] || i == j);
    if i == j {
        assert(t =~= s);
    } else {
        assert(t.to_multiset() == u.to_multiset().insert(s[i]).remove(s[j]));
        assert(s.contains(s[i]) && s.contains(s[j]));
        assert(m.count(s[i]) > 0 && m.count(s[j]) > 0);
        let m2 = m.insert(s[j]).remove(s[i]);
        assert(m2.insert(s[i]).remove(s[j]) =~= m);
    }
    // position p of t holds the problem at position src(p) of s
    let src = |p: int| if p == i { j } else if p == j { i } else { p };
    assert(forall|p: int| 0 <= p < t.len() ==> t[p] == s[src(p)]);
    assert forall|k: Key| registered(s, k) <==> registered(t, k) by {
        if registered(s, k) {
            let p = choose|p: int| 0 <= p < s.len() && #[trigger] s[p].covers(k);
            assert(t[src(p)].covers(k));
        }
        if registered(t, k) {
            let p = choose|p: int| 0 <= p < t.len() && #[trigger] t[p].covers(k);
            assert(s[src(p)].covers(k));
        }
    }
    if all_wf(s) {
        assert forall|p: int| 0 <= p < t.len() implies #[trigger] t[p].wf() by {
            assert(s[src(p)].wf());
        }
    }
    if pairwise_unique(s) {
        assert forall|p: int, q: int|
            0 <= p < t.len() && 0 <= q < t.len() && p != q implies !#[trigger] conflicts(
            t[p],
            t[q],
        ) by {
            assert(!conflicts(s[src(p)], s[src(q)]));
        }
    }
}

/// Accepted problems, in order, and the registry of the keys they block.
pub struct OpsBuilder {
    operations: Vec<Operation>,
    /// Kept in a `Vec`: vstd gives `HashSet` a specification only for keys
    /// whose hashing it models (`obeys_key_model`: `bool` and the primitive
    /// integers), and a key holds the library's `Op`.
    used: Vec<Key>,
}

impl View for OpsBuilder {
    type V = Seq<Operation>;

    closed spec fn view(&self) -> Seq<Operation> {
        self.operations@
    }
}

impl OpsBuilder {
    /// The accepted problems are well formed and pairwise distinct, and the
    /// registry holds exactly the keys they block.
    pub closed spec fn wf(&self) -> bool {
        &&& all_wf(self.operations@)
        &&& pairwise_unique(self.operations@)
        &&& forall|k: Key| self.used@.contains(k) <==> registered(self.operations@, k)
    }

    /// An empty collection with an empty registry.
    pub fn new() -> (r: Self)
        ensures
            r.wf(),
            r@ == Seq::<Operation>::empty(),
    {
        OpsBuilder { operations: Vec::new(), used: Vec::new() }
    }

    /// The accepted problems, in order.
    pub fn operations(&self) -> (r: &Vec<Operation>)
        ensures
            r@ == self@,
    {
        &self.operations
    }

    /// Number of accepted problems.
    pub fn len(&self) -> (r: usize)
        ensures
            r == self@.len(),
    {
        self.operations.len()
    }

    fn is_registered(&self, k: Key) -> (r: bool)
        ensures
            r == self.used@.contains(k),
    {
        let mut i: usize = 0;
        while i < self.used.len()
            invariant
                i <= self.used@.len(),
                forall|j: int| 0 <= j < i ==> self.used@[j] != k,
            decreases self.used@.len() - i,
        {
            let u = self.used[i];
            if u.0 == k.0 && u.1 == k.1 && u.2 == k.2 {
                assert(self.used@[i as int] == k);
                return true;
            }
            i = i + 1;
        }
        false
    }

    /// The uniqueness filter: accepts `x` when it counts as the same problem as
    /// none accepted so far, records the keys it blocks, and says whether it
    /// was accepted.
    pub fn offer(&mut self, x: Operation) -> (r: bool)
        requires
            old(self).wf(),
            x.wf(),
        ensures
            final(self).wf(),
            r == admissible(old(self)@, x),
            r == !(registered(old(self)@, x.key()) || (x.op == Op::Add && registered(
                old(self)@,
                x.commuted_key(),
            ))),
            final(self)@ == (if r { old(self)@.push(x) } else { old(self)@ }),
    {
        let ghost s = self.operations@;
        let key: Key = (x.a, x.b, x.op);
        let reverse: Key = (x.b, x.a, x.op);
        let taken = self.is_registered(key) || (x.op == Op::Add && self.is_registered(reverse));
        proof {
            assert forall|i: int| 0 <= i < s.len() implies (conflicts(s[i], x) <==> s[i].covers(
                key,
            )) by {}
            if taken {
                if self.used@.contains(key) {
                    let i = choose|i: int| 0 <= i < s.len() && #[trigger] s[i].covers(key);
                    assert(conflicts(s[i], x));
                } else {
                    let i = choose|i: int| 0 <= i < s.len() && #[trigger] s[i].covers(reverse);
                    assert(conflicts(s[i], x));
                }
            } else {
                assert forall|i: int| 0 <= i < s.len() implies !conflicts(s[i], x) by {
                    if conflicts(s[i], x) {
                        assert(registered(s, key));
                    }
                }
            }
        }
        if taken {
            return false;
        }
        self.operations.push(x);
        self.used.push(key);
        if x.op == Op::Add {
            self.used.push(reverse);
        }
        proof {
            let t = self.operations@;
            assert(t[s.len() as int] == x);
            let u0 = old(self).used@;
            let u = self.used@;
            assert(u[u0.len() as int] == key);
            assert(forall|j: int| 0 <= j < u0.len() ==> u[j] == u0[j]);
            assert forall|k: Key| self.used@.contains(k) <==> registered(t, k) by {
                if u.contains(k) {
                    let j = choose|j: int| 0 <= j < u.len() && u[j] == k;
                    if j < u0.len() {
                        assert(u0[j] == k);
                        assert(u0.contains(k));
                        assert(registered(s, k));
                        let i = choose|i: int| 0 <= i < s.len() && #[trigger] s[i].covers(k);
                        assert(t[i].covers(k));
                    } else {
                        assert(t[s.len() as int].covers(k));
                    }
                }
                if u0.contains(k) {
                    let j = choose|j: int| 0 <= j < u0.len() && u0[j] == k;
                    assert(u[j] == k);
                }
                if x.op == Op::Add {
                    assert(u[u0.len() + 1int] == reverse);
                }
                if registered(t, k) {
                    let i = choose|i: int| 0 <= i < t.len() && #[trigger] t[i].covers(k);
                    if i < s.len() {
                        assert(s[i].covers(k));
                        assert(old(self).used@.contains(k));
                    }
                }
                if old(self).used@.contains(k) {
                    let i = choose|i: int| 0 <= i < s.len() && #[trigger] s[i].covers(k);
                    assert(t[i].covers(k));
                }
                if k == key {
                    assert(t[s.len() as int].covers(k));
                }
                if x.op == Op::Add && k == reverse {
                    assert(t[s.len() as int].covers(k));
                }
            }
            assert(pairwise_unique(t)) by {
                assert forall|i: int, j: int|
                    0 <= i < t.len() && 0 <= j < t.len() && i != j implies !#[trigger] conflicts(
                    t[i],
                    t[j],
                ) by {
                    if i < s.len() && j < s.len() {
                        assert(t[i] == s[i] && t[j] == s[j]);
                    } else if i < s.len() {
                        assert(!conflicts(s[i], x));
                    } else {
                        assert(!conflicts(s[j], x));
                    }
                }
            }
        }
        true
    }

    /// Offers each problem of `new_ops` in turn and keeps those accepted.
    pub fn add_ops(self, new_ops: Vec<Operation>) -> (r: Self)
        requires
            self.wf(),
            all_wf(new_ops@),
        ensures
            r.wf(),
            r@ == merged(self@, new_ops@),
    {
        let ghost start = self@;
        let mut acc = self;
        let mut i: usize = 0;
        while i < new_ops.len()
            invariant
                i <= new_ops@.len(),
                all_wf(new_ops@),
                acc.wf(),
                acc@ == merged(start, new_ops@.take(i as int)),
            decreases new_ops@.len() - i,
        {
            let x = new_ops[i];
            proof {
                let t = new_ops@.take(i as int + 1);
                assert(t.drop_last() =~= new_ops@.take(i as int));
                assert(t.last() == x);
            }
            acc.offer(x);
            i = i + 1;
        }
        assert(new_ops@.take(i as int) =~= new_ops@);
        acc
    }

    /// Applies Fisher-Yates swaps with the given draws: for `i` from the
    /// last position down to 1, swaps positions `i` and `draws[i]`.
    pub fn apply_draws(self, draws: &Vec<usize>) -> (r: Self)
        requires
            self.wf(),
            valid_draws(draws@, self@.len()),
        ensures
            r.wf(),
            r@ == fisher_yates(self@, draws@),
            r@.len() == self@.len(),
            r@.to_multiset() == self@.to_multiset(),
    {
        let ghost start = self@;
        let ghost d = draws@;
        let mut acc = self;
        let mut i: usize = acc.operations.len();
        while i > 1
            invariant
                i <= acc@.len(),
                acc.wf(),
                acc@.len() == start.len(),
                valid_draws(d, start.len()),
                d == draws@,
                acc@.to_multiset() == start.to_multiset(),
                swaps_down(acc@, d, i - 1) == fisher_yates(start, d),
            decreases i,
        {
            i = i - 1;
            let j = draws[i];
            let x = acc.operations[i];
            let y = acc.operations[j];
            let ghost prev = acc@;
            proof {
                lemma_swap_keeps(acc.operations@, i as int, j as int);
                assert(swaps_down(acc@, d, i as int) == swaps_down(swapped(acc@, i as int, j as int), d, i - 1));
            }
            acc.operations.set(i, y);
            acc.operations.set(j, x);
            assert(acc@ =~= swapped(prev, i as int, j as int));
        }
        acc
    }

    /// Puts the accepted problems in a random order: draws `rng.below(i + 1)`
    /// for `i` from the last position down to 1 and applies those draws as
    /// Fisher-Yates swaps.
    pub fn shuffle(self, rng: &mut RandomSource) -> (r: Self)
        requires
            self.wf(),
        ensures
            r.wf(),
            r@.len() == self@.len(),
            r@.to_multiset() == self@.to_multiset(),
            exists|d: Seq<usize>| valid_draws(d, self@.len()) && r@ == #[trigger] fisher_yates(self@, d),
    {
        let n = self.operations.len();
        let mut draws: Vec<usize> = vec![0; n];
        let mut i: usize = n;
        while i > 1
            invariant
                i <= n,
                draws@.len() == n,
                forall|k: int| 1 <= k < n ==> #[trigger] draws@[k] <= k,
            decreases i,
        {
            i = i - 1;
            let j = rng.below(i + 1);
            draws.set(i, j);
        }
        let r = self.apply_draws(&draws);
        r
    }

    /// The printed lines of the accepted problems, in order.
    pub fn lines(&self) -> (r: Vec<String>)
        ensures
            r@.len() == self@.len(),
            forall|i: int| 0 <= i < r@.len() ==> (#[trigger] r@[i])@ == line_of(self@[i]),
    {
        let mut out: Vec<String> = Vec::new();
        let mut i: usize = 0;
        while i < self.operations.len()
            invariant
                i <= self@.len(),
                out@.len() == i,
                forall|k: int| 0 <= k < i ==> (#[trigger] out@[k])@ == line_of(self@[k]),
            decreases self@.len() - i,
        {
            out.push(render(&self.operations[i]));
            i = i + 1;
        }
        out
    }

    /// Gives up the accepted problems, in order.
    pub fn into_operations(self) -> (r: Vec<Operation>)
        ensures
            r@ == self@,
    {
        self.operations
    }

    /// What holds of every collection this type hands out: its problems are
    /// well formed and no two of them count as the same problem.
    pub proof fn lemma_wf(&self)
        requires
            self.wf(),
        ensures
            all_wf(self@),
            pairwise_unique(self@),
    {
    }
}

} // verus!
