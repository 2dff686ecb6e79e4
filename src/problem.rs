//! A single worksheet problem, the rule that decides when two problems count
//! as the same one, and the text line a problem is printed as.
use vstd::prelude::*;

verus! {

/// The operator of a problem.
#[derive(Clone, Copy, Debug, PartialEq, Eq, Structural)]
pub enum Op {
    Add,
    Sub,
}

/// One unsolved expression `a op b =`.
#[derive(Clone, Copy, Debug, PartialEq, Eq, Structural)]
pub struct Operation {
    pub a: u32,
    pub b: u32,
    pub op: Op,
}

/// The canonical key `(a, b, operator)` of a problem.
pub type Key = (u32, u32, Op);

impl Operation {
    /// A subtraction never goes below zero.
    pub open spec fn wf(self) -> bool {
        self.op == Op::Sub ==> self.a >= self.b
    }

    pub open spec fn key(self) -> Key {
        (self.a, self.b, self.op)
    }

    /// The key with the operands swapped.
    pub open spec fn commuted_key(self) -> Key {
        (self.b, self.a, self.op)
    }

    /// The keys a problem blocks once it is accepted: its own key, and for an
    /// addition also the commuted one.
    pub open spec fn covers(self, k: Key) -> bool {
        k == self.key() || (self.op == Op::Add && k == self.commuted_key())
    }
}

/// Two problems count as the same one: equal operands under the same
/// operator, or, for additions, the same operands in swapped order.
pub open spec fn conflicts(p: Operation, q: Operation) -> bool {
    p.op == q.op && ((p.a == q.a && p.b == q.b) || (p.op == Op::Add && p.a == q.b && p.b == q.a))
}

/// No two problems of the sequence count as the same one.
pub open spec fn pairwise_unique(s: Seq<Operation>) -> bool {
    forall|i: int, j: int|
        0 <= i < s.len() && 0 <= j < s.len() && i != j ==> !#[trigger] conflicts(s[i], s[j])
}

/// `x` counts as the same problem as none of `s`.
pub open spec fn admissible(s: Seq<Operation>, x: Operation) -> bool {
    forall|i: int| 0 <= i < s.len() ==> !#[trigger] conflicts(s[i], x)
}

/// Every problem of the sequence is well formed.
pub open spec fn all_wf(s: Seq<Operation>) -> bool {
    forall|i: int| 0 <= i < s.len() ==> #[trigger] s[i].wf()
}

/// Operand pairs the general generator never uses: equal, consecutive, or
/// involving one.
pub open spec fn excluded(a: int, b: int) -> bool {
    a == b || a == b + 1 || b == a + 1 || a == 1 || b == 1
}

/// Decides whether a pair of operands is excluded.
pub fn is_excluded(a: u32, b: u32) -> (r: bool)
    ensures
        r == excluded(a as int, b as int),
{
    a == b || (a > b && a - b == 1) || (b > a && b - a == 1) || a == 1 || b == 1
}

} // verus!
