//! The text line of a problem: `a op b =`, each operand left-padded to
//! width two so that one- and two-digit numbers line up.
use vstd::prelude::*;
use vstd::string::StringExecFns;

use crate::problem::{Op, Operation};

verus! {

pub open spec fn digit_char(d: int) -> char {
    seq!['0', '1', '2', '3', '4', '5', '6', '7', '8', '9'][d]
}

/// The decimal digits of `n`, most significant first.
pub open spec fn decimal(n: nat) -> Seq<char>
    decreases n,
{
    if n < 10 {
        seq![digit_char(n as int)]
    } else {
        decimal(n / 10).push(digit_char((n % 10) as int))
    }
}

/// `n` in decimal, with one leading space when it has a single digit.
pub open spec fn padded(n: nat) -> Seq<char> {
    if n < 10 {
        seq![' '] + decimal(n)
    } else {
        decimal(n)
    }
}

pub open spec fn op_char(op: Op) -> char {
    match op {
        Op::Add => '+',
        Op::Sub => '-',
    }
}

/// The printed line of a problem.
pub open spec fn line_of(p: Operation) -> Seq<char> {
    padded(p.a as nat) + seq![' ', op_char(p.op), ' '] + padded(p.b as nat) + seq![' ', '=']
}

fn digit_of(d: u32) -> (r: &'static str)
    requires
        d < 10,
    ensures
        r@ == seq![digit_char(d as int)],
{
    proof {
        reveal_strlit("0");
        reveal_strlit("1");
        reveal_strlit("2");
        reveal_strlit("3");
        reveal_strlit("4");
        reveal_strlit("5");
        reveal_strlit("6");
        reveal_strlit("7");
        reveal_strlit("8");
        reveal_strlit("9");
    }
    if d == 0 {
        "0"
    } else if d == 1 {
        "1"
    } else if d == 2 {
        "2"
    } else if d == 3 {
        "3"
    } else if d == 4 {
        "4"
    } else if d == 5 {
        "5"
    } else if d == 6 {
        "6"
    } else if d == 7 {
        "7"
    } else if d == 8 {
        "8"
    } else {
        "9"
    }
}

fn push_decimal(n: u32, out: &mut String)
    ensures
        final(out)@ == old(out)@ + decimal(n as nat),
    decreases n,
{
    if n >= 10 {
        push_decimal(n / 10, out);
    }
    out.append(digit_of(n % 10));
    assert(final(out)@ =~= old(out)@ + decimal(n as nat));
}

fn push_padded(n: u32, out: &mut String)
    ensures
        final(out)@ == old(out)@ + padded(n as nat),
{
    if n < 10 {
        proof {
            reveal_strlit(" ");
        }
        out.append(" ");
    }
    push_decimal(n, out);
    assert(final(out)@ =~= old(out)@ + padded(n as nat));
}

/// The line a problem is printed as, e.g. ` 8 - 12 =` or `15 +  7 =`.
pub fn render(p: &Operation) -> (r: String)
    ensures
        r@ == line_of(*p),
{
    proof {
        reveal_strlit(" + ");
        reveal_strlit(" - ");
        reveal_strlit(" =");
    }
    let mut v = String::new();
    push_padded(p.a, &mut v);
    v.append(
        match p.op {
            Op::Add => " + ",
            Op::Sub => " - ",
        },
    );
    push_padded(p.b, &mut v);
    v.append(" =");
    assert(v@ =~= line_of(*p));
    v
}

} // verus!
