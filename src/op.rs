//! The five binary operators, their precedence ranks and the rule that
//! decides whether one operator binds tighter than the one before it.

use vstd::prelude::*;

verus! {

#[derive(Clone, Copy, Debug, PartialEq, Eq, Structural)]
pub enum Op {
    Add,
    Sub,
    Mul,
    Div,
    Exp,
}

/// Precedence class: additive 0, multiplicative 1, exponentiation 2.
pub open spec fn rank_of(o: Op) -> nat {
    match o {
        Op::Add | Op::Sub => 0,
        Op::Mul | Op::Div => 1,
        Op::Exp => 2,
    }
}

/// `a` (the later operator) binds tighter than `b` (the earlier one):
/// a higher rank, or two exponentiations, which group to the right.
pub open spec fn binds_tighter(a: Op, b: Op) -> bool {
    (a == Op::Exp && b == Op::Exp) || rank_of(a) > rank_of(b)
}

impl Op {
    pub fn rank(&self) -> (r: u32)
        ensures
            r as nat == rank_of(*self),
    {
        match self {
            Op::Add => 0,
            Op::Sub => 0,
            Op::Mul => 1,
            Op::Div => 1,
            Op::Exp => 2,
        }
    }

    pub fn higher(&self, other: &Op) -> (r: bool)
        ensures
            r == binds_tighter(*self, *other),
    {
        match (self, other) {
            (Op::Exp, Op::Exp) => true,
            _ => self.rank() > other.rank(),
        }
    }

    /// The operator that the character stands for, if any.
    pub fn from_char(c: char) -> (r: Option<Op>)
        ensures
            r == op_of_char(c),
    {
        match c {
            '+' => Some(Op::Add),
            '-' => Some(Op::Sub),
            '*' => Some(Op::Mul),
            '/' => Some(Op::Div),
            '^' => Some(Op::Exp),
            _ => None,
        }
    }
}

pub open spec fn op_of_char(c: char) -> Option<Op> {
    if c == '+' {
        Some(Op::Add)
    } else if c == '-' {
        Some(Op::Sub)
    } else if c == '*' {
        Some(Op::Mul)
    } else if c == '/' {
        Some(Op::Div)
    } else if c == '^' {
        Some(Op::Exp)
    } else {
        None
    }
}

} // verus!
