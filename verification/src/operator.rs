//! The four binary operators and their canonical listing order.

use vstd::prelude::*;

verus! {

/// A binary arithmetic operator.
#[derive(Debug, Clone, Copy, PartialEq, Eq, Structural)]
pub enum Operator {
    Add,
    Sub,
    Mul,
    Div,
}

/// The operators in canonical order: `Add`, `Sub`, `Mul`, `Div`.
pub open spec fn canonical_operators() -> Seq<Operator> {
    seq![Operator::Add, Operator::Sub, Operator::Mul, Operator::Div]
}

impl Operator {
    /// Position of the operator in the canonical order.
    pub open spec fn rank(self) -> nat {
        match self {
            Operator::Add => 0,
            Operator::Sub => 1,
            Operator::Mul => 2,
            Operator::Div => 3,
        }
    }

    /// The operator at a position of the canonical order.
    pub open spec fn from_rank(r: nat) -> Operator {
        if r == 0 {
            Operator::Add
        } else if r == 1 {
            Operator::Sub
        } else if r == 2 {
            Operator::Mul
        } else {
            Operator::Div
        }
    }

    /// The character that stands for the operator in rendered text.
    pub open spec fn symbol_spec(self) -> char {
        match self {
            Operator::Add => '+',
            Operator::Sub => '-',
            Operator::Mul => '*',
            Operator::Div => '/',
        }
    }

    /// All operators, in the order in which every generator enumerates them.
    pub fn list() -> (ops: Vec<Operator>)
        ensures
            ops@ == canonical_operators(),
    {
        let mut ops: Vec<Operator> = Vec::new();
        ops.push(Operator::Add);
        ops.push(Operator::Sub);
        ops.push(Operator::Mul);
        ops.push(Operator::Div);
        assert(ops@ =~= canonical_operators());
        ops
    }

    /// The character that stands for the operator in rendered text.
    pub fn symbol(self) -> (c: char)
        ensures
            c == self.symbol_spec(),
    {
        match self {
            Operator::Add => '+',
            Operator::Sub => '-',
            Operator::Mul => '*',
            Operator::Div => '/',
        }
    }
}

} // verus!
