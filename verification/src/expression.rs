//! Expressions as syntax trees: a value, or an operator applied to two
//! expressions.

use crate::operator::Operator;
use crate::rational::Rational;
use crate::text::{fraction_text, push_char, push_fraction};
use vstd::prelude::*;

verus! {

/// A value, or an expression.
#[derive(Debug, PartialEq, Eq)]
pub enum ExpressionNode {
    Value(Rational),
    Exp(Expression),
}

/// An operator applied to two operands.
#[derive(Debug, PartialEq, Eq)]
pub struct Expression {
    pub op: Operator,
    pub lhs: Box<ExpressionNode>,
    pub rhs: Box<ExpressionNode>,
}

/// The result of an operator on two values; `None` where the operator is a
/// division by zero or a part of the result cannot be held.
pub open spec fn applied(op: Operator, lhs: Rational, rhs: Rational) -> Option<Rational> {
    match op {
        Operator::Add => lhs.sum(rhs),
        Operator::Sub => lhs.difference(rhs),
        Operator::Mul => lhs.product(rhs),
        Operator::Div => lhs.quotient(rhs),
    }
}

/// The result of an operator on the values of two operands, where both
/// have a value.
pub open spec fn combined(op: Operator, lhs: Option<Rational>, rhs: Option<Rational>) -> Option<
    Rational,
> {
    match (lhs, rhs) {
        (Some(l), Some(r)) => applied(op, l, r),
        _ => None,
    }
}

/// The text of an operator applied to two operands: the operands' texts
/// about the operator's symbol, with a space on both sides of it, all in
/// parentheses.
pub open spec fn infix_text(op: Operator, lhs: Seq<char>, rhs: Seq<char>) -> Seq<char> {
    seq!['('] + lhs + seq![' ', op.symbol_spec(), ' '] + rhs + seq![')']
}

/// Applies an operator to two values.
pub fn apply(op: Operator, lhs: Rational, rhs: Rational) -> (r: Option<Rational>)
    ensures
        r == applied(op, lhs, rhs),
{
    match op {
        Operator::Add => lhs.checked_add(rhs),
        Operator::Sub => lhs.checked_sub(rhs),
        Operator::Mul => lhs.checked_mul(rhs),
        Operator::Div => lhs.checked_div(rhs),
    }
}

/// What has a value in exact arithmetic, unless the value fails to exist.
pub trait RationalEvaluatable {
    /// The value; `None` where a division by zero or an overflow occurs
    /// anywhere in the computation.
    spec fn value(&self) -> Option<Rational>;

    /// Computes the value.
    fn evaluate(&self) -> (r: Option<Rational>)
        ensures
            r == self.value(),
    ;
}

impl ExpressionNode {
    /// The value of the node.
    pub open spec fn node_value(self) -> Option<Rational>
        decreases self,
    {
        match self {
            ExpressionNode::Value(r) => Some(r),
            ExpressionNode::Exp(e) => combined(e.op, e.lhs.node_value(), e.rhs.node_value()),
        }
    }

    /// The text of the node: fully parenthesized infix notation.
    pub open spec fn node_text(self) -> Seq<char>
        decreases self,
    {
        match self {
            ExpressionNode::Value(r) => fraction_text(r),
            ExpressionNode::Exp(e) => infix_text(e.op, e.lhs.node_text(), e.rhs.node_text()),
        }
    }

    fn duplicate(&self) -> (copy: ExpressionNode)
        ensures
            copy == *self,
        decreases self,
    {
        match self {
            ExpressionNode::Value(r) => ExpressionNode::Value(*r),
            ExpressionNode::Exp(e) => ExpressionNode::Exp(
                Expression {
                    op: e.op,
                    lhs: Box::new(e.lhs.duplicate()),
                    rhs: Box::new(e.rhs.duplicate()),
                },
            ),
        }
    }

    fn evaluate_node(&self) -> (r: Option<Rational>)
        ensures
            r == self.node_value(),
        decreases self,
    {
        match self {
            ExpressionNode::Value(r) => Some(*r),
            ExpressionNode::Exp(e) => {
                let lhs = match e.lhs.evaluate_node() {
                    Some(v) => v,
                    None => return None,
                };
                let rhs = match e.rhs.evaluate_node() {
                    Some(v) => v,
                    None => return None,
                };
                apply(e.op, lhs, rhs)
            },
        }
    }

    fn push_text(&self, text: &mut String)
        ensures
            final(text)@ == old(text)@ + self.node_text(),
        decreases self,
    {
        match self {
            ExpressionNode::Value(r) => push_fraction(text, *r),
            ExpressionNode::Exp(e) => {
                push_char(text, '(');
                e.lhs.push_text(text);
                push_char(text, ' ');
                push_char(text, e.op.symbol());
                push_char(text, ' ');
                e.rhs.push_text(text);
                push_char(text, ')');
                assert(text@ =~= old(text)@ + self.node_text());
            },
        }
    }

    /// The text of the node: fully parenthesized infix notation.
    pub fn to_string(&self) -> (text: String)
        ensures
            text@ == self.node_text(),
    {
        let mut text = String::new();
        self.push_text(&mut text);
        text
    }
}

impl Expression {
    /// The text of the expression: fully parenthesized infix notation.
    pub fn to_string(&self) -> (text: String)
        ensures
            text@ == infix_text(self.op, self.lhs.node_text(), self.rhs.node_text()),
    {
        let mut text = String::new();
        push_char(&mut text, '(');
        self.lhs.push_text(&mut text);
        push_char(&mut text, ' ');
        push_char(&mut text, self.op.symbol());
        push_char(&mut text, ' ');
        self.rhs.push_text(&mut text);
        push_char(&mut text, ')');
        assert(text@ =~= infix_text(self.op, self.lhs.node_text(), self.rhs.node_text()));
        text
    }
}

impl Clone for ExpressionNode {
    fn clone(&self) -> (copy: ExpressionNode)
        ensures
            copy == *self,
    {
        self.duplicate()
    }
}

impl Clone for Expression {
    fn clone(&self) -> (copy: Expression)
        ensures
            copy == *self,
    {
        Expression {
            op: self.op,
            lhs: Box::new(self.lhs.duplicate()),
            rhs: Box::new(self.rhs.duplicate()),
        }
    }
}

impl RationalEvaluatable for ExpressionNode {
    open spec fn value(&self) -> Option<Rational> {
        self.node_value()
    }

    fn evaluate(&self) -> (r: Option<Rational>) {
        self.evaluate_node()
    }
}

impl RationalEvaluatable for Expression {
    open spec fn value(&self) -> Option<Rational> {
        combined(self.op, self.lhs.node_value(), self.rhs.node_value())
    }

    fn evaluate(&self) -> (r: Option<Rational>) {
        let lhs = match self.lhs.evaluate_node() {
            Some(v) => v,
            None => return None,
        };
        let rhs = match self.rhs.evaluate_node() {
            Some(v) => v,
            None => return None,
        };
        apply(self.op, lhs, rhs)
    }
}

} // verus!
