//! Reading an expression back from its text, by the usual conventions of
//! infix notation: what is rendered can be read, and reads as the
//! expression that was rendered.

use crate::checked::fits_i32;
use crate::expression::{Expression, ExpressionNode};
use crate::instance::Candidate;
use crate::operator::Operator;
use crate::rational::Rational;
use crate::text::{decimal, digit, digits, fraction_text};
use vstd::prelude::*;

verus! {

/// Whether the character is a decimal digit.
pub open spec fn is_digit(c: char) -> bool {
    c == '0' || c == '1' || c == '2' || c == '3' || c == '4' || c == '5' || c == '6' || c == '7'
        || c == '8' || c == '9'
}

/// The number that a decimal digit stands for.
pub open spec fn digit_value(c: char) -> nat {
    if c == '1' {
        1
    } else if c == '2' {
        2
    } else if c == '3' {
        3
    } else if c == '4' {
        4
    } else if c == '5' {
        5
    } else if c == '6' {
        6
    } else if c == '7' {
        7
    } else if c == '8' {
        8
    } else if c == '9' {
        9
    } else {
        0
    }
}

/// The operator that a symbol stands for.
pub open spec fn operator_of(c: char) -> Option<Operator> {
    if c == '+' {
        Some(Operator::Add)
    } else if c == '-' {
        Some(Operator::Sub)
    } else if c == '*' {
        Some(Operator::Mul)
    } else if c == '/' {
        Some(Operator::Div)
    } else {
        None
    }
}

/// Whether the text goes on after a number or an expression: it is at its
/// end, or its next character is neither a digit nor a slash.
pub open spec fn ends_number(rest: Seq<char>) -> bool {
    rest.len() == 0 || (!is_digit(rest[0]) && rest[0] != '/')
}

/// Reads the digits at the start of the text into the number begun by
/// `begun`: the number read, and the text after the digits.
pub open spec fn read_digits(text: Seq<char>, begun: nat) -> (nat, Seq<char>)
    decreases text.len(),
{
    if text.len() > 0 && is_digit(text[0]) {
        read_digits(text.drop_first(), begun * 10 + digit_value(text[0]))
    } else {
        (begun, text)
    }
}

/// Reads an integer at the start of the text, a minus sign before its
/// digits or none: the integer, and the text after it.
pub open spec fn read_integer(text: Seq<char>) -> Option<(int, Seq<char>)> {
    if text.len() > 0 && text[0] == '-' {
        let (magnitude, rest) = read_digits(text.drop_first(), 0);
        if rest.len() < text.len() - 1 {
            Some((-(magnitude as int), rest))
        } else {
            None
        }
    } else {
        let (magnitude, rest) = read_digits(text, 0);
        if rest.len() < text.len() {
            Some((magnitude as int, rest))
        } else {
            None
        }
    }
}

/// Reads a fraction at the start of the text, an integer or two integers
/// about a slash: the fraction, and the text after it.
pub open spec fn read_fraction(text: Seq<char>) -> Option<(Rational, Seq<char>)> {
    match read_integer(text) {
        Some((n, rest)) => if !fits_i32(n) {
            None
        } else if rest.len() > 0 && rest[0] == '/' {
            match read_integer(rest.drop_first()) {
                Some((d, after)) => if fits_i32(d) {
                    Some((Rational { numerator: n as i32, denominator: d as i32 }, after))
                } else {
                    None
                },
                None => None,
            }
        } else {
            Some((Rational { numerator: n as i32, denominator: 1 }, rest))
        },
        None => None,
    }
}

/// Reads an expression at the start of the text: a fraction, or in
/// parentheses an expression, a space, the symbol of an operator, a space
/// and an expression. The expression, and the text after it.
pub open spec fn read_node(text: Seq<char>) -> Option<(ExpressionNode, Seq<char>)>
    decreases text.len(),
{
    if text.len() > 0 && text[0] == '(' {
        match read_node(text.drop_first()) {
            Some((lhs, rest)) => if 3 <= rest.len() < text.len() && rest[0] == ' ' && rest[2]
                == ' ' {
                match (operator_of(rest[1]), read_node(rest.skip(3))) {
                    (Some(op), Some((rhs, after))) => if after.len() > 0 && after[0] == ')' {
                        Some(
                            (
                                ExpressionNode::Exp(
                                    Expression { op, lhs: Box::new(lhs), rhs: Box::new(rhs) },
                                ),
                                after.drop_first(),
                            ),
                        )
                    } else {
                        None
                    },
                    _ => None,
                }
            } else {
                None
            },
            None => None,
        }
    } else {
        match read_fraction(text) {
            Some((r, rest)) => Some((ExpressionNode::Value(r), rest)),
            None => None,
        }
    }
}

/// Reads the text as one expression.
pub open spec fn read(text: Seq<char>) -> Option<ExpressionNode> {
    match read_node(text) {
        Some((node, rest)) => if rest.len() == 0 {
            Some(node)
        } else {
            None
        },
        None => None,
    }
}

/// The number that the digits of `n` make of the number begun by `begun`.
spec fn joined(begun: nat, n: nat) -> nat
    decreases n,
{
    if n < 10 {
        begun * 10 + n
    } else {
        joined(begun, n / 10) * 10 + n % 10
    }
}

proof fn lemma_joined_from_nothing(n: nat)
    ensures
        joined(0, n) == n,
    decreases n,
{
    if n >= 10 {
        lemma_joined_from_nothing(n / 10);
    }
}

proof fn lemma_digit(d: nat)
    requires
        d < 10,
    ensures
        is_digit(digit(d)),
        digit_value(digit(d)) == d,
        digit(d) != '-',
        digit(d) != '(',
{
}

proof fn lemma_digits_start(n: nat)
    ensures
        digits(n).len() >= 1,
        is_digit(digits(n)[0]),
    decreases n,
{
    if n < 10 {
        lemma_digit(n);
    } else {
        lemma_digits_start(n / 10);
    }
}

/// Reading the digits of `n` goes on behind them with the number that
/// they make.
proof fn lemma_read_digits(n: nat, rest: Seq<char>, begun: nat)
    ensures
        read_digits(digits(n) + rest, begun) == read_digits(rest, joined(begun, n)),
    decreases n,
{
    if n < 10 {
        lemma_digit(n);
        let text = digits(n) + rest;
        assert(text[0] == digit(n));
        assert(text.drop_first() =~= rest);
    } else {
        let last = seq![digit(n % 10)] + rest;
        lemma_digit(n % 10);
        assert(digits(n) + rest =~= digits(n / 10) + last);
        lemma_read_digits(n / 10, last, begun);
        assert(last[0] == digit(n % 10));
        assert(last.drop_first() =~= rest);
    }
}

/// The decimal text of an integer reads as the integer.
proof fn lemma_read_integer(v: int, rest: Seq<char>)
    requires
        rest.len() == 0 || !is_digit(rest[0]),
    ensures
        read_integer(decimal(v) + rest) == Some((v, rest)),
        decimal(v).len() >= 1,
        decimal(v)[0] != '(',
{
    let text = decimal(v) + rest;
    if v < 0 {
        let n = (-v) as nat;
        lemma_digits_start(n);
        assert(text[0] == '-');
        assert(text.drop_first() =~= digits(n) + rest);
        lemma_read_digits(n, rest, 0);
        lemma_joined_from_nothing(n);
    } else {
        let n = v as nat;
        lemma_digits_start(n);
        assert(text[0] == digits(n)[0]);
        lemma_read_digits(n, rest, 0);
        lemma_joined_from_nothing(n);
    }
}

/// The text of a fraction reads as the fraction.
proof fn lemma_read_fraction(r: Rational, rest: Seq<char>)
    requires
        ends_number(rest),
    ensures
        read_fraction(fraction_text(r) + rest) == Some((r, rest)),
        fraction_text(r).len() >= 1,
        fraction_text(r)[0] != '(',
{
    let n = r.numerator as int;
    let d = r.denominator as int;
    if r.denominator == 1 {
        lemma_read_integer(n, rest);
    } else {
        let tail = seq!['/'] + decimal(d) + rest;
        assert(fraction_text(r) + rest =~= decimal(n) + tail);
        assert(tail[0] == '/');
        lemma_read_integer(n, tail);
        assert(tail.drop_first() =~= decimal(d) + rest);
        lemma_read_integer(d, rest);
    }
}

/// The text of an expression, with any text behind it that does not go on
/// with a number, reads as the expression, and the text behind it is left.
pub proof fn lemma_read_node(node: ExpressionNode, rest: Seq<char>)
    requires
        ends_number(rest),
    ensures
        read_node(node.node_text() + rest) == Some((node, rest)),
        node.node_text().len() >= 1,
    decreases node,
{
    match node {
        ExpressionNode::Value(r) => {
            lemma_read_fraction(r, rest);
            assert((fraction_text(r) + rest)[0] == fraction_text(r)[0]);
        },
        ExpressionNode::Exp(e) => {
            let left = e.lhs.node_text();
            let right = e.rhs.node_text();
            let text = node.node_text() + rest;
            let closing = seq![')'] + rest;
            let middle = seq![' ', e.op.symbol_spec(), ' '] + right + closing;
            assert(text =~= seq!['('] + left + middle);
            assert(text[0] == '(');
            assert(text.drop_first() =~= left + middle);
            assert(middle[0] == ' ');
            lemma_read_node(*e.lhs, middle);
            assert(middle[1] == e.op.symbol_spec());
            assert(middle[2] == ' ');
            assert(middle.skip(3) =~= right + closing);
            assert(closing[0] == ')');
            lemma_read_node(*e.rhs, closing);
            assert(closing.drop_first() =~= rest);
            assert(operator_of(e.op.symbol_spec()) == Some(e.op));
        },
    }
}

/// What is rendered reads back as what was rendered: the text of an
/// expression reads as the expression, and so has its value.
pub proof fn lemma_text_reads_back(node: ExpressionNode)
    ensures
        read(node.node_text()) == Some(node),
        read(node.node_text())->0.node_value() == node.node_value(),
{
    lemma_read_node(node, Seq::empty());
    assert(node.node_text() + Seq::<char>::empty() =~= node.node_text());
}

/// The text of a candidate reads as an expression whose value is the value
/// of the candidate: rendering and evaluation agree.
pub proof fn lemma_candidate_text_has_its_value(candidate: Candidate)
    ensures
        read(candidate.text()) == Some(candidate.tree()),
        read(candidate.text())->0.node_value() == candidate.value(),
{
    lemma_text_reads_back(candidate.tree());
}

} // verus!
