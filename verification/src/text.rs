//! Decimal text of integers and fractions.

use crate::operator::Operator;
use crate::rational::Rational;
use vstd::prelude::*;

verus! {

/// The character of a decimal digit.
pub open spec fn digit(d: nat) -> char {
    if d == 0 {
        '0'
    } else if d == 1 {
        '1'
    } else if d == 2 {
        '2'
    } else if d == 3 {
        '3'
    } else if d == 4 {
        '4'
    } else if d == 5 {
        '5'
    } else if d == 6 {
        '6'
    } else if d == 7 {
        '7'
    } else if d == 8 {
        '8'
    } else {
        '9'
    }
}

/// The decimal digits of a natural number, without leading zeros.
pub open spec fn digits(n: nat) -> Seq<char>
    decreases n,
{
    if n < 10 {
        seq![digit(n)]
    } else {
        digits(n / 10).push(digit(n % 10))
    }
}

/// The decimal text of an integer: a minus sign before the digits of a
/// negative one.
pub open spec fn decimal(v: int) -> Seq<char> {
    if v < 0 {
        seq!['-'] + digits((-v) as nat)
    } else {
        digits(v as nat)
    }
}

/// The text of a fraction: the numerator alone where the denominator is
/// one, else numerator, a slash, denominator.
pub open spec fn fraction_text(r: Rational) -> Seq<char> {
    if r.denominator == 1 {
        decimal(r.numerator as int)
    } else {
        decimal(r.numerator as int) + seq!['/'] + decimal(r.denominator as int)
    }
}

/// Appends one character through `String::push` of std. Not proved here:
/// that the text afterwards is the text before with the character at its
/// end, as the documentation of std says.
#[verifier::external_body]
pub(crate) fn push_char(text: &mut String, c: char)
    ensures
        final(text)@ == old(text)@.push(c),
{
    text.push(c)
}

fn digit_char(d: u32) -> (c: char)
    requires
        d < 10,
    ensures
        c == digit(d as nat),
{
    if d == 0 {
        '0'
    } else if d == 1 {
        '1'
    } else if d == 2 {
        '2'
    } else if d == 3 {
        '3'
    } else if d == 4 {
        '4'
    } else if d == 5 {
        '5'
    } else if d == 6 {
        '6'
    } else if d == 7 {
        '7'
    } else if d == 8 {
        '8'
    } else {
        '9'
    }
}

fn push_digits(text: &mut String, n: u32)
    ensures
        final(text)@ == old(text)@ + digits(n as nat),
    decreases n,
{
    if n >= 10 {
        push_digits(text, n / 10);
    }
    push_char(text, digit_char(n % 10));
}

/// Appends the decimal text of `v`.
pub fn push_decimal(text: &mut String, v: i32)
    ensures
        final(text)@ == old(text)@ + decimal(v as int),
{
    if v < 0 {
        push_char(text, '-');
        let magnitude: u32 = (-(v as i64)) as u32;
        push_digits(text, magnitude);
    } else {
        push_digits(text, v as u32);
    }
}

/// Appends the text of a fraction.
pub fn push_fraction(text: &mut String, r: Rational)
    ensures
        final(text)@ == old(text)@ + fraction_text(r),
{
    push_decimal(text, r.numerator);
    if r.denominator != 1 {
        push_char(text, '/');
        push_decimal(text, r.denominator);
    }
}

impl Operator {
    /// The text of the operator: its symbol.
    pub fn to_string(&self) -> (text: String)
        ensures
            text@ == seq![self.symbol_spec()],
    {
        let mut text = String::new();
        push_char(&mut text, self.symbol());
        assert(text@ =~= seq![self.symbol_spec()]);
        text
    }
}

impl Rational {
    /// The text of the fraction.
    pub fn to_string(&self) -> (text: String)
        ensures
            text@ == fraction_text(*self),
    {
        let mut text = String::new();
        push_fraction(&mut text, *self);
        text
    }
}

} // verus!
