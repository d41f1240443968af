//! Exact fractions over `i32`, never reduced to lowest terms.

use crate::checked::{checked_mul_i32, fits_i32};
use vstd::prelude::*;
use vstd::std_specs::cmp::PartialEqSpecImpl;
use vstd::std_specs::ops::{AddSpecImpl, DivSpecImpl, MulSpecImpl, SubSpecImpl};

verus! {

/// A fraction of two integers, kept as it is given or computed: the
/// denominator may be negative, and no fraction is reduced.
#[derive(Debug, Clone, Copy, Eq)]
pub struct Rational {
    pub numerator: i32,
    pub denominator: i32,
}

/// The fraction `n/d` where both parts can be held in an `i32`.
pub open spec fn fraction(n: int, d: int) -> Option<Rational> {
    if fits_i32(n) && fits_i32(d) {
        Some(Rational { numerator: n as i32, denominator: d as i32 })
    } else {
        None
    }
}

impl Rational {
    /// Equality of values: `a/b` equals `c/d` where `a*d == b*c`.
    pub open spec fn same_value(self, other: Rational) -> bool {
        self.numerator * other.denominator == self.denominator * other.numerator
    }

    /// The sum `(a*d + c*b) / (b*d)` of `a/b` and `c/d`.
    pub open spec fn sum(self, rhs: Rational) -> Option<Rational> {
        fraction(
            self.numerator * rhs.denominator + rhs.numerator * self.denominator,
            self.denominator * rhs.denominator,
        )
    }

    /// The difference `(a*d - c*b) / (b*d)` of `a/b` and `c/d`.
    pub open spec fn difference(self, rhs: Rational) -> Option<Rational> {
        fraction(
            self.numerator * rhs.denominator - rhs.numerator * self.denominator,
            self.denominator * rhs.denominator,
        )
    }

    /// The product `(a*c) / (b*d)` of `a/b` and `c/d`.
    pub open spec fn product(self, rhs: Rational) -> Option<Rational> {
        fraction(self.numerator * rhs.numerator, self.denominator * rhs.denominator)
    }

    /// The quotient `(a*d) / (b*c)` of `a/b` by `c/d`, where `c` is not zero.
    pub open spec fn quotient(self, rhs: Rational) -> Option<Rational> {
        if rhs.numerator == 0 {
            None
        } else {
            fraction(self.numerator * rhs.denominator, self.denominator * rhs.numerator)
        }
    }

    /// The fraction with the given parts.
    pub fn new(numerator: i32, denominator: i32) -> (r: Self)
        ensures
            r.numerator == numerator,
            r.denominator == denominator,
    {
        Rational { numerator, denominator }
    }

    /// The sum, or `None` where a part of it cannot be held in an `i32`.
    pub fn checked_add(self, rhs: Rational) -> (r: Option<Rational>)
        ensures
            r == self.sum(rhs),
    {
        proof {
            lemma_product_bounds(self.numerator as int, rhs.denominator as int);
            lemma_product_bounds(rhs.numerator as int, self.denominator as int);
        }
        let n: i128 = (self.numerator as i128) * (rhs.denominator as i128) + (rhs.numerator as i128) * (
        self.denominator as i128);
        Self::narrow(n, checked_mul_i32(self.denominator, rhs.denominator))
    }

    /// The difference, or `None` where a part of it cannot be held in an
    /// `i32`.
    pub fn checked_sub(self, rhs: Rational) -> (r: Option<Rational>)
        ensures
            r == self.difference(rhs),
    {
        proof {
            lemma_product_bounds(self.numerator as int, rhs.denominator as int);
            lemma_product_bounds(rhs.numerator as int, self.denominator as int);
        }
        let n: i128 = (self.numerator as i128) * (rhs.denominator as i128) - (rhs.numerator as i128) * (
        self.denominator as i128);
        Self::narrow(n, checked_mul_i32(self.denominator, rhs.denominator))
    }

    /// The product, or `None` where a part of it cannot be held in an `i32`.
    pub fn checked_mul(self, rhs: Rational) -> (r: Option<Rational>)
        ensures
            r == self.product(rhs),
    {
        match checked_mul_i32(self.numerator, rhs.numerator) {
            Some(numerator) => match checked_mul_i32(self.denominator, rhs.denominator) {
                Some(denominator) => Some(Rational { numerator, denominator }),
                None => None,
            },
            None => None,
        }
    }

    /// The quotient, or `None` where the divisor is zero or a part of the
    /// quotient cannot be held in an `i32`.
    pub fn checked_div(self, rhs: Rational) -> (r: Option<Rational>)
        ensures
            r == self.quotient(rhs),
    {
        if rhs.numerator == 0 {
            return None;
        }
        match checked_mul_i32(self.numerator, rhs.denominator) {
            Some(numerator) => match checked_mul_i32(self.denominator, rhs.numerator) {
                Some(denominator) => Some(Rational { numerator, denominator }),
                None => None,
            },
            None => None,
        }
    }

    fn narrow(n: i128, d: Option<i32>) -> (r: Option<Rational>)
        ensures
            r == (match d {
                Some(d) => fraction(n as int, d as int),
                None => None,
            }),
    {
        match d {
            Some(denominator) => {
                if -2147483648 <= n && n <= 2147483647 {
                    Some(Rational { numerator: n as i32, denominator })
                } else {
                    None
                }
            },
            None => None,
        }
    }
}

proof fn lemma_product_bounds(a: int, b: int)
    requires
        fits_i32(a),
        fits_i32(b),
    ensures
        -0x4000_0000_0000_0000 <= a * b <= 0x4000_0000_0000_0000,
{
    assert(-0x4000_0000_0000_0000 <= a * b <= 0x4000_0000_0000_0000) by (nonlinear_arith)
        requires
            -0x8000_0000 <= a <= 0x7fff_ffff,
            -0x8000_0000 <= b <= 0x7fff_ffff,
    ;
}

impl PartialEq for Rational {
    /// Equality of values, by cross-multiplication.
    fn eq(&self, other: &Rational) -> (r: bool) {
        proof {
            lemma_product_bounds(self.numerator as int, other.denominator as int);
            lemma_product_bounds(self.denominator as int, other.numerator as int);
        }
        (self.numerator as i128) * (other.denominator as i128) == (self.denominator as i128) * (
        other.numerator as i128)
    }
}

impl PartialEqSpecImpl for Rational {
    open spec fn obeys_eq_spec() -> bool {
        true
    }

    open spec fn eq_spec(&self, other: &Rational) -> bool {
        self.same_value(*other)
    }
}

impl core::ops::Add for Rational {
    type Output = Rational;

    /// The sum, for operands whose sum can be held.
    fn add(self, rhs: Rational) -> (r: Rational) {
        match self.checked_add(rhs) {
            Some(r) => r,
            None => vstd::pervasive::unreached(),
        }
    }
}

impl AddSpecImpl for Rational {
    open spec fn obeys_add_spec() -> bool {
        true
    }

    open spec fn add_req(self, rhs: Rational) -> bool {
        self.sum(rhs) is Some
    }

    open spec fn add_spec(self, rhs: Rational) -> Rational {
        self.sum(rhs)->0
    }
}

impl core::ops::Sub for Rational {
    type Output = Rational;

    /// The difference, for operands whose difference can be held.
    fn sub(self, rhs: Rational) -> (r: Rational) {
        match self.checked_sub(rhs) {
            Some(r) => r,
            None => vstd::pervasive::unreached(),
        }
    }
}

impl SubSpecImpl for Rational {
    open spec fn obeys_sub_spec() -> bool {
        true
    }

    open spec fn sub_req(self, rhs: Rational) -> bool {
        self.difference(rhs) is Some
    }

    open spec fn sub_spec(self, rhs: Rational) -> Rational {
        self.difference(rhs)->0
    }
}

impl core::ops::Mul for Rational {
    type Output = Rational;

    /// The product, for operands whose product can be held.
    fn mul(self, rhs: Rational) -> (r: Rational) {
        match self.checked_mul(rhs) {
            Some(r) => r,
            None => vstd::pervasive::unreached(),
        }
    }
}

impl MulSpecImpl for Rational {
    open spec fn obeys_mul_spec() -> bool {
        true
    }

    open spec fn mul_req(self, rhs: Rational) -> bool {
        self.product(rhs) is Some
    }

    open spec fn mul_spec(self, rhs: Rational) -> Rational {
        self.product(rhs)->0
    }
}

impl core::ops::Div for Rational {
    type Output = Rational;

    /// The quotient, for a divisor that is not zero and operands whose
    /// quotient can be held.
    fn div(self, rhs: Rational) -> (r: Rational) {
        match self.checked_div(rhs) {
            Some(r) => r,
            None => vstd::pervasive::unreached(),
        }
    }
}

impl DivSpecImpl for Rational {
    open spec fn obeys_div_spec() -> bool {
        true
    }

    open spec fn div_req(self, rhs: Rational) -> bool {
        self.quotient(rhs) is Some
    }

    open spec fn div_spec(self, rhs: Rational) -> Rational {
        self.quotient(rhs)->0
    }
}

/// Sums do not depend on the order of the operands, nor does whether a sum
/// can be held.
pub proof fn lemma_sum_commutes(a: Rational, b: Rational)
    ensures
        a.sum(b) == b.sum(a),
{
    assert(a.denominator * b.denominator == b.denominator * a.denominator) by (nonlinear_arith);
}

/// Products do not depend on the order of the operands, nor does whether a
/// product can be held.
pub proof fn lemma_product_commutes(a: Rational, b: Rational)
    ensures
        a.product(b) == b.product(a),
{
    assert(a.denominator * b.denominator == b.denominator * a.denominator) by (nonlinear_arith);
    assert(a.numerator * b.numerator == b.numerator * a.numerator) by (nonlinear_arith);
}

/// Where the sums on both sides can be held, `(a + b) + c` and
/// `a + (b + c)` have the same parts, and so the same value.
pub proof fn lemma_sum_associates(a: Rational, b: Rational, c: Rational)
    requires
        a.sum(b) is Some,
        a.sum(b)->0.sum(c) is Some,
        b.sum(c) is Some,
        a.sum(b.sum(c)->0) is Some,
    ensures
        a.sum(b)->0.sum(c) == a.sum(b.sum(c)->0),
        a.sum(b)->0.sum(c)->0.same_value(a.sum(b.sum(c)->0)->0),
{
    let an = a.numerator as int;
    let ad = a.denominator as int;
    let bn = b.numerator as int;
    let bd = b.denominator as int;
    let cn = c.numerator as int;
    let cd = c.denominator as int;
    assert((an * bd + bn * ad) * cd + cn * (ad * bd) == an * (bd * cd) + (bn * cd + cn * bd) * ad)
        by (nonlinear_arith);
    assert((ad * bd) * cd == ad * (bd * cd)) by (nonlinear_arith);
    let l = a.sum(b)->0.sum(c)->0;
    assert(l.numerator * l.denominator == l.denominator * l.numerator) by (nonlinear_arith);
}

/// A value minus itself has the numerator zero, and so the value of zero
/// over any denominator.
pub proof fn lemma_difference_of_self(a: Rational, denominator: i32)
    requires
        a.difference(a) is Some,
    ensures
        a.difference(a)->0.numerator == 0,
        a.difference(a)->0.same_value(Rational { numerator: 0, denominator }),
{
    let z = a.difference(a)->0;
    assert(0 * denominator == z.denominator * 0) by (nonlinear_arith);
}

/// Division by a value equal to zero gives no quotient.
pub proof fn lemma_no_quotient_by_zero(a: Rational, b: Rational)
    requires
        b.same_value(Rational { numerator: 0, denominator: 1 }),
    ensures
        a.quotient(b) is None,
{
    assert(b.numerator * 1 == b.numerator);
    assert(b.denominator * 0 == 0);
}

} // verus!
