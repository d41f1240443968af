//! Places in a product of three lists that is listed with the first list
//! varying slowest and the third fastest, and what is left of a list.

use vstd::arithmetic::div_mod::{
    lemma_div_denominator, lemma_fundamental_div_mod, lemma_fundamental_div_mod_converse,
};
use vstd::prelude::*;

verus! {

/// Whether `rest` is what is left of `full` after some of its first
/// entries.
pub open spec fn left_of<T>(rest: Seq<T>, full: Seq<T>) -> bool {
    rest.len() <= full.len() && rest == full.skip(full.len() - rest.len())
}

/// The place of the triple of the `i`-th, the `j`-th and the `k`-th entry
/// where the second list has `b` entries and the third has `c`.
pub open spec fn place_in_product(b: int, c: int, i: int, j: int, k: int) -> int {
    (i * b + j) * c + k
}

/// The place of a triple is a place of the product, and the three entries
/// are found again from it by division.
pub proof fn lemma_place_in_product(a: int, b: int, c: int, i: int, j: int, k: int)
    requires
        0 <= i < a,
        0 <= j < b,
        0 <= k < c,
    ensures
        0 <= place_in_product(b, c, i, j, k) < a * b * c,
        place_in_product(b, c, i, j, k) / (b * c) == i,
        (place_in_product(b, c, i, j, k) / c) % b == j,
        place_in_product(b, c, i, j, k) % c == k,
{
    let at = (i * b + j) * c + k;
    assert(0 <= i * b + j < a * b) by (nonlinear_arith)
        requires
            0 <= i < a,
            0 <= j < b,
    ;
    assert(0 <= at < a * b * c) by (nonlinear_arith)
        requires
            0 <= i * b + j < a * b,
            0 <= k < c,
            at == (i * b + j) * c + k,
    ;
    lemma_fundamental_div_mod_converse(at, c, i * b + j, k);
    lemma_fundamental_div_mod_converse(i * b + j, b, i, j);
    assert(at == i * (b * c) + (j * c + k)) by (nonlinear_arith)
        requires
            at == (i * b + j) * c + k,
    ;
    assert(0 <= j * c + k < b * c) by (nonlinear_arith)
        requires
            0 <= j < b,
            0 <= k < c,
    ;
    lemma_fundamental_div_mod_converse(at, b * c, i, j * c + k);
}

/// Every place of the product is the place of a triple.
pub proof fn lemma_parts_of_place(a: int, b: int, c: int, at: int)
    requires
        0 <= a,
        0 <= b,
        0 <= c,
        0 <= at < a * b * c,
    ensures
        0 <= at / (b * c) < a,
        0 <= (at / c) % b < b,
        0 <= at % c < c,
{
    assert(a > 0 && b > 0 && c > 0) by (nonlinear_arith)
        requires
            0 <= at < a * b * c,
            a >= 0,
            b >= 0,
            c >= 0,
    ;
    assert(b * c > 0) by (nonlinear_arith)
        requires
            b > 0,
            c > 0,
    ;
    assert(0 <= at / (b * c) < a) by (nonlinear_arith)
        requires
            0 <= at < a * b * c,
            b * c > 0,
    ;
    assert(0 <= (at / c) % b < b) by (nonlinear_arith)
        requires
            b > 0,
    ;
    assert(0 <= at % c < c) by (nonlinear_arith)
        requires
            c > 0,
    ;
}

/// A place is the place of the triple that division finds from it.
pub proof fn lemma_place_of_parts(b: int, c: int, at: int)
    requires
        0 < b,
        0 < c,
        0 <= at,
    ensures
        at == place_in_product(b, c, at / (b * c), (at / c) % b, at % c),
{
    let q = at / c;
    lemma_fundamental_div_mod(at, c);
    lemma_fundamental_div_mod(q, b);
    lemma_div_denominator(at, c, b);
    assert(c * b == b * c) by (nonlinear_arith);
    assert(at == ((q / b) * b + q % b) * c + at % c) by (nonlinear_arith)
        requires
            at == c * q + at % c,
            q == b * (q / b) + q % b,
    ;
}

} // verus!
