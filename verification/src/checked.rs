//! Checked integer arithmetic.

use vstd::prelude::*;

verus! {

/// Whether `v` can be held in an `i32`.
pub open spec fn fits_i32(v: int) -> bool {
    i32::MIN <= v <= i32::MAX
}

/// The product of two `i32` values where it can be held in an `i32`.
pub open spec fn checked_product(a: int, b: int) -> Option<i32> {
    if fits_i32(a * b) {
        Some((a * b) as i32)
    } else {
        None
    }
}

/// Multiplies through `CheckedMul::checked_mul` of num_traits. Not proved
/// here: that it gives the product, and `None` in place of a product that
/// cannot be held in an `i32`, as the trait's documentation says.
#[verifier::external_body]
pub(crate) fn checked_mul_i32(a: i32, b: i32) -> (r: Option<i32>)
    ensures
        r == checked_product(a as int, b as int),
{
    num_traits::CheckedMul::checked_mul(&a, &b)
}

} // verus!
