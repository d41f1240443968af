//! Orderings and assignments as itertools lists them, one at a time.
//!
//! Nothing in this file is proved: each function hands a call on to
//! itertools, and its contract says what the call is taken to do.

use crate::assignment::assignments;
use crate::operator::Operator;
use crate::permutation::permutations;
use crate::rational::Rational;
use vstd::prelude::*;

verus! {

/// `Permutations` of itertools, the iterator that `Itertools::permutations`
/// makes.
#[verifier::external_type_specification]
#[verifier::external_body]
#[verifier::reject_recursive_types(I)]
pub struct ExPermutations<I: Iterator>(itertools::Permutations<I>);

/// `MultiProduct` of itertools, the iterator that
/// `Itertools::multi_cartesian_product` makes.
#[verifier::external_type_specification]
#[verifier::external_body]
#[verifier::reject_recursive_types(I)]
pub struct ExMultiProduct<I>(itertools::MultiProduct<I>) where I: Iterator + Clone, I::Item: Clone;

/// The orderings that the iterator has yet to yield, in the order in which
/// it will yield them.
pub uninterp spec fn orderings_to_come(
    it: itertools::Permutations<std::vec::IntoIter<Rational>>,
) -> Seq<Seq<Rational>>;

/// The assignments that the iterator has yet to yield before it next
/// yields none, in the order in which it will yield them.
pub uninterp spec fn assignments_to_come(
    it: itertools::MultiProduct<std::vec::IntoIter<Operator>>,
) -> Seq<Seq<Operator>>;

/// Calls `Itertools::permutations` on the values, for orderings of all of
/// them. The iterator is taken to yield each arrangement of the positions
/// once, in lexicographic order of the positions, whether or not values
/// are equal; the crate's documentation shows that order on its examples.
#[verifier::external_body]
pub(crate) fn start_orderings(values: Vec<Rational>) -> (it: itertools::Permutations<
    std::vec::IntoIter<Rational>,
>)
    ensures
        orderings_to_come(it) == permutations(values@),
{
    let count = values.len();
    itertools::Itertools::permutations(values.into_iter(), count)
}

/// Calls `next` of `Permutations`. The iterator is taken to yield the
/// first of the orderings to come and to keep the others, and, with none to
/// come, to yield none and to stay as it is: it is a fused iterator.
#[verifier::external_body]
pub(crate) fn next_ordering(it: &mut itertools::Permutations<std::vec::IntoIter<Rational>>) -> (r:
    Option<Vec<Rational>>)
    ensures
        orderings_to_come(*old(it)).len() == 0 ==> r is None && orderings_to_come(*final(it))
            == orderings_to_come(*old(it)),
        orderings_to_come(*old(it)).len() > 0 ==> r is Some && r->0@ == orderings_to_come(
            *old(it),
        )[0] && orderings_to_come(*final(it)) == orderings_to_come(*old(it)).drop_first(),
{
    it.next()
}

/// Calls `Itertools::multi_cartesian_product` on one canonical list of the
/// operators for each slot. The iterator is taken to yield the whole
/// product, each sequence once, with the last slot varying fastest; the
/// crate's documentation shows that order on its example. Without a slot
/// it would yield nothing, so at least one slot is asked for.
#[verifier::external_body]
pub(crate) fn start_assignments(slots: usize) -> (it: itertools::MultiProduct<
    std::vec::IntoIter<Operator>,
>)
    requires
        slots >= 1,
    ensures
        assignments_to_come(it) == assignments(slots as nat),
{
    itertools::Itertools::multi_cartesian_product((0..slots).map(|_| Operator::list()))
}

/// Calls `next` of `MultiProduct`. The iterator is taken to yield the first
/// of the assignments to come and to keep the others, and, with none to
/// come, to yield none; of the iterator after that nothing is said.
#[verifier::external_body]
pub(crate) fn next_assignment(it: &mut itertools::MultiProduct<std::vec::IntoIter<Operator>>) -> (r:
    Option<Vec<Operator>>)
    ensures
        assignments_to_come(*old(it)).len() == 0 ==> r is None,
        assignments_to_come(*old(it)).len() > 0 ==> r is Some && r->0@ == assignments_to_come(
            *old(it),
        )[0] && assignments_to_come(*final(it)) == assignments_to_come(*old(it)).drop_first(),
{
    it.next()
}

} // verus!
