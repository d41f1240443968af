//! The search for an expression that reaches a target: every ordering of
//! the values, with every assignment of operators, in every shape. The
//! orderings and the assignments are pulled one at a time from the
//! iterators of itertools; the shapes are listed once.

use crate::assignment::{assignments, lemma_nth_assignment_len};
use crate::catalan::lemma_shapes_listed;
use crate::instance::{Candidate, ExpressionInstance};
use crate::listing::{
    assignments_to_come, next_assignment, next_ordering, orderings_to_come, start_assignments,
    start_orderings,
};
use crate::operator::Operator;
use crate::permutation::{lemma_permutation_is_rearrangement, permutations};
use crate::product::{
    left_of, lemma_parts_of_place, lemma_place_in_product, lemma_place_of_parts, place_in_product,
};
use crate::rational::Rational;
use crate::shape::{lemma_leaves_positive, lemma_shapes_in_order, lists_shapes, shapes_in_order, Node};
use vstd::prelude::*;

verus! {

/// The fraction that stands for a whole number.
pub open spec fn whole(v: i32) -> Rational {
    Rational { numerator: v, denominator: 1 }
}

/// The fractions that stand for whole numbers.
pub open spec fn whole_numbers(values: Seq<i32>) -> Seq<Rational> {
    values.map_values(|v: i32| whole(v))
}

/// Every triple of an ordering, an assignment and a shape: the orderings
/// vary slowest and the shapes fastest.
pub open spec fn triples(
    orders: Seq<Seq<Rational>>,
    slots: Seq<Seq<Operator>>,
    shapes: Seq<Node>,
) -> Seq<Candidate> {
    Seq::new(
        orders.len() * slots.len() * shapes.len(),
        |at: int|
            Candidate {
                nums: orders[at / (slots.len() * shapes.len()) as int],
                operators: slots[(at / shapes.len() as int) % slots.len() as int],
                structure: shapes[at % shapes.len() as int],
            },
    )
}

/// The candidates for a list of values, in the order in which they are
/// tried: every ordering of the values, with every assignment of operators
/// to one slot less than there are values, in every shape with one leaf for
/// each value. Without values there is no candidate.
pub open spec fn search_space(values: Seq<i32>) -> Seq<Candidate> {
    if values.len() == 0 {
        Seq::empty()
    } else {
        triples(
            permutations(whole_numbers(values)),
            assignments((values.len() - 1) as nat),
            shapes_in_order(values.len()),
        )
    }
}

/// Whether a candidate has a value and the value equals the target.
pub open spec fn reaches(candidate: Candidate, target: i32) -> bool {
    candidate.value() matches Some(v) && v.same_value(whole(target))
}

/// Whether the candidate at place `at` reaches the target and none before
/// it does.
pub open spec fn first_to_reach(space: Seq<Candidate>, target: i32, at: int) -> bool {
    &&& 0 <= at < space.len()
    &&& reaches(space[at], target)
    &&& forall|before: int| 0 <= before < at ==> !reaches(#[trigger] space[before], target)
}

/// The triple of the `i`-th ordering, the `j`-th assignment and the `k`-th
/// shape stands at its place.
pub proof fn lemma_triples_index(
    orders: Seq<Seq<Rational>>,
    slots: Seq<Seq<Operator>>,
    shapes: Seq<Node>,
    i: int,
    j: int,
    k: int,
)
    requires
        0 <= i < orders.len(),
        0 <= j < slots.len(),
        0 <= k < shapes.len(),
    ensures
        0 <= (i * slots.len() + j) * shapes.len() + k < triples(orders, slots, shapes).len(),
        triples(orders, slots, shapes)[(i * slots.len() + j) * shapes.len() + k] == (Candidate {
            nums: orders[i],
            operators: slots[j],
            structure: shapes[k],
        }),
{
    lemma_place_in_product(
        orders.len() as int,
        slots.len() as int,
        shapes.len() as int,
        i,
        j,
        k,
    );
}

/// Every place in the list of triples holds the triple of some ordering,
/// some assignment and some shape.
pub proof fn lemma_triples_parts(
    orders: Seq<Seq<Rational>>,
    slots: Seq<Seq<Operator>>,
    shapes: Seq<Node>,
    at: int,
)
    requires
        0 <= at < triples(orders, slots, shapes).len(),
    ensures
        orders.contains(triples(orders, slots, shapes)[at].nums),
        slots.contains(triples(orders, slots, shapes)[at].operators),
        shapes.contains(triples(orders, slots, shapes)[at].structure),
{
    let a = orders.len() as int;
    let b = slots.len() as int;
    let c = shapes.len() as int;
    lemma_parts_of_place(a, b, c, at);
    let i = at / (b * c);
    let j = (at / c) % b;
    let k = at % c;
    assert(orders[i] == triples(orders, slots, shapes)[at].nums);
    assert(slots[j] == triples(orders, slots, shapes)[at].operators);
    assert(shapes[k] == triples(orders, slots, shapes)[at].structure);
}

/// The fraction that stands for a whole number.
pub fn num_rational(num: i32) -> (r: Rational)
    ensures
        r == whole(num),
{
    Rational::new(num, 1)
}

/// The fractions that stand for whole numbers.
pub fn nums_rational(nums: Vec<i32>) -> (out: Vec<Rational>)
    ensures
        out@ == whole_numbers(nums@),
{
    let mut out: Vec<Rational> = Vec::new();
    let mut i: usize = 0;
    while i < nums.len()
        invariant
            i <= nums@.len(),
            out@ == whole_numbers(nums@).take(i as int),
        decreases nums@.len() - i,
    {
        out.push(num_rational(nums[i]));
        i += 1;
        assert(out@ =~= whole_numbers(nums@).take(i as int));
    }
    assert(whole_numbers(nums@).take(i as int) =~= whole_numbers(nums@));
    out
}

/// The values to search over.
pub struct TraversalableNums {
    nums: Vec<i32>,
}

/// A generator of the candidates for a list of values. It holds the
/// ordering and the assignment in hand and builds each candidate when it is
/// asked for.
pub struct AllTraverse {
    nums: Vec<i32>,
    orders: itertools::Permutations<std::vec::IntoIter<Rational>>,
    order: Option<Vec<Rational>>,
    slots: Option<itertools::MultiProduct<std::vec::IntoIter<Operator>>>,
    ops: Vec<Operator>,
    shapes: Vec<Node>,
    shape: usize,
}

impl AllTraverse {
    spec fn all_orders(&self) -> Seq<Seq<Rational>> {
        permutations(whole_numbers(self.nums@))
    }

    spec fn all_slots(&self) -> Seq<Seq<Operator>> {
        assignments((self.nums@.len() - 1) as nat)
    }

    spec fn orders_left(&self) -> Seq<Seq<Rational>> {
        orderings_to_come(self.orders)
    }

    spec fn slots_left(&self) -> Seq<Seq<Operator>> {
        match self.slots {
            Some(it) => assignments_to_come(it),
            None => Seq::empty(),
        }
    }

    /// The place of the candidate that comes next.
    spec fn position(&self) -> int {
        place_in_product(
            self.all_slots().len() as int,
            self.shapes@.len() as int,
            self.all_orders().len() - self.orders_left().len() - 1,
            self.all_slots().len() - self.slots_left().len() - 1,
            self.shape as int,
        )
    }

    /// What every generator made by `into_iter` and stepped by `next`
    /// satisfies.
    pub closed spec fn well_formed(&self) -> bool {
        self.order matches Some(order) ==> {
            &&& self.nums@.len() >= 1
            &&& self.slots is Some ==> self.nums@.len() >= 2
            &&& self.shapes@ == shapes_in_order(self.nums@.len())
            &&& self.shapes@.len() > 0
            &&& self.shape <= self.shapes@.len()
            &&& left_of(self.orders_left(), self.all_orders())
            &&& self.orders_left().len() < self.all_orders().len()
            &&& order@ == self.all_orders()[self.all_orders().len() - self.orders_left().len() - 1]
            &&& left_of(self.slots_left(), self.all_slots())
            &&& self.slots_left().len() < self.all_slots().len()
            &&& self.ops@ == self.all_slots()[self.all_slots().len() - self.slots_left().len() - 1]
        }
    }

    /// The values whose candidates are generated.
    pub closed spec fn values(&self) -> Seq<i32> {
        self.nums@
    }

    /// The candidates still to come, in the order in which they will come.
    pub closed spec fn remaining(&self) -> Seq<Candidate> {
        if self.order is None {
            Seq::empty()
        } else {
            search_space(self.nums@).skip(self.position())
        }
    }

    /// Yields the next candidate, or `None` once all have been yielded.
    pub fn next(&mut self) -> (r: Option<ExpressionInstance>)
        requires
            old(self).well_formed(),
        ensures
            final(self).well_formed(),
            final(self).values() == old(self).values(),
            old(self).remaining().len() == 0 ==> r is None && final(self).remaining() == old(
                self,
            ).remaining(),
            old(self).remaining().len() > 0 ==> r is Some && r->0@ == old(self).remaining()[0]
                && final(self).remaining() == old(self).remaining().drop_first(),
            r is Some ==> r->0@.well_formed(),
    {
        if self.order.is_none() {
            return None;
        }
        let count = self.nums.len();
        let ghost values = self.nums@;
        let ghost space = search_space(values);
        let ghost orders = self.all_orders();
        let ghost slots = self.all_slots();
        let ghost shapes = self.shapes@;
        let ghost a = orders.len() as int;
        let ghost b = slots.len() as int;
        let ghost c = shapes.len() as int;
        let ghost i = a - self.orders_left().len() - 1;
        let ghost j = b - self.slots_left().len() - 1;
        let ghost here = self.position();
        if self.shape >= self.shapes.len() {
            // Every shape has been tried with the assignment in hand.
            let following = match &mut self.slots {
                Some(it) => next_assignment(it),
                None => None,
            };
            match following {
                Some(ops) => {
                    self.ops = ops;
                    self.shape = 0;
                    proof {
                        assert(slots.skip(j + 1).drop_first() =~= slots.skip(j + 2));
                        assert(self.position() == here) by (nonlinear_arith)
                            requires
                                self.position() == (i * b + (j + 1)) * c + 0,
                                here == (i * b + j) * c + c,
                        ;
                    }
                },
                None => {
                    // Every assignment has been tried with the ordering in
                    // hand.
                    assert(j == b - 1);
                    proof {
                        assert(here == (i + 1) * b * c) by (nonlinear_arith)
                            requires
                                here == (i * b + j) * c + c,
                                j == b - 1,
                        ;
                    }
                    match next_ordering(&mut self.orders) {
                        None => {
                            proof {
                                assert(i == a - 1);
                                assert(space.skip(here) =~= Seq::<Candidate>::empty());
                            }
                            self.order = None;
                            return None;
                        },
                        Some(order) => {
                            self.order = Some(order);
                            if count > 1 {
                                let mut it = start_assignments(count - 1);
                                match next_assignment(&mut it) {
                                    Some(ops) => {
                                        self.ops = ops;
                                    },
                                    None => vstd::pervasive::unreached(),
                                }
                                self.slots = Some(it);
                                proof {
                                    assert(slots.skip(0) =~= slots);
                                    assert(slots.skip(0).drop_first() =~= slots.skip(1));
                                }
                            }
                            self.shape = 0;
                            proof {
                                assert(orders.skip(i + 1).drop_first() =~= orders.skip(i + 2));
                                assert(self.position() == here) by (nonlinear_arith)
                                    requires
                                        self.position() == ((i + 1) * b + 0) * c + 0,
                                        here == (i + 1) * b * c,
                                ;
                            }
                        },
                    }
                },
            }
        }
        let ghost i1 = a - self.orders_left().len() - 1;
        let ghost j1 = b - self.slots_left().len() - 1;
        let k = self.shape;
        proof {
            assert(0 <= i1 < a && 0 <= j1 < b && 0 <= k < c);
            assert(here == place_in_product(b, c, i1, j1, k as int));
            lemma_triples_index(orders, slots, shapes, i1, j1, k as int);
            lemma_permutation_is_rearrangement(whole_numbers(values), i1);
            assert(slots[j1] == crate::assignment::nth_assignment((count - 1) as nat, j1 as nat));
            lemma_nth_assignment_len((count - 1) as nat, j1 as nat);
            lemma_shapes_listed(count as nat);
            assert(shapes.contains(shapes[k as int]));
            assert(space.skip(here).drop_first() =~= space.skip(here + 1));
        }
        let nums = match &self.order {
            Some(order) => order.clone(),
            None => vstd::pervasive::unreached(),
        };
        let operators = self.ops.clone();
        let structure = self.shapes[k].clone();
        assert(nums@ =~= orders[i1]);
        assert(operators@ =~= slots[j1]);
        let instance = ExpressionInstance::new(nums, operators, structure);
        self.shape = k + 1;
        Some(instance)
    }
}

impl TraversalableNums {
    /// The values.
    pub closed spec fn values(&self) -> Seq<i32> {
        self.nums@
    }

    /// The values to search over, in the order given.
    pub fn new(nums: Vec<i32>) -> (t: Self)
        ensures
            t.values() == nums@,
    {
        Self { nums }
    }

    /// A generator that has yet to yield every candidate for the values. A
    /// single value makes one candidate, the value itself.
    pub fn into_iter(self) -> (it: AllTraverse)
        ensures
            it.well_formed(),
            it.values() == self.values(),
            it.remaining() == search_space(self.values()),
    {
        let ghost values = self.nums@;
        let count = self.nums.len();
        let copy = self.nums.clone();
        assert(copy@ =~= values);
        let fractions = nums_rational(copy);
        let mut orders = start_orderings(fractions);
        let mut order: Option<Vec<Rational>> = None;
        let mut slots: Option<itertools::MultiProduct<std::vec::IntoIter<Operator>>> = None;
        let mut ops: Vec<Operator> = Vec::new();
        let mut shapes: Vec<Node> = Vec::new();
        let ghost all_orders = permutations(whole_numbers(values));
        let ghost all_slots = assignments((count - 1) as nat);
        proof {
            assert(all_orders.skip(0) =~= all_orders);
            assert(all_slots.skip(0) =~= all_slots);
        }
        if count == 1 {
            shapes.push(Node::Leaf);
            order = next_ordering(&mut orders);
            proof {
                assert(all_slots.len() == 1 && all_slots[0] =~= ops@) by {
                    reveal_with_fuel(crate::assignment::power_of_four, 1);
                }
                assert(all_slots.skip(1) =~= Seq::<Seq<Operator>>::empty());
                assert(lists_shapes(shapes@, 1)) by {
                    assert forall|t: Node| shapes@.contains(t) <==> t.leaves() == 1 by {
                        lemma_leaves_positive(t);
                        assert(shapes@[0] == Node::Leaf);
                    }
                }
                lemma_shapes_in_order(shapes@, 1);
            }
        } else if count >= 2 {
            shapes = Node::get_all_tree(count);
            let mut it = start_assignments(count - 1);
            match next_assignment(&mut it) {
                Some(first) => {
                    ops = first;
                    if shapes.len() > 0 {
                        order = next_ordering(&mut orders);
                    }
                },
                None => {},
            }
            slots = Some(it);
        }
        let it = AllTraverse { nums: self.nums, orders, order, slots, ops, shapes, shape: 0 };
        proof {
            let a = all_orders.len() as int;
            let b = all_slots.len() as int;
            let c = it.shapes@.len() as int;
            if it.order is Some {
                assert(all_orders.skip(0).drop_first() =~= all_orders.skip(1));
                assert(all_slots.skip(0).drop_first() =~= all_slots.skip(1));
                assert(it.position() == 0) by (nonlinear_arith)
                    requires
                        it.position() == (0 * b + 0) * c + 0,
                ;
                assert(search_space(values).skip(0) =~= search_space(values));
            } else if count >= 1 {
                assert(a * b * c == 0) by (nonlinear_arith)
                    requires
                        a == 0 || b == 0 || c == 0,
                ;
                assert(search_space(values) =~= Seq::<Candidate>::empty());
            }
        }
        it
    }
}

impl TraversalableNums {
    /// Tries the candidates in order and stops at the first whose value
    /// equals the target. `None` says that no candidate reaches the target.
    pub fn find(self, target: i32) -> (found: Option<ExpressionInstance>)
        ensures
            found matches Some(instance) ==> instance@.well_formed() && exists|at: int|
                first_to_reach(search_space(self.values()), target, at) && #[trigger] search_space(
                    self.values(),
                )[at] == instance@,
            found is None ==> forall|at: int|
                0 <= at < search_space(self.values()).len() ==> !reaches(
                    #[trigger] search_space(self.values())[at],
                    target,
                ),
    {
        let ghost values = self.values();
        let ghost space = search_space(values);
        let goal = num_rational(target);
        let mut it = self.into_iter();
        let ghost mut tried: int = 0;
        loop
            invariant
                0 <= tried <= space.len(),
                space == search_space(values),
                values == self.values(),
                it.well_formed(),
                it.remaining() == space.skip(tried),
                goal == whole(target),
                forall|before: int| 0 <= before < tried ==> !reaches(#[trigger] space[before], target),
            decreases space.len() - tried,
        {
            match it.next() {
                None => {
                    assert(tried == space.len());
                    return None;
                },
                Some(instance) => {
                    assert(space.skip(tried)[0] == space[tried]);
                    assert(space.skip(tried).drop_first() =~= space.skip(tried + 1));
                    let hit = match instance.evaluate() {
                        Some(v) => v == goal,
                        None => false,
                    };
                    if hit {
                        assert(first_to_reach(space, target, tried));
                        assert(space[tried] == instance@);
                        return Some(instance);
                    }
                    proof {
                        tried = tried + 1;
                    }
                },
            }
        }
    }
}

/// The candidates for values are the triples of an ordering of the values,
/// an assignment of operators to one slot less than there are values, and a
/// shape with one leaf for each value: each such triple is a candidate.
pub proof fn lemma_search_space_complete(values: Seq<i32>, candidate: Candidate)
    requires
        candidate.nums.to_multiset() == whole_numbers(values).to_multiset(),
        candidate.operators.len() + 1 == values.len(),
        candidate.structure.leaves() == values.len(),
    ensures
        search_space(values).contains(candidate),
{
    let orders = permutations(whole_numbers(values));
    let slots = assignments((values.len() - 1) as nat);
    let shapes = shapes_in_order(values.len());
    lemma_leaves_positive(candidate.structure);
    crate::permutation::lemma_permutations_complete(whole_numbers(values), candidate.nums);
    crate::assignment::lemma_place_of(candidate.operators);
    lemma_shapes_listed(values.len());
    assert(shapes.contains(candidate.structure));
    let i = choose|i: int| 0 <= i < orders.len() && orders[i] == candidate.nums;
    let j = crate::assignment::place_of(candidate.operators) as int;
    let k = choose|k: int| 0 <= k < shapes.len() && shapes[k] == candidate.structure;
    lemma_triples_index(orders, slots, shapes, i, j, k);
}

/// Each candidate is well-formed: its values are an ordering of the given
/// ones, and it has one operator for each internal node of its shape.
pub proof fn lemma_search_space_sound(values: Seq<i32>, at: int)
    requires
        0 <= at < search_space(values).len(),
    ensures
        search_space(values)[at].well_formed(),
        search_space(values)[at].nums.to_multiset() == whole_numbers(values).to_multiset(),
        search_space(values)[at].structure.leaves() == values.len(),
{
    let orders = permutations(whole_numbers(values));
    let slots = assignments((values.len() - 1) as nat);
    let shapes = shapes_in_order(values.len());
    let candidate = search_space(values)[at];
    lemma_triples_parts(orders, slots, shapes, at);
    let i = choose|i: int| 0 <= i < orders.len() && orders[i] == candidate.nums;
    let j = choose|j: int| 0 <= j < slots.len() && slots[j] == candidate.operators;
    lemma_permutation_is_rearrangement(whole_numbers(values), i);
    lemma_nth_assignment_len((values.len() - 1) as nat, j as nat);
    lemma_shapes_listed(values.len());
}

/// Where no value occurs twice, no candidate is tried twice.
pub proof fn lemma_search_space_distinct(values: Seq<i32>)
    requires
        values.no_duplicates(),
    ensures
        search_space(values).no_duplicates(),
{
    if values.len() > 0 {
        let fractions = whole_numbers(values);
        let orders = permutations(fractions);
        let slots = assignments((values.len() - 1) as nat);
        let shapes = shapes_in_order(values.len());
        let space = search_space(values);
        assert(fractions.no_duplicates()) by {
            assert forall|i: int, j: int|
                0 <= i < fractions.len() && 0 <= j < fractions.len() && i != j implies fractions[i]
                != fractions[j] by {
                assert(fractions[i] == whole(values[i]));
                assert(fractions[j] == whole(values[j]));
            }
        }
        crate::permutation::lemma_permutations_distinct(fractions);
        crate::assignment::lemma_assignments_exhaustive((values.len() - 1) as nat);
        lemma_shapes_listed(values.len());
        crate::catalan::lemma_count_of_shapes(shapes, values.len());
        let a = orders.len() as int;
        let b = slots.len() as int;
        let c = shapes.len() as int;
        assert forall|x: int, y: int|
            0 <= x < space.len() && 0 <= y < space.len() && x != y implies space[x] != space[y] by {
            lemma_parts_of_place(a, b, c, x);
            lemma_parts_of_place(a, b, c, y);
            if x / (b * c) == y / (b * c) && (x / c) % b == (y / c) % b && x % c == y % c {
                lemma_place_of_parts(b, c, x);
                lemma_place_of_parts(b, c, y);
            }
        }
    }
}

/// There are `n! * 4^(n-1) * catalan(n-1)` candidates for `n` values.
pub proof fn lemma_search_space_len(values: Seq<i32>)
    requires
        values.len() >= 1,
    ensures
        search_space(values).len() == crate::permutation::factorial(values.len())
            * crate::assignment::power_of_four((values.len() - 1) as nat) * crate::catalan::catalan(
            (values.len() - 1) as nat,
        ),
{
    crate::permutation::lemma_permutations_len(whole_numbers(values));
    lemma_shapes_listed(values.len());
    crate::catalan::lemma_count_of_shapes(shapes_in_order(values.len()), values.len());
}

} // verus!
