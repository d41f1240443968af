//! Expressions built from an order of application: the operators of a
//! written expression are numbered by the order in which they apply, the
//! one with the least number last, and the numbering decides the grouping.

use crate::assignment::{assignments, lemma_nth_assignment_len, nth_assignment, power_of_four, OpsIter};
use crate::expression::{Expression, ExpressionNode};
use crate::operator::Operator;
use crate::permutation::{
    lemma_factorial_positive, lemma_permutation_is_rearrangement, lemma_permutations_len,
    permutations, NumberReplacer, NumberReplacerIter,
};
use crate::product::{left_of, lemma_place_in_product, place_in_product};
use crate::rational::Rational;
use vstd::prelude::*;

verus! {

/// The position of the least number of `s`, the first such position where
/// the least number occurs more than once.
pub open spec fn first_minimum(s: Seq<u32>) -> int
    decreases s.len(),
{
    if s.len() <= 1 {
        0
    } else {
        let before = first_minimum(s.drop_last());
        if s.last() < s[before] {
            s.len() - 1
        } else {
            before
        }
    }
}

/// The expression over `values`, with `ops` between them, that `order`
/// groups: the operator at the least number of `order` applies last, to
/// what stands on its left and what stands on its right, each grouped in
/// the same way.
pub open spec fn built(order: Seq<u32>, ops: Seq<Operator>, values: Seq<Rational>) -> ExpressionNode
    decreases order.len(),
{
    if order.len() == 0 {
        ExpressionNode::Value(values[0])
    } else {
        proof {
            lemma_first_minimum(order);
        }
        let split = first_minimum(order);
        ExpressionNode::Exp(
            Expression {
                op: ops[split],
                lhs: Box::new(
                    built(
                        order.subrange(0, split),
                        ops.subrange(0, split),
                        values.subrange(0, split + 1),
                    ),
                ),
                rhs: Box::new(
                    built(
                        order.subrange(split + 1, order.len() as int),
                        ops.subrange(split + 1, ops.len() as int),
                        values.subrange(split + 1, values.len() as int),
                    ),
                ),
            },
        )
    }
}

impl ExpressionNode {
    /// The values of the expression as they are written, from left to
    /// right.
    pub open spec fn written_values(self) -> Seq<Rational>
        decreases self,
    {
        match self {
            ExpressionNode::Value(r) => seq![r],
            ExpressionNode::Exp(e) => e.lhs.written_values() + e.rhs.written_values(),
        }
    }

    /// The operators of the expression as they are written, from left to
    /// right.
    pub open spec fn written_operators(self) -> Seq<Operator>
        decreases self,
    {
        match self {
            ExpressionNode::Value(r) => Seq::empty(),
            ExpressionNode::Exp(e) => e.lhs.written_operators().push(e.op)
                + e.rhs.written_operators(),
        }
    }
}

/// The first minimum is a position of the list, no number is less than the
/// one there, and every number before it is greater.
pub proof fn lemma_first_minimum(s: Seq<u32>)
    requires
        s.len() > 0,
    ensures
        0 <= first_minimum(s) < s.len(),
        forall|i: int| 0 <= i < s.len() ==> s[first_minimum(s)] <= #[trigger] s[i],
        forall|i: int| 0 <= i < first_minimum(s) ==> s[first_minimum(s)] < #[trigger] s[i],
    decreases s.len(),
{
    if s.len() > 1 {
        let front = s.drop_last();
        lemma_first_minimum(front);
        let before = first_minimum(front);
        assert(front[before] == s[before]);
        assert forall|i: int| 0 <= i < s.len() implies s[first_minimum(s)] <= #[trigger] s[i] by {
            if i < s.len() - 1 {
                assert(front[i] == s[i]);
            }
        }
        assert forall|i: int| 0 <= i < first_minimum(s) implies s[first_minimum(s)]
            < #[trigger] s[i] by {
            if i < s.len() - 1 {
                assert(front[i] == s[i]);
            }
        }
    }
}

/// The built expression keeps what is written: its values are `values` and
/// its operators are `ops`, in their order.
pub proof fn lemma_built_keeps_order(order: Seq<u32>, ops: Seq<Operator>, values: Seq<Rational>)
    requires
        ops.len() == order.len(),
        values.len() == order.len() + 1,
    ensures
        built(order, ops, values).written_values() == values,
        built(order, ops, values).written_operators() == ops,
    decreases order.len(),
{
    if order.len() == 0 {
        assert(seq![values[0]] =~= values);
        assert(Seq::<Operator>::empty() =~= ops);
    } else {
        lemma_first_minimum(order);
        let split = first_minimum(order);
        lemma_built_keeps_order(
            order.subrange(0, split),
            ops.subrange(0, split),
            values.subrange(0, split + 1),
        );
        lemma_built_keeps_order(
            order.subrange(split + 1, order.len() as int),
            ops.subrange(split + 1, ops.len() as int),
            values.subrange(split + 1, values.len() as int),
        );
        assert(values.subrange(0, split + 1) + values.subrange(split + 1, values.len() as int)
            =~= values);
        assert(ops.subrange(0, split).push(ops[split]) + ops.subrange(split + 1, ops.len() as int)
            =~= ops);
    }
}

/// The entries of `list` from `from` up to `to`.
fn slice_of<T: Copy>(list: &Vec<T>, from: usize, to: usize) -> (out: Vec<T>)
    requires
        from <= to <= list@.len(),
    ensures
        out@ == list@.subrange(from as int, to as int),
{
    let mut out: Vec<T> = Vec::new();
    let mut i: usize = from;
    while i < to
        invariant
            from <= i <= to <= list@.len(),
            out@ == list@.subrange(from as int, i as int),
        decreases to - i,
    {
        out.push(list[i]);
        i += 1;
        assert(out@ =~= list@.subrange(from as int, i as int));
    }
    out
}

impl NumberReplacer {
    /// Splits the numbers at their first minimum: what stands before it,
    /// what stands after it, and its position.
    pub fn partition(&self) -> (parts: (NumberReplacer, NumberReplacer, usize))
        requires
            self.numbers@.len() > 0,
        ensures
            parts.2 == first_minimum(self.numbers@),
            parts.0.numbers@ == self.numbers@.subrange(0, parts.2 as int),
            parts.1.numbers@ == self.numbers@.subrange(parts.2 + 1, self.numbers@.len() as int),
    {
        let mut min_index: usize = 0;
        let mut i: usize = 1;
        assert(self.numbers@.take(1).len() == 1);
        while i < self.numbers.len()
            invariant
                1 <= i <= self.numbers@.len(),
                min_index == first_minimum(self.numbers@.take(i as int)),
                min_index < i,
            decreases self.numbers@.len() - i,
        {
            proof {
                assert(self.numbers@.take(i + 1).drop_last() =~= self.numbers@.take(i as int));
            }
            if self.numbers[i] < self.numbers[min_index] {
                min_index = i;
            }
            i += 1;
        }
        assert(self.numbers@.take(i as int) =~= self.numbers@);
        let left = slice_of(&self.numbers, 0, min_index);
        let right = slice_of(&self.numbers, min_index + 1, self.numbers.len());
        (NumberReplacer { numbers: left }, NumberReplacer { numbers: right }, min_index)
    }
}

/// Builds the expression over `values`, with `ops` between them, that
/// `structure` groups.
pub fn build_expression(structure: NumberReplacer, ops: Vec<Operator>, values: Vec<Rational>) -> (tree:
    ExpressionNode)
    requires
        ops@.len() == structure.numbers@.len(),
        values@.len() == structure.numbers@.len() + 1,
    ensures
        tree == built(structure.numbers@, ops@, values@),
        tree.written_values() == values@,
        tree.written_operators() == ops@,
    decreases structure.numbers@.len(),
{
    proof {
        lemma_built_keeps_order(structure.numbers@, ops@, values@);
    }
    if structure.numbers.len() == 0 {
        return ExpressionNode::Value(values[0]);
    }
    proof {
        lemma_first_minimum(structure.numbers@);
    }
    let (left, right, min_index) = structure.partition();
    let op = ops[min_index];
    let lhs = build_expression(
        left,
        slice_of(&ops, 0, min_index),
        slice_of(&values, 0, min_index + 1),
    );
    let rhs = build_expression(
        right,
        slice_of(&ops, min_index + 1, ops.len()),
        slice_of(&values, min_index + 1, values.len()),
    );
    ExpressionNode::Exp(Expression { op, lhs: Box::new(lhs), rhs: Box::new(rhs) })
}

/// The numbers from one to `n`.
pub open spec fn counting(n: nat) -> Seq<u32> {
    Seq::new(n, |i: int| (i + 1) as u32)
}

/// The entries of `values` that the numbers of `order` name, counted from
/// one, in the order of the numbers.
pub open spec fn replaced(order: Seq<u32>, values: Seq<Rational>) -> Seq<Rational> {
    Seq::new(order.len(), |i: int| values[order[i] - 1])
}

/// The expressions over `values` that groupings build: every order of
/// application, with every ordering of the values, with every assignment of
/// operators. The orders of application vary slowest and the assignments
/// fastest.
pub open spec fn built_space(values: Seq<Rational>) -> Seq<ExpressionNode> {
    let groupings = permutations(counting((values.len() - 1) as nat));
    let orders = permutations(counting(values.len()));
    let slots = assignments((values.len() - 1) as nat);
    Seq::new(
        groupings.len() * orders.len() * slots.len(),
        |at: int|
            built(
                groupings[at / (orders.len() * slots.len()) as int],
                slots[at % slots.len() as int],
                replaced(orders[(at / slots.len() as int) % orders.len() as int], values),
            ),
    )
}

proof fn lemma_power_of_four_positive(m: nat)
    ensures
        power_of_four(m) > 0,
    decreases m,
{
    if m > 0 {
        lemma_power_of_four_positive((m - 1) as nat);
    }
}

/// An ordering of the numbers from one to `n` names positions of a list of
/// `n` entries.
proof fn lemma_ordering_names_positions(n: nat, at: int)
    requires
        n <= u32::MAX,
        0 <= at < permutations(counting(n)).len(),
    ensures
        permutations(counting(n))[at].len() == n,
        forall|i: int|
            0 <= i < n ==> 1 <= #[trigger] permutations(counting(n))[at][i] <= n,
{
    let order = permutations(counting(n))[at];
    lemma_permutation_is_rearrangement(counting(n), at);
    assert forall|i: int| 0 <= i < n implies 1 <= #[trigger] order[i] <= n by {
        order.to_multiset_ensures();
        counting(n).to_multiset_ensures();
        assert(order.contains(order[i]));
        assert(order.to_multiset().count(order[i]) > 0);
        assert(counting(n).contains(order[i]));
        let k = choose|k: int| 0 <= k < n && counting(n)[k] == order[i];
    }
}

fn counting_upto(n: u32) -> (out: Vec<u32>)
    ensures
        out@ == counting(n as nat),
{
    let mut out: Vec<u32> = Vec::new();
    let mut i: u32 = 0;
    while i < n
        invariant
            i <= n,
            out@ == counting(i as nat),
        decreases n - i,
    {
        out.push(i + 1);
        i += 1;
        assert(out@ =~= counting(i as nat));
    }
    out
}

/// A generator of the expressions over a list of values that groupings
/// build.
pub struct ExpressionIter {
    structure_iter: NumberReplacerIter,
    current_structure: Option<NumberReplacer>,
    values_replacer_iter: NumberReplacerIter,
    current_values_replacer: Option<NumberReplacer>,
    ops_iter: OpsIter,
    values: Vec<Rational>,
}

impl ExpressionIter {
    spec fn groupings(&self) -> Seq<Seq<u32>> {
        permutations(counting((self.values@.len() - 1) as nat))
    }

    spec fn orders(&self) -> Seq<Seq<u32>> {
        permutations(counting(self.values@.len()))
    }

    spec fn slots(&self) -> Seq<Seq<Operator>> {
        assignments((self.values@.len() - 1) as nat)
    }

    /// The place of the expression that comes next.
    spec fn position(&self) -> int {
        place_in_product(
            self.orders().len() as int,
            self.slots().len() as int,
            self.groupings().len() - self.structure_iter.remaining().len() - 1,
            self.orders().len() - self.values_replacer_iter.remaining().len() - 1,
            self.slots().len() - self.ops_iter.remaining().len(),
        )
    }

    /// What every generator made by `new` and stepped by `next` satisfies.
    pub closed spec fn well_formed(&self) -> bool {
        &&& 1 <= self.values@.len() <= u32::MAX
        &&& self.structure_iter.tokens() == counting((self.values@.len() - 1) as nat)
        &&& self.values_replacer_iter.tokens() == counting(self.values@.len())
        &&& self.ops_iter.slots() == self.values@.len() - 1
        &&& left_of(self.structure_iter.remaining(), self.groupings())
        &&& left_of(self.values_replacer_iter.remaining(), self.orders())
        &&& left_of(self.ops_iter.remaining(), self.slots())
        &&& self.current_structure matches Some(grouping) ==> {
            &&& self.structure_iter.remaining().len() < self.groupings().len()
            &&& grouping.numbers@ == self.groupings()[self.groupings().len()
                - self.structure_iter.remaining().len() - 1]
            &&& self.current_values_replacer matches Some(order)
            &&& self.values_replacer_iter.remaining().len() < self.orders().len()
            &&& order.numbers@ == self.orders()[self.orders().len()
                - self.values_replacer_iter.remaining().len() - 1]
        }
    }

    /// The values.
    pub closed spec fn values(&self) -> Seq<Rational> {
        self.values@
    }

    /// The expressions still to come, in the order in which they will come.
    pub closed spec fn remaining(&self) -> Seq<ExpressionNode> {
        if self.current_structure is None {
            Seq::empty()
        } else {
            built_space(self.values@).skip(self.position())
        }
    }

    /// A generator that has yet to yield every expression over `values`.
    pub fn new(values: Vec<Rational>) -> (it: Self)
        requires
            1 <= values@.len() <= u32::MAX,
        ensures
            it.well_formed(),
            it.values() == values@,
            it.remaining() == built_space(values@),
    {
        let length = values.len();
        proof {
            lemma_permutations_len(counting((length - 1) as nat));
            lemma_permutations_len(counting(length as nat));
            lemma_factorial_positive((length - 1) as nat);
            lemma_factorial_positive(length as nat);
            lemma_power_of_four_positive((length - 1) as nat);
        }
        let mut structure_iter = NumberReplacerIter::new(counting_upto((length - 1) as u32));
        let current_structure = structure_iter.next();
        let mut values_replacer_iter = NumberReplacerIter::new(counting_upto(length as u32));
        let current_values_replacer = values_replacer_iter.next();
        let ops_iter = OpsIter::new(length - 1);
        let it = ExpressionIter {
            structure_iter,
            current_structure,
            values_replacer_iter,
            current_values_replacer,
            ops_iter,
            values,
        };
        proof {
            let groupings = it.groupings();
            let orders = it.orders();
            let slots = it.slots();
            assert(groupings.skip(0).drop_first() =~= groupings.skip(1));
            assert(orders.skip(0).drop_first() =~= orders.skip(1));
            assert(groupings.skip(0) =~= groupings);
            assert(orders.skip(0) =~= orders);
            assert(slots.skip(0) =~= slots);
            assert(it.position() == 0) by (nonlinear_arith)
                requires
                    it.position() == (0 * orders.len() + 0) * slots.len() + 0,
            ;
            assert(built_space(it.values@).skip(0) =~= built_space(it.values@));
        }
        it
    }
}

/// The expression at the place of a grouping, an ordering and an
/// assignment.
proof fn lemma_built_space_index(values: Seq<Rational>, s: int, v: int, o: int)
    requires
        0 <= s < permutations(counting((values.len() - 1) as nat)).len(),
        0 <= v < permutations(counting(values.len())).len(),
        0 <= o < assignments((values.len() - 1) as nat).len(),
    ensures
        0 <= place_in_product(
            permutations(counting(values.len())).len() as int,
            assignments((values.len() - 1) as nat).len() as int,
            s,
            v,
            o,
        ) < built_space(values).len(),
        built_space(values)[place_in_product(
            permutations(counting(values.len())).len() as int,
            assignments((values.len() - 1) as nat).len() as int,
            s,
            v,
            o,
        )] == built(
            permutations(counting((values.len() - 1) as nat))[s],
            assignments((values.len() - 1) as nat)[o],
            replaced(permutations(counting(values.len()))[v], values),
        ),
{
    lemma_place_in_product(
        permutations(counting((values.len() - 1) as nat)).len() as int,
        permutations(counting(values.len())).len() as int,
        assignments((values.len() - 1) as nat).len() as int,
        s,
        v,
        o,
    );
}

impl ExpressionIter {
    /// Yields the next expression, or `None` once all have been yielded.
    pub fn next(&mut self) -> (r: Option<ExpressionNode>)
        requires
            old(self).well_formed(),
        ensures
            final(self).well_formed(),
            final(self).values() == old(self).values(),
            old(self).remaining().len() == 0 ==> r is None && final(self).remaining() == old(
                self,
            ).remaining(),
            old(self).remaining().len() > 0 ==> r == Some(old(self).remaining()[0])
                && final(self).remaining() == old(self).remaining().drop_first(),
    {
        if self.current_structure.is_none() {
            return None;
        }
        let length = self.values.len();
        let ghost values = self.values@;
        let ghost space = built_space(values);
        let ghost groupings = self.groupings();
        let ghost orders = self.orders();
        let ghost slots = self.slots();
        let ghost a = groupings.len() as int;
        let ghost b = orders.len() as int;
        let ghost c = slots.len() as int;
        let ghost s = a - self.structure_iter.remaining().len() - 1;
        let ghost v = b - self.values_replacer_iter.remaining().len() - 1;
        let ghost o = c - self.ops_iter.remaining().len();
        let ghost here = self.position();
        proof {
            lemma_permutations_len(counting((length - 1) as nat));
            lemma_permutations_len(counting(length as nat));
            lemma_factorial_positive((length - 1) as nat);
            lemma_factorial_positive(length as nat);
            lemma_power_of_four_positive((length - 1) as nat);
            assert(slots.skip(0) =~= slots);
            assert(orders.skip(0) =~= orders);
        }
        let mut next_ops = self.ops_iter.next();
        if next_ops.is_none() {
            assert(o == c);
            self.ops_iter = OpsIter::new(length - 1);
            self.current_values_replacer = self.values_replacer_iter.next();
            if self.current_values_replacer.is_none() {
                assert(v == b - 1);
                self.values_replacer_iter = NumberReplacerIter::new(counting_upto(length as u32));
                self.current_values_replacer = self.values_replacer_iter.next();
                self.current_structure = self.structure_iter.next();
                proof {
                    assert(orders.skip(0).drop_first() =~= orders.skip(1));
                    assert(here == (s + 1) * b * c) by (nonlinear_arith)
                        requires
                            here == (s * b + v) * c + o,
                            v == b - 1,
                            o == c,
                    ;
                }
                if self.current_structure.is_none() {
                    proof {
                        assert(s == a - 1);
                        assert(space.skip(here) =~= Seq::<ExpressionNode>::empty());
                    }
                    return None;
                }
                proof {
                    assert(groupings.skip(s + 1).drop_first() =~= groupings.skip(s + 2));
                    assert(self.position() == here) by (nonlinear_arith)
                        requires
                            self.position() == ((s + 1) * b + 0) * c + 0,
                            here == (s + 1) * b * c,
                    ;
                }
            } else {
                proof {
                    assert(orders.skip(v + 1).drop_first() =~= orders.skip(v + 2));
                    assert(self.position() == here) by (nonlinear_arith)
                        requires
                            self.position() == (s * b + (v + 1)) * c + 0,
                            here == (s * b + v) * c + o,
                            o == c,
                    ;
                }
            }
            next_ops = self.ops_iter.next();
        }
        let ghost s1 = a - self.structure_iter.remaining().len() - 1;
        let ghost v1 = b - self.values_replacer_iter.remaining().len() - 1;
        let ghost o1 = c - self.ops_iter.remaining().len() - 1;
        proof {
            assert(0 <= s1 < a && 0 <= v1 < b && 0 <= o1 < c);
            assert(here == place_in_product(b, c, s1, v1, o1));
            lemma_built_space_index(values, s1, v1, o1);
            lemma_ordering_names_positions(length as nat, v1);
            lemma_permutation_is_rearrangement(counting((length - 1) as nat), s1);
            lemma_nth_assignment_len((length - 1) as nat, o1 as nat);
            assert(slots[o1] == nth_assignment((length - 1) as nat, o1 as nat));
            assert(slots.skip(o1).drop_first() =~= slots.skip(o1 + 1));
            assert(self.position() == here + 1);
            assert(space.skip(here).drop_first() =~= space.skip(here + 1));
        }
        let ops = match next_ops {
            Some(ops) => ops,
            None => vstd::pervasive::unreached(),
        };
        let order = match &self.current_values_replacer {
            Some(order) => order,
            None => vstd::pervasive::unreached(),
        };
        let grouping = match &self.current_structure {
            Some(grouping) => NumberReplacer { numbers: grouping.numbers.clone() },
            None => vstd::pervasive::unreached(),
        };
        let arranged = order.apply(self.values.clone());
        assert(arranged@ =~= replaced(order.numbers@, values));
        Some(build_expression(grouping, ops, arranged))
    }
}

} // verus!
