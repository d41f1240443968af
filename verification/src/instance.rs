//! An expression as a triple: values in order, operators in order, and the
//! shape that groups them.

use crate::expression::{apply, Expression, ExpressionNode};
use crate::operator::Operator;
use crate::rational::Rational;
use crate::shape::{lemma_leaves_positive, Node};
use crate::text::{push_char, push_fraction};
use vstd::prelude::*;

verus! {

/// Values, operators and a shape, as mathematical values.
pub struct Candidate {
    pub nums: Seq<Rational>,
    pub operators: Seq<Operator>,
    pub structure: Node,
}

/// The values that go to the left subtree of a node whose left subtree has
/// `k` leaves: the first `k`.
pub open spec fn left_nums(nums: Seq<Rational>, k: nat) -> Seq<Rational> {
    nums.subrange(0, k as int)
}

/// The values that go to the right subtree: all but the first `k`.
pub open spec fn right_nums(nums: Seq<Rational>, k: nat) -> Seq<Rational> {
    nums.subrange(k as int, nums.len() as int)
}

/// The operators that go to the left subtree: the `k - 1` that follow the
/// node's own, which is the first.
pub open spec fn left_operators(operators: Seq<Operator>, k: nat) -> Seq<Operator> {
    operators.subrange(1, k as int)
}

/// The operators that go to the right subtree: all that follow those of
/// the left subtree.
pub open spec fn right_operators(operators: Seq<Operator>, k: nat) -> Seq<Operator> {
    operators.subrange(k as int, operators.len() as int)
}

/// Whether there is one value for each leaf of the shape and one operator
/// for each internal node.
pub open spec fn fitting(structure: Node, nums: Seq<Rational>, operators: Seq<Operator>) -> bool {
    nums.len() == structure.leaves() && operators.len() + 1 == nums.len()
}

/// The syntax tree of the expression: a leaf holds its value; an internal
/// node takes the first operator, hands the following ones to its left
/// subtree, one for each internal node there, and the rest to its right
/// subtree.
pub open spec fn tree_of(
    structure: Node,
    nums: Seq<Rational>,
    operators: Seq<Operator>,
) -> ExpressionNode
    decreases structure,
{
    match structure {
        Node::Leaf => ExpressionNode::Value(nums[0]),
        Node::Node { left, right } => {
            let k = left.leaves();
            ExpressionNode::Exp(
                Expression {
                    op: operators[0],
                    lhs: Box::new(tree_of(*left, left_nums(nums, k), left_operators(operators, k))),
                    rhs: Box::new(
                        tree_of(*right, right_nums(nums, k), right_operators(operators, k)),
                    ),
                },
            )
        },
    }
}

impl Candidate {
    /// Whether there is one value for each leaf and one operator for each
    /// internal node.
    pub open spec fn well_formed(self) -> bool {
        fitting(self.structure, self.nums, self.operators)
    }

    /// The syntax tree of the expression.
    pub open spec fn tree(self) -> ExpressionNode {
        tree_of(self.structure, self.nums, self.operators)
    }

    /// The value of the expression; `None` where a division by zero or an
    /// overflow occurs in any subtree.
    pub open spec fn value(self) -> Option<Rational> {
        self.tree().node_value()
    }

    /// The text of the expression: fully parenthesized infix notation.
    pub open spec fn text(self) -> Seq<char> {
        self.tree().node_text()
    }
}

/// An expression ready to be evaluated and rendered.
#[derive(Debug)]
pub struct ExpressionInstance {
    nums: Vec<Rational>,
    operators: Vec<Operator>,
    structure: Node,
}

impl View for ExpressionInstance {
    type V = Candidate;

    closed spec fn view(&self) -> Candidate {
        Candidate { nums: self.nums@, operators: self.operators@, structure: self.structure }
    }
}

impl ExpressionInstance {
    #[verifier::type_invariant]
    spec fn well_formed(&self) -> bool {
        fitting(self.structure, self.nums@, self.operators@)
    }

    /// An expression of the given values, operators and shape: one value
    /// for each leaf, and one operator for each internal node.
    pub fn new(nums: Vec<Rational>, operators: Vec<Operator>, structure: Node) -> (instance: Self)
        requires
            fitting(structure, nums@, operators@),
        ensures
            instance@ == (Candidate { nums: nums@, operators: operators@, structure }),
            instance@.well_formed(),
    {
        ExpressionInstance { nums, operators, structure }
    }

    /// The value of the expression; `None` where a division by zero or an
    /// overflow occurs in any subtree.
    pub fn evaluate(&self) -> (r: Option<Rational>)
        ensures
            r == self@.value(),
    {
        proof {
            use_type_invariant(self);
            assert(self.nums@.subrange(0, self.nums@.len() as int) =~= self.nums@);
            assert(self.operators@.subrange(0, self.operators@.len() as int) =~= self.operators@);
        }
        evaluate_part(&self.structure, &self.nums, 0, &self.operators, 0)
    }

    /// The values, in the order of the leaves.
    pub fn nums(&self) -> (nums: &Vec<Rational>)
        ensures
            nums@ == self@.nums,
    {
        &self.nums
    }

    /// The operators, in the order in which the internal nodes take them.
    pub fn operators(&self) -> (operators: &Vec<Operator>)
        ensures
            operators@ == self@.operators,
    {
        &self.operators
    }

    /// The shape.
    pub fn structure(&self) -> (structure: &Node)
        ensures
            *structure == self@.structure,
    {
        &self.structure
    }

    /// The text of the expression: fully parenthesized infix notation, the
    /// same grouping as `evaluate` computes.
    pub fn to_string(&self) -> (text: String)
        ensures
            text@ == self@.text(),
    {
        proof {
            use_type_invariant(self);
            assert(self.nums@.subrange(0, self.nums@.len() as int) =~= self.nums@);
            assert(self.operators@.subrange(0, self.operators@.len() as int) =~= self.operators@);
        }
        let mut text = String::new();
        push_part(&self.structure, &self.nums, 0, &self.operators, 0, &mut text);
        text
    }
}

impl Clone for ExpressionInstance {
    fn clone(&self) -> (copy: ExpressionInstance)
        ensures
            copy@ == self@,
    {
        proof {
            use_type_invariant(self);
        }
        let nums = self.nums.clone();
        let operators = self.operators.clone();
        assert(nums@ =~= self.nums@);
        assert(operators@ =~= self.operators@);
        ExpressionInstance { nums, operators, structure: self.structure.clone() }
    }
}

/// The value of the subtree `structure` over the values from `first_num`
/// on and the operators from `first_op` on.
fn evaluate_part(
    structure: &Node,
    nums: &Vec<Rational>,
    first_num: usize,
    operators: &Vec<Operator>,
    first_op: usize,
) -> (r: Option<Rational>)
    requires
        first_num + structure.leaves() <= nums@.len(),
        first_op + structure.leaves() - 1 <= operators@.len(),
    ensures
        r == tree_of(
            *structure,
            nums@.subrange(first_num as int, first_num + structure.leaves()),
            operators@.subrange(first_op as int, first_op + structure.leaves() - 1),
        ).node_value(),
    decreases structure,
{
    proof {
        lemma_leaves_positive(*structure);
    }
    let ghost part_nums = nums@.subrange(first_num as int, first_num + structure.leaves());
    let ghost part_ops = operators@.subrange(first_op as int, first_op + structure.leaves() - 1);
    let count = nums.len();
    let slots = operators.len();
    match structure {
        Node::Leaf => Some(nums[first_num]),
        Node::Node { left, right } => {
            proof {
                lemma_leaves_positive(**left);
                lemma_leaves_positive(**right);
                assert(structure.leaves() == left.leaves() + right.leaves());
            }
            let k = left.count_leaf();
            proof {
                assert(left_nums(part_nums, k as nat) =~= nums@.subrange(
                    first_num as int,
                    first_num + k,
                ));
                assert(left_operators(part_ops, k as nat) =~= operators@.subrange(
                    first_op + 1,
                    first_op + 1 + k - 1,
                ));
                assert(right_nums(part_nums, k as nat) =~= nums@.subrange(
                    first_num + k,
                    first_num + k + right.leaves(),
                ));
                assert(right_operators(part_ops, k as nat) =~= operators@.subrange(
                    first_op + k,
                    first_op + k + right.leaves() - 1,
                ));
            }
            let lhs = match evaluate_part(left, nums, first_num, operators, first_op + 1) {
                Some(v) => v,
                None => return None,
            };
            let rhs = match evaluate_part(right, nums, first_num + k, operators, first_op + k) {
                Some(v) => v,
                None => return None,
            };
            apply(operators[first_op], lhs, rhs)
        },
    }
}

/// Appends the text of the subtree `structure` over the values from
/// `first_num` on and the operators from `first_op` on.
fn push_part(
    structure: &Node,
    nums: &Vec<Rational>,
    first_num: usize,
    operators: &Vec<Operator>,
    first_op: usize,
    text: &mut String,
)
    requires
        first_num + structure.leaves() <= nums@.len(),
        first_op + structure.leaves() - 1 <= operators@.len(),
    ensures
        final(text)@ == old(text)@ + tree_of(
            *structure,
            nums@.subrange(first_num as int, first_num + structure.leaves()),
            operators@.subrange(first_op as int, first_op + structure.leaves() - 1),
        ).node_text(),
    decreases structure,
{
    proof {
        lemma_leaves_positive(*structure);
    }
    let ghost part_nums = nums@.subrange(first_num as int, first_num + structure.leaves());
    let ghost part_ops = operators@.subrange(first_op as int, first_op + structure.leaves() - 1);
    let count = nums.len();
    let slots = operators.len();
    match structure {
        Node::Leaf => push_fraction(text, nums[first_num]),
        Node::Node { left, right } => {
            proof {
                lemma_leaves_positive(**left);
                lemma_leaves_positive(**right);
                assert(structure.leaves() == left.leaves() + right.leaves());
            }
            let k = left.count_leaf();
            proof {
                assert(left_nums(part_nums, k as nat) =~= nums@.subrange(
                    first_num as int,
                    first_num + k,
                ));
                assert(left_operators(part_ops, k as nat) =~= operators@.subrange(
                    first_op + 1,
                    first_op + 1 + k - 1,
                ));
                assert(right_nums(part_nums, k as nat) =~= nums@.subrange(
                    first_num + k,
                    first_num + k + right.leaves(),
                ));
                assert(right_operators(part_ops, k as nat) =~= operators@.subrange(
                    first_op + k,
                    first_op + k + right.leaves() - 1,
                ));
            }
            push_char(text, '(');
            push_part(left, nums, first_num, operators, first_op + 1, text);
            push_char(text, ' ');
            push_char(text, operators[first_op].symbol());
            push_char(text, ' ');
            push_part(right, nums, first_num + k, operators, first_op + k, text);
            push_char(text, ')');
            assert(text@ =~= old(text)@ + tree_of(*structure, part_nums, part_ops).node_text());
        },
    }
}

} // verus!
