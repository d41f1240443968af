use arith_search::builder::build_expression;
use arith_search::expression::{apply, Expression, ExpressionNode, RationalEvaluatable};
use arith_search::operator::Operator;
use arith_search::permutation::NumberReplacer;
use arith_search::rational::Rational;

#[test]
fn partition() {
    let replacer = NumberReplacer::new(vec![3, 1, 2]);
    let (left, right, min_index) = replacer.partition();
    assert_eq!(left.numbers, vec![3]);
    assert_eq!(right.numbers, vec![2]);
    assert_eq!(min_index, 1);
    let replacer2 = NumberReplacer::new(vec![3, 1, 2, 4]);
    let (left, right, min_index) = replacer2.partition();
    assert_eq!(left.numbers, vec![3]);
    assert_eq!(right.numbers, vec![2, 4]);
    assert_eq!(min_index, 1);
    let replacer3 = NumberReplacer::new(vec![1, 2, 4, 3]);
    let (left, right, min_index) = replacer3.partition();
    assert_eq!(left.numbers, vec![]);
    assert_eq!(right.numbers, vec![2, 4, 3]);
    assert_eq!(min_index, 0);
}

#[test]
fn partition_takes_the_first_of_equal_minima() {
    let (left, right, min_index) = NumberReplacer::new(vec![5, 2, 7, 2]).partition();
    assert_eq!(left.numbers, vec![5]);
    assert_eq!(right.numbers, vec![7, 2]);
    assert_eq!(min_index, 1);
    let (left, right, min_index) = NumberReplacer::new(vec![9]).partition();
    assert_eq!(left.numbers, vec![]);
    assert_eq!(right.numbers, vec![]);
    assert_eq!(min_index, 0);
}

#[test]
fn build_expression_test() {
    let structure = NumberReplacer::new(vec![1, 3, 2]);
    let ops = vec![Operator::Add, Operator::Div, Operator::Mul];
    let values = vec![
        Rational {
            numerator: 1,
            denominator: 2,
        },
        Rational {
            numerator: 1,
            denominator: 3,
        },
        Rational {
            numerator: 1,
            denominator: 4,
        },
        Rational {
            numerator: 1,
            denominator: 5,
        },
    ];
    let expression = build_expression(structure, ops, values);
    assert_eq!(
        expression,
        ExpressionNode::Exp(Expression {
            op: Operator::Add,
            lhs: Box::new(ExpressionNode::Value(Rational {
                numerator: 1,
                denominator: 2,
            })),
            rhs: Box::new(ExpressionNode::Exp(Expression {
                op: Operator::Mul,
                lhs: Box::new(ExpressionNode::Exp(Expression {
                    op: Operator::Div,
                    lhs: Box::new(ExpressionNode::Value(Rational {
                        numerator: 1,
                        denominator: 3,
                    })),
                    rhs: Box::new(ExpressionNode::Value(Rational {
                        numerator: 1,
                        denominator: 4,
                    }))
                })),
                rhs: Box::new(ExpressionNode::Value(Rational {
                    numerator: 1,
                    denominator: 5,
                })),
            })),
        })
    );
    assert_eq!(expression.to_string(), "(1/2 + ((1/3 / 1/4) * 1/5))");
}

#[test]
fn build_expression_of_one_value() {
    let value = Rational {
        numerator: 7,
        denominator: 1,
    };
    let expression = build_expression(NumberReplacer::new(vec![]), vec![], vec![value]);
    assert_eq!(expression, ExpressionNode::Value(value));
    assert_eq!(expression.to_string(), "7");
}

#[test]
fn evaluate() {
    let e = Expression {
        op: Operator::Add,
        lhs: Box::new(ExpressionNode::Value(Rational {
            numerator: 1,
            denominator: 2,
        })),
        rhs: Box::new(ExpressionNode::Value(Rational {
            numerator: 1,
            denominator: 3,
        })),
    };
    assert_eq!(
        e.evaluate(),
        Some(Rational {
            numerator: 5,
            denominator: 6
        })
    );
    assert_eq!(e.to_string(), "(1/2 + 1/3)");
}

#[test]
fn evaluate_fails_where_a_part_fails() {
    let zero = ExpressionNode::Value(Rational {
        numerator: 0,
        denominator: 1,
    });
    let five = ExpressionNode::Value(Rational {
        numerator: 5,
        denominator: 1,
    });
    let by_zero = ExpressionNode::Exp(Expression {
        op: Operator::Div,
        lhs: Box::new(five.clone()),
        rhs: Box::new(zero.clone()),
    });
    assert_eq!(by_zero.evaluate(), None);
    let above = Expression {
        op: Operator::Add,
        lhs: Box::new(five.clone()),
        rhs: Box::new(by_zero.clone()),
    };
    assert_eq!(above.evaluate(), None);
    assert_eq!(above.to_string(), "(5 + (5 / 0))");
    assert_eq!(five.evaluate(), Some(Rational::new(5, 1)));
}

#[test]
fn apply_each_operator() {
    let a = Rational::new(1, 2);
    let b = Rational::new(1, 3);
    assert_eq!(apply(Operator::Add, a, b), Some(Rational::new(5, 6)));
    assert_eq!(apply(Operator::Sub, a, b), Some(Rational::new(1, 6)));
    assert_eq!(apply(Operator::Mul, a, b), Some(Rational::new(1, 6)));
    assert_eq!(apply(Operator::Div, a, b), Some(Rational::new(3, 2)));
    assert_eq!(apply(Operator::Div, a, Rational::new(0, 7)), None);
}
