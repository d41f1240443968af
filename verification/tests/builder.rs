use arith_search::assignment::OpsIter;
use arith_search::builder::{build_expression, ExpressionIter};
use arith_search::expression::{ExpressionNode, RationalEvaluatable};
use arith_search::permutation::{NumberReplacer, NumberReplacerIter};
use arith_search::rational::Rational;

fn whole(n: i32) -> Rational {
    Rational::new(n, 1)
}

fn all_orderings(tokens: Vec<u32>) -> Vec<NumberReplacer> {
    let mut it = NumberReplacerIter::new(tokens);
    let mut all = Vec::new();
    while let Some(order) = it.next() {
        all.push(order);
    }
    all
}

#[test]
fn apply_picks_the_named_entries() {
    let order = NumberReplacer::new(vec![3, 1, 2]);
    assert_eq!(order.apply(vec!['a', 'b', 'c']), vec!['c', 'a', 'b']);
    assert_eq!(
        NumberReplacer::new(vec![2, 2]).apply(vec![10, 20, 30]),
        vec![20, 20]
    );
    assert_eq!(NumberReplacer::new(vec![]).apply(vec![1]), Vec::<i32>::new());
}

#[test]
fn expressions_over_one_value() {
    let mut it = ExpressionIter::new(vec![whole(5)]);
    assert_eq!(it.next(), Some(ExpressionNode::Value(whole(5))));
    assert_eq!(it.next(), None);
    assert_eq!(it.next(), None);
}

#[test]
fn expressions_over_two_values_in_order() {
    let mut it = ExpressionIter::new(vec![whole(1), whole(2)]);
    let mut texts = Vec::new();
    while let Some(e) = it.next() {
        texts.push(e.to_string());
    }
    assert_eq!(
        texts,
        vec![
            "(1 + 2)", "(1 - 2)", "(1 * 2)", "(1 / 2)", "(2 + 1)", "(2 - 1)", "(2 * 1)", "(2 / 1)",
        ]
    );
    assert_eq!(it.next(), None);
}

#[test]
fn expressions_come_as_groupings_then_orderings_then_assignments() {
    let values = vec![whole(3), whole(3), whole(8), whole(8)];
    let mut it = ExpressionIter::new(values.clone());
    let mut count = 0;
    for grouping in all_orderings(vec![1, 2, 3]) {
        for order in all_orderings(vec![1, 2, 3, 4]) {
            let mut ops_iter = OpsIter::new(3);
            while let Some(ops) = ops_iter.next() {
                let expected = build_expression(
                    NumberReplacer::new(grouping.numbers.clone()),
                    ops,
                    order.apply(values.clone()),
                );
                let got = it.next().unwrap();
                assert_eq!(got.to_string(), expected.to_string());
                count += 1;
            }
        }
    }
    assert_eq!(count, 6 * 24 * 64);
    assert_eq!(it.next(), None);
}

#[test]
fn groupings_reach_twenty_four_too() {
    let mut it = ExpressionIter::new(vec![whole(3), whole(3), whole(8), whole(8)]);
    let mut found = None;
    while let Some(e) = it.next() {
        if e.evaluate() == Some(whole(24)) {
            found = Some(e.to_string());
            break;
        }
    }
    assert_eq!(found, Some("(8 / (3 - (8 / 3)))".to_string()));
}
