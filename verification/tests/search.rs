use arith_search::assignment::OpsIter;
use arith_search::instance::ExpressionInstance;
use arith_search::operator::Operator;
use arith_search::permutation::NumberReplacerIter;
use arith_search::rational::Rational;
use arith_search::search::{num_rational, nums_rational, TraversalableNums};
use arith_search::shape::Node;

#[test]
fn expression_test() {
    let e = ExpressionInstance::new(
        vec![num_rational(1), num_rational(2), num_rational(3)],
        vec![Operator::Add, Operator::Mul],
        Node::Node {
            left: Box::new(Node::Leaf),
            right: Box::new(Node::Node {
                left: Box::new(Node::Leaf),
                right: Box::new(Node::Leaf),
            }),
        },
    );
    assert_eq!(e.evaluate(), Some(num_rational(7)));
}

#[test]
fn rendering_groups_as_evaluation_does() {
    let e = ExpressionInstance::new(
        vec![num_rational(1), num_rational(2), num_rational(3)],
        vec![Operator::Add, Operator::Mul],
        Node::Node {
            left: Box::new(Node::Leaf),
            right: Box::new(Node::Node {
                left: Box::new(Node::Leaf),
                right: Box::new(Node::Leaf),
            }),
        },
    );
    assert_eq!(e.to_string(), "(1 + (2 * 3))");
    let f = ExpressionInstance::new(
        vec![num_rational(1), num_rational(2), num_rational(3)],
        vec![Operator::Mul, Operator::Add],
        Node::Node {
            left: Box::new(Node::Node {
                left: Box::new(Node::Leaf),
                right: Box::new(Node::Leaf),
            }),
            right: Box::new(Node::Leaf),
        },
    );
    assert_eq!(f.to_string(), "((1 + 2) * 3)");
    assert_eq!(f.evaluate(), Some(num_rational(9)));
}

#[test]
fn one_two_three_reach_six() {
    let found = TraversalableNums::new(vec![1, 2, 3]).find(6).unwrap();
    assert_eq!(found.evaluate(), Some(num_rational(6)));
    assert_eq!(found.to_string(), "(1 + (2 + 3))");
}

#[test]
fn threes_and_eights_reach_twenty_four() {
    let found = TraversalableNums::new(vec![3, 3, 8, 8]).find(24).unwrap();
    assert_eq!(found.evaluate(), Some(num_rational(24)));
    assert_eq!(found.to_string(), "(8 / (3 - (8 / 3)))");
}

#[test]
fn two_ones_do_not_reach_five() {
    assert!(TraversalableNums::new(vec![1, 1]).find(5).is_none());
}

#[test]
fn a_single_value_is_its_own_expression() {
    let found = TraversalableNums::new(vec![5]).find(5).unwrap();
    assert_eq!(found.to_string(), "5");
    assert_eq!(found.evaluate(), Some(num_rational(5)));
    assert!(TraversalableNums::new(vec![5]).find(6).is_none());
}

#[test]
fn no_values_make_no_candidate() {
    assert!(TraversalableNums::new(vec![]).into_iter().next().is_none());
    assert!(TraversalableNums::new(vec![]).find(0).is_none());
}

#[test]
fn division_by_zero_discards_the_candidate() {
    let e = ExpressionInstance::new(
        vec![num_rational(5), num_rational(0)],
        vec![Operator::Div],
        Node::Node {
            left: Box::new(Node::Leaf),
            right: Box::new(Node::Leaf),
        },
    );
    assert_eq!(e.evaluate(), None);
    let found = TraversalableNums::new(vec![0, 5]).find(5).unwrap();
    assert_eq!(found.evaluate(), Some(num_rational(5)));
    assert_eq!(found.to_string(), "(0 + 5)");
    assert!(TraversalableNums::new(vec![0, 5]).find(7).is_none());
}

#[test]
fn overflow_discards_the_candidate() {
    let e = ExpressionInstance::new(
        vec![num_rational(65536), num_rational(65536)],
        vec![Operator::Mul],
        Node::Node {
            left: Box::new(Node::Leaf),
            right: Box::new(Node::Leaf),
        },
    );
    assert_eq!(e.evaluate(), None);
    let sum = ExpressionInstance::new(
        vec![num_rational(i32::MAX), num_rational(1)],
        vec![Operator::Add],
        Node::Node {
            left: Box::new(Node::Leaf),
            right: Box::new(Node::Leaf),
        },
    );
    assert_eq!(sum.evaluate(), None);
}

#[test]
fn whole_numbers_have_the_denominator_one() {
    assert_eq!(num_rational(7).numerator, 7);
    assert_eq!(num_rational(7).denominator, 1);
    let all = nums_rational(vec![3, -4]);
    assert_eq!(all.len(), 2);
    assert_eq!((all[0].numerator, all[0].denominator), (3, 1));
    assert_eq!((all[1].numerator, all[1].denominator), (-4, 1));
}

fn orderings_by_generator(values: &[i32]) -> Vec<Vec<(i32, i32)>> {
    let tokens: Vec<u32> = (1..=values.len() as u32).collect();
    let mut it = NumberReplacerIter::new(tokens);
    let mut all = Vec::new();
    while let Some(order) = it.next() {
        all.push(
            order
                .numbers
                .iter()
                .map(|n| (values[*n as usize - 1], 1))
                .collect(),
        );
    }
    all
}

fn assignments_by_generator(slots: usize) -> Vec<Vec<Operator>> {
    let mut it = OpsIter::new(slots);
    let mut all = Vec::new();
    while let Some(ops) = it.next() {
        all.push(ops);
    }
    all
}

fn parts(r: &Rational) -> (i32, i32) {
    (r.numerator, r.denominator)
}

fn check_enumeration(values: Vec<i32>) {
    let orders = orderings_by_generator(&values);
    let slots = assignments_by_generator(values.len() - 1);
    let shapes = if values.len() == 1 {
        vec![Node::Leaf]
    } else {
        Node::get_all_tree(values.len())
    };
    let mut it = TraversalableNums::new(values).into_iter();
    for order in &orders {
        for ops in &slots {
            for shape in &shapes {
                let instance = it.next().unwrap();
                let nums: Vec<(i32, i32)> = instance.nums().iter().map(parts).collect();
                assert_eq!(&nums, order);
                assert_eq!(instance.operators(), ops);
                assert_eq!(instance.structure(), shape);
            }
        }
    }
    assert!(it.next().is_none());
    assert!(it.next().is_none());
}

#[test]
fn candidates_come_as_orderings_then_assignments_then_shapes() {
    check_enumeration(vec![7]);
    check_enumeration(vec![7, 9]);
    check_enumeration(vec![1, 2, 3]);
    check_enumeration(vec![2, 2, 5]);
    check_enumeration(vec![3, 3, 8, 8]);
    check_enumeration(vec![1, 2, 3, 4, 5]);
}

#[test]
fn candidate_counts() {
    let mut it = TraversalableNums::new(vec![1, 2, 3, 4]).into_iter();
    let mut count = 0;
    while it.next().is_some() {
        count += 1;
    }
    assert_eq!(count, 24 * 64 * 5);
}

/// Evaluates fully parenthesized infix text over fractions of `i128` parts.
fn value_of_text(text: &str) -> Option<(i128, i128)> {
    fn number(chars: &[char], at: &mut usize) -> i128 {
        let negative = chars[*at] == '-';
        if negative {
            *at += 1;
        }
        let mut value: i128 = 0;
        while *at < chars.len() && chars[*at].is_ascii_digit() {
            value = value * 10 + chars[*at].to_digit(10).unwrap() as i128;
            *at += 1;
        }
        if negative {
            -value
        } else {
            value
        }
    }
    fn expression(chars: &[char], at: &mut usize) -> Option<(i128, i128)> {
        if chars[*at] == '(' {
            *at += 1;
            let left = expression(chars, at);
            assert_eq!(chars[*at], ' ');
            let op = chars[*at + 1];
            assert_eq!(chars[*at + 2], ' ');
            *at += 3;
            let right = expression(chars, at);
            assert_eq!(chars[*at], ')');
            *at += 1;
            let (a, b) = left?;
            let (c, d) = right?;
            match op {
                '+' => Some((a * d + c * b, b * d)),
                '-' => Some((a * d - c * b, b * d)),
                '*' => Some((a * c, b * d)),
                '/' => {
                    if c == 0 {
                        None
                    } else {
                        Some((a * d, b * c))
                    }
                }
                _ => panic!("unknown operator"),
            }
        } else {
            let n = number(chars, at);
            if *at < chars.len() && chars[*at] == '/' {
                *at += 1;
                let d = number(chars, at);
                Some((n, d))
            } else {
                Some((n, 1))
            }
        }
    }
    let chars: Vec<char> = text.chars().collect();
    let mut at = 0;
    let value = expression(&chars, &mut at);
    assert_eq!(at, chars.len());
    value
}

#[test]
fn the_text_has_the_value_of_the_expression() {
    for values in [vec![3, 3, 8, 8], vec![1, 2, 3, 4], vec![0, 5, 7], vec![-2, 6]] {
        let mut it = TraversalableNums::new(values).into_iter();
        let mut with_value = 0;
        while let Some(instance) = it.next() {
            let read = value_of_text(&instance.to_string());
            match instance.evaluate() {
                Some(v) => {
                    let (n, d) = read.unwrap();
                    assert_eq!(v.numerator as i128 * d, v.denominator as i128 * n);
                    assert_eq!((v.numerator as i128, v.denominator as i128), (n, d));
                    with_value += 1;
                }
                None => assert_eq!(read, None),
            }
        }
        assert!(with_value > 0);
    }
}

#[test]
fn a_copy_of_an_instance_is_the_same_expression() {
    let found = TraversalableNums::new(vec![1, 2, 3]).find(7).unwrap();
    let copy = found.clone();
    assert_eq!(copy.to_string(), found.to_string());
    assert_eq!(copy.to_string(), "(1 + (2 * 3))");
    assert_eq!(copy.nums(), found.nums());
    assert_eq!(copy.operators(), found.operators());
    assert_eq!(copy.structure(), found.structure());
}

#[test]
fn the_first_candidate_that_reaches_the_target_is_found() {
    let target = 2;
    let mut it = TraversalableNums::new(vec![4, 2, 1]).into_iter();
    let mut first = None;
    while let Some(instance) = it.next() {
        if instance.evaluate() == Some(num_rational(target)) {
            first = Some(instance.to_string());
            break;
        }
    }
    let found = TraversalableNums::new(vec![4, 2, 1]).find(target).unwrap();
    assert_eq!(Some(found.to_string()), first);
    assert_eq!(found.to_string(), "(4 - (2 * 1))");
}

#[test]
fn a_target_is_reached_by_an_equal_value() {
    let found = TraversalableNums::new(vec![6, 4]).find(0);
    assert!(found.is_none());
    let found = TraversalableNums::new(vec![2, 4, 8]).find(1).unwrap();
    let value = found.evaluate().unwrap();
    assert_eq!(value, num_rational(1));
    assert_eq!(
        value.numerator as i64,
        value.denominator as i64
    );
}

#[test]
fn candidates_are_built_as_they_are_asked_for() {
    let values: Vec<i32> = (1..=12).collect();
    let found = TraversalableNums::new(values.clone()).find(78).unwrap();
    assert_eq!(found.evaluate(), Some(num_rational(78)));
    assert_eq!(
        found.to_string(),
        "(1 + (2 + (3 + (4 + (5 + (6 + (7 + (8 + (9 + (10 + (11 + 12)))))))))))"
    );
    let mut it = TraversalableNums::new(values).into_iter();
    let first = it.next().unwrap();
    assert_eq!(first.to_string(), found.to_string());
    let second = it.next().unwrap();
    assert_eq!(
        second.to_string(),
        "(1 + (2 + (3 + (4 + (5 + (6 + (7 + (8 + (9 + ((10 + 11) + 12))))))))))"
    );
}
