use arith_search::assignment::OpsIter;
use arith_search::operator::Operator;
use arith_search::permutation::{NumberReplacer, NumberReplacerIter};

#[test]
fn sample_replace() {
    let mut replacer = NumberReplacerIter::new(vec![1, 2, 3]);
    assert_eq!(replacer.next(), Some(NumberReplacer::new(vec![1, 2, 3])));
    assert_eq!(replacer.next(), Some(NumberReplacer::new(vec![1, 3, 2])));
    assert_eq!(replacer.next(), Some(NumberReplacer::new(vec![2, 1, 3])));
    assert_eq!(replacer.next(), Some(NumberReplacer::new(vec![2, 3, 1])));
    assert_eq!(replacer.next(), Some(NumberReplacer::new(vec![3, 1, 2])));
    assert_eq!(replacer.next(), Some(NumberReplacer::new(vec![3, 2, 1])));
    assert_eq!(replacer.next(), None);
}

#[test]
fn listup() {
    let mut ops_iter = OpsIter::new(2);
    assert_eq!(ops_iter.next(), Some(vec![Operator::Add, Operator::Add]));
    assert_eq!(ops_iter.next(), Some(vec![Operator::Add, Operator::Sub]));
    assert_eq!(ops_iter.next(), Some(vec![Operator::Add, Operator::Mul]));
    assert_eq!(ops_iter.next(), Some(vec![Operator::Add, Operator::Div]));
    assert_eq!(ops_iter.next(), Some(vec![Operator::Sub, Operator::Add]));
    assert_eq!(ops_iter.next(), Some(vec![Operator::Sub, Operator::Sub]));
    assert_eq!(ops_iter.next(), Some(vec![Operator::Sub, Operator::Mul]));
    assert_eq!(ops_iter.next(), Some(vec![Operator::Sub, Operator::Div]));
    assert_eq!(ops_iter.next(), Some(vec![Operator::Mul, Operator::Add]));
    assert_eq!(ops_iter.next(), Some(vec![Operator::Mul, Operator::Sub]));
    assert_eq!(ops_iter.next(), Some(vec![Operator::Mul, Operator::Mul]));
    assert_eq!(ops_iter.next(), Some(vec![Operator::Mul, Operator::Div]));
    assert_eq!(ops_iter.next(), Some(vec![Operator::Div, Operator::Add]));
    assert_eq!(ops_iter.next(), Some(vec![Operator::Div, Operator::Sub]));
    assert_eq!(ops_iter.next(), Some(vec![Operator::Div, Operator::Mul]));
    assert_eq!(ops_iter.next(), Some(vec![Operator::Div, Operator::Div]));
    assert_eq!(ops_iter.next(), None);
}

fn all_orderings(tokens: Vec<u32>) -> Vec<Vec<u32>> {
    let mut it = NumberReplacerIter::new(tokens);
    let mut all = Vec::new();
    while let Some(order) = it.next() {
        all.push(order.numbers);
    }
    assert_eq!(it.next(), None);
    all
}

fn all_assignments(slots: usize) -> Vec<Vec<Operator>> {
    let mut it = OpsIter::new(slots);
    let mut all = Vec::new();
    while let Some(ops) = it.next() {
        all.push(ops);
    }
    assert_eq!(it.next(), None);
    all
}

#[test]
fn orderings_follow_the_order_of_the_tokens() {
    assert_eq!(
        all_orderings(vec![3, 1, 2]),
        vec![
            vec![3, 1, 2],
            vec![3, 2, 1],
            vec![1, 3, 2],
            vec![1, 2, 3],
            vec![2, 3, 1],
            vec![2, 1, 3],
        ]
    );
}

#[test]
fn no_tokens_have_one_ordering() {
    assert_eq!(all_orderings(vec![]), vec![Vec::<u32>::new()]);
    assert_eq!(all_orderings(vec![9]), vec![vec![9]]);
}

#[test]
fn orderings_are_all_the_rearrangements() {
    let factorial = [1usize, 1, 2, 6, 24, 120, 720];
    for n in 0..=6u32 {
        let tokens: Vec<u32> = (0..n).map(|i| 10 + 3 * i).collect();
        let all = all_orderings(tokens.clone());
        assert_eq!(all.len(), factorial[n as usize]);
        for order in &all {
            let mut sorted = order.clone();
            sorted.sort();
            assert_eq!(sorted, tokens);
        }
        let mut distinct = all.clone();
        distinct.sort();
        distinct.dedup();
        assert_eq!(distinct.len(), all.len());
        assert_eq!(distinct, all);
    }
}

#[test]
fn equal_tokens_are_ordered_by_position() {
    assert_eq!(all_orderings(vec![2, 2]), vec![vec![2, 2], vec![2, 2]]);
}

#[test]
fn a_fresh_generator_repeats_the_orderings() {
    assert_eq!(all_orderings(vec![4, 5, 6, 7]), all_orderings(vec![4, 5, 6, 7]));
}

#[test]
fn no_slots_have_one_assignment() {
    assert_eq!(all_assignments(0), vec![Vec::<Operator>::new()]);
}

#[test]
fn assignments_are_the_whole_power() {
    let mut power = 1;
    for slots in 0..=5 {
        let all = all_assignments(slots);
        assert_eq!(all.len(), power);
        for (place, ops) in all.iter().enumerate() {
            assert_eq!(ops.len(), slots);
            let mut digits = place;
            for slot in (0..slots).rev() {
                assert_eq!(ops[slot], Operator::list()[digits % 4]);
                digits /= 4;
            }
        }
        for slot in 0..slots {
            for op in Operator::list() {
                assert!(all.iter().any(|ops| ops[slot] == op));
            }
        }
        power *= 4;
    }
}

#[test]
fn operators_in_canonical_order() {
    assert_eq!(
        Operator::list(),
        vec![Operator::Add, Operator::Sub, Operator::Mul, Operator::Div]
    );
    let symbols: Vec<char> = Operator::list().iter().map(|op| op.symbol()).collect();
    assert_eq!(symbols, vec!['+', '-', '*', '/']);
    let texts: Vec<String> = Operator::list().iter().map(|op| op.to_string()).collect();
    assert_eq!(texts, vec!["+", "-", "*", "/"]);
}
