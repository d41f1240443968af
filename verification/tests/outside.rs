use arith_search::assignment::OpsIter;
use arith_search::operator::Operator;
use arith_search::permutation::NumberReplacerIter;
use itertools::Itertools;

#[test]
fn itertools_lists_orderings_as_the_generator_does() {
    for n in 0..=8u32 {
        let tokens: Vec<u32> = (0..n).map(|i| 100 - 7 * i).collect();
        let mut it = NumberReplacerIter::new(tokens.clone());
        for listed in tokens.iter().copied().permutations(tokens.len()) {
            assert_eq!(it.next().map(|order| order.numbers), Some(listed));
        }
        assert_eq!(it.next(), None);
    }
}

#[test]
fn itertools_lists_equal_values_by_position() {
    let tokens = vec![5u32, 5, 9, 5];
    let mut it = NumberReplacerIter::new(tokens.clone());
    let mut count = 0;
    for listed in tokens.iter().copied().permutations(tokens.len()) {
        assert_eq!(it.next().map(|order| order.numbers), Some(listed));
        count += 1;
    }
    assert_eq!(count, 24);
    assert_eq!(it.next(), None);
}

#[test]
fn itertools_lists_assignments_as_the_generator_does() {
    for slots in 1..=6usize {
        let mut it = OpsIter::new(slots);
        for listed in (0..slots)
            .map(|_| Operator::list())
            .multi_cartesian_product()
        {
            assert_eq!(it.next(), Some(listed));
        }
        assert_eq!(it.next(), None);
    }
}
