use grappolo::index_pair::cartesian::CartesianIndexPairIterator;
use grappolo::index_pair::{IndexPair, IndexPairIterator};

#[test]
fn new_cartesian_index_pairator_sets_size() {
    assert_eq!(42, CartesianIndexPairIterator::new(42).size());
}

#[test]
fn new_cartesian_index_pairator_sets_row_to_zero() {
    assert_eq!(CartesianIndexPairIterator::new(42).row(), 0);
}

#[test]
fn new_cartesian_index_pairator_sets_column_to_zero() {
    assert_eq!(CartesianIndexPairIterator::new(42).row(), 0);
    assert_eq!(CartesianIndexPairIterator::new(42).column(), 0);
}

#[test]
fn cartesian_index_pairator_yields_empty_set_for_singleton() {
    assert_eq!(CartesianIndexPairIterator::new(1).next(), None);
}

#[test]
fn cartesian_index_pairator_yields_correct_pairs() {
    let expected_pairs: Vec<IndexPair> = vec![
        (0, 1),
        (0, 2),
        (1, 2),
    ];
    let expected_pair_count = &expected_pairs.len();

    let actual_pairs = CartesianIndexPairIterator::new(3).collect();
    let actual_pair_count = &actual_pairs.len();

    assert!(
        expected_pair_count == actual_pair_count,
        "Cartesian pair count mismatch. Expected {}, got {}",
        expected_pair_count, actual_pair_count
    );

    let same_values =
        &expected_pairs
            .iter()
            .zip(&actual_pairs)
            .all(|((expected_1, expected_2), (actual_1, actual_2))|
                expected_1 == actual_1 && expected_2 == actual_2
            );

    assert!(
        same_values,
        "Cartesian pair result mismatch. Expected {:?}, got {:?}",
        expected_pairs, actual_pairs
    );
}

#[test]
fn cartesian_pairs_come_one_by_one_and_then_no_more() {
    let mut pairs = CartesianIndexPairIterator::new(4);
    let mut seen: Vec<IndexPair> = vec![];
    while let Some(pair) = pairs.next() {
        assert_eq!((pairs.row(), pairs.column()), pair);
        seen.push(pair);
    }
    assert_eq!(seen, vec![(0, 1), (0, 2), (0, 3), (1, 2), (1, 3), (2, 3)]);
    assert_eq!(pairs.next(), None);
    assert_eq!(pairs.next(), None);
    assert_eq!(pairs.size(), 4);
}

#[test]
fn cartesian_pairs_of_two_elements() {
    assert_eq!(CartesianIndexPairIterator::new(2).collect(), vec![(0, 1)]);
}

#[test]
fn cartesian_collect_gives_what_is_left() {
    let mut pairs = CartesianIndexPairIterator::new(4);
    assert_eq!(pairs.next(), Some((0, 1)));
    assert_eq!(pairs.next(), Some((0, 2)));
    assert_eq!(pairs.collect(), vec![(0, 3), (1, 2), (1, 3), (2, 3)]);
}

#[test]
fn cartesian_pairs_are_as_many_as_the_formula_says() {
    for size in 1..30usize {
        let pairs = CartesianIndexPairIterator::new(size).collect();
        assert_eq!(pairs.len(), size * (size - 1) / 2);
        for (i, j) in pairs {
            assert!(i < j && j < size);
        }
    }
}
