use std::collections::HashSet;

use grappolo::index_pair::cartesian::CartesianIndexPairIterator;
use grappolo::index_pair::listed::ListedPairs;
use grappolo::index_pair::IndexPairIterator;
use grappolo::sim_matrix::{MatrixError, Row, Score, SimilarityMatrix};
use grappolo::sim_metric::{Similarity, SIMILARITY_ONE};
use grappolo::utils::string_vec;
use grappolo::{Index, Size};
use strsim::normalized_damerau_levenshtein;

type Scores = (Index, Index, f64);

fn fixed(similarity: f64) -> Similarity {
    (similarity * SIMILARITY_ONE as f64).round() as Similarity
}

fn float(similarity: Similarity) -> f64 {
    similarity as f64 / SIMILARITY_ONE as f64
}

fn metric(t1: &String, t2: &String) -> Similarity {
    fixed(normalized_damerau_levenshtein(t1.as_str(), t2.as_str()))
}

fn rows_of(matrix: &SimilarityMatrix) -> Vec<Vec<(Index, Similarity)>> {
    matrix
        .rows()
        .iter()
        .map(|row| row.scores().iter().map(|s| (s.sibling_index, s.similarity)).collect())
        .collect()
}

fn sample() -> Vec<(Index, Index, Similarity)> {
    vec![(0, 1, 5), (0, 2, 4), (1, 2, 9), (0, 3, 1), (4, 3, 8), (4, 5, 8), (4, 6, 8)]
}

fn check_scores(similarity_matrix: &SimilarityMatrix, size: Size, scores: Vec<Scores>) {
    assert_eq!(similarity_matrix.size(), size);

    for (row, column, expected_similarity) in scores {
        assert_eq!(float(similarity_matrix.index(row).index(column)), expected_similarity);
        assert_eq!(float(similarity_matrix.index(column).index(row)), expected_similarity);
    }
}

fn name_scores() -> (Vec<String>, Vec<(Index, Index, f64)>) {
    (
        string_vec(vec![
            "alejandro", "alejo",
            "martha", "marta",
            "marlene", "marleny", "malrene",
            "ricardo"
        ]),
        vec![
            (0, 1, 0.5555555555555556), // (alejandro, alejo)
            (0, 2, 0.11111111111111116), // (alejandro, martha)
            (0, 3, 0.11111111111111116), // (alejandro, marta)
            (0, 4, 0.2222222222222222), // (alejandro, marlene)
            (0, 5, 0.2222222222222222), // (alejandro, marleny)
            (0, 6, 0.2222222222222222), // (alejandro, malrene)
            (0, 7, 0.33333333333333337), // (alejandro, ricardo)
            (1, 2, 0.16666666666666663), // (alejo, martha)
            (1, 3, 0.0), // (alejo, marta)
            (1, 4, 0.4285714285714286), // (alejo, marlene)
            (1, 5, 0.4285714285714286), // (alejo, marleny)
            (1, 6, 0.4285714285714286), // (alejo, malrene)
            (1, 7, 0.1428571428571429), // (alejo, ricardo)
            (2, 3, 0.8333333333333334), // (martha, marta)
            (2, 4, 0.4285714285714286), // (martha, marlene)
            (2, 5, 0.4285714285714286), // (martha, marleny)
            (2, 6, 0.4285714285714286), // (martha, malrene)
            (2, 7, 0.1428571428571429), // (martha, ricardo)
            (3, 4, 0.4285714285714286), // (marta, marlene)
            (3, 5, 0.4285714285714286), // (marta, marleny)
            (3, 6, 0.4285714285714286), // (marta, malrene)
            (3, 7, 0.2857142857142857), // (marta, ricardo)
            (4, 5, 0.8571428571428572), // (marlene, marleny)
            (4, 6, 0.8571428571428572), // (marlene, malrene)
            (4, 7, 0.0), // (marlene, ricardo)
            (5, 6, 0.7142857142857143), // (marleny, malrene)
            (5, 7, 0.0), // (marleny, ricardo)
            (6, 7, 0.0), // (malrene, ricardo)
        ])
}

#[test]
fn matrix_holds_correct_scores() {
    let (names, scores) = name_scores();

    let similarity_matrix = SimilarityMatrix::new(
        &names,
        fixed(0.0),
        &mut CartesianIndexPairIterator::new(names.len()),
        |t1: &String, t2: &String| fixed(normalized_damerau_levenshtein(t1.as_str(), t2.as_str())),
    ).unwrap();

    check_scores(&similarity_matrix, names.len(), scores);
}

#[test]
fn matrix_creates_proper_spin_off() {
    let (names, _) = name_scores();

    let partial_min_similarity = 0.4;

    let partial_indices: Vec<Index> = vec![
        2, // 0: martha
        3, // 1: marta
        4, // 2: marlene
        5, // 3: marleny
        6, // 4: malrene
    ]
        .iter()
        .map(|index| *index)
        .collect::<Vec<Index>>();
    let size = (&partial_indices).len();

    let partial_scores: Vec<(Index, Index, f64)> = vec![
        (0, 1, 0.8333333333333334), // (martha, marta)
        (0, 2, 0.4285714285714286), // (martha, marlene)
        (0, 3, 0.4285714285714286), // (martha, marleny)
        (0, 4, 0.4285714285714286), // (martha, malrene)
        (1, 2, 0.4285714285714286), // (marta, marlene)
        (1, 3, 0.4285714285714286), // (marta, marleny)
        (1, 4, 0.4285714285714286), // (marta, malrene)
        (2, 3, 0.8571428571428572), // (marlene, marleny)
        (2, 4, 0.8571428571428572), // (marlene, malrene)
        (3, 4, 0.7142857142857143), // (marleny, malrene)
    ];

    let similarity_matrix = SimilarityMatrix::new(
        &names,
        fixed(0.0),
        &mut CartesianIndexPairIterator::new(names.len()),
        |t1: &String, t2: &String| fixed(normalized_damerau_levenshtein(t1.as_str(), t2.as_str())),
    ).unwrap();

    let similarity_matrix =
        similarity_matrix.spin_off(&partial_indices, fixed(partial_min_similarity)).unwrap();

    check_scores(&similarity_matrix, size, partial_scores)
}

#[test]
fn fixed_point_keeps_the_similarities_of_the_names() {
    let (_, scores) = name_scores();
    for (_, _, similarity) in scores {
        assert_eq!(float(fixed(similarity)), similarity);
    }
    assert_eq!(fixed(1.0), SIMILARITY_ONE);
    assert_eq!(fixed(0.0), 0);
    assert_eq!(fixed(0.5), SIMILARITY_ONE / 2);
}

#[test]
fn no_elements_are_rejected() {
    let none: Vec<(usize, usize, u64)> = vec![];
    assert_eq!(SimilarityMatrix::from_triplets(0, 1, &none).err(), Some(MatrixError::InvalidInput));
    let some = vec![(0usize, 1usize, 5u64)];
    assert_eq!(SimilarityMatrix::from_triplets(0, 1, &some).err(), Some(MatrixError::InvalidInput));
    let empty: Vec<String> = vec![];
    assert_eq!(
        SimilarityMatrix::new(&empty, 1, &mut ListedPairs::new(vec![(0, 1)]), metric).err(),
        Some(MatrixError::InvalidInput)
    );
    assert_eq!(
        SimilarityMatrix::new(&empty, 1, &mut ListedPairs::new(vec![]), metric).err(),
        Some(MatrixError::InvalidInput)
    );
}

#[test]
fn pairs_out_of_range_are_rejected() {
    assert_eq!(
        SimilarityMatrix::from_triplets(3, 1, &vec![(0, 1, 5), (1, 3, 5)]).err(),
        Some(MatrixError::IndexOutOfRange)
    );
    assert_eq!(
        SimilarityMatrix::from_triplets(3, 1, &vec![(3, 0, 5)]).err(),
        Some(MatrixError::IndexOutOfRange)
    );
    // a pair out of range is named before a pair of one element or a pair given twice
    assert_eq!(
        SimilarityMatrix::from_triplets(3, 1, &vec![(1, 1, 5), (0, 1, 5), (0, 1, 5), (7, 7, 5)]).err(),
        Some(MatrixError::IndexOutOfRange)
    );
    let names = string_vec(vec!["a", "b"]);
    assert_eq!(
        SimilarityMatrix::new(&names, 1, &mut ListedPairs::new(vec![(0, 1), (0, 2)]), metric).err(),
        Some(MatrixError::IndexOutOfRange)
    );
}

#[test]
fn pairs_of_one_element_are_rejected() {
    assert_eq!(
        SimilarityMatrix::from_triplets(3, 1, &vec![(0, 1, 5), (2, 2, 5)]).err(),
        Some(MatrixError::SelfPair)
    );
    // also where the similarity would not be retained
    assert_eq!(
        SimilarityMatrix::from_triplets(3, 1, &vec![(2, 2, 0)]).err(),
        Some(MatrixError::SelfPair)
    );
    // and before a pair that is given twice
    assert_eq!(
        SimilarityMatrix::from_triplets(3, 1, &vec![(0, 1, 5), (0, 1, 5), (2, 2, 5)]).err(),
        Some(MatrixError::SelfPair)
    );
    let names = string_vec(vec!["a", "b"]);
    assert_eq!(
        SimilarityMatrix::new(&names, 1, &mut ListedPairs::new(vec![(0, 1), (1, 1)]), metric).err(),
        Some(MatrixError::SelfPair)
    );
}

#[test]
fn pairs_given_twice_are_rejected() {
    assert_eq!(
        SimilarityMatrix::from_triplets(3, 1, &vec![(0, 1, 5), (1, 2, 5), (0, 1, 5)]).err(),
        Some(MatrixError::Duplicate)
    );
    // in either order, and whatever the similarities
    assert_eq!(
        SimilarityMatrix::from_triplets(3, 1, &vec![(0, 1, 5), (1, 2, 5), (1, 0, 7)]).err(),
        Some(MatrixError::Duplicate)
    );
    assert_eq!(
        SimilarityMatrix::from_triplets(3, 9, &vec![(0, 2, 0), (2, 0, 0)]).err(),
        Some(MatrixError::Duplicate)
    );
    let names = string_vec(vec!["a", "b", "c"]);
    assert_eq!(
        SimilarityMatrix::new(&names, 1, &mut ListedPairs::new(vec![(0, 1), (1, 2), (1, 0)]), metric).err(),
        Some(MatrixError::Duplicate)
    );
}

#[test]
fn rows_hold_the_retained_scores_most_similar_first() {
    let matrix = SimilarityMatrix::from_triplets(7, 1, &sample()).unwrap();
    assert_eq!(matrix.size(), 7);
    assert_eq!(matrix.min_similarity(), 1);
    assert_eq!(
        rows_of(&matrix),
        vec![
            vec![(1, 5), (2, 4), (3, 1)],
            vec![(2, 9), (0, 5)],
            vec![(1, 9), (0, 4)],
            vec![(4, 8), (0, 1)],
            vec![(3, 8), (5, 8), (6, 8)],
            vec![(4, 8)],
            vec![(4, 8)],
        ]
    );
    assert_eq!(matrix.similarity_values(), &vec![1, 4, 5, 8, 9]);
}

#[test]
fn scores_below_the_minimum_and_zero_scores_are_dropped() {
    let matrix = SimilarityMatrix::from_triplets(7, 5, &sample()).unwrap();
    assert_eq!(
        rows_of(&matrix),
        vec![
            vec![(1, 5)],
            vec![(2, 9), (0, 5)],
            vec![(1, 9)],
            vec![(4, 8)],
            vec![(3, 8), (5, 8), (6, 8)],
            vec![(4, 8)],
            vec![(4, 8)],
        ]
    );
    assert_eq!(matrix.similarity_values(), &vec![5, 8, 9]);
    assert_eq!(matrix.min_similarity(), 5);

    let matrix = SimilarityMatrix::from_triplets(3, 0, &vec![(0, 1, 0), (1, 2, 1)]).unwrap();
    assert_eq!(rows_of(&matrix), vec![vec![], vec![(2, 1)], vec![(1, 1)]]);
    assert_eq!(matrix.index(0).index(1), 0);
    assert_eq!(matrix.similarity_values(), &vec![1]);
}

#[test]
fn matrix_without_pairs_has_empty_rows() {
    let matrix = SimilarityMatrix::from_triplets(3, 0, &vec![]).unwrap();
    assert_eq!(rows_of(&matrix), vec![vec![], vec![], vec![]]);
    assert_eq!(matrix.similarity_values(), &Vec::<Similarity>::new());
    assert_eq!(matrix.rank_by_weight(), vec![0, 1, 2]);
}

#[test]
fn similarity_values_are_distinct_and_rise() {
    let triplets = vec![(0, 1, 9), (0, 2, 3), (1, 2, 9), (2, 3, 7), (0, 3, 3), (1, 3, 1)];
    let matrix = SimilarityMatrix::from_triplets(4, 0, &triplets).unwrap();
    assert_eq!(matrix.similarity_values(), &vec![1, 3, 7, 9]);
    let that = matrix.spin_off(&vec![0, 1, 2], 0).unwrap();
    assert_eq!(that.similarity_values(), &vec![3, 9]);
}

#[test]
fn lookup_finds_the_sibling_or_gives_zero() {
    let matrix = SimilarityMatrix::from_triplets(7, 1, &sample()).unwrap();
    assert_eq!(matrix.index(0).index(1), 5);
    assert_eq!(matrix.index(1).index(0), 5);
    assert_eq!(matrix.index(4).index(6), 8);
    assert_eq!(matrix.index(0).index(4), 0);
    assert_eq!(matrix.index(0).index(0), 0);
    assert_eq!(matrix.index(5).index(600), 0);
}

#[test]
fn rank_by_weight_orders_by_siblings_then_sum_then_index() {
    let matrix = SimilarityMatrix::from_triplets(7, 1, &sample()).unwrap();
    // siblings and sums: 0: 3, 10; 1: 2, 14; 2: 2, 13; 3: 2, 9; 4: 3, 24; 5: 1, 8; 6: 1, 8
    assert_eq!(matrix.rank_by_weight(), vec![4, 0, 1, 2, 3, 5, 6]);
}

#[test]
fn rank_by_weight_sums_without_overflow() {
    let big = Similarity::MAX;
    let matrix =
        SimilarityMatrix::from_triplets(4, 0, &vec![(0, 1, big), (0, 2, big), (1, 2, 1), (3, 1, big)])
            .unwrap();
    // 0: 2 siblings, 2 * big; 1: 3 siblings; 2: 2 siblings, big + 1; 3: 1 sibling
    assert_eq!(matrix.rank_by_weight(), vec![1, 0, 2, 3]);
}

#[test]
fn spin_off_renames_and_filters() {
    let matrix = SimilarityMatrix::from_triplets(7, 1, &sample()).unwrap();
    let part = matrix.spin_off(&vec![4, 3, 0], 0).unwrap();
    assert_eq!(rows_of(&part), vec![vec![(1, 8)], vec![(0, 8), (2, 1)], vec![(1, 1)]]);
    assert_eq!(part.min_similarity(), 0);
    assert_eq!(part.similarity_values(), &vec![1, 8]);
    let part = matrix.spin_off(&vec![2, 1, 0], 5).unwrap();
    assert_eq!(rows_of(&part), vec![vec![(1, 9)], vec![(0, 9), (2, 5)], vec![(1, 5)]]);
    assert_eq!(part.similarity_values(), &vec![5, 9]);
    assert_eq!(part.min_similarity(), 5);
    let none = matrix.spin_off(&vec![], 5).unwrap();
    assert_eq!(none.size(), 0);
    // the matrix itself stays as it was
    assert_eq!(matrix.size(), 7);
    assert_eq!(matrix.index(0).index(3), 1);
}

#[test]
fn spin_off_rejects_indices_out_of_range_and_indices_given_twice() {
    let matrix = SimilarityMatrix::from_triplets(7, 1, &sample()).unwrap();
    assert_eq!(matrix.spin_off(&vec![0, 7], 0).err(), Some(MatrixError::IndexOutOfRange));
    assert_eq!(matrix.spin_off(&vec![0, 1, 0], 0).err(), Some(MatrixError::Duplicate));
    assert_eq!(matrix.spin_off(&vec![1, 1, 9], 0).err(), Some(MatrixError::IndexOutOfRange));
}

#[test]
fn row_new_puts_the_scores_in_order() {
    let row = Row::new(vec![
        Score { sibling_index: 4, similarity: 2 },
        Score { sibling_index: 3, similarity: 7 },
        Score { sibling_index: 1, similarity: 7 },
        Score { sibling_index: 9, similarity: 1 },
        Score { sibling_index: 0, similarity: 9 },
    ]);
    let scores: Vec<(Index, Similarity)> =
        row.scores().iter().map(|s| (s.sibling_index, s.similarity)).collect();
    assert_eq!(scores, vec![(0, 9), (1, 7), (3, 7), (4, 2), (9, 1)]);
    assert_eq!(row.index(3), 7);
    assert_eq!(row.index(2), 0);
    assert_eq!(Row::new(vec![]).scores().len(), 0);
}

#[test]
fn cut_at_keeps_the_siblings_that_reach_the_similarity() {
    let matrix = SimilarityMatrix::from_triplets(7, 1, &sample()).unwrap();
    assert_eq!(matrix.index(0).cut_at(4), vec![1, 2]);
    assert_eq!(matrix.index(0).cut_at(0), vec![1, 2, 3]);
    assert_eq!(matrix.index(0).cut_at(6), Vec::<Index>::new());
    assert_eq!(matrix.index(4).cut_at(8), vec![3, 5, 6]);
}

#[test]
fn ranked_siblings_leave_out_the_excluded() {
    let matrix = SimilarityMatrix::from_triplets(7, 1, &sample()).unwrap();
    let mut excluded: HashSet<Index> = HashSet::new();
    assert_eq!(matrix.index(0).ranked_siblings(&excluded), vec![1, 2, 3]);
    excluded.insert(2);
    excluded.insert(6);
    assert_eq!(matrix.index(0).ranked_siblings(&excluded), vec![1, 3]);
    assert_eq!(matrix.index(4).ranked_siblings(&excluded), vec![3, 5]);
    excluded.insert(1);
    excluded.insert(3);
    assert_eq!(matrix.index(0).ranked_siblings(&excluded), Vec::<Index>::new());
}

#[test]
fn listed_pairs_come_in_the_order_of_the_list() {
    let mut pairs = ListedPairs::new(vec![(3, 1), (0, 2), (3, 1)]);
    assert_eq!(pairs.next(), Some((3, 1)));
    assert_eq!(pairs.next(), Some((0, 2)));
    assert_eq!(pairs.next(), Some((3, 1)));
    assert_eq!(pairs.next(), None);
    assert_eq!(pairs.next(), None);
    assert_eq!(ListedPairs::new(vec![]).next(), None);
}

#[test]
fn new_takes_all_the_pairs_but_where_there_are_no_elements() {
    let names = string_vec(vec!["abc", "abd", "xyz"]);
    let mut pairs = CartesianIndexPairIterator::new(3);
    let matrix = SimilarityMatrix::new(&names, fixed(0.5), &mut pairs, metric).unwrap();
    assert_eq!(pairs.next(), None);
    assert_eq!(matrix.index(0).index(1), fixed(1.0 - 1.0 / 3.0));
    assert_eq!(matrix.index(0).index(2), 0);
    let mut pairs = ListedPairs::new(vec![(0, 1), (0, 9)]);
    assert_eq!(
        SimilarityMatrix::new(&names, 1, &mut pairs, metric).err(),
        Some(MatrixError::IndexOutOfRange)
    );
    assert_eq!(pairs.next(), None);
    let empty: Vec<String> = vec![];
    let mut pairs = CartesianIndexPairIterator::new(3);
    assert_eq!(
        SimilarityMatrix::new(&empty, 1, &mut pairs, metric).err(),
        Some(MatrixError::InvalidInput)
    );
    assert_eq!(pairs.next(), Some((0, 1)));
}

#[test]
fn size_one_input_makes_a_matrix_of_one_empty_row() {
    let names = string_vec(vec!["alone"]);
    let matrix = SimilarityMatrix::new(
        &names,
        fixed(0.3),
        &mut CartesianIndexPairIterator::new(names.len()),
        metric,
    ).unwrap();
    assert_eq!(matrix.size(), 1);
    assert_eq!(rows_of(&matrix), vec![vec![]]);
}
