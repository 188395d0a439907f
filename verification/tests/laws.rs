use grappolo::cluster::Clusterer;
use grappolo::index_pair::cartesian::CartesianIndexPairIterator;
use grappolo::index_pair::listed::ListedPairs;
use grappolo::sim_matrix::SimilarityMatrix;
use grappolo::sim_metric::{Similarity, SIMILARITY_ONE};
use grappolo::utils::string_vec;
use grappolo::Index;
use strsim::normalized_damerau_levenshtein;

fn fixed(similarity: f64) -> Similarity {
    (similarity * SIMILARITY_ONE as f64).round() as Similarity
}

fn metric(t1: &String, t2: &String) -> Similarity {
    fixed(normalized_damerau_levenshtein(t1.as_str(), t2.as_str()))
}

fn names() -> Vec<String> {
    string_vec(vec![
        "alejandro", "alejo", "martha", "marta", "marlene", "marleny", "malrene", "ricardo",
    ])
}

fn rows_of(matrix: &SimilarityMatrix) -> Vec<Vec<(Index, Similarity)>> {
    matrix
        .rows()
        .iter()
        .map(|row| row.scores().iter().map(|s| (s.sibling_index, s.similarity)).collect())
        .collect()
}

fn scattered(size: usize) -> Vec<(Index, Index, Similarity)> {
    let mut triplets = vec![];
    let mut x: u64 = 977;
    for i in 0..size {
        for j in (i + 1)..size {
            x = (x * 1103515245 + 12345) % (1 << 31);
            let similarity = x % 50;
            if similarity < 15 {
                triplets.push((i, j, similarity));
            }
        }
    }
    triplets
}

#[test]
fn matrix_is_symmetric() {
    let names = names();
    let matrix = SimilarityMatrix::new(
        &names,
        fixed(0.2),
        &mut CartesianIndexPairIterator::new(names.len()),
        metric,
    ).unwrap();
    for i in 0..names.len() {
        for j in 0..names.len() {
            assert_eq!(matrix.index(i).index(j), matrix.index(j).index(i));
        }
    }
    // no edge is recorded between alejo and marta, nor from an element to itself
    assert_eq!(matrix.index(1).index(3), 0);
    assert_eq!(matrix.index(3).index(1), 0);
    assert_eq!(matrix.index(2).index(2), 0);
    let matrix = SimilarityMatrix::from_triplets(30, 4, &scattered(30)).unwrap();
    for i in 0..30 {
        for j in 0..30 {
            assert_eq!(matrix.index(i).index(j), matrix.index(j).index(i));
        }
    }
}

#[test]
fn spin_off_onto_all_indices_keeps_the_edges_that_reach_the_floor() {
    let triplets = scattered(30);
    let master = SimilarityMatrix::from_triplets(30, 0, &triplets).unwrap();
    let all: Vec<Index> = (0..30).collect();
    for floor in [0u64, 1, 5, 9, 14, 15, 40] {
        let slice = master.spin_off(&all, floor).unwrap();
        let expected: Vec<Vec<(Index, Similarity)>> = rows_of(&master)
            .into_iter()
            .map(|row| row.into_iter().filter(|(_, s)| *s >= floor).collect())
            .collect();
        assert_eq!(rows_of(&slice), expected);
        // and is the matrix that the same pairs make with that minimum
        let direct = SimilarityMatrix::from_triplets(30, floor, &triplets).unwrap();
        assert_eq!(rows_of(&slice), rows_of(&direct));
        assert_eq!(slice.similarity_values(), direct.similarity_values());
    }
    assert_eq!(rows_of(&master.spin_off(&all, 0).unwrap()), rows_of(&master));
}

#[test]
fn order_of_pairs_is_immaterial() {
    let names = names();
    let pairs = CartesianIndexPairIterator::new(names.len()).collect();
    let mut reversed = pairs.clone();
    reversed.reverse();
    let mut shuffled: Vec<(Index, Index)> = vec![];
    for k in 0..pairs.len() {
        shuffled.push(pairs[(k * 5) % pairs.len()]);
    }
    let mut flipped: Vec<(Index, Index)> = pairs.iter().map(|(i, j)| (*j, *i)).collect();
    flipped.rotate_left(11);
    for threshold in [0.0, 0.3, 0.45, 0.8] {
        let matrix = SimilarityMatrix::new(
            &names,
            fixed(threshold),
            &mut ListedPairs::new(pairs.clone()),
            metric,
        ).unwrap();
        let rows = rows_of(&matrix);
        let clusters = Clusterer::cluster(matrix).clusters;
        for other in [&reversed, &shuffled, &flipped] {
            let matrix = SimilarityMatrix::new(
                &names,
                fixed(threshold),
                &mut ListedPairs::new(other.clone()),
                metric,
            ).unwrap();
            assert_eq!(rows_of(&matrix), rows);
            assert_eq!(Clusterer::cluster(matrix).clusters, clusters);
        }
    }
}

#[test]
fn higher_minimum_adds_no_edge() {
    let triplets = scattered(30);
    let thresholds = [0u64, 2, 5, 9, 14, 30];
    for low in 0..thresholds.len() {
        for high in low..thresholds.len() {
            let lower = SimilarityMatrix::from_triplets(30, thresholds[low], &triplets).unwrap();
            let higher = SimilarityMatrix::from_triplets(30, thresholds[high], &triplets).unwrap();
            for i in 0..30 {
                for score in higher.index(i).scores() {
                    assert_eq!(lower.index(i).index(score.sibling_index), score.similarity);
                }
            }
            let part: Vec<Index> = vec![7, 3, 21, 0, 14, 29, 5];
            let lower_part = lower.spin_off(&part, thresholds[low]).unwrap();
            let higher_part = lower.spin_off(&part, thresholds[high]).unwrap();
            for p in 0..part.len() {
                for score in higher_part.index(p).scores() {
                    assert_eq!(lower_part.index(p).index(score.sibling_index), score.similarity);
                }
            }
        }
    }
}

#[test]
fn rows_never_rise_and_reach_the_minimum() {
    let matrix = SimilarityMatrix::from_triplets(30, 4, &scattered(30)).unwrap();
    for row in matrix.rows() {
        let scores = row.scores();
        for k in 0..scores.len() {
            assert!(scores[k].similarity >= 4);
            if k > 0 {
                assert!(scores[k - 1].similarity >= scores[k].similarity);
            }
        }
    }
    let values = matrix.similarity_values();
    for k in 1..values.len() {
        assert!(values[k - 1] < values[k]);
    }
}
