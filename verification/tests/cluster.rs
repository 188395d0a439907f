use grappolo::cluster::{Clusterer, ClusteringResult};
use grappolo::index_pair::cartesian::CartesianIndexPairIterator;
use grappolo::index_pair::ngrams::NGramPairs;
use grappolo::sim_matrix::SimilarityMatrix;
use grappolo::sim_metric::{Similarity, SIMILARITY_ONE};
use grappolo::utils::string_vec;
use grappolo::Index;
use strsim::normalized_damerau_levenshtein;

type Cluster = Vec<Index>;

fn fixed(similarity: f64) -> Similarity {
    (similarity * SIMILARITY_ONE as f64).round() as Similarity
}

fn metric(t1: &String, t2: &String) -> Similarity {
    fixed(normalized_damerau_levenshtein(t1.as_str(), t2.as_str()))
}

fn is_partition(clusters: &Vec<Cluster>, size: usize) -> bool {
    let mut seen = vec![false; size];
    for cluster in clusters {
        if cluster.is_empty() {
            return false;
        }
        for index in cluster {
            if *index >= size || seen[*index] {
                return false;
            }
            seen[*index] = true;
        }
    }
    seen.iter().all(|s| *s)
}

fn scattered(size: usize) -> Vec<(Index, Index, Similarity)> {
    let mut triplets = vec![];
    let mut x: u64 = 12345;
    for i in 0..size {
        for j in (i + 1)..size {
            x = (x * 1103515245 + 12345) % (1 << 31);
            let similarity = x % 100;
            if similarity < 12 {
                triplets.push((i, j, similarity));
            }
        }
    }
    triplets
}

#[test]
fn creates_simple_clusters() {
    let names = &string_vec(vec![
        "alejandro", "alejo",
        "martha", "marta",
        "marlene", "marleny", "malrene",
        "ricardo"
    ]);

    let expected_clusters: Vec<Cluster> = vec![
        vec![0, 1, ], // "alejandro", "alejo",
        vec![2, 3, ], // "martha", "marta",
        vec![4, 5, 6, ], // "marlene", "marleny", "malrene",
        vec![7, ], // "ricardo"
    ];

    let similarity_matrix = SimilarityMatrix::new(
        names,
        fixed(0.45),
        &mut CartesianIndexPairIterator::new(names.len()),
        |t1: &String, t2: &String| fixed(normalized_damerau_levenshtein(t1.as_str(), t2.as_str())),
    ).unwrap();

    let mut clustering = Clusterer::cluster(similarity_matrix);

    clustering.clusters.sort_by(|cluster1, cluster2| cluster1[0].cmp(&cluster2[0]));

    assert_eq!(clustering.clusters, expected_clusters);
}

#[test]
fn single_element_makes_one_cluster_at_any_threshold() {
    let names = string_vec(vec!["alone"]);
    for threshold in [0.0, 0.3, 0.75, 1.0] {
        let matrix = SimilarityMatrix::new(
            &names,
            fixed(threshold),
            &mut CartesianIndexPairIterator::new(names.len()),
            metric,
        ).unwrap();
        let clustering = Clusterer::cluster(matrix);
        assert_eq!(clustering.clusters, vec![vec![0]]);
    }
}

#[test]
fn clusters_come_in_the_order_of_the_ranking() {
    let triplets = vec![(0, 1, 5), (0, 2, 4), (1, 2, 9), (0, 3, 1), (4, 3, 8), (4, 5, 8), (4, 6, 8)];
    let matrix = SimilarityMatrix::from_triplets(7, 1, &triplets).unwrap();
    let ClusteringResult { clusters, similarity_matrix } = Clusterer::cluster(matrix);
    assert_eq!(clusters, vec![vec![4, 3, 5, 6], vec![1, 2, 0]]);
    // the matrix comes back as it went in
    assert_eq!(similarity_matrix.size(), 7);
    assert_eq!(similarity_matrix.index(1).index(2), 9);
    assert_eq!(similarity_matrix.similarity_values(), &vec![1, 4, 5, 8, 9]);
}

#[test]
fn cluster_of_three_is_committed_whole() {
    // element 0 claims 1 and 2; among the three, 1 is the best connected
    let triplets = vec![(0, 1, 5), (0, 2, 4), (1, 2, 9), (0, 3, 1), (4, 3, 8), (4, 5, 8), (4, 6, 8)];
    let matrix = SimilarityMatrix::from_triplets(7, 1, &triplets).unwrap();
    let clusters = Clusterer::cluster(matrix).clusters;
    let mut three = clusters[1].clone();
    assert_eq!(three.len(), 3);
    three.sort();
    assert_eq!(three, vec![0, 1, 2]);
    assert_eq!(clusters.len(), 2);
}

#[test]
fn cluster_of_the_whole_matrix_is_committed_as_it_is() {
    // loosely bound but for 1 and 2: the first element claims them all
    let triplets = vec![(0, 1, 3), (0, 2, 3), (0, 3, 3), (1, 2, 7)];
    let matrix = SimilarityMatrix::from_triplets(4, 0, &triplets).unwrap();
    assert_eq!(Clusterer::cluster(matrix).clusters, vec![vec![0, 1, 2, 3]]);
    let triplets = vec![(0, 1, 3), (0, 2, 1), (1, 2, 7)];
    let matrix = SimilarityMatrix::from_triplets(3, 0, &triplets).unwrap();
    assert_eq!(Clusterer::cluster(matrix).clusters, vec![vec![1, 2, 0]]);
}

#[test]
fn small_clusters_are_committed_as_they_are() {
    let triplets = vec![(0, 1, 3), (2, 3, 9)];
    let matrix = SimilarityMatrix::from_triplets(5, 0, &triplets).unwrap();
    assert_eq!(Clusterer::cluster(matrix).clusters, vec![vec![2, 3], vec![0, 1], vec![4]]);
}

#[test]
fn unrelated_elements_are_clusters_of_one() {
    let matrix = SimilarityMatrix::from_triplets(4, 0, &vec![]).unwrap();
    assert_eq!(Clusterer::cluster(matrix).clusters, vec![vec![0], vec![1], vec![2], vec![3]]);
}

#[test]
fn empty_matrix_has_no_clusters() {
    let matrix = SimilarityMatrix::from_triplets(3, 0, &vec![(0, 1, 4)]).unwrap();
    let none = matrix.spin_off(&vec![], 0).unwrap();
    assert_eq!(Clusterer::cluster(none).clusters, Vec::<Cluster>::new());
}

#[test]
fn clusters_are_a_partition() {
    for size in [1usize, 2, 3, 5, 17, 40, 90] {
        for threshold in [0u64, 3, 8, 20] {
            let matrix = SimilarityMatrix::from_triplets(size, threshold, &scattered(size)).unwrap();
            let clusters = Clusterer::cluster(matrix).clusters;
            assert!(is_partition(&clusters, size));
        }
    }
}

#[test]
fn clusters_of_a_scattered_graph() {
    let matrix = SimilarityMatrix::from_triplets(40, 3, &scattered(40)).unwrap();
    assert_eq!(
        Clusterer::cluster(matrix).clusters,
        vec![
            vec![31, 33, 4, 12, 28, 39, 10, 22, 19],
            vec![8, 38, 6, 5, 7, 32, 2, 35],
            vec![24, 20, 30, 9, 26],
            vec![37, 11, 34, 25, 15],
            vec![3, 36],
            vec![0, 1, 23],
            vec![29, 21],
            vec![18, 13],
            vec![17],
            vec![27],
            vec![14],
            vec![16],
        ]
    );
}

#[test]
fn strings_without_ngrams_are_clusters_of_one() {
    let names = string_vec(vec!["alejandro", "a", "alejo", "b"]);
    let matrix = SimilarityMatrix::new(
        &names,
        fixed(0.3),
        &mut NGramPairs::new(&names, 2),
        metric,
    ).unwrap();
    let mut clusters = Clusterer::cluster(matrix).clusters;
    clusters.sort();
    assert_eq!(clusters, vec![vec![0, 2], vec![1], vec![3]]);
}
