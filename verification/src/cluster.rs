//! The clustering algorithm: a sweep over the elements of a similarity
//! matrix from the best connected down, in which each element not yet
//! claimed claims its free siblings, and a cluster too large to stand is
//! clustered again on its own.

use std::collections::HashSet;
use vstd::prelude::*;

use crate::sim_matrix::model::{
    lemma_ranking_covers, outside, projected, ranking, siblings, well_formed, Graph,
};
use crate::sequences::lemma_push_to_set;
use partition::{below, lemma_claimed, lemma_clusters_partition, partitions};
use crate::sim_matrix::SimilarityMatrix;
use crate::{Index, Size};

/// That the clusters of a graph part its elements.
pub mod partition;

/// When a claimed cluster is committed as it is.
pub mod boundary;

verus! {

broadcast use vstd::std_specs::hash::group_hash_axioms;

/// A cluster: the indices of elements found together.
pub type Cluster = Vec<Index>;

/// The clusters of vectors as sequences.
pub open spec fn clusters_view(clusters: Seq<Cluster>) -> Seq<Seq<Index>> {
    Seq::new(clusters.len(), |c: int| clusters[c]@)
}

/// The state of a sweep: the elements claimed so far, and the clusters
/// committed.
pub struct Sweep {
    pub visited: Set<Index>,
    pub clusters: Seq<Seq<Index>>,
}

/// The cluster that the element `seed` claims: itself, and then its siblings
/// that no cluster has claimed yet, the most similar first.
pub open spec fn claimed(g: Graph, seed: Index, visited: Set<Index>) -> Seq<Index> {
    seq![seed] + siblings(g[seed as int].filter(outside(visited.insert(seed))))
}

/// Clusters of a projected graph, each index replaced by the element of
/// `cluster` that it stands for.
pub open spec fn remapped(inner: Seq<Seq<Index>>, cluster: Seq<Index>) -> Seq<Seq<Index>> {
    inner.map_values(|c: Seq<Index>| c.map_values(|local: Index| cluster[local as int]))
}

/// What is committed for a claimed cluster. A cluster of fewer than three
/// elements, or of all the elements of the graph, is committed as it is. Any
/// other is replaced by the clusters of the graph projected onto it.
pub open spec fn settled(g: Graph, cluster: Seq<Index>) -> Seq<Seq<Index>>
    decreases g.len(), 0nat, 0nat,
{
    if cluster.len() < 3 || cluster.len() >= g.len() {
        seq![cluster]
    } else {
        remapped(clusters_of(projected(g, cluster, 0)), cluster)
    }
}

/// The state of the sweep after the first `n` elements of `order`.
pub open spec fn swept(g: Graph, order: Seq<Index>, n: nat) -> Sweep
    decreases g.len(), 1nat, n,
{
    if n == 0 {
        Sweep { visited: Set::empty(), clusters: Seq::empty() }
    } else {
        let before = swept(g, order, (n - 1) as nat);
        let seed = order[n - 1];
        if before.visited.contains(seed) {
            before
        } else {
            let cluster = claimed(g, seed, before.visited);
            Sweep {
                visited: before.visited + cluster.to_set(),
                clusters: before.clusters + settled(g, cluster),
            }
        }
    }
}

/// The clusters of a graph: what a sweep over its ranking commits.
pub open spec fn clusters_of(g: Graph) -> Seq<Seq<Index>>
    decreases g.len(), 2nat, 0nat,
{
    swept(g, ranking(g), ranking(g).len()).clusters
}

/// Result of a clustering run: the clusters, and the matrix that they were
/// made of.
pub struct ClusteringResult {
    pub clusters: Vec<Cluster>,
    pub similarity_matrix: SimilarityMatrix,
}

/// One sweep over one matrix: the clusters committed, the elements claimed,
/// and the cluster that is being formed.
pub struct Clusterer {
    clusters_so_far: Vec<Cluster>,
    visited_so_far: HashSet<Index>,
    current_cluster: Vec<Index>,
}

impl Clusterer {
    /// The clusters committed so far.
    spec fn committed(&self) -> Seq<Seq<Index>> {
        clusters_view(self.clusters_so_far@)
    }

    /// The elements claimed so far.
    spec fn visited(&self) -> Set<Index> {
        self.visited_so_far@
    }

    /// The cluster that is being formed.
    spec fn current(&self) -> Seq<Index> {
        self.current_cluster@
    }

    /// Cluster a similarity matrix.
    ///
    /// # Arguments
    ///
    /// * `similarity_matrix` - Similarity matrix to cluster.
    ///
    /// # Return
    ///
    /// The clusters of the matrix, which are a partition of its elements,
    /// and the matrix itself.
    pub fn cluster(similarity_matrix: SimilarityMatrix) -> (result: ClusteringResult)
        ensures
            clusters_view(result.clusters@) == clusters_of(similarity_matrix@),
            partitions(clusters_view(result.clusters@), similarity_matrix@.len()),
            result.similarity_matrix == similarity_matrix,
    {
        let mut clusterer = Clusterer::new();
        let clusters = clusterer.collect_clusters(&similarity_matrix);
        proof {
            use_type_invariant(&similarity_matrix);
            similarity_matrix.lemma_size_fits();
            lemma_clusters_partition(similarity_matrix@);
        }
        ClusteringResult { clusters, similarity_matrix }
    }

    /// A clusterer that has seen nothing yet.
    fn new() -> (clusterer: Clusterer)
        ensures
            clusterer.committed() == Seq::<Seq<Index>>::empty(),
            clusterer.visited() == Set::<Index>::empty(),
            clusterer.current() == Seq::<Index>::empty(),
    {
        let clusterer = Clusterer {
            clusters_so_far: Vec::new(),
            visited_so_far: HashSet::new(),
            current_cluster: Vec::new(),
        };
        assert(clusterer.committed() =~= Seq::<Seq<Index>>::empty());
        clusterer
    }

    /// Visit the elements of the matrix from the best connected down and
    /// collect the clusters that they claim. A cluster of three elements or
    /// more that is not the whole matrix is split by clustering its own part
    /// of the matrix.
    ///
    /// # Arguments
    ///
    /// * `similarity_matrix` - Reference to the similarity matrix to traverse.
    ///
    /// # Return
    ///
    /// Collected clusters.
    fn collect_clusters(&mut self, similarity_matrix: &SimilarityMatrix) -> (clusters: Vec<Cluster>)
        requires
            old(self).committed() == Seq::<Seq<Index>>::empty(),
            old(self).visited() == Set::<Index>::empty(),
        ensures
            clusters_view(clusters@) == clusters_of(similarity_matrix@),
        decreases similarity_matrix@.len(),
    {
        let ghost g = similarity_matrix@;
        let ranked_indices = similarity_matrix.rank_by_weight();
        let size = similarity_matrix.size();
        proof {
            use_type_invariant(similarity_matrix);
            lemma_ranking_covers(g);
        }
        for n in 0..ranked_indices.len()
            invariant
                g == similarity_matrix@,
                well_formed(g),
                size == g.len(),
                ranked_indices@ == ranking(g),
                forall|k: int| 0 <= k < ranked_indices@.len() ==> (#[trigger] ranked_indices@[k]) < size,
                self.committed() == swept(g, ranking(g), n as nat).clusters,
                self.visited() == swept(g, ranking(g), n as nat).visited,
        {
            let current_index = ranked_indices[n];
            let ghost before = swept(g, ranking(g), n as nat);
            if self.can_add(current_index) {
                self.new_cluster(current_index);
                let siblings = similarity_matrix.index(current_index).ranked_siblings(
                    self.to_be_excluded(),
                );
                let ghost cluster = claimed(g, current_index, before.visited);
                proof {
                    assert(siblings@.take(0) =~= Seq::<Index>::empty());
                    assert(self.current() =~= seq![current_index] + siblings@.take(0));
                    lemma_push_to_set(Seq::<Index>::empty(), current_index);
                    assert(Seq::<Index>::empty().push(current_index) =~= seq![current_index]);
                    assert(Seq::<Index>::empty().to_set() =~= Set::<Index>::empty());
                    assert(self.visited() =~= before.visited + self.current().to_set());
                }
                for k in 0..siblings.len()
                    invariant
                        self.committed() == before.clusters,
                        self.current() == seq![current_index] + siblings@.take(k as int),
                        self.visited() == before.visited + self.current().to_set(),
                        cluster == seq![current_index] + siblings@,
                {
                    let ghost formed = self.current();
                    self.add_to_cluster(siblings[k]);
                    proof {
                        assert(siblings@.take(k + 1) =~= siblings@.take(k as int).push(
                            siblings@[k as int],
                        ));
                        assert(self.current() =~= seq![current_index] + siblings@.take(k + 1));
                        assert(self.current().to_set() =~= formed.to_set().insert(
                            siblings@[k as int],
                        )) by {
                            lemma_push_to_set(formed, siblings@[k as int]);
                        }
                        assert(self.visited() =~= before.visited + self.current().to_set());
                    }
                }
                proof {
                    assert(siblings@.take(siblings@.len() as int) =~= siblings@);
                    lemma_claimed(g, current_index, before.visited);
                }
                if self.current_cluster_len() < 3 || self.current_cluster_len() == size {
                    self.commit_current_cluster();
                    assert(self.committed() =~= before.clusters + settled(g, cluster));
                } else {
                    let similarity_matrix = similarity_matrix.spin_off(&self.current_cluster, 0)
                        .unwrap();
                    let mut clusterer = Clusterer::new();
                    let inner_clusters = clusterer.collect_clusters(&similarity_matrix);
                    proof {
                        use_type_invariant(&similarity_matrix);
                        lemma_clusters_partition(similarity_matrix@);
                        let inner = clusters_of(similarity_matrix@);
                        assert forall|c: int, k: int|
                            0 <= c < inner_clusters@.len() && 0 <= k
                                < inner_clusters@[c]@.len() implies (
                        #[trigger] inner_clusters@[c]@[k]) < cluster.len() by {
                            assert(inner[c][k] == inner_clusters@[c]@[k]);
                            assert(below(cluster.len()).contains(inner[c][k]));
                        }
                    }
                    self.commit_inner_clusters(inner_clusters);
                    assert(settled(g, cluster) == remapped(
                        clusters_of(projected(g, cluster, 0)),
                        cluster,
                    ));
                    assert(self.committed() == before.clusters + settled(g, cluster));
                }
                assert(swept(g, ranking(g), (n + 1) as nat).clusters == before.clusters + settled(
                    g,
                    cluster,
                ));
                assert(swept(g, ranking(g), (n + 1) as nat).visited == before.visited
                    + cluster.to_set());
            } else {
                assert(swept(g, ranking(g), (n + 1) as nat) == before);
            }
        }
        let mut clusters: Vec<Cluster> = Vec::new();
        std::mem::swap(&mut clusters, &mut self.clusters_so_far);
        clusters
    }

    /// Whether no cluster has claimed the element yet.
    fn can_add(&self, index: Index) -> (free: bool)
        ensures
            free == !self.visited().contains(index),
    {
        !self.visited_so_far.contains(&index)
    }

    /// Starts a cluster with one element.
    fn new_cluster(&mut self, index: Index)
        ensures
            final(self).current() == seq![index],
            final(self).visited() == old(self).visited().insert(index),
            final(self).committed() == old(self).committed(),
    {
        self.current_cluster = Vec::new();
        self.add_to_cluster(index);
        assert(self.current() =~= seq![index]);
    }

    /// Adds an element to the cluster that is being formed, and marks it as
    /// claimed.
    fn add_to_cluster(&mut self, index: Index)
        ensures
            final(self).current() == old(self).current().push(index),
            final(self).visited() == old(self).visited().insert(index),
            final(self).committed() == old(self).committed(),
    {
        self.current_cluster.push(index);
        self.visited_so_far.insert(index);
    }

    /// The size of the cluster that is being formed.
    fn current_cluster_len(&self) -> (len: Size)
        ensures
            len == self.current().len(),
    {
        self.current_cluster.len()
    }

    /// Commits the cluster that is being formed, as it is.
    fn commit_current_cluster(&mut self)
        ensures
            final(self).committed() == old(self).committed().push(old(self).current()),
            final(self).current() == Seq::<Index>::empty(),
            final(self).visited() == old(self).visited(),
    {
        let mut cluster: Vec<Index> = Vec::new();
        std::mem::swap(&mut cluster, &mut self.current_cluster);
        self.clusters_so_far.push(cluster);
        assert(self.committed() =~= old(self).committed().push(old(self).current()));
    }

    /// The elements that a new cluster may not claim.
    fn to_be_excluded(&self) -> (excluded: &HashSet<Index>)
        ensures
            excluded@ == self.visited(),
    {
        &self.visited_so_far
    }

    /// Commits the clusters found within the cluster that is being formed,
    /// each index replaced by the element that it stands for.
    fn commit_inner_clusters(&mut self, sub_clusters: Vec<Cluster>)
        requires
            forall|c: int, k: int|
                0 <= c < sub_clusters@.len() && 0 <= k < sub_clusters@[c]@.len() ==> (
                #[trigger] sub_clusters@[c]@[k]) < old(self).current().len(),
        ensures
            final(self).committed() == old(self).committed() + remapped(
                clusters_view(sub_clusters@),
                old(self).current(),
            ),
            final(self).current() == old(self).current(),
            final(self).visited() == old(self).visited(),
    {
        let ghost target = remapped(clusters_view(sub_clusters@), self.current());
        for c in 0..sub_clusters.len()
            invariant
                forall|d: int, k: int|
                    0 <= d < sub_clusters@.len() && 0 <= k < sub_clusters@[d]@.len() ==> (
                    #[trigger] sub_clusters@[d]@[k]) < self.current().len(),
                self.current() == old(self).current(),
                self.visited() == old(self).visited(),
                target == remapped(clusters_view(sub_clusters@), self.current()),
                self.committed() == old(self).committed() + target.take(c as int),
        {
            let sub_cluster = &sub_clusters[c];
            let mut cluster: Vec<Index> = Vec::new();
            for k in 0..sub_cluster.len()
                invariant
                    0 <= c < sub_clusters@.len(),
                    sub_cluster@ == sub_clusters@[c as int]@,
                    forall|l: int|
                        0 <= l < sub_cluster@.len() ==> (#[trigger] sub_cluster@[l])
                            < self.current().len(),
                    cluster@ == sub_cluster@.take(k as int).map_values(
                        |local: Index| self.current()[local as int],
                    ),
            {
                cluster.push(self.current_cluster[sub_cluster[k]]);
                assert(cluster@ =~= sub_cluster@.take(k + 1).map_values(
                    |local: Index| self.current()[local as int],
                ));
            }
            let ghost committed = self.committed();
            self.clusters_so_far.push(cluster);
            proof {
                assert(sub_cluster@.take(sub_cluster@.len() as int) =~= sub_cluster@);
                assert(target[c as int] == cluster@);
                assert(self.committed() =~= committed.push(cluster@));
                assert(self.committed() =~= old(self).committed() + target.take(c + 1));
            }
        }
        assert(target.take(sub_clusters@.len() as int) =~= target);
    }
}

} // verus!
