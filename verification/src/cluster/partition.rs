//! That the clusters of a graph part its elements.

use vstd::prelude::*;

use super::{claimed, clusters_of, remapped, settled, swept};
use crate::sim_matrix::model::{
    lemma_filter_distinct, lemma_ranking_covers, lemma_selection_fits, outside, projected,
    ranking, selects, well_formed, Graph,
};
use crate::sim_matrix::project::lemma_projected_well_formed;
use crate::Index;

verus! {

/// Whether the clusters part the set `members`: no cluster is empty, every
/// index in a cluster is a member, every member is in a cluster, and no
/// index stands at two places.
pub open spec fn parts(clusters: Seq<Seq<Index>>, members: Set<Index>) -> bool {
    &&& forall|c: int| 0 <= c < clusters.len() ==> (#[trigger] clusters[c]).len() > 0
    &&& forall|c: int, k: int|
        0 <= c < clusters.len() && 0 <= k < clusters[c].len() ==> members.contains(
            #[trigger] clusters[c][k],
        )
    &&& forall|x: Index|
        members.contains(x) ==> exists|c: int, k: int|
            0 <= c < clusters.len() && 0 <= k < clusters[c].len() && #[trigger] clusters[c][k]
                == x
    &&& forall|c: int, k: int, d: int, l: int|
        0 <= c < clusters.len() && 0 <= k < clusters[c].len() && 0 <= d < clusters.len() && 0
            <= l < clusters[d].len() && (c != d || k != l) ==> #[trigger] clusters[c][k]
            != #[trigger] clusters[d][l]
}

/// The indices below `size`.
pub open spec fn below(size: nat) -> Set<Index> {
    Set::new(|x: Index| x < size)
}

/// Whether the clusters are a partition of the elements of a set of `size`
/// elements: together they hold every index below `size`, no two of them
/// share an index, none holds an index twice, and none is empty.
pub open spec fn partitions(clusters: Seq<Seq<Index>>, size: nat) -> bool {
    parts(clusters, below(size))
}

/// Clusters that part two sets without a common member part, put together,
/// the union of the sets.
pub proof fn lemma_parts_append(
    a: Seq<Seq<Index>>,
    members: Set<Index>,
    b: Seq<Seq<Index>>,
    others: Set<Index>,
)
    requires
        parts(a, members),
        parts(b, others),
        members.disjoint(others),
    ensures
        parts(a + b, members + others),
{
    let all = a + b;
    let union = members + others;
    assert forall|c: int, k: int| 0 <= c < all.len() && 0 <= k < all[c].len() implies union.contains(
        #[trigger] all[c][k],
    ) by {
        if c < a.len() {
            assert(members.contains(a[c][k]));
        } else {
            assert(others.contains(b[c - a.len()][k]));
        }
    }
    assert forall|x: Index| union.contains(x) implies exists|c: int, k: int|
        0 <= c < all.len() && 0 <= k < all[c].len() && #[trigger] all[c][k] == x by {
        if members.contains(x) {
            let (c, k) = choose|c: int, k: int|
                0 <= c < a.len() && 0 <= k < a[c].len() && #[trigger] a[c][k] == x;
            assert(all[c][k] == x);
        } else {
            let (c, k) = choose|c: int, k: int|
                0 <= c < b.len() && 0 <= k < b[c].len() && #[trigger] b[c][k] == x;
            assert(all[c + a.len()][k] == x);
        }
    }
    assert forall|c: int, k: int, d: int, l: int|
        0 <= c < all.len() && 0 <= k < all[c].len() && 0 <= d < all.len() && 0 <= l < all[d].len()
            && (c != d || k != l) implies #[trigger] all[c][k] != #[trigger] all[d][l] by {
        if c < a.len() && d < a.len() {
            assert(a[c][k] != a[d][l]);
        } else if c >= a.len() && d >= a.len() {
            assert(b[c - a.len()][k] != b[d - a.len()][l]);
        } else if c < a.len() {
            assert(members.contains(a[c][k]));
            assert(others.contains(b[d - a.len()][l]));
        } else {
            assert(others.contains(b[c - a.len()][k]));
            assert(members.contains(a[d][l]));
        }
    }
    assert forall|c: int| 0 <= c < all.len() implies (#[trigger] all[c]).len() > 0 by {
        if c < a.len() {
            assert(a[c].len() > 0);
        } else {
            assert(b[c - a.len()].len() > 0);
        }
    }
}

/// A cluster that holds no index twice parts, alone, the set of its indices.
pub proof fn lemma_parts_single(cluster: Seq<Index>)
    requires
        cluster.len() > 0,
        cluster.no_duplicates(),
    ensures
        parts(seq![cluster], cluster.to_set()),
{
    let single = seq![cluster];
    assert forall|x: Index| cluster.to_set().contains(x) implies exists|c: int, k: int|
        0 <= c < single.len() && 0 <= k < single[c].len() && #[trigger] single[c][k] == x by {
        let k = choose|k: int| 0 <= k < cluster.len() && cluster[k] == x;
        assert(single[0][k] == x);
    }
    assert forall|c: int, k: int|
        0 <= c < single.len() && 0 <= k < single[c].len() implies cluster.to_set().contains(
        #[trigger] single[c][k],
    ) by {
        assert(cluster.contains(cluster[k]));
    }
}

/// Clusters that part the places of a cluster part, with each place replaced
/// by the index that stands there, the indices of the cluster.
pub proof fn lemma_parts_remapped(inner: Seq<Seq<Index>>, cluster: Seq<Index>)
    requires
        parts(inner, below(cluster.len())),
        cluster.no_duplicates(),
        cluster.len() <= usize::MAX,
    ensures
        parts(remapped(inner, cluster), cluster.to_set()),
{
    let outer = remapped(inner, cluster);
    let places = below(cluster.len());
    assert forall|c: int, k: int| 0 <= c < outer.len() && 0 <= k < outer[c].len() implies {
        &&& places.contains(inner[c][k])
        &&& #[trigger] outer[c][k] == cluster[inner[c][k] as int]
        &&& cluster.to_set().contains(outer[c][k])
    } by {
        assert(places.contains(inner[c][k]));
        assert(cluster.contains(cluster[inner[c][k] as int]));
    }
    assert forall|c: int| 0 <= c < outer.len() implies (#[trigger] outer[c]).len() > 0 by {
        assert(inner[c].len() > 0);
    }
    assert forall|x: Index| cluster.to_set().contains(x) implies exists|c: int, k: int|
        0 <= c < outer.len() && 0 <= k < outer[c].len() && #[trigger] outer[c][k] == x by {
        let p = choose|p: int| 0 <= p < cluster.len() && cluster[p] == x;
        assert(places.contains(p as usize));
        let (c, k) = choose|c: int, k: int|
            0 <= c < inner.len() && 0 <= k < inner[c].len() && #[trigger] inner[c][k]
                == p as usize;
        assert(outer[c][k] == x);
    }
    assert forall|c: int, k: int, d: int, l: int|
        0 <= c < outer.len() && 0 <= k < outer[c].len() && 0 <= d < outer.len() && 0 <= l
            < outer[d].len() && (c != d || k != l) implies #[trigger] outer[c][k]
        != #[trigger] outer[d][l] by {
        assert(inner[c][k] != inner[d][l]);
        assert(places.contains(inner[c][k]));
        assert(places.contains(inner[d][l]));
    }
}

/// The cluster that a free element claims starts with the element, names
/// elements of the graph, none twice, and none that is claimed already.
pub proof fn lemma_claimed(g: Graph, seed: Index, visited: Set<Index>)
    requires
        well_formed(g),
        seed < g.len(),
        !visited.contains(seed),
    ensures
        selects(claimed(g, seed, visited), g.len()),
        claimed(g, seed, visited).len() > 0,
        claimed(g, seed, visited).len() <= g.len(),
        claimed(g, seed, visited)[0] == seed,
        claimed(g, seed, visited).to_set().disjoint(visited),
{
    let row = g[seed as int];
    let pred = outside(visited.insert(seed));
    let free = row.filter(pred);
    let cluster = claimed(g, seed, visited);
    lemma_filter_distinct(row, pred);
    assert forall|a: int| 0 <= a < free.len() implies {
        &&& (#[trigger] free[a]).sibling_index < g.len()
        &&& free[a].sibling_index != seed
        &&& !visited.contains(free[a].sibling_index)
    } by {
        row.lemma_filter_pred(pred, a);
        row.lemma_filter_contains_rev(pred, free[a]);
        let k = choose|k: int| 0 <= k < row.len() && row[k] == free[a];
        assert(g[seed as int][k].sibling_index < g.len());
    }
    assert forall|p: int| 0 <= p < cluster.len() implies (#[trigger] cluster[p]) < g.len()
        && !visited.contains(cluster[p]) by {
        if p > 0 {
            assert(cluster[p] == free[p - 1].sibling_index);
        }
    }
    assert forall|p: int, q: int|
        0 <= p < cluster.len() && 0 <= q < cluster.len() && p != q implies cluster[p]
        != cluster[q] by {
        if p > 0 {
            assert(cluster[p] == free[p - 1].sibling_index);
        }
        if q > 0 {
            assert(cluster[q] == free[q - 1].sibling_index);
        }
        if p > 0 && q > 0 {
            if p < q {
                assert(free[p - 1].sibling_index != free[q - 1].sibling_index);
            } else {
                assert(free[q - 1].sibling_index != free[p - 1].sibling_index);
            }
        }
    }
    assert forall|x: Index| cluster.to_set().contains(x) implies !visited.contains(x) by {
        let p = choose|p: int| 0 <= p < cluster.len() && cluster[p] == x;
        assert(!visited.contains(cluster[p]));
    }
    lemma_selection_fits(cluster, g.len());
}

/// What is committed for a cluster parts the indices of the cluster.
pub proof fn lemma_settled_parts(g: Graph, cluster: Seq<Index>)
    requires
        well_formed(g),
        g.len() <= usize::MAX,
        selects(cluster, g.len()),
        cluster.len() > 0,
    ensures
        parts(settled(g, cluster), cluster.to_set()),
    decreases g.len(), 0nat, 0nat,
{
    if cluster.len() < 3 || cluster.len() >= g.len() {
        lemma_parts_single(cluster);
    } else {
        let h = projected(g, cluster, 0);
        lemma_selection_fits(cluster, g.len());
        lemma_projected_well_formed(g, cluster, 0);
        lemma_clusters_partition(h);
        lemma_parts_remapped(clusters_of(h), cluster);
    }
}

/// After each step of a sweep the clusters committed part the elements
/// claimed, which are elements of the graph and among them the elements
/// that the sweep has come by.
pub proof fn lemma_swept_parts(g: Graph, order: Seq<Index>, n: nat)
    requires
        well_formed(g),
        g.len() <= usize::MAX,
        n <= order.len(),
        forall|k: int| 0 <= k < order.len() ==> (#[trigger] order[k]) < g.len(),
    ensures
        parts(swept(g, order, n).clusters, swept(g, order, n).visited),
        forall|x: Index| swept(g, order, n).visited.contains(x) ==> x < g.len(),
        forall|k: int| 0 <= k < n ==> swept(g, order, n).visited.contains(#[trigger] order[k]),
    decreases g.len(), 1nat, n,
{
    if n > 0 {
        let before = swept(g, order, (n - 1) as nat);
        let after = swept(g, order, n);
        let seed = order[n - 1];
        lemma_swept_parts(g, order, (n - 1) as nat);
        if !before.visited.contains(seed) {
            let cluster = claimed(g, seed, before.visited);
            lemma_claimed(g, seed, before.visited);
            lemma_settled_parts(g, cluster);
            assert(before.visited.disjoint(cluster.to_set()));
            lemma_parts_append(before.clusters, before.visited, settled(g, cluster), cluster.to_set());
            assert(cluster.to_set().contains(cluster[0]));
            assert forall|x: Index| after.visited.contains(x) implies x < g.len() by {
                if !before.visited.contains(x) {
                    let p = choose|p: int| 0 <= p < cluster.len() && cluster[p] == x;
                    assert(cluster[p] < g.len());
                }
            }
        }
    }
}

/// The clusters of a well-formed graph are a partition of its elements.
pub proof fn lemma_clusters_partition(g: Graph)
    requires
        well_formed(g),
        g.len() <= usize::MAX,
    ensures
        partitions(clusters_of(g), g.len()),
    decreases g.len(), 2nat, 0nat,
{
    let order = ranking(g);
    lemma_ranking_covers(g);
    lemma_swept_parts(g, order, order.len());
    let end = swept(g, order, order.len());
    assert(end.visited =~= below(g.len())) by {
        assert forall|x: Index| x < g.len() implies end.visited.contains(x) by {
            assert(order.contains(x));
            let k = choose|k: int| 0 <= k < order.len() && order[k] == x;
            assert(end.visited.contains(order[k]));
        }
    }
}

} // verus!
