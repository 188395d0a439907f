//! When a claimed cluster is committed as it is.

use vstd::prelude::*;

use super::partition::{lemma_claimed, lemma_settled_parts};
use super::{claimed, clusters_of, remapped, settled, swept};
use crate::ordering::{lemma_ranked, rank_order, ranked};
use crate::sequences::lemma_filter_all;
use crate::sim_matrix::model::{
    kept, lemma_ranking_covers, lemma_selection_full, names, outside, projected, projected_row,
    ranking, renamed, siblings, standing, standings, well_formed, Graph,
};
use crate::sim_matrix::project::{lemma_place, lemma_projected_row, lemma_projected_well_formed};
use crate::sim_matrix::Score;
use crate::Index;

verus! {

/// A cluster of fewer than three elements, and a cluster that holds as many
/// elements as the graph, is committed as it is, whatever it holds.
pub proof fn lemma_committed_directly(g: Graph, cluster: Seq<Index>)
    requires
        cluster.len() < 3 || cluster.len() >= g.len(),
    ensures
        settled(g, cluster) == seq![cluster],
{
}

/// The cluster that an element of a well-formed graph claims when nothing is
/// claimed yet: the element and all its siblings.
pub proof fn lemma_claimed_first(g: Graph, i: Index)
    requires
        well_formed(g),
        i < g.len(),
    ensures
        claimed(g, i, Set::empty()) == seq![i] + siblings(g[i as int]),
        g[i as int].len() < g.len(),
{
    let row = g[i as int];
    let pred = outside(Set::<Index>::empty().insert(i));
    assert forall|k: int| 0 <= k < row.len() implies pred(#[trigger] row[k]) by {
        assert(g[i as int][k].sibling_index != i);
    }
    lemma_filter_all(row, pred);
    lemma_claimed(g, i, Set::empty());
}

/// The element that the ranking names first has at least as many siblings as
/// any other.
pub proof fn lemma_first_in_ranking(g: Graph, i: Index)
    requires
        well_formed(g),
        g.len() <= usize::MAX,
        i < g.len(),
    ensures
        ranking(g).len() == g.len(),
        ranking(g)[0] < g.len(),
        g[ranking(g)[0] as int].len() >= g[i as int].len(),
{
    let all = standings(g);
    let sorted = ranked(all);
    lemma_ranked(all);
    lemma_ranking_covers(g);
    all.to_multiset_ensures();
    sorted.to_multiset_ensures();
    let top = ranking(g)[0];
    assert(sorted.contains(sorted[0]));
    assert(sorted.to_multiset().count(sorted[0]) > 0);
    assert(all.contains(sorted[0]));
    let t = choose|t: int| 0 <= t < all.len() && all[t] == sorted[0];
    assert(sorted[0] == standing(g, t));
    assert(top == t);
    assert(all[i as int] == standing(g, i as int));
    assert(all.contains(all[i as int]));
    assert(all.to_multiset().count(all[i as int]) > 0);
    assert(sorted.contains(all[i as int]));
    let k = choose|k: int| 0 <= k < sorted.len() && sorted[k] == all[i as int];
    lemma_claimed_first(g, top);
    lemma_claimed_first(g, i);
    if k > 0 {
        assert(rank_order::<crate::sim_matrix::Standing>()(sorted[0], sorted[k]));
    }
}

/// A row that names each of the siblings from one up to `k - 1` holds at
/// least `k - 1` scores.
pub proof fn lemma_names_many(row: Seq<Score>, k: nat)
    requires
        forall|p: Index| 1 <= p < k ==> #[trigger] names(row, p),
        k <= usize::MAX,
    ensures
        row.len() + 1 >= k,
    decreases k,
{
    if k >= 2 {
        let last = (k - 1) as usize;
        assert(names(row, last));
        let a = choose|a: int| 0 <= a < row.len() && (#[trigger] row[a]).sibling_index == last;
        let rest = row.remove(a);
        row.remove_ensures(a);
        assert forall|p: Index| 1 <= p < k - 1 implies #[trigger] names(rest, p) by {
            assert(names(row, p));
            let b = choose|b: int| 0 <= b < row.len() && (#[trigger] row[b]).sibling_index == p;
            if b < a {
                assert(rest[b] == row[b]);
            } else {
                assert(rest[b - 1] == row[b]);
            }
        }
        lemma_names_many(rest, (k - 1) as nat);
    }
}

/// Once every element is claimed, a sweep changes nothing any more.
pub proof fn lemma_sweep_is_over(g: Graph, order: Seq<Index>, m: nat, n: nat)
    requires
        m <= n <= order.len(),
        forall|k: int| 0 <= k < order.len() ==> swept(g, order, m).visited.contains(
            #[trigger] order[k],
        ),
    ensures
        swept(g, order, n) == swept(g, order, m),
    decreases n,
{
    if n > m {
        lemma_sweep_is_over(g, order, m, (n - 1) as nat);
        assert(swept(g, order, m).visited.contains(order[n - 1]));
    }
}

/// A claimed cluster is never split: what is committed for it is one cluster
/// of the same elements. In the graph projected onto the cluster the element
/// that claimed it has all the others as siblings, so the element ranked
/// first there has them too, and claims them all.
pub proof fn lemma_cluster_stays_whole(g: Graph, seed: Index, visited: Set<Index>)
    requires
        well_formed(g),
        g.len() <= usize::MAX,
        seed < g.len(),
        !visited.contains(seed),
    ensures
        settled(g, claimed(g, seed, visited)).len() == 1,
        settled(g, claimed(g, seed, visited))[0].len() == claimed(g, seed, visited).len(),
        settled(g, claimed(g, seed, visited))[0].to_set() == claimed(g, seed, visited).to_set(),
{
    let cluster = claimed(g, seed, visited);
    lemma_claimed(g, seed, visited);
    lemma_settled_parts(g, cluster);
    let result = settled(g, cluster);
    if cluster.len() >= 3 && cluster.len() < g.len() {
        let size = cluster.len();
        let h = projected(g, cluster, 0);
        lemma_projected_well_formed(g, cluster, 0);
        // the first element of the cluster has all the others as siblings
        let row = g[seed as int];
        let free = row.filter(outside(visited.insert(seed)));
        lemma_projected_row(row, cluster, 0);
        assert(h[0] == projected_row(row, cluster, 0));
        assert forall|p: Index| 1 <= p < size implies #[trigger] names(h[0], p) by {
            assert(cluster[p as int] == free[p - 1].sibling_index);
            row.lemma_filter_contains_rev(outside(visited.insert(seed)), free[p - 1]);
            let k = choose|k: int| 0 <= k < row.len() && row[k] == free[p - 1];
            assert(cluster.contains(cluster[p as int]));
            assert(kept(cluster, 0)(row[k]));
            lemma_place(cluster, p as int);
            let a = choose|a: int| 0 <= a < h[0].len() && h[0][a] == renamed(cluster)(row[k]);
            assert(h[0][a].sibling_index == p);
        }
        lemma_names_many(h[0], size);
        // so has the element of the projected graph that is ranked first
        let order = ranking(h);
        let top = order[0];
        lemma_first_in_ranking(h, 0);
        lemma_claimed_first(h, top);
        let first = claimed(h, top, Set::empty());
        lemma_claimed(h, top, Set::empty());
        assert(first.len() == size);
        assert(settled(h, first) == seq![first]);
        // and with it all elements are claimed at the first step
        let one = swept(h, order, 1);
        assert(swept(h, order, 0).visited =~= Set::<Index>::empty());
        assert(one.clusters =~= seq![first]);
        lemma_ranking_covers(h);
        assert forall|k: int| 0 <= k < order.len() implies one.visited.contains(
            #[trigger] order[k],
        ) by {
            lemma_selection_full(first, size, order[k]);
        }
        lemma_sweep_is_over(h, order, 1, order.len());
        assert(clusters_of(h) == seq![first]);
        assert(result == remapped(seq![first], cluster));
        assert(result.len() == 1);
        assert(result[0].len() == size);
    }
    assert(result[0].to_set() =~= cluster.to_set()) by {
        assert forall|x: Index| cluster.to_set().contains(x) implies result[0].to_set().contains(
            x,
        ) by {
            let (c, k) = choose|c: int, k: int|
                0 <= c < result.len() && 0 <= k < result[c].len() && #[trigger] result[c][k]
                    == x;
            assert(result[0][k] == x);
        }
        assert forall|x: Index| result[0].to_set().contains(x) implies cluster.to_set().contains(
            x,
        ) by {
            let k = choose|k: int| 0 <= k < result[0].len() && result[0][k] == x;
            assert(cluster.to_set().contains(result[0][k]));
        }
    }
}

/// A cluster of three elements is never split: what is committed for it is
/// one cluster of the same three elements.
pub proof fn lemma_cluster_of_three(g: Graph, seed: Index, visited: Set<Index>)
    requires
        well_formed(g),
        g.len() <= usize::MAX,
        seed < g.len(),
        !visited.contains(seed),
        claimed(g, seed, visited).len() == 3,
    ensures
        settled(g, claimed(g, seed, visited)).len() == 1,
        settled(g, claimed(g, seed, visited))[0].len() == 3,
        settled(g, claimed(g, seed, visited))[0].to_set() == claimed(g, seed, visited).to_set(),
{
    lemma_cluster_stays_whole(g, seed, visited);
}

} // verus!
