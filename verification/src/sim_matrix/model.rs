//! The similarity graph as contracts see it: one sequence of scores for each
//! element, and the functions of such a graph that the library computes.

use vstd::prelude::*;
use vstd::relations::sorted_by;

use super::{Score, Standing};

use crate::ordering::{is_ranked, lemma_ranked, rank_order, ranked};
use crate::sequences::lemma_filter_keeps_order;
use crate::sim_metric::Similarity;
use crate::Index;

verus! {

/// The rows of a similarity matrix: for each element the scores of its siblings.
pub type Graph = Seq<Seq<Score>>;

/// The similarity that a row records for a sibling: that of the first score
/// that names it, and zero where none does.
pub open spec fn recorded(row: Seq<Score>, sibling: Index) -> Similarity
    decreases row.len(),
{
    if row.len() == 0 {
        0
    } else if row[0].sibling_index == sibling {
        row[0].similarity
    } else {
        recorded(row.drop_first(), sibling)
    }
}

/// Whether a row holds a score for a sibling.
pub open spec fn names(row: Seq<Score>, sibling: Index) -> bool {
    exists|k: int| 0 <= k < row.len() && (#[trigger] row[k]).sibling_index == sibling
}

/// A row whose similarities never rise from one score to the next.
pub open spec fn descending(row: Seq<Score>) -> bool {
    forall|a: int, b: int|
        0 <= a < b < row.len() ==> (#[trigger] row[a]).similarity >= (#[trigger] row[b]).similarity
}

/// A row that names no sibling twice.
pub open spec fn distinct(row: Seq<Score>) -> bool {
    forall|a: int, b: int|
        0 <= a < b < row.len() ==> (#[trigger] row[a]).sibling_index != (
        #[trigger] row[b]).sibling_index
}

/// The score that the sibling of `score` holds for element `i` when the edge
/// between them is recorded on both sides.
pub open spec fn mirrored(score: Score, i: int) -> Score {
    Score { sibling_index: i as usize, similarity: score.similarity }
}

/// A graph is well formed when every score names another element of the
/// graph with a positive similarity, the sibling holds the same similarity
/// for the row's element, and every row is descending and names no sibling
/// twice.
pub open spec fn well_formed(g: Graph) -> bool {
    &&& forall|i: int, k: int|
        0 <= i < g.len() && 0 <= k < g[i].len() ==> {
            &&& (#[trigger] g[i][k]).sibling_index < g.len()
            &&& g[i][k].sibling_index != i
            &&& g[i][k].similarity > 0
            &&& g[g[i][k].sibling_index as int].contains(mirrored(g[i][k], i))
        }
    &&& forall|i: int| 0 <= i < g.len() ==> descending(#[trigger] g[i]) && distinct(g[i])
}

/// Filtering keeps a descending row descending.
pub proof fn lemma_filter_descending(row: Seq<Score>, pred: spec_fn(Score) -> bool)
    requires
        descending(row),
    ensures
        descending(row.filter(pred)),
{
    let rel = |a: Score, b: Score| a.similarity >= b.similarity;
    assert(sorted_by(row, rel)) by {
        assert forall|a: int, b: int| 0 <= a < b < row.len() implies #[trigger] rel(
            row[a],
            row[b],
        ) by {
            assert(row[a].similarity >= row[b].similarity);
        }
    }
    lemma_filter_keeps_order(row, pred, rel);
    let passed = row.filter(pred);
    assert forall|a: int, b: int| 0 <= a < b < passed.len() implies (
    #[trigger] passed[a]).similarity >= (#[trigger] passed[b]).similarity by {
        assert(rel(passed[a], passed[b]));
    }
}

/// Filtering a row that names no sibling twice leaves such a row.
pub proof fn lemma_filter_distinct(row: Seq<Score>, pred: spec_fn(Score) -> bool)
    requires
        distinct(row),
    ensures
        distinct(row.filter(pred)),
{
    let rel = |a: Score, b: Score| a.sibling_index != b.sibling_index;
    assert(sorted_by(row, rel)) by {
        assert forall|a: int, b: int| 0 <= a < b < row.len() implies #[trigger] rel(
            row[a],
            row[b],
        ) by {
            assert(row[a].sibling_index != row[b].sibling_index);
        }
    }
    lemma_filter_keeps_order(row, pred, rel);
    let passed = row.filter(pred);
    assert forall|a: int, b: int| 0 <= a < b < passed.len() implies (
    #[trigger] passed[a]).sibling_index != (#[trigger] passed[b]).sibling_index by {
        assert(rel(passed[a], passed[b]));
    }
}

/// A row in the order of its scores is descending.
pub proof fn lemma_ranked_descending(row: Seq<Score>)
    requires
        is_ranked(row),
    ensures
        descending(row),
{
    assert forall|a: int, b: int| 0 <= a < b < row.len() implies (#[trigger] row[a]).similarity >= (
    #[trigger] row[b]).similarity by {
        assert(rank_order::<Score>()(row[a], row[b]));
    }
}

/// Whether every similarity in the graph is at least `floor`.
pub open spec fn bounded_below(g: Graph, floor: Similarity) -> bool {
    forall|i: int, k: int|
        0 <= i < g.len() && 0 <= k < g[i].len() ==> (#[trigger] g[i][k]).similarity >= floor
}

/// Whether some score of the graph holds the similarity `value`.
pub open spec fn occurs(g: Graph, value: Similarity) -> bool {
    exists|i: int, k: int|
        0 <= i < g.len() && 0 <= k < g[i].len() && (#[trigger] g[i][k]).similarity == value
}

/// Whether `values` lists the similarities of the graph, each once, in
/// rising order.
pub open spec fn lists_values(g: Graph, values: Seq<Similarity>) -> bool {
    &&& forall|a: int, b: int| 0 <= a < b < values.len() ==> values[a] < values[b]
    &&& forall|value: Similarity| values.contains(value) <==> occurs(g, value)
}

/// The siblings that a row names, in the row's order.
pub open spec fn siblings(row: Seq<Score>) -> Seq<Index> {
    row.map_values(|score: Score| score.sibling_index)
}

/// The scores whose similarity is at least `floor`.
pub open spec fn at_least(floor: Similarity) -> spec_fn(Score) -> bool {
    |score: Score| score.similarity >= floor
}

/// The scores whose sibling is not in `excluded`.
pub open spec fn outside(excluded: Set<Index>) -> spec_fn(Score) -> bool {
    |score: Score| !excluded.contains(score.sibling_index)
}

/// The scores that a projection onto `indices` with the floor `floor` keeps:
/// those whose sibling is among the indices and whose similarity reaches the
/// floor.
pub open spec fn kept(indices: Seq<Index>, floor: Similarity) -> spec_fn(Score) -> bool {
    |score: Score| indices.contains(score.sibling_index) && score.similarity >= floor
}

/// A score with its sibling renamed to the sibling's place among `indices`.
pub open spec fn renamed(indices: Seq<Index>) -> spec_fn(Score) -> Score {
    |score: Score|
        Score {
            sibling_index: indices.index_of(score.sibling_index) as usize,
            similarity: score.similarity,
        }
}

/// A row projected onto `indices`: the scores kept, renamed, in the row's order.
pub open spec fn projected_row(row: Seq<Score>, indices: Seq<Index>, floor: Similarity) -> Seq<
    Score,
> {
    row.filter(kept(indices, floor)).map_values(renamed(indices))
}

/// The graph projected onto `indices`: element `p` of the result is element
/// `indices[p]` of `g`, and an edge stays where both its ends are among the
/// indices and its similarity is at least `floor`.
pub open spec fn projected(g: Graph, indices: Seq<Index>, floor: Similarity) -> Graph {
    Seq::new(indices.len(), |p: int| projected_row(g[indices[p] as int], indices, floor))
}

/// Whether `indices` names elements of a graph of `size` elements, none twice.
pub open spec fn selects(indices: Seq<Index>, size: nat) -> bool {
    &&& forall|p: int| 0 <= p < indices.len() ==> (#[trigger] indices[p]) < size
    &&& indices.no_duplicates()
}

/// Indices below `n`, none twice, are at most `n`.
pub proof fn lemma_selection_fits(indices: Seq<Index>, n: nat)
    requires
        selects(indices, n),
    ensures
        indices.len() <= n,
    decreases n,
{
    if n == 0 {
        if indices.len() > 0 {
            assert(indices[0] < 0);
        }
    } else if exists|p: int| 0 <= p < indices.len() && #[trigger] indices[p] == n - 1 {
        let p = choose|p: int| 0 <= p < indices.len() && #[trigger] indices[p] == n - 1;
        let rest = indices.remove(p);
        indices.remove_ensures(p);
        assert forall|q: int| 0 <= q < rest.len() implies (#[trigger] rest[q]) < n - 1 by {
            if q < p {
                assert(rest[q] == indices[q]);
                assert(indices[q] < n);
            } else {
                assert(rest[q] == indices[q + 1]);
                assert(indices[q + 1] < n);
            }
        }
        assert(rest.no_duplicates()) by {
            assert forall|a: int, b: int|
                0 <= a < rest.len() && 0 <= b < rest.len() && a != b implies rest[a] != rest[b] by {
                let a0 = if a < p { a } else { a + 1 };
                let b0 = if b < p { b } else { b + 1 };
                assert(indices[a0] != indices[b0]);
            }
        }
        lemma_selection_fits(rest, (n - 1) as nat);
    } else {
        assert forall|q: int| 0 <= q < indices.len() implies (#[trigger] indices[q]) < n - 1 by {
            assert(indices[q] < n);
        }
        lemma_selection_fits(indices, (n - 1) as nat);
    }
}

/// As many indices below `n` as there are, none twice, are all of them.
pub proof fn lemma_selection_full(indices: Seq<Index>, n: nat, x: Index)
    requires
        selects(indices, n),
        indices.len() == n,
        x < n,
    ensures
        indices.contains(x),
{
    if !indices.contains(x) {
        let moved = indices.map_values(|v: Index| if v > x { (v - 1) as usize } else { v });
        assert forall|p: int| 0 <= p < moved.len() implies (#[trigger] moved[p]) < n - 1 by {
            assert(indices[p] < n);
            assert(indices[p] != x);
        }
        assert(moved.no_duplicates()) by {
            assert forall|p: int, q: int|
                0 <= p < moved.len() && 0 <= q < moved.len() && p != q implies moved[p]
                != moved[q] by {
                assert(indices[p] != indices[q]);
                assert(indices[p] != x);
                assert(indices[q] != x);
            }
        }
        lemma_selection_fits(moved, (n - 1) as nat);
    }
}

/// The sum of the similarities of a row.
pub open spec fn weight(row: Seq<Score>) -> nat
    decreases row.len(),
{
    if row.len() == 0 {
        0
    } else {
        weight(row.drop_last()) + row.last().similarity as nat
    }
}

/// How element `i` stands in the graph: by the number of its siblings and the
/// sum of their similarities.
pub open spec fn standing(g: Graph, i: int) -> Standing {
    Standing { index: i as usize, degree: g[i].len() as usize, weight: weight(g[i]) as u128 }
}

/// The standings of all elements, in the order of the elements.
pub open spec fn standings(g: Graph) -> Seq<Standing> {
    Seq::new(g.len(), |i: int| standing(g, i))
}

/// The elements of the graph from the best connected down: more siblings
/// come first, then the greater sum of similarities, then the lower index.
pub open spec fn ranking(g: Graph) -> Seq<Index> {
    ranked(standings(g)).map_values(|s: Standing| s.index)
}

/// The ranking names every element of the graph, and nothing else.
pub proof fn lemma_ranking_covers(g: Graph)
    requires
        g.len() <= usize::MAX,
    ensures
        ranking(g).len() == g.len(),
        forall|k: int| 0 <= k < ranking(g).len() ==> (#[trigger] ranking(g)[k]) < g.len(),
        forall|i: Index| i < g.len() ==> #[trigger] ranking(g).contains(i),
{
    let all = standings(g);
    let sorted = ranked(all);
    lemma_ranked(all);
    all.to_multiset_ensures();
    sorted.to_multiset_ensures();
    assert forall|k: int| 0 <= k < ranking(g).len() implies (#[trigger] ranking(g)[k])
        < g.len() by {
        assert(sorted.contains(sorted[k]));
        assert(sorted.to_multiset().count(sorted[k]) > 0);
        assert(all.contains(sorted[k]));
        let i = choose|i: int| 0 <= i < all.len() && all[i] == sorted[k];
        assert(sorted[k] == standing(g, i));
    }
    assert forall|i: Index| i < g.len() implies #[trigger] ranking(g).contains(i) by {
        assert(all[i as int] == standing(g, i as int));
        assert(all.contains(all[i as int]));
        assert(all.to_multiset().count(all[i as int]) > 0);
        assert(sorted.contains(all[i as int]));
        let k = choose|k: int| 0 <= k < sorted.len() && sorted[k] == all[i as int];
        assert(ranking(g)[k] == i);
    }
}

} // verus!
