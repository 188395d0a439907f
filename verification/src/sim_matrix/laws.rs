//! What holds of every similarity matrix.

use vstd::multiset::group_multiset_axioms;
use vstd::prelude::*;
use vstd::seq_lib::to_multiset_build;

use super::construct::{
    built, built_row, incident, lemma_built_row_member, lemma_faults_carry, pairs_of, rejection,
    retained, Triplet,
};
use super::model::{
    at_least, bounded_below, distinct, kept, mirrored, names, projected, projected_row, recorded,
    renamed, well_formed, Graph,
};
use super::project::{lemma_place, lemma_projected_row};
use super::Score;
use crate::cluster::clusters_of;
use crate::ordering::lemma_ranked_of_permutation;
use crate::sequences::{
    lemma_filter_agree, lemma_filter_all, lemma_filter_of_permutation, lemma_rearrangement,
    rearranges,
};
use crate::sim_metric::Similarity;
use crate::{Index, Size};

verus! {

/// A row that names a sibling once records for it the similarity of the
/// score that names it.
pub proof fn lemma_recorded_score(row: Seq<Score>, k: int)
    requires
        distinct(row),
        0 <= k < row.len(),
    ensures
        recorded(row, row[k].sibling_index) == row[k].similarity,
    decreases row.len(),
{
    if k > 0 {
        let rest = row.drop_first();
        assert(row[0].sibling_index != row[k].sibling_index);
        assert(distinct(rest)) by {
            assert forall|a: int, b: int| 0 <= a < b < rest.len() implies (
            #[trigger] rest[a]).sibling_index != (#[trigger] rest[b]).sibling_index by {
                assert(row[a + 1].sibling_index != row[b + 1].sibling_index);
            }
        }
        assert(rest[k - 1] == row[k]);
        lemma_recorded_score(rest, k - 1);
    }
}

/// A row records zero for a sibling that it does not name.
pub proof fn lemma_recorded_nothing(row: Seq<Score>, sibling: Index)
    requires
        !names(row, sibling),
    ensures
        recorded(row, sibling) == 0,
    decreases row.len(),
{
    if row.len() > 0 {
        let rest = row.drop_first();
        assert(row[0].sibling_index != sibling);
        assert(!names(rest, sibling)) by {
            if names(rest, sibling) {
                let k = choose|k: int|
                    0 <= k < rest.len() && (#[trigger] rest[k]).sibling_index == sibling;
                assert(row[k + 1].sibling_index == sibling);
            }
        }
        lemma_recorded_nothing(rest, sibling);
    }
}

/// Symmetry: in a well-formed graph the similarity that element `i` records
/// for `j` is the similarity that `j` records for `i`, and it is zero exactly
/// where no edge between the two is recorded.
pub proof fn lemma_symmetry(g: Graph, i: Index, j: Index)
    requires
        well_formed(g),
        i < g.len(),
        j < g.len(),
    ensures
        recorded(g[i as int], j) == recorded(g[j as int], i),
        recorded(g[i as int], j) == 0 <==> !names(g[i as int], j),
        names(g[i as int], j) <==> names(g[j as int], i),
{
    lemma_half_symmetry(g, i, j);
    lemma_half_symmetry(g, j, i);
    if !names(g[i as int], j) {
        lemma_recorded_nothing(g[i as int], j);
        lemma_recorded_nothing(g[j as int], i);
    }
}

/// Where element `i` names `j`, `j` names `i` and records the same
/// similarity, which is not zero.
proof fn lemma_half_symmetry(g: Graph, i: Index, j: Index)
    requires
        well_formed(g),
        i < g.len(),
        j < g.len(),
    ensures
        names(g[i as int], j) ==> names(g[j as int], i) && recorded(g[i as int], j) == recorded(
            g[j as int],
            i,
        ) && recorded(g[i as int], j) > 0,
{
    if names(g[i as int], j) {
        let k = choose|k: int|
            0 <= k < g[i as int].len() && (#[trigger] g[i as int][k]).sibling_index == j;
        let score = g[i as int][k];
        lemma_recorded_score(g[i as int], k);
        let mirror = mirrored(score, i as int);
        assert(g[j as int].contains(mirror));
        let m = choose|m: int| 0 <= m < g[j as int].len() && g[j as int][m] == mirror;
        assert(g[j as int][m].sibling_index == i);
        lemma_recorded_score(g[j as int], m);
    }
}

/// All the indices of a set of `size` elements, in their order.
pub open spec fn all_indices(size: nat) -> Seq<Index> {
    Seq::new(size, |i: int| i as usize)
}

/// The projection onto all the elements, in their order, keeps every element
/// in its place and of every row the scores that reach the floor. Where all
/// the similarities of the graph reach the floor, it is the graph itself.
pub proof fn lemma_projection_onto_all(g: Graph, floor: Similarity)
    requires
        well_formed(g),
        g.len() <= usize::MAX,
    ensures
        projected(g, all_indices(g.len()), floor).len() == g.len(),
        forall|i: int|
            0 <= i < g.len() ==> #[trigger] projected(g, all_indices(g.len()), floor)[i]
                == g[i].filter(at_least(floor)),
        bounded_below(g, floor) ==> projected(g, all_indices(g.len()), floor) == g,
{
    let all = all_indices(g.len());
    let h = projected(g, all, floor);
    assert(all.no_duplicates());
    assert forall|i: int| 0 <= i < g.len() implies #[trigger] h[i] == g[i].filter(
        at_least(floor),
    ) by {
        let row = g[i];
        assert(all[i] == i);
        assert forall|k: int| 0 <= k < row.len() implies kept(all, floor)(#[trigger] row[k])
            == at_least(floor)(row[k]) by {
            let j = g[i][k].sibling_index;
            assert(all[j as int] == j);
            assert(all.contains(j));
        }
        lemma_filter_agree(row, kept(all, floor), at_least(floor));
        let passed = row.filter(at_least(floor));
        assert forall|a: int| 0 <= a < passed.len() implies renamed(all)(#[trigger] passed[a])
            == passed[a] by {
            row.lemma_filter_contains_rev(at_least(floor), passed[a]);
            let k = choose|k: int| 0 <= k < row.len() && row[k] == passed[a];
            let j = g[i][k].sibling_index;
            assert(all[j as int] == j);
            lemma_place(all, j as int);
        }
        assert(passed.map_values(renamed(all)) =~= passed);
    }
    if bounded_below(g, floor) {
        assert forall|i: int| 0 <= i < g.len() implies #[trigger] h[i] == g[i] by {
            assert(h[i] == g[i].filter(at_least(floor)));
            assert forall|k: int| 0 <= k < g[i].len() implies at_least(floor)(
                #[trigger] g[i][k],
            ) by {}
            lemma_filter_all(g[i], at_least(floor));
        }
        assert(h =~= g);
    }
}

/// Monotonicity: a matrix made with a higher minimum holds no edge that the
/// matrix made of the same triplets with a lower minimum lacks.
pub proof fn lemma_higher_minimum_adds_nothing(
    size: Size,
    lower: Similarity,
    higher: Similarity,
    triplets: Seq<Triplet>,
    i: Index,
    score: Score,
)
    requires
        lower <= higher,
        i < size,
        built(size, higher, triplets)[i as int].contains(score),
    ensures
        built(size, lower, triplets)[i as int].contains(score),
{
    lemma_built_row_member(triplets, i, higher, score);
    lemma_built_row_member(triplets, i, lower, score);
}

/// Monotonicity of projection: a projection with a higher floor holds no edge
/// that the projection onto the same indices with a lower floor lacks.
pub proof fn lemma_higher_floor_adds_nothing(
    g: Graph,
    indices: Seq<Index>,
    lower: Similarity,
    higher: Similarity,
    p: int,
    score: Score,
)
    requires
        lower <= higher,
        0 <= p < indices.len(),
        projected(g, indices, higher)[p].contains(score),
    ensures
        projected(g, indices, lower)[p].contains(score),
{
    let row = g[indices[p] as int];
    lemma_projected_row(row, indices, higher);
    lemma_projected_row(row, indices, lower);
    let above = projected_row(row, indices, higher);
    let a = choose|a: int| 0 <= a < above.len() && above[a] == score;
    let source = row.filter(kept(indices, higher))[a];
    assert(above[a] == renamed(indices)(source));
    let k = choose|k: int| 0 <= k < row.len() && row[k] == source;
    assert(kept(indices, lower)(row[k]));
}

/// How often an element holds a score: as often as the triplets hold the
/// pair of the element and the sibling, in either order, with the similarity
/// of the score.
pub proof fn lemma_incident_count(triplets: Seq<Triplet>, i: Index, score: Score)
    ensures
        incident(triplets, i).to_multiset().count(score) == triplets.to_multiset().count(
            (i, score.sibling_index, score.similarity),
        ) + if score.sibling_index != i {
            triplets.to_multiset().count((score.sibling_index, i, score.similarity))
        } else {
            0
        },
    decreases triplets.len(),
{
    broadcast use group_multiset_axioms;

    if triplets.len() == 0 {
        triplets.to_multiset_ensures();
        incident(triplets, i).to_multiset_ensures();
        assert(triplets.to_multiset().len() == 0);
        assert(incident(triplets, i).to_multiset().len() == 0);
        assert(triplets.to_multiset().count((i, score.sibling_index, score.similarity)) == 0);
        assert(triplets.to_multiset().count((score.sibling_index, i, score.similarity)) == 0);
        assert(incident(triplets, i).to_multiset().count(score) == 0);
    } else {
        let front = triplets.drop_last();
        let t = triplets.last();
        lemma_incident_count(front, i, score);
        assert(front.push(t) =~= triplets);
        to_multiset_build(front, t);
        let rest = incident(front, i);
        if t.0 == i {
            to_multiset_build(rest, Score { sibling_index: t.1, similarity: t.2 });
        } else if t.1 == i {
            to_multiset_build(rest, Score { sibling_index: t.0, similarity: t.2 });
        }
    }
}

/// Determinism: the order in which the pairs come is immaterial. Triplets
/// that hold the same pairs with the same similarities, in whatever order,
/// are rejected alike, and make the same matrix and the same clusters.
pub proof fn lemma_order_of_pairs_is_immaterial(
    size: Size,
    min_similarity: Similarity,
    triplets: Seq<Triplet>,
    others: Seq<Triplet>,
)
    requires
        triplets.to_multiset() == others.to_multiset(),
    ensures
        rejection(size, pairs_of(triplets)) == rejection(size, pairs_of(others)),
        built(size, min_similarity, triplets) == built(size, min_similarity, others),
        clusters_of(built(size, min_similarity, triplets)) == clusters_of(
            built(size, min_similarity, others),
        ),
{
    broadcast use group_multiset_axioms;

    let to = lemma_rearrangement(triplets, others);
    assert(rearranges(pairs_of(triplets), pairs_of(others), to));
    lemma_faults_carry(size, pairs_of(triplets), pairs_of(others), to);
    let back = lemma_rearrangement(others, triplets);
    assert(rearranges(pairs_of(others), pairs_of(triplets), back));
    lemma_faults_carry(size, pairs_of(others), pairs_of(triplets), back);
    assert forall|i: int| 0 <= i < size implies #[trigger] built(size, min_similarity, triplets)[i]
        == built(size, min_similarity, others)[i] by {
        let mine = incident(triplets, i as usize);
        let theirs = incident(others, i as usize);
        assert forall|score: Score| mine.to_multiset().count(score) == theirs.to_multiset().count(
            score,
        ) by {
            lemma_incident_count(triplets, i as usize, score);
            lemma_incident_count(others, i as usize, score);
        }
        assert(mine.to_multiset() =~= theirs.to_multiset());
        lemma_filter_of_permutation(mine, theirs, retained(min_similarity));
        lemma_ranked_of_permutation(
            mine.filter(retained(min_similarity)),
            theirs.filter(retained(min_similarity)),
        );
        assert(built_row(triplets, i as usize, min_similarity) == built_row(
            others,
            i as usize,
            min_similarity,
        ));
    }
    assert(built(size, min_similarity, triplets) =~= built(size, min_similarity, others));
}

} // verus!
