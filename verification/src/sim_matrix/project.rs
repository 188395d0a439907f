//! Projection of a matrix onto some of its elements.

use std::collections::HashMap;
use vstd::prelude::*;

use super::model::{
    bounded_below, descending, distinct, kept, lemma_filter_descending, lemma_filter_distinct,
    mirrored, projected, projected_row, renamed, selects, well_formed, Graph,
};
use super::values::distinct_values;
use super::{rows_view, MatrixError, Row, Score, SimilarityMatrix};
use crate::sequences::lemma_filter_step;
use crate::sim_metric::Similarity;
use crate::Index;

verus! {

broadcast use vstd::std_specs::hash::group_hash_axioms;

/// Where no index occurs twice, the place of an index is the only place at
/// which it stands.
pub proof fn lemma_place(indices: Seq<Index>, p: int)
    requires
        indices.no_duplicates(),
        0 <= p < indices.len(),
    ensures
        indices.index_of(indices[p]) == p,
        indices.contains(indices[p]),
{
    let q = indices.index_of(indices[p]);
    assert(0 <= q < indices.len() && indices[q] == indices[p]);
}

/// The place of an index that occurs is a place of the sequence, and the index
/// stands there.
pub proof fn lemma_place_of_member(indices: Seq<Index>, index: Index)
    requires
        indices.contains(index),
    ensures
        0 <= indices.index_of(index) < indices.len(),
        indices[indices.index_of(index)] == index,
{
}

/// What a projected row is made of: each of its scores renames a score of the
/// row that the projection keeps, and each such score is renamed in it.
pub proof fn lemma_projected_row(row: Seq<Score>, indices: Seq<Index>, floor: Similarity)
    ensures
        projected_row(row, indices, floor).len() == row.filter(kept(indices, floor)).len(),
        forall|a: int|
            0 <= a < projected_row(row, indices, floor).len() ==> {
                let source = row.filter(kept(indices, floor))[a];
                &&& #[trigger] projected_row(row, indices, floor)[a] == renamed(indices)(source)
                &&& row.contains(source)
                &&& indices.contains(source.sibling_index)
                &&& source.similarity >= floor
            },
        forall|k: int|
            0 <= k < row.len() && kept(indices, floor)(row[k]) ==> projected_row(
                row,
                indices,
                floor,
            ).contains(renamed(indices)(#[trigger] row[k])),
{
    let pred = kept(indices, floor);
    let passed = row.filter(pred);
    let out = projected_row(row, indices, floor);
    assert forall|a: int| 0 <= a < out.len() implies {
        let source = passed[a];
        &&& #[trigger] out[a] == renamed(indices)(source)
        &&& row.contains(source)
        &&& indices.contains(source.sibling_index)
        &&& source.similarity >= floor
    } by {
        row.lemma_filter_pred(pred, a);
        row.lemma_filter_contains_rev(pred, passed[a]);
    }
    assert forall|k: int| 0 <= k < row.len() && pred(row[k]) implies out.contains(
        renamed(indices)(#[trigger] row[k]),
    ) by {
        row.lemma_filter_contains(pred, k);
        let a = choose|a: int| 0 <= a < passed.len() && passed[a] == row[k];
        assert(out[a] == renamed(indices)(row[k]));
    }
}

/// A projected row is descending where the row is.
pub proof fn lemma_projected_row_descending(
    row: Seq<Score>,
    indices: Seq<Index>,
    floor: Similarity,
)
    requires
        descending(row),
    ensures
        descending(projected_row(row, indices, floor)),
{
    let pred = kept(indices, floor);
    let passed = row.filter(pred);
    let out = projected_row(row, indices, floor);
    lemma_filter_descending(row, pred);
    assert forall|a: int, b: int| 0 <= a < b < out.len() implies (#[trigger] out[a]).similarity >= (
    #[trigger] out[b]).similarity by {
        assert(passed[a].similarity >= passed[b].similarity);
    }
}

/// The projection of a well-formed graph onto some of its elements, none
/// named twice, is a well-formed graph whose similarities reach the floor.
pub proof fn lemma_projected_well_formed(g: Graph, indices: Seq<Index>, floor: Similarity)
    requires
        well_formed(g),
        selects(indices, g.len()),
        indices.len() <= usize::MAX,
    ensures
        well_formed(projected(g, indices, floor)),
        bounded_below(projected(g, indices, floor), floor),
{
    let h = projected(g, indices, floor);
    let pred = kept(indices, floor);
    assert forall|p: int, a: int| 0 <= p < h.len() && 0 <= a < h[p].len() implies {
        &&& (#[trigger] h[p][a]).sibling_index < h.len()
        &&& h[p][a].sibling_index != p
        &&& h[p][a].similarity > 0
        &&& h[p][a].similarity >= floor
        &&& h[h[p][a].sibling_index as int].contains(mirrored(h[p][a], p))
    } by {
        let i = indices[p];
        let row = g[i as int];
        lemma_projected_row(row, indices, floor);
        assert(h[p] == projected_row(row, indices, floor));
        assert(h[p][a] == projected_row(row, indices, floor)[a]);
        let source = row.filter(pred)[a];
        let k = choose|k: int| 0 <= k < row.len() && row[k] == source;
        let j = source.sibling_index;
        assert(g[i as int][k] == source);
        lemma_place_of_member(indices, j);
        let q = indices.index_of(j);
        assert(h[p][a].sibling_index == q);
        lemma_place(indices, p);
        assert(q != p);
        // the sibling's row holds the same edge, and the projection keeps it
        let mirror = mirrored(source, i as int);
        assert(g[j as int].contains(mirror));
        let m = choose|m: int| 0 <= m < g[j as int].len() && g[j as int][m] == mirror;
        lemma_projected_row(g[j as int], indices, floor);
        assert(pred(g[j as int][m]));
        assert(renamed(indices)(mirror) == mirrored(h[p][a], p));
        assert(h[q] == projected_row(g[indices[q] as int], indices, floor));
    }
    assert forall|p: int| 0 <= p < h.len() implies descending(#[trigger] h[p]) && distinct(
        h[p],
    ) by {
        let row = g[indices[p] as int];
        lemma_projected_row_descending(row, indices, floor);
        lemma_filter_distinct(row, pred);
        lemma_projected_row(row, indices, floor);
        let passed = row.filter(pred);
        assert forall|a: int, b: int| 0 <= a < b < h[p].len() implies (
        #[trigger] h[p][a]).sibling_index != (#[trigger] h[p][b]).sibling_index by {
            assert(passed[a].sibling_index != passed[b].sibling_index);
            lemma_place_of_member(indices, passed[a].sibling_index);
            lemma_place_of_member(indices, passed[b].sibling_index);
        }
    }
}

/// The place of each index in `indices`, where none occurs twice.
fn places(indices: &Vec<Index>) -> (found: Option<HashMap<Index, Index>>)
    ensures
        found is Some <==> indices@.no_duplicates(),
        found matches Some(map) ==> {
            &&& forall|p: int|
                0 <= p < indices@.len() ==> map@.contains_key(#[trigger] indices@[p])
                    && map@[indices@[p]] == p
            &&& forall|index: Index| map@.contains_key(index) ==> indices@.contains(index)
        },
{
    let mut map: HashMap<Index, Index> = HashMap::new();
    for p in 0..indices.len()
        invariant
            forall|q: int|
                0 <= q < p ==> map@.contains_key(#[trigger] indices@[q]) && map@[indices@[q]] == q,
            forall|index: Index|
                map@.contains_key(index) ==> exists|q: int|
                    0 <= q < p && #[trigger] indices@[q] == index,
            forall|a: int, b: int| 0 <= a < b < p ==> indices@[a] != indices@[b],
    {
        if map.contains_key(&indices[p]) {
            proof {
                let q = choose|q: int| 0 <= q < p && #[trigger] indices@[q] == indices@[p as int];
                assert(indices@[q] == indices@[p as int] && q != p);
            }
            return None;
        }
        map.insert(indices[p], p);
    }
    proof {
        assert forall|index: Index| map@.contains_key(index) implies indices@.contains(index) by {
            let q = choose|q: int| 0 <= q < indices@.len() && #[trigger] indices@[q] == index;
            assert(indices@[q] == index);
        }
    }
    Some(map)
}

/// Projects one row: keeps the scores of the selected siblings that reach the
/// floor, and renames each sibling to its place.
fn project_row(
    row: &Row,
    Ghost(indices): Ghost<Seq<Index>>,
    places: &HashMap<Index, Index>,
    floor: Similarity,
) -> (out: Row)
    requires
        indices.no_duplicates(),
        forall|p: int|
            0 <= p < indices.len() ==> places@.contains_key(#[trigger] indices[p])
                && places@[indices[p]] == p,
        forall|index: Index| places@.contains_key(index) ==> indices.contains(index),
    ensures
        out@ == projected_row(row@, indices, floor),
{
    let scores = row.scores();
    let mut out: Vec<Score> = Vec::new();
    let ghost pred = kept(indices, floor);
    let ghost rename = renamed(indices);
    assert(scores@.take(0).filter(pred) =~= Seq::<Score>::empty()) by {
        reveal(Seq::filter);
    }
    for k in 0..scores.len()
        invariant
            pred == kept(indices, floor),
            rename == renamed(indices),
            indices.no_duplicates(),
            forall|p: int|
                0 <= p < indices.len() ==> places@.contains_key(#[trigger] indices[p])
                    && places@[indices[p]] == p,
            forall|index: Index| places@.contains_key(index) ==> indices.contains(index),
            out@ == scores@.take(k as int).filter(pred).map_values(rename),
    {
        let score = scores[k];
        let ghost passed = scores@.take(k as int).filter(pred);
        proof {
            lemma_filter_step(scores@, k as int, pred);
        }
        if score.similarity >= floor {
            match places.get(&score.sibling_index) {
                Some(place) => {
                    proof {
                        lemma_place_of_member(indices, score.sibling_index);
                        let q = indices.index_of(score.sibling_index);
                        assert(places@[indices[q]] == q);
                    }
                    out.push(Score { sibling_index: *place, similarity: score.similarity });
                    assert(out@ =~= passed.push(score).map_values(rename));
                },
                None => {
                    assert(!indices.contains(score.sibling_index)) by {
                        if indices.contains(score.sibling_index) {
                            lemma_place_of_member(indices, score.sibling_index);
                            let q = indices.index_of(score.sibling_index);
                            assert(places@.contains_key(indices[q]));
                        }
                    }
                },
            }
        }
    }
    proof {
        assert(scores@.take(scores@.len() as int) =~= scores@);
        lemma_projected_row_descending(scores@, indices, floor);
    }
    Row::from_descending(out)
}

impl SimilarityMatrix {
    /// Create a new similarity matrix that is a part of this matrix.
    ///
    /// Element `p` of the new matrix is element `indices[p]` of this one. An
    /// edge stays where both its ends are among `indices` and its similarity
    /// is at least `min_similarity`, which becomes the minimum of the new
    /// matrix. An index that is not below the size of this matrix is refused,
    /// and after that an index that occurs twice.
    pub fn spin_off(&self, indices: &Vec<Index>, min_similarity: Similarity) -> (result: Result<
        SimilarityMatrix,
        MatrixError,
    >)
        ensures
            match result {
                Ok(matrix) => {
                    &&& selects(indices@, self@.len())
                    &&& matrix@ == projected(self@, indices@, min_similarity)
                    &&& matrix.floor() == min_similarity
                    &&& matrix.sound()
                },
                Err(MatrixError::IndexOutOfRange) => exists|p: int|
                    0 <= p < indices@.len() && #[trigger] indices@[p] >= self@.len(),
                Err(MatrixError::Duplicate) => {
                    &&& forall|p: int| 0 <= p < indices@.len() ==> #[trigger] indices@[p] < self@.len()
                    &&& !indices@.no_duplicates()
                },
                Err(_) => false,
            },
    {
        let size = self.size();
        for p in 0..indices.len()
            invariant
                size == self@.len(),
                forall|q: int| 0 <= q < p ==> #[trigger] indices@[q] < size,
        {
            if indices[p] >= size {
                return Err(MatrixError::IndexOutOfRange);
            }
        }
        let places = match places(indices) {
            Some(places) => places,
            None => {
                return Err(MatrixError::Duplicate);
            },
        };
        let ghost target = projected(self@, indices@, min_similarity);
        let mut rows: Vec<Row> = Vec::new();
        for p in 0..indices.len()
            invariant
                size == self@.len(),
                forall|q: int| 0 <= q < indices@.len() ==> #[trigger] indices@[q] < size,
                indices@.no_duplicates(),
                forall|q: int|
                    0 <= q < indices@.len() ==> places@.contains_key(#[trigger] indices@[q])
                        && places@[indices@[q]] == q,
                forall|index: Index| places@.contains_key(index) ==> indices@.contains(index),
                target == projected(self@, indices@, min_similarity),
                rows_view(rows@) == target.take(p as int),
        {
            let ghost before = rows@;
            let row = project_row(self.index(indices[p]), Ghost(indices@), &places, min_similarity);
            rows.push(row);
            proof {
                assert(before.len() == rows_view(before).len());
                assert(rows@.len() == p + 1);
                assert(target[p as int] == projected_row(
                    self@[indices@[p as int] as int],
                    indices@,
                    min_similarity,
                ));
                assert forall|q: int| 0 <= q < p + 1 implies #[trigger] rows_view(rows@)[q]
                    == target[q] by {
                    if q < p {
                        assert(rows@[q] == before[q]);
                        assert(rows_view(before)[q] == target.take(p as int)[q]);
                    } else {
                        assert(rows@[q]@ == target[p as int]);
                    }
                }
                assert(rows_view(rows@) =~= target.take(p + 1));
            }
        }
        proof {
            assert(target.take(indices@.len() as int) =~= target);
            use_type_invariant(self);
            lemma_projected_well_formed(self@, indices@, min_similarity);
        }
        let values = distinct_values(&rows);
        Ok(SimilarityMatrix::assemble(rows, min_similarity, values))
    }
}

} // verus!
