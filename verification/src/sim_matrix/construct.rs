//! What a matrix is made of: the pairs that are measured, their similarities,
//! and the rows that these give.

use rayon::iter::{IntoParallelRefIterator, ParallelIterator};
use vstd::prelude::*;

use super::model::{
    bounded_below, descending, distinct, lemma_filter_distinct, lemma_ranked_descending, mirrored,
    names, well_formed, Graph,
};
use super::values::distinct_values;
use super::{rows_view, MatrixError, Row, Score, SimilarityMatrix};
use crate::index_pair::{drain, IndexPair, IndexPairIterator};
use crate::ordering::{lemma_ranked, ranked};
use crate::sequences::{lemma_filter_step, lemma_rearrangement, rearranges};
use crate::sim_metric::Similarity;
use crate::{Index, Size};

verus! {

/// A measured pair: two elements and their similarity.
pub type Triplet = (Index, Index, Similarity);

/// The pairs of a sequence of triplets.
pub open spec fn pairs_of(triplets: Seq<Triplet>) -> Seq<IndexPair> {
    triplets.map_values(|t: Triplet| (t.0, t.1))
}

/// Whether a pair joins the elements `i` and `j`, whichever it names first.
pub open spec fn joins(pair: IndexPair, i: Index, j: Index) -> bool {
    (pair.0 == i && pair.1 == j) || (pair.0 == j && pair.1 == i)
}

/// Whether some pair names an element that a set of `size` elements lacks.
pub open spec fn out_of_range(size: Size, pairs: Seq<IndexPair>) -> bool {
    exists|k: int| 0 <= k < pairs.len() && ((#[trigger] pairs[k]).0 >= size || pairs[k].1 >= size)
}

/// Whether some pair joins an element with itself.
pub open spec fn self_paired(pairs: Seq<IndexPair>) -> bool {
    exists|k: int| 0 <= k < pairs.len() && (#[trigger] pairs[k]).0 == pairs[k].1
}

/// Whether two pairs join the same two elements.
pub open spec fn repeated(pairs: Seq<IndexPair>) -> bool {
    exists|k: int, l: int|
        0 <= k < l < pairs.len() && joins(#[trigger] pairs[k], (#[trigger] pairs[l]).0, pairs[l].1)
}

/// Why no matrix is made of `size` elements and these pairs, if none is: for
/// want of elements, then for a pair out of range, then for a pair that joins
/// an element with itself, then for two pairs that join the same elements.
pub open spec fn rejection(size: Size, pairs: Seq<IndexPair>) -> Option<MatrixError> {
    if size == 0 {
        Some(MatrixError::InvalidInput)
    } else if out_of_range(size, pairs) {
        Some(MatrixError::IndexOutOfRange)
    } else if self_paired(pairs) {
        Some(MatrixError::SelfPair)
    } else if repeated(pairs) {
        Some(MatrixError::Duplicate)
    } else {
        None
    }
}

/// The scores that the triplets give to element `i`, in the order of the
/// triplets: one for each triplet that names `i`, with the other element of
/// the pair as the sibling.
pub open spec fn incident(triplets: Seq<Triplet>, i: Index) -> Seq<Score>
    decreases triplets.len(),
{
    if triplets.len() == 0 {
        Seq::empty()
    } else {
        let rest = incident(triplets.drop_last(), i);
        let t = triplets.last();
        if t.0 == i {
            rest.push(Score { sibling_index: t.1, similarity: t.2 })
        } else if t.1 == i {
            rest.push(Score { sibling_index: t.0, similarity: t.2 })
        } else {
            rest
        }
    }
}

/// The scores that a matrix with the minimum `min_similarity` retains: those
/// with a similarity above zero that reaches the minimum.
pub open spec fn retained(min_similarity: Similarity) -> spec_fn(Score) -> bool {
    |score: Score| score.similarity > 0 && score.similarity >= min_similarity
}

/// The row of element `i` in the matrix made of the triplets: the scores
/// retained, the most similar first, and of equally similar siblings the
/// lower index first.
pub open spec fn built_row(triplets: Seq<Triplet>, i: Index, min_similarity: Similarity) -> Seq<
    Score,
> {
    ranked(incident(triplets, i).filter(retained(min_similarity)))
}

/// The graph made of `size` elements and the triplets.
pub open spec fn built(size: Size, min_similarity: Similarity, triplets: Seq<Triplet>) -> Graph {
    Seq::new(size as nat, |i: int| built_row(triplets, i as usize, min_similarity))
}

/// The scores of an element after one more triplet.
pub proof fn lemma_incident_step(triplets: Seq<Triplet>, k: int, i: Index)
    requires
        0 <= k < triplets.len(),
    ensures
        incident(triplets.take(0), i) == Seq::<Score>::empty(),
        incident(triplets.take(k + 1), i) == {
            let rest = incident(triplets.take(k), i);
            let t = triplets[k];
            if t.0 == i {
                rest.push(Score { sibling_index: t.1, similarity: t.2 })
            } else if t.1 == i {
                rest.push(Score { sibling_index: t.0, similarity: t.2 })
            } else {
                rest
            }
        },
{
    assert(triplets.take(k + 1).drop_last() =~= triplets.take(k));
    assert(triplets.take(k + 1).last() == triplets[k]);
}

/// Whether a triplet gives the score `score` to element `i`.
pub open spec fn gives(t: Triplet, i: Index, score: Score) -> bool {
    t.2 == score.similarity && ((t.0 == i && t.1 == score.sibling_index) || (t.0 != i && t.1 == i
        && t.0 == score.sibling_index))
}

/// An element holds a score exactly where a triplet gives it.
pub proof fn lemma_incident_member(triplets: Seq<Triplet>, i: Index, score: Score)
    ensures
        incident(triplets, i).contains(score) <==> exists|k: int|
            0 <= k < triplets.len() && gives(#[trigger] triplets[k], i, score),
    decreases triplets.len(),
{
    if triplets.len() == 0 {
    } else {
        let front = triplets.drop_last();
        let rest = incident(front, i);
        let t = triplets.last();
        let n = triplets.len() - 1;
        lemma_incident_member(front, i, score);
        if incident(triplets, i).contains(score) {
            let a = choose|a: int|
                0 <= a < incident(triplets, i).len() && incident(triplets, i)[a] == score;
            if a < rest.len() {
                assert(rest[a] == score);
                assert(rest.contains(score));
                let k = choose|k: int| 0 <= k < front.len() && gives(#[trigger] front[k], i, score);
                assert(gives(triplets[k], i, score));
            } else {
                assert(gives(triplets[n], i, score));
            }
        }
        if exists|k: int| 0 <= k < triplets.len() && gives(#[trigger] triplets[k], i, score) {
            let k = choose|k: int| 0 <= k < triplets.len() && gives(#[trigger] triplets[k], i, score);
            if k < n {
                assert(gives(front[k], i, score));
                let a = choose|a: int| 0 <= a < rest.len() && rest[a] == score;
                assert(incident(triplets, i)[a] == score);
            } else {
                assert(incident(triplets, i)[rest.len() as int] == score);
            }
        }
    }
}

/// An element has a sibling exactly where a triplet joins the two.
pub proof fn lemma_incident_names(triplets: Seq<Triplet>, i: Index, j: Index)
    ensures
        names(incident(triplets, i), j) <==> exists|k: int|
            0 <= k < triplets.len() && joins(#[trigger] pairs_of(triplets)[k], i, j),
    decreases triplets.len(),
{
    let row = incident(triplets, i);
    let pairs = pairs_of(triplets);
    if names(row, j) {
        let a = choose|a: int| 0 <= a < row.len() && (#[trigger] row[a]).sibling_index == j;
        assert(row.contains(row[a]));
        lemma_incident_member(triplets, i, row[a]);
        let k = choose|k: int| 0 <= k < triplets.len() && gives(#[trigger] triplets[k], i, row[a]);
        assert(joins(pairs[k], i, j));
    }
    if exists|k: int| 0 <= k < triplets.len() && joins(#[trigger] pairs[k], i, j) {
        let k = choose|k: int| 0 <= k < triplets.len() && joins(#[trigger] pairs[k], i, j);
        let score = Score { sibling_index: j, similarity: triplets[k].2 };
        assert(gives(triplets[k], i, score));
        lemma_incident_member(triplets, i, score);
        let a = choose|a: int| 0 <= a < row.len() && row[a] == score;
        assert(row[a].sibling_index == j);
    }
}

/// Where an element has a sibling twice, two triplets join the same elements.
pub proof fn lemma_repeat_in_row(triplets: Seq<Triplet>, i: Index)
    requires
        !distinct(incident(triplets, i)),
    ensures
        repeated(pairs_of(triplets)),
    decreases triplets.len(),
{
    let row = incident(triplets, i);
    let pairs = pairs_of(triplets);
    let (a, b) = choose|a: int, b: int|
        0 <= a < b < row.len() && (#[trigger] row[a]).sibling_index == (
        #[trigger] row[b]).sibling_index;
    let front = triplets.drop_last();
    let rest = incident(front, i);
    let n = triplets.len() - 1;
    if b < rest.len() {
        assert(rest[a].sibling_index == rest[b].sibling_index);
        lemma_repeat_in_row(front, i);
        let (k, l) = choose|k: int, l: int|
            0 <= k < l < front.len() && joins(
                #[trigger] pairs_of(front)[k],
                (#[trigger] pairs_of(front)[l]).0,
                pairs_of(front)[l].1,
            );
        assert(joins(pairs[k], pairs[l].0, pairs[l].1));
    } else {
        let j = row[b].sibling_index;
        assert(rest[a].sibling_index == j);
        lemma_incident_names(front, i, j);
        let k = choose|k: int| 0 <= k < front.len() && joins(#[trigger] pairs_of(front)[k], i, j);
        assert(joins(pairs[k], pairs[n].0, pairs[n].1));
    }
}

/// Where two triplets join the same two elements, each of the two has the
/// other as a sibling twice.
pub proof fn lemma_repeat_in_pairs(triplets: Seq<Triplet>) -> (i: Index)
    requires
        repeated(pairs_of(triplets)),
        !self_paired(pairs_of(triplets)),
    ensures
        !distinct(incident(triplets, i)),
        exists|k: int| 0 <= k < triplets.len() && (#[trigger] triplets[k]).0 == i,
    decreases triplets.len(),
{
    let pairs = pairs_of(triplets);
    let (k, l) = choose|k: int, l: int|
        0 <= k < l < pairs.len() && joins(#[trigger] pairs[k], (#[trigger] pairs[l]).0, pairs[l].1);
    let front = triplets.drop_last();
    let n = triplets.len() - 1;
    assert forall|m: int| 0 <= m < front.len() implies (#[trigger] pairs_of(front)[m]).0
        != pairs_of(front)[m].1 by {
        assert(pairs[m].0 != pairs[m].1);
    }
    if l < n {
        assert(joins(pairs_of(front)[k], pairs_of(front)[l].0, pairs_of(front)[l].1));
        let i = lemma_repeat_in_pairs(front);
        let rest = incident(front, i);
        let (a, b) = choose|a: int, b: int|
            0 <= a < b < rest.len() && (#[trigger] rest[a]).sibling_index == (
            #[trigger] rest[b]).sibling_index;
        let row = incident(triplets, i);
        assert(row[a].sibling_index == row[b].sibling_index);
        let m = choose|m: int| 0 <= m < front.len() && (#[trigger] front[m]).0 == i;
        assert(triplets[m].0 == i);
        i
    } else {
        let i = triplets[n].0;
        let j = triplets[n].1;
        assert(pairs[n].0 != pairs[n].1);
        let rest = incident(front, i);
        assert(joins(pairs_of(front)[k], i, j));
        lemma_incident_names(front, i, j);
        let a = choose|a: int| 0 <= a < rest.len() && (#[trigger] rest[a]).sibling_index == j;
        let row = incident(triplets, i);
        assert(row[a].sibling_index == row[rest.len() as int].sibling_index);
        i
    }
}

/// A row of the matrix holds a score exactly where the element holds it and
/// the matrix retains it.
pub proof fn lemma_built_row_member(
    triplets: Seq<Triplet>,
    i: Index,
    min_similarity: Similarity,
    score: Score,
)
    ensures
        built_row(triplets, i, min_similarity).contains(score) <==> retained(min_similarity)(score)
            && incident(triplets, i).contains(score),
{
    let pred = retained(min_similarity);
    let all = incident(triplets, i);
    let passed = all.filter(pred);
    let row = built_row(triplets, i, min_similarity);
    lemma_ranked(passed);
    row.to_multiset_ensures();
    passed.to_multiset_ensures();
    assert(row.contains(score) <==> row.to_multiset().count(score) > 0);
    assert(passed.contains(score) <==> passed.to_multiset().count(score) > 0);
    if passed.contains(score) {
        let a = choose|a: int| 0 <= a < passed.len() && passed[a] == score;
        all.lemma_filter_pred(pred, a);
        all.lemma_filter_contains_rev(pred, score);
    }
    if pred(score) && all.contains(score) {
        let k = choose|k: int| 0 <= k < all.len() && all[k] == score;
        all.lemma_filter_contains(pred, k);
    }
}

/// A rearrangement of a row that names no sibling twice names none twice.
pub proof fn lemma_permutation_distinct(row: Seq<Score>, other: Seq<Score>)
    requires
        distinct(row),
        other.to_multiset() == row.to_multiset(),
    ensures
        distinct(other),
{
    let to = lemma_rearrangement(other, row);
    assert forall|a: int, b: int| 0 <= a < b < other.len() implies (
    #[trigger] other[a]).sibling_index != (#[trigger] other[b]).sibling_index by {
        assert(to[a] != to[b]);
        if to[a] < to[b] {
            assert(row[to[a]].sibling_index != row[to[b]].sibling_index);
        } else {
            assert(row[to[b]].sibling_index != row[to[a]].sibling_index);
        }
    }
}

/// The scores of an element name elements of the set, and never the element
/// itself, where the pairs do.
pub proof fn lemma_incident_valid(size: Size, triplets: Seq<Triplet>, i: Index)
    requires
        !out_of_range(size, pairs_of(triplets)),
        !self_paired(pairs_of(triplets)),
    ensures
        forall|a: int|
            0 <= a < incident(triplets, i).len() ==> (#[trigger] incident(
                triplets,
                i,
            )[a]).sibling_index < size && incident(triplets, i)[a].sibling_index != i,
{
    let row = incident(triplets, i);
    let pairs = pairs_of(triplets);
    assert forall|a: int| 0 <= a < row.len() implies (#[trigger] row[a]).sibling_index < size
        && row[a].sibling_index != i by {
        assert(row.contains(row[a]));
        lemma_incident_member(triplets, i, row[a]);
        let k = choose|k: int| 0 <= k < triplets.len() && gives(#[trigger] triplets[k], i, row[a]);
        assert(pairs[k].0 < size && pairs[k].1 < size);
        assert(pairs[k].0 != pairs[k].1);
    }
}

/// The graph made of pairs that are not rejected is well formed, and its
/// similarities reach the minimum.
pub proof fn lemma_built_well_formed(
    size: Size,
    min_similarity: Similarity,
    triplets: Seq<Triplet>,
)
    requires
        rejection(size, pairs_of(triplets)) is None,
    ensures
        well_formed(built(size, min_similarity, triplets)),
        bounded_below(built(size, min_similarity, triplets), min_similarity),
{
    let g = built(size, min_similarity, triplets);
    let pred = retained(min_similarity);
    assert forall|i: int, a: int| 0 <= i < g.len() && 0 <= a < g[i].len() implies {
        &&& (#[trigger] g[i][a]).sibling_index < g.len()
        &&& g[i][a].sibling_index != i
        &&& g[i][a].similarity > 0
        &&& g[i][a].similarity >= min_similarity
        &&& g[g[i][a].sibling_index as int].contains(mirrored(g[i][a], i))
    } by {
        let score = g[i][a];
        let j = score.sibling_index;
        assert(g[i].contains(score));
        lemma_built_row_member(triplets, i as usize, min_similarity, score);
        let row = incident(triplets, i as usize);
        lemma_incident_valid(size, triplets, i as usize);
        let b = choose|b: int| 0 <= b < row.len() && row[b] == score;
        assert(row[b].sibling_index < size);
        lemma_incident_member(triplets, i as usize, score);
        let k = choose|k: int|
            0 <= k < triplets.len() && gives(#[trigger] triplets[k], i as usize, score);
        let mirror = mirrored(score, i);
        assert(gives(triplets[k], j, mirror));
        lemma_incident_member(triplets, j, mirror);
        lemma_built_row_member(triplets, j, min_similarity, mirror);
    }
    assert forall|i: int| 0 <= i < g.len() implies descending(#[trigger] g[i]) && distinct(
        g[i],
    ) by {
        let row = incident(triplets, i as usize);
        let passed = row.filter(pred);
        lemma_ranked(passed);
        lemma_ranked_descending(g[i]);
        if !distinct(row) {
            lemma_repeat_in_row(triplets, i as usize);
        }
        lemma_filter_distinct(row, pred);
        lemma_permutation_distinct(passed, g[i]);
    }
}

/// Looks for what is wrong with the pairs of the triplets, but for pairs that
/// join the same elements.
fn inspect(size: Size, triplets: &Vec<Triplet>) -> (found: Option<MatrixError>)
    ensures
        found == if size == 0 {
            Some(MatrixError::InvalidInput)
        } else if out_of_range(size, pairs_of(triplets@)) {
            Some(MatrixError::IndexOutOfRange)
        } else if self_paired(pairs_of(triplets@)) {
            Some(MatrixError::SelfPair)
        } else {
            None
        },
{
    if size == 0 {
        return Some(MatrixError::InvalidInput);
    }
    let ghost pairs = pairs_of(triplets@);
    let mut outside = false;
    let mut paired = false;
    for k in 0..triplets.len()
        invariant
            pairs == pairs_of(triplets@),
            outside <==> exists|l: int|
                0 <= l < k && ((#[trigger] pairs[l]).0 >= size || pairs[l].1 >= size),
            paired <==> exists|l: int| 0 <= l < k && (#[trigger] pairs[l]).0 == pairs[l].1,
    {
        let t = triplets[k];
        assert(pairs[k as int] == (t.0, t.1));
        if t.0 >= size || t.1 >= size {
            outside = true;
        }
        if t.0 == t.1 {
            paired = true;
        }
    }
    if outside {
        Some(MatrixError::IndexOutOfRange)
    } else if paired {
        Some(MatrixError::SelfPair)
    } else {
        None
    }
}

/// Hands each element the scores that the triplets give it.
fn distribute(size: Size, triplets: &Vec<Triplet>) -> (all: Vec<Vec<Score>>)
    requires
        !out_of_range(size, pairs_of(triplets@)),
        !self_paired(pairs_of(triplets@)),
    ensures
        all@.len() == size,
        forall|i: int| 0 <= i < size ==> (#[trigger] all@[i])@ == incident(triplets@, i as usize),
{
    let mut all: Vec<Vec<Score>> = Vec::new();
    for i in 0..size
        invariant
            all@.len() == i,
            forall|r: int| 0 <= r < i ==> (#[trigger] all@[r])@ == Seq::<Score>::empty(),
    {
        all.push(Vec::new());
    }
    let ghost pairs = pairs_of(triplets@);
    for k in 0..triplets.len()
        invariant
            pairs == pairs_of(triplets@),
            !out_of_range(size, pairs),
            !self_paired(pairs),
            all@.len() == size,
            forall|i: int|
                0 <= i < size ==> (#[trigger] all@[i])@ == incident(
                    triplets@.take(k as int),
                    i as usize,
                ),
    {
        let t = triplets[k];
        let ghost before = all@;
        proof {
            assert(pairs[k as int] == (t.0, t.1));
            assert forall|i: int| 0 <= i < size implies #[trigger] before[i]@ == incident(
                triplets@.take(k as int),
                i as usize,
            ) by {}
        }
        all[t.0].push(Score { sibling_index: t.1, similarity: t.2 });
        all[t.1].push(Score { sibling_index: t.0, similarity: t.2 });
        proof {
            assert forall|i: int| 0 <= i < size implies (#[trigger] all@[i])@ == incident(
                triplets@.take(k + 1),
                i as usize,
            ) by {
                lemma_incident_step(triplets@, k as int, i as usize);
                assert(before[i]@ == incident(triplets@.take(k as int), i as usize));
            }
        }
    }
    assert(triplets@.take(triplets@.len() as int) =~= triplets@);
    all
}

/// Whether no element has a sibling twice.
fn unrepeated(size: Size, all: &Vec<Vec<Score>>) -> (clear: bool)
    requires
        all@.len() == size,
        forall|i: int, a: int|
            0 <= i < size && 0 <= a < all@[i]@.len() ==> (#[trigger] all@[i]@[a]).sibling_index
                < size,
    ensures
        clear <==> forall|i: int| 0 <= i < size ==> distinct(#[trigger] all@[i]@),
{
    let mut seen: Vec<usize> = Vec::new();
    for i in 0..size
        invariant
            seen@.len() == i,
            forall|j: int| 0 <= j < i ==> #[trigger] seen@[j] == 0,
    {
        seen.push(0);
    }
    for i in 0..size
        invariant
            all@.len() == size,
            seen@.len() == size,
            forall|r: int, a: int|
                0 <= r < size && 0 <= a < all@[r]@.len() ==> (
                #[trigger] all@[r]@[a]).sibling_index < size,
            forall|j: int| 0 <= j < size ==> #[trigger] seen@[j] <= i,
            forall|r: int| 0 <= r < i ==> distinct(#[trigger] all@[r]@),
    {
        let row = &all[i];
        for k in 0..row.len()
            invariant
                0 <= i < size,
                row@ == all@[i as int]@,
                seen@.len() == size,
                forall|a: int| 0 <= a < row@.len() ==> (#[trigger] row@[a]).sibling_index < size,
                forall|j: int| 0 <= j < size ==> #[trigger] seen@[j] <= i + 1,
                forall|j: int|
                    0 <= j < size ==> (#[trigger] seen@[j] == i + 1 <==> exists|l: int|
                        0 <= l < k && (#[trigger] row@[l]).sibling_index == j),
                forall|a: int, b: int|
                    0 <= a < b < k ==> (#[trigger] row@[a]).sibling_index != (
                    #[trigger] row@[b]).sibling_index,
        {
            let j = row[k].sibling_index;
            if seen[j] == i + 1 {
                proof {
                    let l = choose|l: int| 0 <= l < k && (#[trigger] row@[l]).sibling_index == j;
                    assert(row@[l].sibling_index == row@[k as int].sibling_index);
                    assert(!distinct(all@[i as int]@));
                }
                return false;
            }
            let ghost before = seen@;
            seen.set(j, i + 1);
            proof {
                assert forall|m: int| 0 <= m < size implies (#[trigger] seen@[m] == i + 1
                    <==> exists|l: int| 0 <= l < k + 1 && (#[trigger] row@[l]).sibling_index == m) by {
                    if m == j {
                        assert(row@[k as int].sibling_index == m);
                    } else {
                        assert(seen@[m] == before[m]);
                        if before[m] == i + 1 {
                            let l = choose|l: int|
                                0 <= l < k && (#[trigger] row@[l]).sibling_index == m;
                            assert(row@[l].sibling_index == m);
                        }
                    }
                }
                assert forall|a: int, b: int| 0 <= a < b < k + 1 implies (
                #[trigger] row@[a]).sibling_index != (#[trigger] row@[b]).sibling_index by {
                    if b == k {
                        if row@[a].sibling_index == j {
                            assert(before[j as int] == i + 1);
                        }
                    }
                }
            }
        }
    }
    true
}

/// The scores of a row that a matrix with the minimum `min_similarity` retains.
fn retain(scores: &Vec<Score>, min_similarity: Similarity) -> (passed: Vec<Score>)
    ensures
        passed@ == scores@.filter(retained(min_similarity)),
{
    let mut passed: Vec<Score> = Vec::new();
    let ghost pred = retained(min_similarity);
    assert(scores@.take(0).filter(pred) =~= Seq::<Score>::empty()) by {
        reveal(Seq::filter);
    }
    for k in 0..scores.len()
        invariant
            pred == retained(min_similarity),
            passed@ == scores@.take(k as int).filter(pred),
    {
        proof {
            lemma_filter_step(scores@, k as int, pred);
        }
        if scores[k].similarity > 0 && scores[k].similarity >= min_similarity {
            passed.push(scores[k]);
        }
    }
    assert(scores@.take(scores@.len() as int) =~= scores@);
    passed
}

/// What is wrong with one sequence of pairs is wrong with every sequence that
/// it rearranges.
pub proof fn lemma_faults_carry(size: Size, pairs: Seq<IndexPair>, other: Seq<IndexPair>, to: Seq<int>)
    requires
        rearranges(pairs, other, to),
    ensures
        out_of_range(size, pairs) ==> out_of_range(size, other),
        self_paired(pairs) ==> self_paired(other),
        repeated(pairs) ==> repeated(other),
{
    if out_of_range(size, pairs) {
        let k = choose|k: int|
            0 <= k < pairs.len() && ((#[trigger] pairs[k]).0 >= size || pairs[k].1 >= size);
        assert(other[to[k]] == pairs[k]);
    }
    if self_paired(pairs) {
        let k = choose|k: int| 0 <= k < pairs.len() && (#[trigger] pairs[k]).0 == pairs[k].1;
        assert(other[to[k]] == pairs[k]);
    }
    if repeated(pairs) {
        let (k, l) = choose|k: int, l: int|
            0 <= k < l < pairs.len() && joins(
                #[trigger] pairs[k],
                (#[trigger] pairs[l]).0,
                pairs[l].1,
            );
        assert(other[to[k]] == pairs[k]);
        assert(other[to[l]] == pairs[l]);
        assert(to[k] != to[l]);
        if to[k] < to[l] {
            assert(joins(other[to[k]], other[to[l]].0, other[to[l]].1));
        } else {
            assert(joins(other[to[l]], other[to[k]].0, other[to[k]].1));
        }
    }
}

/// Whether pairs are rejected, and why, does not depend on their order.
pub proof fn lemma_rejection_of_permutation(size: Size, pairs: Seq<IndexPair>, other: Seq<IndexPair>)
    requires
        pairs.to_multiset() == other.to_multiset(),
    ensures
        rejection(size, pairs) == rejection(size, other),
{
    let to = lemma_rearrangement(pairs, other);
    lemma_faults_carry(size, pairs, other, to);
    let back = lemma_rearrangement(other, pairs);
    lemma_faults_carry(size, other, pairs, back);
}

/// Whether a pair names two elements of `elements` that the metric accepts.
pub open spec fn measurable<T, M: Fn(&T, &T) -> Similarity>(
    elements: Seq<T>,
    metric: M,
    pair: IndexPair,
) -> bool {
    &&& pair.0 < elements.len()
    &&& pair.1 < elements.len()
    &&& call_requires(metric, (&elements[pair.0 as int], &elements[pair.1 as int]))
}

/// Whether a triplet holds two elements of `elements` and a similarity that
/// the metric gives for them.
pub open spec fn measured<T, M: Fn(&T, &T) -> Similarity>(
    elements: Seq<T>,
    metric: M,
    t: Triplet,
) -> bool {
    &&& t.0 < elements.len()
    &&& t.1 < elements.len()
    &&& call_ensures(metric, (&elements[t.0 as int], &elements[t.1 as int]), t.2)
}

/// Whether the triplets hold the pairs, each as often as it is given and in
/// whatever order, each with a similarity that the metric gives for it.
pub open spec fn measures<T, M: Fn(&T, &T) -> Similarity>(
    elements: Seq<T>,
    pairs: Seq<IndexPair>,
    metric: M,
    triplets: Seq<Triplet>,
) -> bool {
    &&& pairs_of(triplets).to_multiset() == pairs.to_multiset()
    &&& forall|k: int| 0 <= k < triplets.len() ==> measured(elements, metric, #[trigger] triplets[k])
}

/// Measures one pair.
fn measure<T, M: Fn(&T, &T) -> Similarity>(elements: &Vec<T>, metric: &M, pair: IndexPair) -> (t:
    Triplet)
    requires
        measurable(elements@, *metric, pair),
    ensures
        t.0 == pair.0,
        t.1 == pair.1,
        measured(elements@, *metric, t),
{
    (pair.0, pair.1, metric(&elements[pair.0], &elements[pair.1]))
}

/// `rayon`: `par_iter` on the pairs, `map` with the measuring of one pair, and
/// `collect` into a vector. Each pair is measured once, on whatever thread;
/// the result holds one triplet for each pair, and nothing is claimed of the
/// order in which they come.
#[verifier::external_body]
fn measure_all<T: Sync + Send, M: Fn(&T, &T) -> Similarity + Sync>(
    elements: &Vec<T>,
    pairs: &Vec<IndexPair>,
    metric: &M,
) -> (triplets: Vec<Triplet>)
    requires
        forall|k: int| 0 <= k < pairs@.len() ==> measurable(elements@, *metric, #[trigger] pairs@[k]),
    ensures
        measures(elements@, pairs@, *metric, triplets@),
{
    pairs.par_iter().map(|pair| measure(elements, metric, *pair)).collect()
}

impl SimilarityMatrix {
    /// Create a matrix of `size` elements from measured pairs.
    ///
    /// Nothing is made where there are no elements, where a pair names an
    /// element that does not exist or joins an element with itself, or where
    /// two pairs join the same elements. Otherwise each element gets the
    /// scores of its pairs whose similarity is above zero and reaches
    /// `min_similarity`, the most similar first.
    pub fn from_triplets(size: Size, min_similarity: Similarity, triplets: &Vec<Triplet>) -> (result:
        Result<SimilarityMatrix, MatrixError>)
        ensures
            match result {
                Ok(matrix) => {
                    &&& rejection(size, pairs_of(triplets@)) is None
                    &&& matrix@ == built(size, min_similarity, triplets@)
                    &&& matrix.floor() == min_similarity
                    &&& matrix.sound()
                },
                Err(error) => rejection(size, pairs_of(triplets@)) == Some(error),
            },
    {
        match inspect(size, triplets) {
            Some(error) => {
                return Err(error);
            },
            None => {},
        }
        let all = distribute(size, triplets);
        proof {
            assert forall|i: int, a: int|
                0 <= i < size && 0 <= a < all@[i]@.len() implies (
            #[trigger] all@[i]@[a]).sibling_index < size by {
                lemma_incident_valid(size, triplets@, i as usize);
            }
        }
        if !unrepeated(size, &all) {
            proof {
                let i = choose|i: int| 0 <= i < size && !distinct(#[trigger] all@[i]@);
                lemma_repeat_in_row(triplets@, i as usize);
            }
            return Err(MatrixError::Duplicate);
        }
        proof {
            if repeated(pairs_of(triplets@)) {
                let i = lemma_repeat_in_pairs(triplets@);
                let k = choose|k: int| 0 <= k < triplets@.len() && (#[trigger] triplets@[k]).0 == i;
                assert(pairs_of(triplets@)[k].0 == i);
                assert(distinct(all@[i as int]@));
            }
        }
        let ghost target = built(size, min_similarity, triplets@);
        let mut rows: Vec<Row> = Vec::new();
        for i in 0..size
            invariant
                all@.len() == size,
                forall|r: int|
                    0 <= r < size ==> (#[trigger] all@[r])@ == incident(triplets@, r as usize),
                target == built(size, min_similarity, triplets@),
                rows_view(rows@) == target.take(i as int),
        {
            let ghost before = rows@;
            let row = Row::new(retain(&all[i], min_similarity));
            rows.push(row);
            proof {
                assert(before.len() == rows_view(before).len());
                assert(target[i as int] == built_row(triplets@, i, min_similarity));
                assert forall|r: int| 0 <= r < i + 1 implies #[trigger] rows_view(rows@)[r]
                    == target[r] by {
                    if r < i {
                        assert(rows@[r] == before[r]);
                        assert(rows_view(before)[r] == target.take(i as int)[r]);
                    } else {
                        assert(rows@[r]@ == target[i as int]);
                    }
                }
                assert(rows_view(rows@) =~= target.take(i + 1));
            }
        }
        proof {
            assert(target.take(size as int) =~= target);
            lemma_built_well_formed(size, min_similarity, triplets@);
        }
        let values = distinct_values(&rows);
        Ok(SimilarityMatrix::assemble(rows, min_similarity, values))
    }

    /// Create a new instance of `SimilarityMatrix`.
    ///
    /// # Arguments
    ///
    /// * `elements` - The input set: the elements to be clustered.
    /// * `min_similarity` - The minimum score to consider two elements similar.
    /// * `index_pair_iterator` - The index pair iterator that gives the pairs
    ///   of elements whose similarity is to be measured.
    /// * `similarity_metric` - The similarity metric to apply for clustering.
    ///
    /// Where there are no elements, nothing is made and no pair is asked for.
    /// Otherwise all the pending pairs are taken. Where one of them names an
    /// element that does not exist, nothing is measured. Otherwise each pair
    /// is measured once, and the matrix is the one that
    /// [`SimilarityMatrix::from_triplets`] makes of the pairs and what the
    /// metric gave for them.
    pub fn new<T: Sync + Send, I: IndexPairIterator, M: Fn(&T, &T) -> Similarity + Sync>(
        elements: &Vec<T>,
        min_similarity: Similarity,
        index_pair_iterator: &mut I,
        similarity_metric: M,
    ) -> (result: Result<SimilarityMatrix, MatrixError>)
        requires
            forall|k: int|
                0 <= k < old(index_pair_iterator).pending().len() && (#[trigger] old(
                    index_pair_iterator,
                ).pending()[k]).0 < elements@.len() && old(index_pair_iterator).pending()[k].1
                    < elements@.len() ==> call_requires(
                    similarity_metric,
                    (
                        &elements@[old(index_pair_iterator).pending()[k].0 as int],
                        &elements@[old(index_pair_iterator).pending()[k].1 as int],
                    ),
                ),
        ensures
            match result {
                Ok(matrix) => {
                    &&& rejection(elements@.len() as usize, old(index_pair_iterator).pending())
                        is None
                    &&& matrix.floor() == min_similarity
                    &&& matrix.sound()
                    &&& exists|triplets: Seq<Triplet>|
                        #[trigger] measures(
                            elements@,
                            old(index_pair_iterator).pending(),
                            similarity_metric,
                            triplets,
                        ) && matrix@ == built(elements@.len() as usize, min_similarity, triplets)
                },
                Err(error) => rejection(elements@.len() as usize, old(index_pair_iterator).pending())
                    == Some(error),
            },
            final(index_pair_iterator).pending() == if elements@.len() == 0 {
                old(index_pair_iterator).pending()
            } else {
                Seq::empty()
            },
    {
        let size = elements.len();
        if size == 0 {
            return Err(MatrixError::InvalidInput);
        }
        let pairs = drain(index_pair_iterator);
        assert(index_pair_iterator.pending() =~= Seq::<IndexPair>::empty());
        for k in 0..pairs.len()
            invariant
                size == elements@.len(),
                size > 0,
                pairs@ == old(index_pair_iterator).pending(),
                index_pair_iterator.pending() == Seq::<IndexPair>::empty(),
                forall|l: int|
                    0 <= l < k ==> (#[trigger] pairs@[l]).0 < size && pairs@[l].1 < size,
        {
            if pairs[k].0 >= size || pairs[k].1 >= size {
                assert(pairs@[k as int].0 >= size || pairs@[k as int].1 >= size);
                return Err(MatrixError::IndexOutOfRange);
            }
        }
        let triplets = measure_all(elements, &pairs, &similarity_metric);
        proof {
            lemma_rejection_of_permutation(size, pairs_of(triplets@), pairs@);
        }
        SimilarityMatrix::from_triplets(size, min_similarity, &triplets)
    }
}

} // verus!
