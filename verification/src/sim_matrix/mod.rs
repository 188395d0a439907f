//! A sparse, symmetric similarity matrix.

use std::collections::HashSet;
use vstd::prelude::*;

use crate::ordering::{ranked, sort, Ranked};
use crate::sim_metric::Similarity;
use crate::{Index, Size};
use crate::sequences::lemma_filter_step;
use model::{
    at_least, bounded_below, descending, lemma_filter_descending, lemma_ranked_descending,
    lists_values, outside, ranking, recorded, siblings, weight, well_formed, Graph,
};

/// The graph that a matrix stands for, and the functions of it that contracts use.
pub mod model;

/// The distinct similarities of a matrix.
pub mod values;

/// Projection of a matrix onto some of its elements.
pub mod project;

/// Construction of a matrix from measured pairs.
pub mod construct;

/// What holds of every similarity matrix.
pub mod laws;

verus! {

broadcast use vstd::std_specs::hash::group_hash_axioms;

/// One cell of a row: a sibling element and its similarity to the row's element.
#[derive(Clone, Copy, Debug, PartialEq, Eq)]
pub struct Score {
    pub sibling_index: Index,
    pub similarity: Similarity,
}

impl Ranked for Score {
    /// The greater similarity comes first, and of two equal similarities the
    /// lower sibling.
    open spec fn precedes(self, other: Self) -> bool {
        self.similarity > other.similarity || (self.similarity == other.similarity
            && self.sibling_index <= other.sibling_index)
    }

    fn comes_before(&self, other: &Self) -> (b: bool) {
        self.similarity > other.similarity || (self.similarity == other.similarity
            && self.sibling_index <= other.sibling_index)
    }

    proof fn lemma_total_order() {
    }
}

/// How an element stands among the others: the number of its siblings and
/// the sum of their similarities.
#[derive(Clone, Copy, Debug, PartialEq, Eq)]
pub struct Standing {
    pub index: Index,
    pub degree: Size,
    pub weight: u128,
}

impl Ranked for Standing {
    /// More siblings come first, then the greater weight, then the lower index.
    open spec fn precedes(self, other: Self) -> bool {
        self.degree > other.degree || (self.degree == other.degree && (self.weight > other.weight
            || (self.weight == other.weight && self.index <= other.index)))
    }

    fn comes_before(&self, other: &Self) -> (b: bool) {
        self.degree > other.degree || (self.degree == other.degree && (self.weight > other.weight
            || (self.weight == other.weight && self.index <= other.index)))
    }

    proof fn lemma_total_order() {
    }
}

/// The reasons for which no matrix is made.
#[derive(Clone, Copy, Debug, PartialEq, Eq)]
pub enum MatrixError {
    /// There are no elements.
    InvalidInput,
    /// A pair, or a selected index, names an element that does not exist.
    IndexOutOfRange,
    /// A pair joins an element with itself.
    SelfPair,
    /// Two pairs join the same elements, or an index is selected twice.
    Duplicate,
}

/// Each row holds the scores of the siblings of one element, the most similar first.
#[derive(Debug)]
pub struct Row {
    scores: Vec<Score>,
}

impl View for Row {
    type V = Seq<Score>;

    closed spec fn view(&self) -> Seq<Score> {
        self.scores@
    }
}

impl Row {
    /// The scores of a row never rise.
    #[verifier::type_invariant]
    pub closed spec fn in_order(self) -> bool {
        descending(self.scores@)
    }

    /// A row of the given scores, put in order: the most similar first, and
    /// of equally similar siblings the lower index first.
    pub fn new(scores: Vec<Score>) -> (row: Row)
        ensures
            row@ == ranked(scores@),
            descending(row@),
    {
        let sorted = sort(&scores);
        proof {
            crate::ordering::lemma_ranked(scores@);
            lemma_ranked_descending(sorted@);
        }
        Row { scores: sorted }
    }

    /// A row of scores that are in order already.
    pub(crate) fn from_descending(scores: Vec<Score>) -> (row: Row)
        requires
            descending(scores@),
        ensures
            row@ == scores@,
    {
        Row { scores }
    }

    /// The scores of this row, which never rise.
    pub fn scores(&self) -> (scores: &Vec<Score>)
        ensures
            scores@ == self@,
            descending(self@),
    {
        proof {
            use_type_invariant(self);
        }
        &self.scores
    }

    /// The similarity that this row records for the sibling `index`, zero
    /// where it records none.
    pub fn index(&self, index: Index) -> (similarity: Similarity)
        ensures
            similarity == recorded(self@, index),
    {
        let mut k: usize = 0;
        assert(self.scores@.skip(0) =~= self.scores@);
        while k < self.scores.len()
            invariant
                k <= self.scores.len(),
                recorded(self.scores@, index) == recorded(self.scores@.skip(k as int), index),
            decreases self.scores.len() - k,
        {
            let ghost rest = self.scores@.skip(k as int);
            assert(rest[0] == self.scores@[k as int]);
            assert(rest.drop_first() =~= self.scores@.skip(k + 1));
            if self.scores[k].sibling_index == index {
                return self.scores[k].similarity;
            }
            k = k + 1;
        }
        0
    }

    /// The siblings whose similarity is at least `similarity`, in the row's order.
    pub fn cut_at(&self, similarity: Similarity) -> (cut: Vec<Index>)
        ensures
            cut@ == siblings(self@.filter(at_least(similarity))),
    {
        let mut cut: Vec<Index> = Vec::new();
        let ghost pred = at_least(similarity);
        assert(self.scores@.take(0).filter(pred) =~= Seq::<Score>::empty()) by {
            reveal(Seq::filter);
        }
        for k in 0..self.scores.len()
            invariant
                pred == at_least(similarity),
                cut@ == siblings(self.scores@.take(k as int).filter(pred)),
        {
            proof {
                lemma_filter_step(self.scores@, k as int, pred);
            }
            let ghost before = self.scores@.take(k as int).filter(pred);
            if self.scores[k].similarity >= similarity {
                cut.push(self.scores[k].sibling_index);
                assert(cut@ =~= siblings(before.push(self.scores@[k as int])));
            }
        }
        assert(self.scores@.take(self.scores@.len() as int) =~= self.scores@);
        cut
    }

    /// The siblings that are not in `excluding`, the most similar first.
    pub fn ranked_siblings(&self, excluding: &HashSet<Index>) -> (ranked: Vec<Index>)
        ensures
            ranked@ == siblings(self@.filter(outside(excluding@))),
            descending(self@.filter(outside(excluding@))),
    {
        let mut ranked: Vec<Index> = Vec::new();
        let ghost pred = outside(excluding@);
        assert(self.scores@.take(0).filter(pred) =~= Seq::<Score>::empty()) by {
            reveal(Seq::filter);
        }
        for k in 0..self.scores.len()
            invariant
                pred == outside(excluding@),
                ranked@ == siblings(self.scores@.take(k as int).filter(pred)),
        {
            proof {
                lemma_filter_step(self.scores@, k as int, pred);
            }
            let ghost before = self.scores@.take(k as int).filter(pred);
            if !excluding.contains(&self.scores[k].sibling_index) {
                ranked.push(self.scores[k].sibling_index);
                assert(ranked@ =~= siblings(before.push(self.scores@[k as int])));
            }
        }
        proof {
            assert(self.scores@.take(self.scores@.len() as int) =~= self.scores@);
            use_type_invariant(self);
            lemma_filter_descending(self.scores@, pred);
        }
        ranked
    }
}

/// The graph that a vector of rows stands for.
pub open spec fn rows_view(rows: Seq<Row>) -> Graph {
    Seq::new(rows.len(), |i: int| rows[i]@)
}

/// The weight of a row grows by the similarity of each further score.
pub proof fn lemma_weight_step(row: Seq<Score>, k: int)
    requires
        0 <= k < row.len(),
    ensures
        weight(row.take(k + 1)) == weight(row.take(k)) + row[k].similarity,
        weight(row.take(0)) == 0,
{
    assert(row.take(k + 1).drop_last() =~= row.take(k));
    assert(row.take(k + 1).last() == row[k]);
}

/// A simple, sparse similarity matrix. It has one row for each element of the
/// input set, and a row holds scores only for the siblings whose similarity
/// reaches the matrix's minimum. The matrix is symmetric: where row `i` holds
/// a similarity for `j`, row `j` holds the same for `i`.
#[derive(Debug)]
pub struct SimilarityMatrix {
    /// The rows, each with the scores of the siblings of one element.
    rows: Vec<Row>,
    /// The minimum similarity that the matrix was made with.
    min_similarity: Similarity,
    /// The distinct similarities present in the matrix, in rising order.
    similarity_values: Vec<Similarity>,
}

impl View for SimilarityMatrix {
    type V = Graph;

    closed spec fn view(&self) -> Graph {
        rows_view(self.rows@)
    }
}

impl SimilarityMatrix {
    /// The minimum similarity that the matrix was made with.
    pub closed spec fn floor(&self) -> Similarity {
        self.min_similarity
    }

    /// The distinct similarities present in the matrix.
    pub closed spec fn values(&self) -> Seq<Similarity> {
        self.similarity_values@
    }

    /// Every matrix is a well-formed graph whose similarities reach its
    /// minimum, and it lists them, each once, in rising order.
    #[verifier::type_invariant]
    pub open spec fn sound(self) -> bool {
        &&& well_formed(self@)
        &&& bounded_below(self@, self.floor())
        &&& lists_values(self@, self.values())
    }

    /// A matrix has no more rows than can be counted.
    pub proof fn lemma_size_fits(&self)
        ensures
            self@.len() <= usize::MAX,
    {
        assert(self.rows@.len() == self.rows.len());
    }

    /// Puts a matrix together from its parts.
    pub(crate) fn assemble(
        rows: Vec<Row>,
        min_similarity: Similarity,
        similarity_values: Vec<Similarity>,
    ) -> (matrix: SimilarityMatrix)
        requires
            well_formed(rows_view(rows@)),
            bounded_below(rows_view(rows@), min_similarity),
            lists_values(rows_view(rows@), similarity_values@),
        ensures
            matrix@ == rows_view(rows@),
            matrix.floor() == min_similarity,
            matrix.values() == similarity_values@,
            matrix.sound(),
    {
        SimilarityMatrix { rows, min_similarity, similarity_values }
    }

    /// Return the size of this matrix: the number of its rows.
    pub fn size(&self) -> (size: Size)
        ensures
            size == self@.len(),
    {
        self.rows.len()
    }

    /// Return the row at a given position.
    pub fn index(&self, index: Index) -> (row: &Row)
        requires
            index < self@.len(),
        ensures
            row@ == self@[index as int],
    {
        &self.rows[index]
    }

    /// The rows of this matrix.
    pub fn rows(&self) -> (rows: &Vec<Row>)
        ensures
            rows_view(rows@) == self@,
    {
        &self.rows
    }

    /// The minimum similarity that this matrix was made with, which every
    /// similarity in it reaches.
    pub fn min_similarity(&self) -> (floor: Similarity)
        ensures
            floor == self.floor(),
            bounded_below(self@, floor),
    {
        proof {
            use_type_invariant(self);
        }
        self.min_similarity
    }

    /// The distinct similarities present in this matrix, in rising order.
    pub fn similarity_values(&self) -> (values: &Vec<Similarity>)
        ensures
            values@ == self.values(),
            lists_values(self@, values@),
    {
        proof {
            use_type_invariant(self);
        }
        &self.similarity_values
    }

    /// The elements from the best connected down: those with more siblings
    /// come first, among them those whose similarities sum up to more, and
    /// among those the lower index.
    pub fn rank_by_weight(&self) -> (order: Vec<Index>)
        ensures
            order@ == ranking(self@),
    {
        let mut standings: Vec<Standing> = Vec::new();
        for i in 0..self.rows.len()
            invariant
                standings@ == model::standings(self@).take(i as int),
        {
            let scores = self.rows[i].scores();
            let mut sum: u128 = 0;
            for k in 0..scores.len()
                invariant
                    scores@ == self@[i as int],
                    sum == weight(scores@.take(k as int)),
                    sum <= k * 0xFFFF_FFFF_FFFF_FFFF,
            {
                proof {
                    lemma_weight_step(scores@, k as int);
                    assert((k + 1) * 0xFFFF_FFFF_FFFF_FFFF <= 0xFFFF_FFFF_FFFF_FFFF
                        * 0xFFFF_FFFF_FFFF_FFFF) by (nonlinear_arith)
                        requires
                            k + 1 <= 0xFFFF_FFFF_FFFF_FFFF,
                    ;
                }
                sum = sum + scores[k].similarity as u128;
            }
            assert(scores@.take(scores@.len() as int) =~= scores@);
            standings.push(Standing { index: i, degree: scores.len(), weight: sum });
            assert(standings@ =~= model::standings(self@).take(i + 1));
        }
        assert(model::standings(self@).take(self@.len() as int) =~= model::standings(self@));
        let sorted = sort(&standings);
        let mut order: Vec<Index> = Vec::new();
        for i in 0..sorted.len()
            invariant
                order@ == sorted@.take(i as int).map_values(|s: Standing| s.index),
        {
            order.push(sorted[i].index);
            assert(order@ =~= sorted@.take(i + 1).map_values(|s: Standing| s.index));
        }
        assert(sorted@.take(sorted@.len() as int) =~= sorted@);
        order
    }
}

} // verus!
