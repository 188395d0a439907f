//! Clustering of elements by their similarity.
//!
//! The elements of a set are known by their indices only. Of the pairs of
//! elements that a caller names, a [`sim_matrix::SimilarityMatrix`] keeps
//! those that a metric finds similar enough: a sparse, symmetric graph. A
//! [`cluster::Clusterer`] parts the elements of such a matrix into clusters:
//! the best connected element claims its siblings, then the best connected
//! of the others claims those of its siblings that are still free, and so
//! on, and a cluster that is neither small nor the whole matrix is
//! clustered again on its own part of the matrix.
//!
//! Contracts speak of a matrix as of a sequence of rows of scores
//! ([`sim_matrix::model`]), and of a clustering as of a sequence of
//! sequences of indices ([`cluster::clusters_of`]). What holds of every
//! matrix and every clustering is proved in [`sim_matrix::laws`],
//! [`cluster::partition`] and [`cluster::boundary`].

use vstd::prelude::*;

/// Index pairs for similarity comparison.
pub mod index_pair;

/// Metrics for measuring similarity.
pub mod sim_metric;

/// Sorting by a total order.
pub mod ordering;

/// What holds of sequences.
pub mod sequences;

/// Similarity matrix.
pub mod sim_matrix;

/// Clustering algorithm.
pub mod cluster;

/// Miscellaneous utility functions.
pub mod utils;

verus! {

/// The count of elements in an input set.
pub type Size = usize;

/// An index into the input set to be clustered. Elements are referred to by
/// their indices, never by their content.
pub type Index = usize;

} // verus!
