//! How the similarity between two elements is expressed.

use vstd::prelude::*;

verus! {

/// Similarity is a value between zero (no similarity at all) and
/// [`SIMILARITY_ONE`] (actual identity): a fraction of one, counted in units
/// of `1 / SIMILARITY_ONE`. Similarity is the opposite of *distance*.
///
/// Similarities are compared and added up exactly. The unit is a power of
/// two, so that a fraction held in a binary floating-point number that is not
/// below a thousandth has a similarity of its own.
pub type Similarity = u64;

/// The similarity of two identical elements.
pub const SIMILARITY_ONE: Similarity = 0x4000_0000_0000_0000;

} // verus!
