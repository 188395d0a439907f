//! Index pair generation strategies.

use vstd::prelude::*;

use crate::Index;

/// Every pair of elements.
pub mod cartesian;

/// The pairs of strings that share an n-gram.
pub mod ngrams;

/// Index pairs that the caller lists.
pub mod listed;

verus! {

/// Pair of indices of candidate elements to be considered for clustering together.
pub type IndexPair = (Index, Index);

/// Iterator over index pairs to be considered for clustering together: a
/// finite sequence of pending pairs, handed out one by one.
pub trait IndexPairIterator {
    /// The pairs that are still to come, in their order.
    spec fn pending(&self) -> Seq<IndexPair>;

    /// Return the next index pair: the first of the pending ones, which then
    /// is pending no more. Once none is pending, none is returned.
    fn next(&mut self) -> (pair: Option<IndexPair>)
        ensures
            match pair {
                Some(pair) => old(self).pending().len() > 0 && pair == old(self).pending()[0]
                    && final(self).pending() == old(self).pending().drop_first(),
                None => old(self).pending().len() == 0 && final(self).pending().len() == 0,
            },
    ;
}

/// All the pairs that are still to come, in their order. None is pending
/// afterwards.
pub fn drain<I: IndexPairIterator>(pairs: &mut I) -> (all: Vec<IndexPair>)
    ensures
        all@ == old(pairs).pending(),
        final(pairs).pending().len() == 0,
{
    let mut all: Vec<IndexPair> = Vec::new();
    loop
        invariant
            all@ + pairs.pending() == old(pairs).pending(),
        ensures
            all@ == old(pairs).pending(),
            pairs.pending().len() == 0,
        decreases pairs.pending().len(),
    {
        let ghost before = pairs.pending();
        match pairs.next() {
            Some(pair) => {
                all.push(pair);
                assert(all@ + pairs.pending() =~= old(pairs).pending()) by {
                    assert(before =~= seq![pair] + before.drop_first());
                }
            },
            None => {
                assert(all@ + pairs.pending() =~= all@);
                break;
            },
        }
    }
    all
}

} // verus!
