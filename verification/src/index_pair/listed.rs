//! Index pairs that the caller lists.

use vstd::prelude::*;

use super::{IndexPair, IndexPairIterator};
use crate::Index;

verus! {

/// The pairs of a list, in the order of the list.
#[derive(Debug)]
pub struct ListedPairs {
    /// The listed index pairs.
    pairs: Vec<IndexPair>,
    /// The current iteration index.
    current_index: Index,
}

impl ListedPairs {
    /// The iteration is within the pairs or at their end.
    #[verifier::type_invariant]
    pub closed spec fn in_range(self) -> bool {
        self.current_index <= self.pairs@.len()
    }

    /// An iterator over the listed pairs.
    pub fn new(pairs: Vec<IndexPair>) -> (listed: ListedPairs)
        ensures
            listed.pending() == pairs@,
    {
        assert(pairs@.skip(0) =~= pairs@);
        ListedPairs { pairs, current_index: 0 }
    }
}

impl IndexPairIterator for ListedPairs {
    /// The listed pairs from the current one on.
    closed spec fn pending(&self) -> Seq<IndexPair> {
        self.pairs@.skip(self.current_index as int)
    }

    /// Return the next index pair.
    fn next(&mut self) -> (pair: Option<IndexPair>)
        ensures
            pair is None ==> *final(self) == *old(self),
    {
        proof {
            use_type_invariant(&*self);
        }
        if self.current_index == self.pairs.len() {
            None
        } else {
            let pair = self.pairs[self.current_index];
            self.current_index = self.current_index + 1;
            assert(self.pending() =~= old(self).pending().drop_first());
            Some(pair)
        }
    }
}

} // verus!
