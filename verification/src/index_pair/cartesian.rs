//! Every pair of elements, once.

use vstd::prelude::*;

use super::{drain, IndexPair, IndexPairIterator};
use crate::{Index, Size};

verus! {

/// The pairs that follow `(row, column)` among the pairs `(r, c)` with
/// `r < c < size`, row by row and within a row by column.
pub open spec fn pairs_after(size: nat, row: nat, column: nat) -> Seq<IndexPair>
    decreases size - row, size - column,
{
    if row + 1 >= size {
        Seq::empty()
    } else if column + 1 < size {
        seq![(row as usize, (column + 1) as usize)] + pairs_after(size, row, column + 1)
    } else if row + 2 < size {
        seq![((row + 1) as usize, (row + 2) as usize)] + pairs_after(size, row + 1, row + 2)
    } else {
        Seq::empty()
    }
}

/// All the pairs `(r, c)` with `r < c < size`, row by row and within a row by
/// column.
pub open spec fn all_pairs(size: nat) -> Seq<IndexPair> {
    pairs_after(size, 0, 0)
}

/// Whether the pair `(r, c)` comes after `(row, column)`.
pub open spec fn follows(r: Index, c: Index, row: nat, column: nat) -> bool {
    r > row || (r == row && c > column)
}

/// The pairs after a place are the pairs `(r, c)` with `r < c < size` that
/// come after it, each once and each before those that come after it.
pub proof fn lemma_pairs_after(size: nat, row: nat, column: nat)
    requires
        row <= column,
        size <= usize::MAX,
    ensures
        forall|r: Index, c: Index|
            #[trigger] pairs_after(size, row, column).contains((r, c)) <==> r < c < size
                && follows(r, c, row, column),
        forall|a: int, b: int|
            0 <= a < b < pairs_after(size, row, column).len() ==> follows(
                (#[trigger] pairs_after(size, row, column)[b]).0,
                pairs_after(size, row, column)[b].1,
                (#[trigger] pairs_after(size, row, column)[a]).0 as nat,
                pairs_after(size, row, column)[a].1 as nat,
            ),
    decreases size - row, size - column,
{
    let all = pairs_after(size, row, column);
    if row + 1 >= size {
    } else if column + 1 < size {
        let head = (row as usize, (column + 1) as usize);
        let rest = pairs_after(size, row, column + 1);
        lemma_pairs_after(size, row, column + 1);
        lemma_prepended(head, rest, row, column);
    } else if row + 2 < size {
        let head = ((row + 1) as usize, (row + 2) as usize);
        let rest = pairs_after(size, row + 1, row + 2);
        lemma_pairs_after(size, row + 1, row + 2);
        lemma_prepended(head, rest, row, column);
    } else {
    }
}

/// What holds of pairs in order holds of them with an earlier pair in front.
proof fn lemma_prepended(head: IndexPair, rest: Seq<IndexPair>, row: nat, column: nat)
    requires
        follows(head.0, head.1, row, column),
        forall|r: Index, c: Index| #[trigger]
            rest.contains((r, c)) ==> follows(r, c, head.0 as nat, head.1 as nat),
        forall|a: int, b: int|
            0 <= a < b < rest.len() ==> follows(
                (#[trigger] rest[b]).0,
                rest[b].1,
                (#[trigger] rest[a]).0 as nat,
                rest[a].1 as nat,
            ),
    ensures
        forall|r: Index, c: Index| #[trigger]
            (seq![head] + rest).contains((r, c)) <==> (r, c) == head || rest.contains((r, c)),
        forall|a: int, b: int|
            0 <= a < b < (seq![head] + rest).len() ==> follows(
                (#[trigger] (seq![head] + rest)[b]).0,
                (seq![head] + rest)[b].1,
                (#[trigger] (seq![head] + rest)[a]).0 as nat,
                (seq![head] + rest)[a].1 as nat,
            ),
{
    let all = seq![head] + rest;
    assert forall|r: Index, c: Index| #[trigger]
        all.contains((r, c)) <==> (r, c) == head || rest.contains((r, c)) by {
        if all.contains((r, c)) {
            let k = choose|k: int| 0 <= k < all.len() && all[k] == (r, c);
            if k > 0 {
                assert(rest[k - 1] == (r, c));
            }
        }
        if (r, c) == head {
            assert(all[0] == (r, c));
        }
        if rest.contains((r, c)) {
            let k = choose|k: int| 0 <= k < rest.len() && rest[k] == (r, c);
            assert(all[k + 1] == (r, c));
        }
    }
    assert forall|a: int, b: int| 0 <= a < b < all.len() implies follows(
        (#[trigger] all[b]).0,
        all[b].1,
        (#[trigger] all[a]).0 as nat,
        all[a].1 as nat,
    ) by {
        if a == 0 {
            assert(rest.contains(rest[b - 1]));
            assert(rest.contains((rest[b - 1].0, rest[b - 1].1)));
        } else {
            assert(follows(rest[b - 1].0, rest[b - 1].1, rest[a - 1].0 as nat, rest[a - 1].1 as nat));
        }
    }
}

/// The sum of the numbers from one up to `m`.
pub open spec fn triangle(m: nat) -> nat
    decreases m,
{
    if m == 0 {
        0
    } else {
        m + triangle((m - 1) as nat)
    }
}

/// Twice the sum of the numbers up to `m` is `m` times the next number.
pub proof fn lemma_triangle(m: nat)
    ensures
        2 * triangle(m) == m * (m + 1),
    decreases m,
{
    if m > 0 {
        let k = (m - 1) as nat;
        let t = triangle(k);
        lemma_triangle(k);
        assert(2 * (m + t) == m * (m + 1)) by (nonlinear_arith)
            requires
                2 * t == k * (k + 1),
                k + 1 == m,
        ;
    } else {
        assert(m * (m + 1) == 0) by (nonlinear_arith)
            requires
                m == 0,
        ;
    }
}

/// How many pairs follow a place: those left in its row, and those of the
/// rows below.
pub proof fn lemma_pairs_after_count(size: nat, row: nat, column: nat)
    requires
        row <= column < size,
        row + 1 < size,
    ensures
        pairs_after(size, row, column).len() == (size - 1 - column) + triangle(
            (size - 2 - row) as nat,
        ),
    decreases size - row, size - column,
{
    if column + 1 < size {
        lemma_pairs_after_count(size, row, column + 1);
    } else if row + 2 < size {
        lemma_pairs_after_count(size, row + 1, row + 2);
    }
}

/// Of `size` elements there are `size * (size - 1) / 2` pairs.
pub proof fn lemma_all_pairs_count(size: nat)
    ensures
        2 * all_pairs(size).len() == size * (size - 1),
{
    if size >= 2 {
        let k = (size - 2) as nat;
        let t = triangle(k);
        lemma_pairs_after_count(size, 0, 0);
        lemma_triangle(k);
        assert(2 * ((size - 1) + t) == size * (size - 1)) by (nonlinear_arith)
            requires
                k + 2 == size,
                2 * t == k * (k + 1),
        ;
    } else {
        assert(size * (size - 1) == 0) by (nonlinear_arith)
            requires
                size == 0 || size == 1,
        ;
    }
}

/// Cartesian product strategy for index pairs: every pair of a set of
/// elements, the lower index first.
#[derive(Debug)]
pub struct CartesianIndexPairIterator {
    /// The number of elements in the input set.
    size: Size,
    /// Holder for the current iteration row.
    row: Index,
    /// Holder for the current iteration column.
    column: Index,
}

impl CartesianIndexPairIterator {
    /// The place of the iteration is within the set.
    #[verifier::type_invariant]
    pub closed spec fn in_range(self) -> bool {
        self.row <= self.column < self.size
    }

    /// The number of elements in the input set.
    pub closed spec fn count(&self) -> nat {
        self.size as nat
    }

    /// The row and the column of the pair returned last, zero at the start.
    pub closed spec fn place(&self) -> (Index, Index) {
        (self.row, self.column)
    }

    /// Return a new cartesian index pair iterator for a given set size.
    ///
    /// # Arguments
    /// * `size` - The element count for the input set.
    pub fn new(size: Size) -> (pairs: CartesianIndexPairIterator)
        requires
            size > 0,
        ensures
            pairs.count() == size,
            pairs.place() == (0usize, 0usize),
            pairs.pending() == all_pairs(size as nat),
    {
        CartesianIndexPairIterator { size, row: 0, column: 0 }
    }

    /// The number of elements in the input set.
    pub fn size(&self) -> (size: Size)
        ensures
            size == self.count(),
    {
        self.size
    }

    /// The row of the pair returned last, zero at the start.
    pub fn row(&self) -> (row: Index)
        ensures
            row == self.place().0,
    {
        self.row
    }

    /// The column of the pair returned last, zero at the start.
    pub fn column(&self) -> (column: Index)
        ensures
            column == self.place().1,
    {
        self.column
    }

    /// All the pairs that are still to come, in their order.
    pub fn collect(self) -> (pairs: Vec<IndexPair>)
        ensures
            pairs@ == self.pending(),
    {
        let mut rest = self;
        drain(&mut rest)
    }
}

impl IndexPairIterator for CartesianIndexPairIterator {
    /// The pairs that follow the place of the iteration.
    open spec fn pending(&self) -> Seq<IndexPair> {
        pairs_after(self.count(), self.place().0 as nat, self.place().1 as nat)
    }

    /// Return the next index pair, and move to its place.
    fn next(&mut self) -> (pair: Option<IndexPair>)
        ensures
            final(self).count() == old(self).count(),
            pair matches Some(pair) ==> final(self).place() == pair,
            pair is None ==> *final(self) == *old(self),
    {
        proof {
            use_type_invariant(&*self);
        }
        if self.row + 1 >= self.size {
            None
        } else if self.column + 1 < self.size {
            let ghost tail = pairs_after(self.size as nat, self.row as nat, self.column as nat + 1);
            self.column = self.column + 1;
            assert((seq![(self.row, self.column)] + tail).drop_first() =~= tail);
            Some((self.row, self.column))
        } else if self.row + 1 < self.size - 1 {
            let ghost tail = pairs_after(
                self.size as nat,
                self.row as nat + 1,
                self.row as nat + 2,
            );
            self.column = self.row + 2;
            self.row = self.row + 1;
            assert((seq![(self.row, self.column)] + tail).drop_first() =~= tail);
            Some((self.row, self.column))
        } else {
            None
        }
    }
}

} // verus!
