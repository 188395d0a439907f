//! Sorting by a total order that a type carries with it.

use vstd::prelude::*;
use vstd::relations::{sorted_by, total_ordering};
use vstd::seq_lib::{
    group_to_multiset_ensures, lemma_multiset_commutative, lemma_sorted_unique, to_multiset_build,
};

verus! {

/// A value with a total order of its own: of any two values one comes first,
/// and two values that come before each other are the same value.
pub trait Ranked: Copy {
    /// Whether `self` comes before `other`, or is `other`.
    spec fn precedes(self, other: Self) -> bool;

    /// Decides [`Ranked::precedes`].
    fn comes_before(&self, other: &Self) -> (b: bool)
        ensures
            b == self.precedes(*other),
    ;

    /// [`Ranked::precedes`] is a total order: reflexive, antisymmetric,
    /// transitive, and defined between any two values.
    proof fn lemma_total_order()
        ensures
            forall|a: Self| #[trigger] a.precedes(a),
            forall|a: Self, b: Self| #[trigger] a.precedes(b) && #[trigger] b.precedes(a) ==> a == b,
            forall|a: Self, b: Self, c: Self|
                #[trigger] a.precedes(b) && #[trigger] b.precedes(c) ==> a.precedes(c),
            forall|a: Self, b: Self| #[trigger] a.precedes(b) || #[trigger] b.precedes(a),
    ;
}

/// The order of a ranked type as a relation.
pub open spec fn rank_order<T: Ranked>() -> spec_fn(T, T) -> bool {
    |a: T, b: T| a.precedes(b)
}

/// The order of a ranked type is a total order in the sense of `vstd`.
pub proof fn lemma_rank_order_total<T: Ranked>()
    ensures
        total_ordering(rank_order::<T>()),
{
    T::lemma_total_order();
    let r = rank_order::<T>();
    assert forall|a: T| #[trigger] r(a, a) by {
        assert(a.precedes(a));
    }
    assert forall|a: T, b: T| #[trigger] r(a, b) && #[trigger] r(b, a) implies a == b by {
        assert(a.precedes(b) && b.precedes(a));
    }
    assert forall|a: T, b: T, c: T| #[trigger] r(a, b) && #[trigger] r(b, c) implies r(a, c) by {
        assert(a.precedes(b) && b.precedes(c));
    }
    assert forall|a: T, b: T| #[trigger] r(a, b) || #[trigger] r(b, a) by {
        assert(a.precedes(b) || b.precedes(a));
    }
}

/// A sequence in the order of its type: no element comes after a later one.
pub open spec fn is_ranked<T: Ranked>(s: Seq<T>) -> bool {
    sorted_by(s, rank_order::<T>())
}

/// The elements of `s` in the order of their type.
pub open spec fn ranked<T: Ranked>(s: Seq<T>) -> Seq<T> {
    s.sort_by(rank_order::<T>())
}

/// The ranked form of a sequence is in order and holds the same elements,
/// each as often as before.
pub proof fn lemma_ranked<T: Ranked>(s: Seq<T>)
    ensures
        is_ranked(ranked(s)),
        ranked(s).to_multiset() == s.to_multiset(),
        ranked(s).len() == s.len(),
{
    broadcast use group_to_multiset_ensures;

    lemma_rank_order_total::<T>();
    s.lemma_sort_by_ensures(rank_order::<T>());
    s.to_multiset_ensures();
    ranked(s).to_multiset_ensures();
}

/// A sequence in order that holds the elements of `s` is the ranked form of `s`.
pub proof fn lemma_ranked_unique<T: Ranked>(s: Seq<T>, r: Seq<T>)
    requires
        is_ranked(r),
        r.to_multiset() == s.to_multiset(),
    ensures
        r == ranked(s),
{
    lemma_rank_order_total::<T>();
    lemma_ranked(s);
    lemma_sorted_unique(r, ranked(s), rank_order::<T>());
}

/// Two sequences with the same elements have the same ranked form.
pub proof fn lemma_ranked_of_permutation<T: Ranked>(s: Seq<T>, t: Seq<T>)
    requires
        s.to_multiset() == t.to_multiset(),
    ensures
        ranked(s) == ranked(t),
{
    lemma_ranked(s);
    lemma_ranked_unique(t, ranked(s));
}

/// Merges two ranked vectors into one.
fn merge<T: Ranked>(left: &Vec<T>, right: &Vec<T>) -> (merged: Vec<T>)
    requires
        is_ranked(left@),
        is_ranked(right@),
    ensures
        is_ranked(merged@),
        merged@.to_multiset() == left@.to_multiset().add(right@.to_multiset()),
{
    broadcast use {group_to_multiset_ensures, vstd::multiset::group_multiset_axioms};

    let mut merged: Vec<T> = Vec::new();
    let mut i: usize = 0;
    let mut j: usize = 0;
    proof {
        lemma_rank_order_total::<T>();
        assert(left@.take(0) =~= Seq::<T>::empty());
        assert(right@.take(0) =~= Seq::<T>::empty());
        assert(merged@.to_multiset() =~= left@.take(0).to_multiset().add(
            right@.take(0).to_multiset(),
        ));
    }
    while i < left.len() || j < right.len()
        invariant
            i <= left.len(),
            j <= right.len(),
            is_ranked(left@),
            is_ranked(right@),
            is_ranked(merged@),
            total_ordering(rank_order::<T>()),
            merged@.to_multiset() == left@.take(i as int).to_multiset().add(
                right@.take(j as int).to_multiset(),
            ),
            forall|k: int, l: int|
                0 <= k < merged@.len() && i <= l < left@.len() ==> merged@[k].precedes(
                    #[trigger] left@[l],
                ) && #[trigger] merged@[k] == merged@[k],
            forall|k: int, l: int|
                0 <= k < merged@.len() && j <= l < right@.len() ==> merged@[k].precedes(
                    #[trigger] right@[l],
                ) && #[trigger] merged@[k] == merged@[k],
        decreases left.len() - i + right.len() - j,
    {
        let take_left = if i == left.len() {
            false
        } else if j == right.len() {
            true
        } else {
            left[i].comes_before(&right[j])
        };
        let ghost before = merged@;
        if take_left {
            let item = left[i];
            merged.push(item);
            proof {
                assert(left@.take(i + 1) =~= left@.take(i as int).push(item));
                assert(merged@ =~= before.push(item));
                to_multiset_build(before, item);
                to_multiset_build(left@.take(i as int), item);
                assert(merged@.to_multiset() =~= before.to_multiset().insert(item));
                assert(left@.take(i + 1).to_multiset() =~= left@.take(i as int).to_multiset().insert(
                    item,
                ));
                assert(merged@.to_multiset() =~= left@.take(i + 1).to_multiset().add(
                    right@.take(j as int).to_multiset(),
                ));
                assert forall|k: int, l: int|
                    0 <= k < merged@.len() && j <= l < right@.len() implies merged@[k].precedes(
                    #[trigger] right@[l],
                ) && #[trigger] merged@[k] == merged@[k] by {
                    if k == before.len() {
                        assert(rank_order::<T>()(left@[i as int], right@[j as int]));
                        if j < l {
                            assert(rank_order::<T>()(right@[j as int], right@[l]));
                        } else {
                            assert(rank_order::<T>()(right@[j as int], right@[l]));
                        }
                        assert(rank_order::<T>()(left@[i as int], right@[l]));
                    }
                }
                assert forall|k: int, l: int|
                    0 <= k < merged@.len() && i + 1 <= l < left@.len() implies merged@[k].precedes(
                    #[trigger] left@[l],
                ) && #[trigger] merged@[k] == merged@[k] by {
                    if k == before.len() {
                        assert(rank_order::<T>()(left@[i as int], left@[l]));
                    }
                }
                assert forall|a: int, b: int| 0 <= a < b < merged@.len() implies rank_order::<T>()(
                    merged@[a],
                    merged@[b],
                ) by {
                    if b == before.len() {
                        assert(before[a].precedes(left@[i as int]) && before[a] == before[a]);
                    } else {
                        assert(rank_order::<T>()(before[a], before[b]));
                    }
                }
            }
            i = i + 1;
        } else {
            let item = right[j];
            merged.push(item);
            proof {
                assert(right@.take(j + 1) =~= right@.take(j as int).push(item));
                assert(merged@ =~= before.push(item));
                to_multiset_build(before, item);
                to_multiset_build(right@.take(j as int), item);
                assert(merged@.to_multiset() =~= before.to_multiset().insert(item));
                assert(right@.take(j + 1).to_multiset() =~= right@.take(
                    j as int,
                ).to_multiset().insert(item));
                assert(merged@.to_multiset() =~= left@.take(i as int).to_multiset().add(
                    right@.take(j + 1).to_multiset(),
                ));
                assert forall|k: int, l: int|
                    0 <= k < merged@.len() && i <= l < left@.len() implies merged@[k].precedes(
                    #[trigger] left@[l],
                ) && #[trigger] merged@[k] == merged@[k] by {
                    if k == before.len() {
                        assert(rank_order::<T>()(left@[i as int], right@[j as int])
                            || rank_order::<T>()(right@[j as int], left@[i as int]));
                        assert(rank_order::<T>()(right@[j as int], left@[i as int]));
                        if i < l {
                            assert(rank_order::<T>()(left@[i as int], left@[l]));
                        } else {
                            assert(rank_order::<T>()(left@[i as int], left@[l]));
                        }
                        assert(rank_order::<T>()(right@[j as int], left@[l]));
                    }
                }
                assert forall|k: int, l: int|
                    0 <= k < merged@.len() && j + 1 <= l < right@.len() implies merged@[k].precedes(
                    #[trigger] right@[l],
                ) && #[trigger] merged@[k] == merged@[k] by {
                    if k == before.len() {
                        assert(rank_order::<T>()(right@[j as int], right@[l]));
                    }
                }
                assert forall|a: int, b: int| 0 <= a < b < merged@.len() implies rank_order::<T>()(
                    merged@[a],
                    merged@[b],
                ) by {
                    if b == before.len() {
                        assert(before[a].precedes(right@[j as int]) && before[a] == before[a]);
                    } else {
                        assert(rank_order::<T>()(before[a], before[b]));
                    }
                }
            }
            j = j + 1;
        }
    }
    proof {
        assert(left@.take(i as int) =~= left@);
        assert(right@.take(j as int) =~= right@);
    }
    merged
}

/// Sorts the part of `items` from `from` up to `to`.
fn sort_range<T: Ranked>(items: &Vec<T>, from: usize, to: usize) -> (sorted: Vec<T>)
    requires
        from <= to <= items.len(),
    ensures
        is_ranked(sorted@),
        sorted@.to_multiset() == items@.subrange(from as int, to as int).to_multiset(),
    decreases to - from,
{
    if to - from <= 1 {
        let mut sorted: Vec<T> = Vec::new();
        if from < to {
            sorted.push(items[from]);
        }
        assert(sorted@ =~= items@.subrange(from as int, to as int));
        sorted
    } else {
        let middle = from + (to - from) / 2;
        let left = sort_range(items, from, middle);
        let right = sort_range(items, middle, to);
        proof {
            let lower = items@.subrange(from as int, middle as int);
            let upper = items@.subrange(middle as int, to as int);
            assert(items@.subrange(from as int, to as int) =~= lower + upper);
            lemma_multiset_commutative(lower, upper);
        }
        merge(&left, &right)
    }
}

/// Sorts `items` by the order of their type.
pub fn sort<T: Ranked>(items: &Vec<T>) -> (sorted: Vec<T>)
    ensures
        sorted@ == ranked(items@),
{
    let sorted = sort_range(items, 0, items.len());
    proof {
        assert(items@.subrange(0, items.len() as int) =~= items@);
        lemma_ranked_unique(items@, sorted@);
    }
    sorted
}

} // verus!
