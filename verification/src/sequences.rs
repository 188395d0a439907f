//! What holds of sequences: of what filtering leaves, and of sequences that
//! hold the same elements in another order.

use vstd::multiset::group_multiset_axioms;
use vstd::prelude::*;
use vstd::relations::sorted_by;
use vstd::seq_lib::{to_multiset_build, to_multiset_remove};

verus! {

/// Whether `to` says where in `t` each element of `s` stands: place `k` of
/// `s` goes to place `to[k]` of `t`, and no two places go to the same one.
pub open spec fn rearranges<A>(s: Seq<A>, t: Seq<A>, to: Seq<int>) -> bool {
    &&& to.len() == s.len()
    &&& t.len() == s.len()
    &&& forall|k: int| 0 <= k < s.len() ==> 0 <= #[trigger] to[k] < t.len() && s[k] == t[to[k]]
    &&& forall|k: int, l: int| 0 <= k < l < s.len() ==> #[trigger] to[k] != #[trigger] to[l]
}

/// Two sequences that hold the same elements, each as often as the other,
/// differ by a rearrangement.
pub proof fn lemma_rearrangement<A>(s: Seq<A>, t: Seq<A>) -> (to: Seq<int>)
    requires
        s.to_multiset() == t.to_multiset(),
    ensures
        rearranges(s, t, to),
    decreases s.len(),
{
    broadcast use group_multiset_axioms;

    s.to_multiset_ensures();
    t.to_multiset_ensures();
    if s.len() == 0 {
        Seq::empty()
    } else {
        let x = s.last();
        let n = s.len() - 1;
        assert(s.to_multiset().count(x) > 0) by {
            assert(s[n] == x);
            assert(s.contains(x));
        }
        assert(t.contains(x));
        let m = choose|m: int| 0 <= m < t.len() && t[m] == x;
        let front = s.drop_last();
        let rest = t.remove(m);
        to_multiset_remove(s, n);
        to_multiset_remove(t, m);
        assert(s.remove(n) =~= front);
        assert(front.to_multiset() =~= rest.to_multiset());
        let inner = lemma_rearrangement(front, rest);
        let to = Seq::new(s.len(), |k: int| if k == n { m } else if inner[k] < m { inner[k] } else { inner[k] + 1 });
        assert forall|k: int| 0 <= k < s.len() implies 0 <= #[trigger] to[k] < t.len() && s[k]
            == t[to[k]] by {
            if k < n {
                assert(0 <= inner[k] < rest.len());
                assert(front[k] == rest[inner[k]]);
            }
        }
        assert forall|k: int, l: int| 0 <= k < l < s.len() implies #[trigger] to[k]
            != #[trigger] to[l] by {
            if l < n {
                assert(inner[k] != inner[l]);
            } else {
                assert(0 <= inner[k] < rest.len());
            }
        }
        to
    }
}

/// How often a value is found in what filtering leaves: as often as before
/// where the value passes, and never where it does not.
pub proof fn lemma_filter_count<A>(s: Seq<A>, pred: spec_fn(A) -> bool, x: A)
    ensures
        s.filter(pred).to_multiset().count(x) == if pred(x) {
            s.to_multiset().count(x)
        } else {
            0
        },
    decreases s.len(),
{
    broadcast use group_multiset_axioms;

    reveal(Seq::filter);
    if s.len() == 0 {
        s.to_multiset_ensures();
        assert(s.to_multiset().len() == 0);
        assert(s.to_multiset().count(x) == 0);
    } else {
        let front = s.drop_last();
        lemma_filter_count(front, pred, x);
        assert(front.push(s.last()) =~= s);
        to_multiset_build(front, s.last());
        if pred(s.last()) {
            to_multiset_build(front.filter(pred), s.last());
        }
    }
}

/// Filtering two sequences that hold the same elements leaves sequences that
/// hold the same elements.
pub proof fn lemma_filter_of_permutation<A>(s: Seq<A>, t: Seq<A>, pred: spec_fn(A) -> bool)
    requires
        s.to_multiset() == t.to_multiset(),
    ensures
        s.filter(pred).to_multiset() == t.filter(pred).to_multiset(),
{
    broadcast use group_multiset_axioms;

    assert forall|x: A|
        s.filter(pred).to_multiset().count(x) == t.filter(pred).to_multiset().count(x) by {
        lemma_filter_count(s, pred, x);
        lemma_filter_count(t, pred, x);
    }
    assert(s.filter(pred).to_multiset() =~= t.filter(pred).to_multiset());
}

/// What filtering makes of a sequence that grows by one element.
pub proof fn lemma_filter_step<A>(s: Seq<A>, k: int, pred: spec_fn(A) -> bool)
    requires
        0 <= k < s.len(),
    ensures
        s.take(k + 1).filter(pred) == if pred(s[k]) {
            s.take(k).filter(pred).push(s[k])
        } else {
            s.take(k).filter(pred)
        },
{
    assert(s.take(k + 1) =~= s.take(k).push(s[k]));
    s.take(k).lemma_filter_push(s[k], pred);
}

/// Filtering keeps what holds between each element and every later one.
pub proof fn lemma_filter_keeps_order<A>(
    s: Seq<A>,
    pred: spec_fn(A) -> bool,
    rel: spec_fn(A, A) -> bool,
)
    requires
        sorted_by(s, rel),
    ensures
        sorted_by(s.filter(pred), rel),
    decreases s.len(),
{
    reveal(Seq::filter);
    if s.len() > 0 {
        let front = s.drop_last();
        assert(sorted_by(front, rel)) by {
            assert forall|a: int, b: int| 0 <= a < b < front.len() implies #[trigger] rel(
                front[a],
                front[b],
            ) by {
                assert(rel(s[a], s[b]));
            }
        }
        lemma_filter_keeps_order(front, pred, rel);
        if pred(s.last()) {
            let passed = front.filter(pred);
            assert forall|a: int, b: int| 0 <= a < b < s.filter(pred).len() implies #[trigger] rel(
                s.filter(pred)[a],
                s.filter(pred)[b],
            ) by {
                if b == passed.len() {
                    front.lemma_filter_contains_rev(pred, passed[a]);
                    let k = choose|k: int| 0 <= k < front.len() && front[k] == passed[a];
                    assert(rel(s[k], s[s.len() - 1]));
                } else {
                    assert(rel(passed[a], passed[b]));
                }
            }
        }
    }
}

/// Filtering by two conditions that agree on the elements of a sequence
/// gives the same.
pub proof fn lemma_filter_agree<A>(s: Seq<A>, p: spec_fn(A) -> bool, q: spec_fn(A) -> bool)
    requires
        forall|k: int| 0 <= k < s.len() ==> p(#[trigger] s[k]) == q(s[k]),
    ensures
        s.filter(p) == s.filter(q),
    decreases s.len(),
{
    reveal(Seq::filter);
    if s.len() > 0 {
        let front = s.drop_last();
        assert forall|k: int| 0 <= k < front.len() implies p(#[trigger] front[k]) == q(
            front[k],
        ) by {
            assert(front[k] == s[k]);
        }
        lemma_filter_agree(front, p, q);
        assert(p(s[s.len() - 1]) == q(s[s.len() - 1]));
    }
}

/// Filtering by a condition that every element meets changes nothing.
pub proof fn lemma_filter_all<A>(s: Seq<A>, p: spec_fn(A) -> bool)
    requires
        forall|k: int| 0 <= k < s.len() ==> p(#[trigger] s[k]),
    ensures
        s.filter(p) == s,
    decreases s.len(),
{
    reveal(Seq::filter);
    if s.len() > 0 {
        let front = s.drop_last();
        assert forall|k: int| 0 <= k < front.len() implies p(#[trigger] front[k]) by {
            assert(front[k] == s[k]);
        }
        lemma_filter_all(front, p);
        assert(p(s[s.len() - 1]));
        assert(front.push(s.last()) =~= s);
    }
}

/// The set of a sequence that grows by one element grows by that element.
pub proof fn lemma_push_to_set<A>(s: Seq<A>, x: A)
    ensures
        s.push(x).to_set() == s.to_set().insert(x),
{
    assert forall|y: A| s.push(x).to_set().contains(y) <==> s.to_set().insert(x).contains(y) by {
        if s.push(x).contains(y) {
            let k = choose|k: int| 0 <= k < s.push(x).len() && s.push(x)[k] == y;
            if k < s.len() {
                assert(s[k] == y);
            }
        }
        if s.contains(y) {
            let k = choose|k: int| 0 <= k < s.len() && s[k] == y;
            assert(s.push(x)[k] == y);
        }
        if y == x {
            assert(s.push(x)[s.len() as int] == x);
        }
    }
    assert(s.push(x).to_set() =~= s.to_set().insert(x));
}

} // verus!
