//! The distinct similarities of a matrix.

use vstd::prelude::*;

use super::model::{lists_values, occurs};
use super::{rows_view, Row};
use crate::sim_metric::Similarity;

verus! {

/// `itertools::sorted` on a vector of similarities: the result holds what the
/// argument held, each value as often as before, in rising order. The
/// function collects its argument into a vector and sorts it with the
/// standard stable sort; integers are ordered by their value.
#[verifier::external_body]
fn sorted_similarities(values: Vec<Similarity>) -> (sorted: Vec<Similarity>)
    ensures
        sorted@.to_multiset() == values@.to_multiset(),
        forall|a: int, b: int| 0 <= a < b < sorted@.len() ==> sorted@[a] <= sorted@[b],
{
    itertools::sorted(values).collect()
}

/// All the similarities of the rows, one for each score.
fn gather(rows: &Vec<Row>) -> (all: Vec<Similarity>)
    ensures
        forall|value: Similarity| all@.contains(value) <==> occurs(rows_view(rows@), value),
{
    let ghost g = rows_view(rows@);
    let mut all: Vec<Similarity> = Vec::new();
    for i in 0..rows.len()
        invariant
            g == rows_view(rows@),
            forall|p: int| 0 <= p < all@.len() ==> occurs(g, #[trigger] all@[p]),
            forall|r: int, k: int|
                0 <= r < i && 0 <= k < g[r].len() ==> all@.contains((#[trigger] g[r][k]).similarity),
    {
        let scores = rows[i].scores();
        for k in 0..scores.len()
            invariant
                g == rows_view(rows@),
                0 <= i < rows@.len(),
                scores@ == g[i as int],
                forall|p: int| 0 <= p < all@.len() ==> occurs(g, #[trigger] all@[p]),
                forall|r: int, l: int|
                    0 <= r < i && 0 <= l < g[r].len() ==> all@.contains(
                        (#[trigger] g[r][l]).similarity,
                    ),
                forall|l: int|
                    0 <= l < k ==> all@.contains((#[trigger] g[i as int][l]).similarity),
        {
            let ghost before = all@;
            all.push(scores[k].similarity);
            proof {
                assert(all@[before.len() as int] == g[i as int][k as int].similarity);
                assert forall|p: int| 0 <= p < all@.len() implies occurs(g, #[trigger] all@[p]) by {
                    if p < before.len() {
                        assert(all@[p] == before[p]);
                    } else {
                        assert(g[i as int][k as int].similarity == all@[p]);
                    }
                }
                assert forall|value: Similarity| before.contains(value) implies all@.contains(
                    value,
                ) by {
                    let p = choose|p: int| 0 <= p < before.len() && before[p] == value;
                    assert(all@[p] == value);
                }
            }
        }
    }
    proof {
        assert forall|value: Similarity| occurs(g, value) implies all@.contains(value) by {
            let (r, k) = choose|r: int, k: int|
                0 <= r < g.len() && 0 <= k < g[r].len() && (#[trigger] g[r][k]).similarity
                    == value;
            assert(all@.contains(g[r][k].similarity));
        }
    }
    all
}

/// The distinct similarities of the rows, in rising order.
pub(crate) fn distinct_values(rows: &Vec<Row>) -> (values: Vec<Similarity>)
    ensures
        lists_values(rows_view(rows@), values@),
{
    let all = gather(rows);
    let sorted = sorted_similarities(all);
    let mut values: Vec<Similarity> = Vec::new();
    for p in 0..sorted.len()
        invariant
            forall|a: int, b: int| 0 <= a < b < sorted@.len() ==> sorted@[a] <= sorted@[b],
            forall|a: int, b: int| 0 <= a < b < values@.len() ==> values@[a] < values@[b],
            forall|a: int| 0 <= a < values@.len() ==> sorted@.contains(#[trigger] values@[a]),
            forall|q: int| 0 <= q < p ==> values@.contains(#[trigger] sorted@[q]),
            p > 0 ==> values@.len() > 0 && values@.last() == sorted@[p - 1],
            p == 0 ==> values@.len() == 0,
    {
        let ghost before = values@;
        if p == 0 || sorted[p] != sorted[p - 1] {
            values.push(sorted[p]);
            proof {
                assert(values@[before.len() as int] == sorted@[p as int]);
                assert forall|q: int| 0 <= q <= p implies values@.contains(
                    #[trigger] sorted@[q],
                ) by {
                    if q < p {
                        let a = choose|a: int| 0 <= a < before.len() && before[a] == sorted@[q];
                        assert(values@[a] == sorted@[q]);
                    }
                }
                assert forall|a: int, b: int| 0 <= a < b < values@.len() implies values@[a]
                    < values@[b] by {
                    if b == before.len() {
                        assert(before[a] <= before.last()) by {
                            if a < before.len() - 1 {
                                assert(before[a] < before[before.len() - 1]);
                            }
                        }
                    } else {
                        assert(before[a] < before[b]);
                    }
                }
            }
        } else {
            proof {
                assert forall|q: int| 0 <= q <= p implies values@.contains(
                    #[trigger] sorted@[q],
                ) by {
                    if q == p {
                        assert(values@[values@.len() - 1] == sorted@[q]);
                    }
                }
            }
        }
    }
    proof {
        let g = rows_view(rows@);
        broadcast use vstd::seq_lib::group_to_multiset_ensures;

        assert forall|value: Similarity| values@.contains(value) <==> occurs(g, value) by {
            if values@.contains(value) {
                let a = choose|a: int| 0 <= a < values@.len() && values@[a] == value;
                assert(sorted@.contains(values@[a]));
                assert(sorted@.to_multiset().count(value) > 0);
                assert(all@.contains(value));
            }
            if occurs(g, value) {
                assert(all@.contains(value));
                assert(all@.to_multiset().count(value) > 0);
                assert(sorted@.contains(value));
                let q = choose|q: int| 0 <= q < sorted@.len() && sorted@[q] == value;
                assert(values@.contains(sorted@[q]));
            }
        }
    }
    values
}

} // verus!
