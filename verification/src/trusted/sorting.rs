use itertools::Itertools;
use vstd::prelude::*;
use vstd::relations::sorted_by;

verus! {

/// Lexicographic order on pairs: by the first component, then by the second.
pub open spec fn pair_le(p: (i64, i64), q: (i64, i64)) -> bool {
    p.0 < q.0 || (p.0 == q.0 && p.1 <= q.1)
}

/// [`pair_le`] as a relation.
pub open spec fn pair_order() -> spec_fn((i64, i64), (i64, i64)) -> bool {
    |p: (i64, i64), q: (i64, i64)| pair_le(p, q)
}

/// Sorts pairs with `Itertools::sorted_by_key`, keyed by the pair itself.
///
/// Believed of that function: the result holds the same pairs as the input,
/// each as often, in ascending lexicographic order.
#[verifier::external_body]
pub(crate) fn sorted_pairs(points: Vec<(i64, i64)>) -> (sorted: Vec<(i64, i64)>)
    ensures
        sorted@.to_multiset() == points@.to_multiset(),
        sorted_by(sorted@, pair_order()),
{
    points.into_iter().sorted_by_key(|p| (p.0, p.1)).collect()
}

} // verus!
