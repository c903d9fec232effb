//! Laws of the query contracts: facts that hold of every answer meeting
//! the contracts of `nearest_neighbor`, `nearest_neighbors` and
//! `within_radius`, stated and proved once for all trees and queries.

use crate::kbest::close_part;
use crate::kbest::lemma_picks_best_distance_profile;
use crate::kbest::picks_best;
use crate::metric::MetricItem;
use crate::vptree::within_of;
use vstd::multiset::Multiset;
use vstd::prelude::*;

verus! {

/// Self-nearest: a query that is itself a stored point is its own
/// nearest neighbor. Any `r` meeting `nearest_neighbor`'s contract for a
/// stored query point `q` — stored, and no stored point closer — equals
/// `q`, because the metric laws make `q` the unique point at distance 0.
pub proof fn lemma_self_nearest<T: MetricItem>(s: Multiset<T>, q: T, r: T)
    requires
        s.count(q) > 0,
        s.count(r) > 0,
        forall|p: T| #[trigger] s.count(p) > 0 ==> q.dist(&r) <= q.dist(&p),
    ensures
        r == q,
{
    T::metric_laws(&q, &q, &q);
    assert(q.dist(&r) <= q.dist(&q));
    T::metric_laws(&q, &r, &r);
}

/// Repeated k-nearest queries agree: any two best-`n` selections from
/// the same pool keep, within every distance bound, the same number of
/// candidates. Two runs of the same query can differ only in which
/// exactly-tied points they keep.
pub proof fn lemma_repeated_k_nearest_agree<T>(
    n: int,
    pool: Multiset<(u64, T)>,
    sel1: Multiset<(u64, T)>,
    sel2: Multiset<(u64, T)>,
    d: u64,
)
    requires
        n >= 0,
        picks_best(n, pool, sel1),
        picks_best(n, pool, sel2),
    ensures
        close_part(sel1, d).len() == close_part(sel2, d).len(),
{
    lemma_picks_best_distance_profile(n, pool, sel1, d);
    lemma_picks_best_distance_profile(n, pool, sel2, d);
}

/// Repeated radius queries agree exactly: the contract of
/// `within_radius` pins the returned multiset to a function of the
/// stored points, the query and the radius alone, so two runs return
/// the same points. Queries borrow the tree immutably and cannot change
/// it between runs.
pub proof fn lemma_repeated_radius_agree<T: MetricItem>(
    q: T,
    s: Multiset<T>,
    radius: u64,
    r1: Multiset<T>,
    r2: Multiset<T>,
)
    requires
        r1 == within_of(q, s, radius),
        r2 == within_of(q, s, radius),
    ensures
        r1 == r2,
{
}

} // verus!
