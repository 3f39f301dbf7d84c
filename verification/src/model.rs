//! The mathematical model of aggregation.
//!
//! A record is reduced to `(name, scaled value)`. A partial aggregate is
//! a map from name to `(min, max, sum, count)`. Folding records in, and
//! merging two aggregates, are defined here together with the laws that
//! make concurrency safe: merging is commutative and associative, the
//! fold over a concatenation is the merge of the folds, the fold is
//! invariant under reordering, and a deterministic fan-out filter
//! partitions the fold exactly.

use vstd::prelude::*;
use vstd::seq_lib::group_to_multiset_ensures;

use crate::decimal::SCALED_LIMIT;

verus! {

/// Running statistics for one entity, over unbounded integers.
pub struct GStats {
    pub min: int,
    pub max: int,
    pub sum: int,
    pub count: nat,
}

pub open spec fn int_min(a: int, b: int) -> int {
    if a <= b {
        a
    } else {
        b
    }
}

pub open spec fn int_max(a: int, b: int) -> int {
    if a >= b {
        a
    } else {
        b
    }
}

/// The statistics of a single observation.
pub open spec fn stat_unit(v: int) -> GStats {
    GStats { min: v, max: v, sum: v, count: 1 }
}

/// The associative, commutative fold of two statistics.
pub open spec fn stat_merge(a: GStats, b: GStats) -> GStats {
    GStats {
        min: int_min(a.min, b.min),
        max: int_max(a.max, b.max),
        sum: a.sum + b.sum,
        count: a.count + b.count,
    }
}

/// Statistics as the engine's machine representation can carry them:
/// at least one observation, values in the scaled range, and the sum
/// bounded by the count.
pub open spec fn gstat_wf(g: GStats) -> bool {
    &&& g.count >= 1
    &&& -(SCALED_LIMIT as int) < g.min <= g.max < SCALED_LIMIT as int
    &&& -(g.count * (SCALED_LIMIT - 1) as int) <= g.sum <= g.count * (SCALED_LIMIT - 1) as int
}

/// Fold one entity's statistics into an aggregate map.
pub open spec fn upsert_model(m: Map<Seq<u8>, GStats>, k: Seq<u8>, g: GStats) -> Map<
    Seq<u8>,
    GStats,
> {
    if m.dom().contains(k) {
        m.insert(k, stat_merge(m[k], g))
    } else {
        m.insert(k, g)
    }
}

/// Fold one observation into an aggregate map.
pub open spec fn observe_model(m: Map<Seq<u8>, GStats>, k: Seq<u8>, v: int) -> Map<
    Seq<u8>,
    GStats,
> {
    upsert_model(m, k, stat_unit(v))
}

/// The aggregate of a record sequence, folded left to right.
pub open spec fn agg_model(rs: Seq<(Seq<u8>, int)>) -> Map<Seq<u8>, GStats>
    decreases rs.len(),
{
    if rs.len() == 0 {
        Map::empty()
    } else {
        observe_model(agg_model(rs.drop_last()), rs.last().0, rs.last().1)
    }
}

/// Merge two aggregate maps entity by entity.
pub open spec fn merge_model(a: Map<Seq<u8>, GStats>, b: Map<Seq<u8>, GStats>) -> Map<
    Seq<u8>,
    GStats,
> {
    Map::new(
        |k: Seq<u8>| a.dom().contains(k) || b.dom().contains(k),
        |k: Seq<u8>|
            if a.dom().contains(k) && b.dom().contains(k) {
                stat_merge(a[k], b[k])
            } else if a.dom().contains(k) {
                a[k]
            } else {
                b[k]
            },
    )
}

/// The count recorded for `k`, zero when `k` is absent.
pub open spec fn count_of(m: Map<Seq<u8>, GStats>, k: Seq<u8>) -> nat {
    if m.dom().contains(k) {
        m[k].count
    } else {
        0
    }
}

/// Every entity's statistics are representable.
pub open spec fn model_wf(m: Map<Seq<u8>, GStats>) -> bool {
    forall|k: Seq<u8>| m.dom().contains(k) ==> gstat_wf(#[trigger] m[k])
}

pub proof fn lemma_merge_model_empty(m: Map<Seq<u8>, GStats>)
    ensures
        merge_model(m, Map::empty()) == m,
        merge_model(Map::empty(), m) == m,
{
    assert(merge_model(m, Map::empty()) =~= m);
    assert(merge_model(Map::empty(), m) =~= m);
}

/// Merging aggregates is commutative.
pub proof fn lemma_merge_model_comm(a: Map<Seq<u8>, GStats>, b: Map<Seq<u8>, GStats>)
    ensures
        merge_model(a, b) == merge_model(b, a),
{
    assert(merge_model(a, b) =~= merge_model(b, a));
}

/// Merging aggregates is associative.
pub proof fn lemma_merge_model_assoc(
    a: Map<Seq<u8>, GStats>,
    b: Map<Seq<u8>, GStats>,
    c: Map<Seq<u8>, GStats>,
)
    ensures
        merge_model(merge_model(a, b), c) == merge_model(a, merge_model(b, c)),
{
    assert(merge_model(merge_model(a, b), c) =~= merge_model(a, merge_model(b, c)));
}

/// Folding into the right operand of a merge folds into the merge.
pub proof fn lemma_merge_upsert_r(
    a: Map<Seq<u8>, GStats>,
    b: Map<Seq<u8>, GStats>,
    k: Seq<u8>,
    g: GStats,
)
    ensures
        merge_model(a, upsert_model(b, k, g)) == upsert_model(merge_model(a, b), k, g),
{
    assert(merge_model(a, upsert_model(b, k, g)) =~= upsert_model(merge_model(a, b), k, g));
}

/// Two folds into the same map commute.
pub proof fn lemma_upsert_comm(
    m: Map<Seq<u8>, GStats>,
    k1: Seq<u8>,
    g1: GStats,
    k2: Seq<u8>,
    g2: GStats,
)
    ensures
        upsert_model(upsert_model(m, k1, g1), k2, g2) == upsert_model(
            upsert_model(m, k2, g2),
            k1,
            g1,
        ),
{
    assert(upsert_model(upsert_model(m, k1, g1), k2, g2) =~= upsert_model(
        upsert_model(m, k2, g2),
        k1,
        g1,
    ));
}

/// The aggregate of a concatenation is the merge of the aggregates:
/// any partition of the input into contiguous groups may be folded
/// group by group and merged.
pub proof fn lemma_agg_concat(r1: Seq<(Seq<u8>, int)>, r2: Seq<(Seq<u8>, int)>)
    ensures
        agg_model(r1 + r2) == merge_model(agg_model(r1), agg_model(r2)),
    decreases r2.len(),
{
    if r2.len() == 0 {
        assert(r1 + r2 =~= r1);
        lemma_merge_model_empty(agg_model(r1));
    } else {
        lemma_agg_concat(r1, r2.drop_last());
        assert((r1 + r2).drop_last() =~= r1 + r2.drop_last());
        assert((r1 + r2).last() == r2.last());
        lemma_merge_upsert_r(
            agg_model(r1),
            agg_model(r2.drop_last()),
            r2.last().0,
            stat_unit(r2.last().1),
        );
    }
}

/// Removing one record from anywhere and folding it last gives the same
/// aggregate.
pub proof fn lemma_agg_remove(rs: Seq<(Seq<u8>, int)>, i: int)
    requires
        0 <= i < rs.len(),
    ensures
        agg_model(rs) == observe_model(agg_model(rs.remove(i)), rs[i].0, rs[i].1),
    decreases rs.len(),
{
    if i == rs.len() - 1 {
        assert(rs.remove(i) =~= rs.drop_last());
    } else {
        let dl = rs.drop_last();
        let last = rs.last();
        lemma_agg_remove(dl, i);
        assert(dl.remove(i).push(last) =~= rs.remove(i).drop_last().push(rs.remove(i).last()));
        assert(rs.remove(i).drop_last().push(rs.remove(i).last()) =~= rs.remove(i));
        assert(dl.remove(i).push(last) =~= rs.remove(i));
        assert(agg_model(rs.remove(i)) == observe_model(agg_model(dl.remove(i)), last.0, last.1))
            by {
            assert(rs.remove(i).drop_last() =~= dl.remove(i));
            assert(rs.remove(i).last() == last);
        }
        lemma_upsert_comm(
            agg_model(dl.remove(i)),
            dl[i].0,
            stat_unit(dl[i].1),
            last.0,
            stat_unit(last.1),
        );
        assert(dl[i] == rs[i]);
    }
}

/// Reordering the records does not change the aggregate: two sequences
/// with the same multiset of records fold to the same map.
pub proof fn lemma_agg_permutation(r1: Seq<(Seq<u8>, int)>, r2: Seq<(Seq<u8>, int)>)
    requires
        r1.to_multiset() == r2.to_multiset(),
    ensures
        agg_model(r1) == agg_model(r2),
    decreases r1.len(),
{
    broadcast use group_to_multiset_ensures;

    if r1.len() == 0 {
        assert(r1.to_multiset().len() == 0);
        assert(r2.to_multiset().len() == 0);
        assert(r2.len() == 0);
    } else {
        let x = r1.last();
        assert(r1.drop_last().push(x) =~= r1);
        assert(r1.to_multiset().count(x) > 0) by {
            assert(r1.contains(x));
        }
        assert(r2.to_multiset().count(x) > 0);
        assert(r2.contains(x));
        let i = choose|i: int| 0 <= i < r2.len() && r2[i] == x;
        lemma_agg_remove(r2, i);
        assert(r1.drop_last().to_multiset() =~= r1.to_multiset().remove(x)) by {
            assert(r1.to_multiset() =~= r1.drop_last().to_multiset().insert(x));
        }
        assert(r2.remove(i).to_multiset() =~= r2.to_multiset().remove(x));
        lemma_agg_permutation(r1.drop_last(), r2.remove(i));
    }
}

/// No entity's count exceeds the number of records folded in.
pub proof fn lemma_agg_count_le_len(rs: Seq<(Seq<u8>, int)>, k: Seq<u8>)
    ensures
        count_of(agg_model(rs), k) <= rs.len(),
    decreases rs.len(),
{
    if rs.len() > 0 {
        lemma_agg_count_le_len(rs.drop_last(), k);
    }
}

/// Aggregating in-range values yields representable statistics.
pub proof fn lemma_agg_wf(rs: Seq<(Seq<u8>, int)>)
    requires
        forall|i: int|
            0 <= i < rs.len() ==> -(SCALED_LIMIT as int) < (#[trigger] rs[i]).1 < SCALED_LIMIT
                as int,
    ensures
        model_wf(agg_model(rs)),
    decreases rs.len(),
{
    if rs.len() > 0 {
        lemma_agg_wf(rs.drop_last());
        let m = agg_model(rs.drop_last());
        let k = rs.last().0;
        let v = rs.last().1;
        assert(rs[rs.len() - 1] == rs.last());
        if m.dom().contains(k) {
            let g = m[k];
            let g2 = stat_merge(g, stat_unit(v));
            assert(gstat_wf(g2)) by (nonlinear_arith)
                requires
                    gstat_wf(g),
                    -(SCALED_LIMIT as int) < v < SCALED_LIMIT as int,
                    g2 == stat_merge(g, stat_unit(v)),
            ;
        }
    }
}

} // verus!
