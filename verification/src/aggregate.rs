//! The partial-aggregate table: entity name to running statistics.
//!
//! The table keeps entries strictly sorted by name, so merging keyed
//! lookups and emitting the final sorted rows need no extra work. It is
//! created empty at the start of a unit of work, mutated by a single
//! owner, and consumed by a merge or by `finalize`.

use vstd::prelude::*;

use crate::decimal::Decimal;
use crate::decimal::SCALED_LIMIT;
use crate::decimal::dec_of_scaled;
use crate::decimal::dec_scaled;
use crate::decimal::dec_scaled_exec;
use crate::decimal::dec_from_scaled;
use crate::decimal::dec_wf;
use crate::model::GStats;
use crate::model::count_of;
use crate::model::gstat_wf;
use crate::model::merge_model;
use crate::model::observe_model;
use crate::model::stat_merge;
use crate::model::stat_unit;
use crate::model::upsert_model;
use crate::model::lemma_merge_upsert_r;

verus! {

/// Strict lexicographic byte order on names.
pub open spec fn lex_lt(a: Seq<u8>, b: Seq<u8>) -> bool
    decreases a.len(),
{
    if b.len() == 0 {
        false
    } else if a.len() == 0 {
        true
    } else if a.first() < b.first() {
        true
    } else if a.first() > b.first() {
        false
    } else {
        lex_lt(a.drop_first(), b.drop_first())
    }
}

pub proof fn lemma_lex_lt_irrefl(a: Seq<u8>)
    ensures
        !lex_lt(a, a),
    decreases a.len(),
{
    if a.len() > 0 {
        lemma_lex_lt_irrefl(a.drop_first());
    }
}

pub proof fn lemma_lex_lt_trans(a: Seq<u8>, b: Seq<u8>, c: Seq<u8>)
    requires
        lex_lt(a, b),
        lex_lt(b, c),
    ensures
        lex_lt(a, c),
    decreases a.len(),
{
    if a.len() > 0 && b.len() > 0 && c.len() > 0 && a.first() == b.first() && b.first()
        == c.first() {
        lemma_lex_lt_trans(a.drop_first(), b.drop_first(), c.drop_first());
    }
}

pub proof fn lemma_lex_lt_ne(a: Seq<u8>, b: Seq<u8>)
    requires
        lex_lt(a, b),
    ensures
        a != b,
{
    if a == b {
        lemma_lex_lt_irrefl(a);
    }
}

/// The order decided by the first differing position.
proof fn lemma_lex_lt_from_diff(a: Seq<u8>, b: Seq<u8>, i: int)
    requires
        0 <= i <= a.len(),
        i <= b.len(),
        forall|j: int| 0 <= j < i ==> a[j] == b[j],
        (i < a.len() && i < b.len() && a[i] < b[i]) || (i == a.len() && i < b.len()),
    ensures
        lex_lt(a, b),
    decreases i,
{
    if i == 0 {
    } else {
        assert(a[0] == b[0]);
        assert forall|j: int| 0 <= j < i - 1 implies a.drop_first()[j] == b.drop_first()[j] by {
            assert(a.drop_first()[j] == a[j + 1]);
            assert(b.drop_first()[j] == b[j + 1]);
        }
        assert(i - 1 < a.drop_first().len() && i - 1 < b.drop_first().len() ==> (a.drop_first()[i
            - 1] == a[i] && b.drop_first()[i - 1] == b[i]));
        lemma_lex_lt_from_diff(a.drop_first(), b.drop_first(), i - 1);
    }
}

/// How two names compare.
#[derive(Clone, Copy, Debug, PartialEq, Eq, Structural)]
pub enum NameOrder {
    Before,
    Same,
    After,
}

/// Compare two names in lexicographic byte order.
pub fn lex_cmp(a: &[u8], b: &[u8]) -> (o: NameOrder)
    ensures
        o == NameOrder::Before ==> lex_lt(a@, b@),
        o == NameOrder::Same ==> a@ == b@,
        o == NameOrder::After ==> lex_lt(b@, a@),
{
    let an = a.len();
    let bn = b.len();
    let mut i: usize = 0;
    while i < an && i < bn
        invariant
            0 <= i <= an,
            i <= bn,
            an == a@.len(),
            bn == b@.len(),
            forall|j: int| 0 <= j < i ==> a@[j] == b@[j],
        decreases an - i,
    {
        let x = a[i];
        let y = b[i];
        if x < y {
            proof {
                lemma_lex_lt_from_diff(a@, b@, i as int);
            }
            return NameOrder::Before;
        }
        if x > y {
            proof {
                lemma_lex_lt_from_diff(b@, a@, i as int);
            }
            return NameOrder::After;
        }
        i = i + 1;
    }
    if an < bn {
        proof {
            lemma_lex_lt_from_diff(a@, b@, i as int);
        }
        NameOrder::Before
    } else if an > bn {
        proof {
            lemma_lex_lt_from_diff(b@, a@, i as int);
        }
        NameOrder::After
    } else {
        proof {
            assert(a@ =~= b@);
        }
        NameOrder::Same
    }
}

/// Running statistics for one entity, at `SCALE_MAX` fractional digits.
#[derive(Clone, Copy, Debug)]
pub struct Stats {
    pub min: i64,
    pub max: i64,
    pub sum: i128,
    pub count: u64,
}

impl View for Stats {
    type V = GStats;

    open spec fn view(&self) -> GStats {
        GStats {
            min: self.min as int,
            max: self.max as int,
            sum: self.sum as int,
            count: self.count as nat,
        }
    }
}

pub open spec fn stats_wf(s: Stats) -> bool {
    gstat_wf(s@)
}

/// The statistics of a single observation.
pub fn stats_unit(v: i64) -> (r: Stats)
    requires
        -SCALED_LIMIT < v < SCALED_LIMIT,
    ensures
        r@ == stat_unit(v as int),
        stats_wf(r),
{
    Stats { min: v, max: v, sum: v as i128, count: 1 }
}

/// Fold two entities' statistics together.
pub fn stats_combine(a: Stats, b: Stats) -> (r: Stats)
    requires
        stats_wf(a),
        stats_wf(b),
        a.count + b.count <= u64::MAX,
    ensures
        r@ == stat_merge(a@, b@),
        stats_wf(r),
{
    proof {
        assert(a.count as int * (SCALED_LIMIT - 1) as int + b.count as int * (SCALED_LIMIT
            - 1) as int == (a.count + b.count) as int * (SCALED_LIMIT - 1) as int)
            by (nonlinear_arith);
        assert((a.count + b.count) as int * (SCALED_LIMIT - 1) as int <= u64::MAX as int * (
        SCALED_LIMIT - 1) as int) by (nonlinear_arith)
            requires
                a.count + b.count <= u64::MAX,
        ;
        assert((u64::MAX as int) * ((SCALED_LIMIT - 1) as int) < (i128::MAX as int));
    }
    Stats {
        min: if a.min <= b.min {
            a.min
        } else {
            b.min
        },
        max: if a.max >= b.max {
            a.max
        } else {
            b.max
        },
        sum: a.sum + b.sum,
        count: a.count + b.count,
    }
}

/// The mean derived at read time: `sum / count`, truncated toward zero
/// at `SCALE_MAX` fractional digits.
pub open spec fn mean_scaled(g: GStats) -> int {
    if g.sum >= 0 {
        g.sum / (g.count as int)
    } else {
        -((-g.sum) / (g.count as int))
    }
}

/// A single observation's mean is the observation.
pub proof fn lemma_single_record_stats(v: int)
    ensures
        stat_unit(v).min == v,
        stat_unit(v).max == v,
        mean_scaled(stat_unit(v)) == v,
{
}

/// Compute the scaled mean of one entity's statistics.
pub fn mean_scaled_exec(st: &Stats) -> (r: i64)
    requires
        stats_wf(*st),
    ensures
        r as int == mean_scaled(st@),
        -SCALED_LIMIT < r < SCALED_LIMIT,
{
    let neg = st.sum < 0;
    let mag: u128 = if neg {
        (-st.sum) as u128
    } else {
        st.sum as u128
    };
    let q = mag / (st.count as u128);
    proof {
        assert(mag as int <= st.count as int * (SCALED_LIMIT - 1) as int);
        assert((mag as nat) / (st.count as nat) <= (SCALED_LIMIT - 1) as nat)
            by (nonlinear_arith)
            requires
                st.count >= 1,
                mag as int <= st.count as int * (SCALED_LIMIT - 1) as int,
        ;
    }
    if neg {
        -(q as i64)
    } else {
        q as i64
    }
}

/// One output row: entity name with its minimum, mean and maximum.
#[derive(Clone, Debug)]
pub struct Row {
    pub name: Vec<u8>,
    pub min: Decimal,
    pub mean: Decimal,
    pub max: Decimal,
}

/// The map a name column and a statistics column denote.
pub open spec fn map_of(names: Seq<Vec<u8>>, sts: Seq<Stats>) -> Map<Seq<u8>, GStats>
    decreases names.len(),
{
    if names.len() == 0 || names.len() != sts.len() {
        Map::empty()
    } else {
        map_of(names.drop_last(), sts.drop_last()).insert(names.last()@, sts.last()@)
    }
}

/// Distinct name columns denote maps that look up and count as the
/// columns do.
pub proof fn lemma_map_of_props(names: Seq<Vec<u8>>, sts: Seq<Stats>)
    requires
        names.len() == sts.len(),
        forall|i: int, j: int| 0 <= i < j < names.len() ==> names[i]@ != names[j]@,
    ensures
        map_of(names, sts).dom().finite(),
        map_of(names, sts).dom().len() == names.len(),
        forall|i: int|
            0 <= i < names.len() ==> map_of(names, sts).dom().contains(#[trigger] names[i]@),
        forall|i: int|
            0 <= i < names.len() ==> map_of(names, sts)[#[trigger] names[i]@] == sts[i]@,
        forall|k: Seq<u8>|
            map_of(names, sts).dom().contains(k) ==> exists|i: int|
                0 <= i < names.len() && #[trigger] names[i]@ == k,
    decreases names.len(),
{
    if names.len() > 0 {
        let dn = names.drop_last();
        let ds = sts.drop_last();
        lemma_map_of_props(dn, ds);
        let m0 = map_of(dn, ds);
        let last = names.last()@;
        assert(forall|i: int| 0 <= i < dn.len() ==> dn[i]@ == names[i]@);
        assert(!m0.dom().contains(last)) by {
            if m0.dom().contains(last) {
                let i = choose|i: int| 0 <= i < dn.len() && dn[i]@ == last;
                assert(names[i]@ == names[names.len() - 1]@);
            }
        }
        assert(map_of(names, sts).dom() =~= m0.dom().insert(last));
        assert(m0.dom().insert(last).len() == m0.dom().len() + 1);
        assert forall|i: int| 0 <= i < names.len() implies map_of(names, sts)[#[trigger] names[i]@]
            == sts[i]@ by {
            if i < names.len() - 1 {
                assert(names[i]@ != last);
                assert(map_of(names, sts)[names[i]@] == m0[dn[i]@]);
            }
        }
    }
}

/// Updating one statistics cell updates the map at that name.
pub proof fn lemma_map_of_update(names: Seq<Vec<u8>>, sts: Seq<Stats>, i: int, st: Stats)
    requires
        names.len() == sts.len(),
        forall|p: int, q: int| 0 <= p < q < names.len() ==> names[p]@ != names[q]@,
        0 <= i < names.len(),
    ensures
        map_of(names, sts.update(i, st)) == map_of(names, sts).insert(names[i]@, st@),
    decreases names.len(),
{
    let su = sts.update(i, st);
    if i == names.len() - 1 {
        assert(su.drop_last() =~= sts.drop_last());
        assert(su.last() == st);
        assert(map_of(names, su) =~= map_of(names, sts).insert(names[i]@, st@));
    } else {
        let dn = names.drop_last();
        assert(su.drop_last() =~= sts.drop_last().update(i, st));
        assert(su.last() == sts.last());
        assert(forall|p: int| 0 <= p < dn.len() ==> dn[p]@ == names[p]@);
        lemma_map_of_update(dn, sts.drop_last(), i, st);
        assert(names[i]@ != names.last()@);
        assert(map_of(names, su) =~= map_of(names, sts).insert(names[i]@, st@));
    }
}

/// Inserting a fresh name and its statistics inserts into the map.
pub proof fn lemma_map_of_insert(
    names: Seq<Vec<u8>>,
    sts: Seq<Stats>,
    i: int,
    nm: Vec<u8>,
    st: Stats,
)
    requires
        names.len() == sts.len(),
        0 <= i <= names.len(),
        forall|j: int| 0 <= j < names.len() ==> names[j]@ != nm@,
    ensures
        map_of(names.insert(i, nm), sts.insert(i, st)) == map_of(names, sts).insert(nm@, st@),
    decreases names.len(),
{
    let nn = names.insert(i, nm);
    let ns = sts.insert(i, st);
    if i == names.len() {
        assert(nn.drop_last() =~= names);
        assert(ns.drop_last() =~= sts);
        assert(nn.last() == nm);
        assert(ns.last() == st);
    } else {
        assert(nn.drop_last() =~= names.drop_last().insert(i, nm));
        assert(ns.drop_last() =~= sts.drop_last().insert(i, st));
        assert(nn.last() == names.last());
        assert(ns.last() == sts.last());
        assert(forall|j: int| 0 <= j < names.drop_last().len() ==> names.drop_last()[j]@
            == names[j]@);
        lemma_map_of_insert(names.drop_last(), sts.drop_last(), i, nm, st);
        assert(names.last()@ != nm@);
        assert(map_of(nn, ns) =~= map_of(names, sts).insert(nm@, st@));
    }
}

/// A mapping from entity name to running statistics, kept sorted by
/// name. Created empty, filled by `observe`, combined by `merge`,
/// consumed by `finalize`.
pub struct PartialAggregate {
    names: Vec<Vec<u8>>,
    stats: Vec<Stats>,
}

impl View for PartialAggregate {
    type V = Map<Seq<u8>, GStats>;

    closed spec fn view(&self) -> Map<Seq<u8>, GStats> {
        map_of(self.names@, self.stats@)
    }
}

impl PartialAggregate {
    /// Columns of equal length, strictly sorted names, representable
    /// statistics.
    pub closed spec fn inv(&self) -> bool {
        &&& self.names@.len() == self.stats@.len()
        &&& (forall|i: int, j: int|
            0 <= i < j < self.names@.len() ==> lex_lt(
                #[trigger] self.names@[i]@,
                #[trigger] self.names@[j]@,
            ))
        &&& (forall|i: int|
            0 <= i < self.stats@.len() ==> stats_wf(#[trigger] self.stats@[i]))
    }

    /// Sorted names are distinct.
    proof fn lemma_names_distinct(&self)
        requires
            self.inv(),
        ensures
            forall|i: int, j: int|
                0 <= i < j < self.names@.len() ==> #[trigger] self.names@[i]@
                    != #[trigger] self.names@[j]@,
    {
        assert forall|i: int, j: int|
            0 <= i < j < self.names@.len() implies #[trigger] self.names@[i]@
            != #[trigger] self.names@[j]@ by {
            lemma_lex_lt_ne(self.names@[i]@, self.names@[j]@);
        }
    }

    /// A fresh, empty aggregate.
    pub fn new() -> (r: Self)
        ensures
            r.inv(),
            r@ == Map::<Seq<u8>, GStats>::empty(),
    {
        PartialAggregate { names: Vec::new(), stats: Vec::new() }
    }

    /// Fold one entity's statistics into the table.
    pub fn upsert_stats(&mut self, name: Vec<u8>, st: Stats)
        requires
            old(self).inv(),
            stats_wf(st),
            count_of(old(self)@, name@) + st.count <= u64::MAX,
        ensures
            final(self).inv(),
            final(self)@ == upsert_model(old(self)@, name@, st@),
    {
        proof {
            self.lemma_names_distinct();
            lemma_map_of_props(self.names@, self.stats@);
        }
        let n = self.names.len();
        let mut i: usize = 0;
        while i < n
            invariant_except_break
                *self == *old(self),
                0 <= i <= n,
                n == self.names@.len(),
                forall|j: int| 0 <= j < i ==> lex_lt(#[trigger] self.names@[j]@, name@),
            ensures
                *self == *old(self),
                0 <= i <= n,
                n == self.names@.len(),
                forall|j: int| 0 <= j < i ==> lex_lt(#[trigger] self.names@[j]@, name@),
                i < n ==> !lex_lt(self.names@[i as int]@, name@),
            decreases n - i,
        {
            match lex_cmp(self.names[i].as_slice(), name.as_slice()) {
                NameOrder::Before => {
                    i = i + 1;
                },
                NameOrder::Same => {
                    proof {
                        lemma_lex_lt_irrefl(name@);
                    }
                    break ;
                },
                NameOrder::After => {
                    proof {
                        lemma_lex_lt_irrefl(self.names@[i as int]@);
                        if lex_lt(self.names@[i as int]@, name@) {
                            lemma_lex_lt_trans(self.names@[i as int]@, name@, self.names@[i as int]@);
                        }
                    }
                    break ;
                },
            }
        }
        if i < n {
            match lex_cmp(self.names[i].as_slice(), name.as_slice()) {
                NameOrder::Same => {
                    // The name is present: combine in place.
                    let ghost k = name@;
                    proof {
                        assert(self.names@[i as int]@ == k);
                        assert(self@[k] == self.stats@[i as int]@);
                        assert(count_of(self@, k) == self.stats@[i as int].count);
                    }
                    let merged = stats_combine(self.stats[i], st);
                    proof {
                        lemma_map_of_update(self.names@, self.stats@, i as int, merged);
                    }
                    self.stats.set(i, merged);
                    proof {
                        assert(final(self)@ =~= upsert_model(old(self)@, k, st@));
                    }
                    return ;
                },
                _ => {
                    // Sorted scan passed the name: it is absent.
                },
            }
        }
        // The name is absent: insert at the sorted position.
        proof {
            assert forall|j: int| 0 <= j < n implies self.names@[j]@ != name@ by {
                if j < i {
                    lemma_lex_lt_ne(self.names@[j]@, name@);
                } else if j == i {
                    lemma_lex_lt_ne(name@, self.names@[j]@);
                } else {
                    lemma_lex_lt_trans(name@, self.names@[i as int]@, self.names@[j]@);
                    lemma_lex_lt_ne(name@, self.names@[j]@);
                }
            }
            assert(!self@.dom().contains(name@));
            lemma_map_of_insert(self.names@, self.stats@, i as int, name, st);
        }
        let ghost pre = *self;
        self.names.insert(i, name);
        self.stats.insert(i, st);
        proof {
            assert forall|p: int, q: int|
                0 <= p < q < self.names@.len() implies lex_lt(
                #[trigger] self.names@[p]@,
                #[trigger] self.names@[q]@,
            ) by {
                let nn = self.names@;
                if q < i {
                } else if p < i && q == i {
                } else if p < i && q > i {
                    assert(nn[q]@ == pre.names@[q - 1]@);
                } else if p == i {
                    assert(nn[q]@ == pre.names@[q - 1]@);
                    if q - 1 > i {
                        lemma_lex_lt_trans(nn[p]@, pre.names@[i as int]@, pre.names@[q - 1]@);
                    }
                } else {
                    assert(nn[p]@ == pre.names@[p - 1]@);
                    assert(nn[q]@ == pre.names@[q - 1]@);
                }
            }
            assert(final(self)@ == upsert_model(old(self)@, name@, st@));
        }
    }

    /// Fold one observation into the table.
    pub fn observe(&mut self, name: Vec<u8>, value: &Decimal)
        requires
            old(self).inv(),
            dec_wf(*value),
            count_of(old(self)@, name@) < u64::MAX,
        ensures
            final(self).inv(),
            final(self)@ == observe_model(old(self)@, name@, dec_scaled(*value)),
    {
        let v = dec_scaled_exec(value);
        let st = stats_unit(v);
        self.upsert_stats(name, st);
    }

    /// Fold another aggregate in, consuming it.
    pub fn merge(&mut self, other: PartialAggregate)
        requires
            old(self).inv(),
            other.inv(),
            forall|k: Seq<u8>| count_of(old(self)@, k) + count_of(other@, k) <= u64::MAX,
        ensures
            final(self).inv(),
            final(self)@ == merge_model(old(self)@, other@),
    {
        proof {
            other.lemma_names_distinct();
            lemma_map_of_props(other.names@, other.stats@);
        }
        let n = other.names.len();
        let mut i: usize = 0;
        proof {
            assert(other.names@.take(0) =~= Seq::<Vec<u8>>::empty());
            assert(other.stats@.take(0) =~= Seq::<Stats>::empty());
            assert(self@ =~= merge_model(old(self)@, map_of(other.names@.take(0), other.stats@.take(0))));
        }
        while i < n
            invariant
                self.inv(),
                0 <= i <= n,
                n == other.names@.len(),
                other.names@.len() == other.stats@.len(),
                forall|p: int, q: int|
                    0 <= p < q < other.names@.len() ==> #[trigger] other.names@[p]@
                        != #[trigger] other.names@[q]@,
                forall|p: int|
                    0 <= p < other.stats@.len() ==> stats_wf(#[trigger] other.stats@[p]),
                forall|p: int|
                    0 <= p < other.names@.len() ==> other@.dom().contains(
                        #[trigger] other.names@[p]@,
                    ) && other@[other.names@[p]@] == other.stats@[p]@,
                forall|k: Seq<u8>| count_of(old(self)@, k) + count_of(other@, k) <= u64::MAX,
                self@ == merge_model(
                    old(self)@,
                    map_of(other.names@.take(i as int), other.stats@.take(i as int)),
                ),
            decreases n - i,
        {
            let ghost k = other.names@[i as int]@;
            let ghost prefix = map_of(other.names@.take(i as int), other.stats@.take(i as int));
            proof {
                assert forall|j: int|
                    0 <= j < other.names@.take(i as int).len()
                        implies other.names@.take(i as int)[j]@ != k by {
                    assert(other.names@.take(i as int)[j]@ == other.names@[j]@);
                }
                lemma_map_of_props(other.names@.take(i as int), other.stats@.take(i as int));
                assert(!prefix.dom().contains(k)) by {
                    if prefix.dom().contains(k) {
                        let j = choose|j: int|
                            0 <= j < other.names@.take(i as int).len() && other.names@.take(
                                i as int,
                            )[j]@ == k;
                        assert(other.names@.take(i as int)[j]@ != k);
                    }
                }
                assert(count_of(self@, k) == count_of(old(self)@, k));
                assert(count_of(other@, k) == other.stats@[i as int].count);
            }
            let nm = other.names[i].clone();
            let st = other.stats[i];
            proof {
                assert(nm@ == k);
            }
            self.upsert_stats(nm, st);
            proof {
                lemma_merge_upsert_r(old(self)@, prefix, k, st@);
                assert(other.names@.take(i + 1).drop_last() =~= other.names@.take(i as int));
                assert(other.stats@.take(i + 1).drop_last() =~= other.stats@.take(i as int));
                assert(other.names@.take(i + 1).last() == other.names@[i as int]);
                assert(other.stats@.take(i + 1).last() == other.stats@[i as int]);
                assert(map_of(other.names@.take(i + 1), other.stats@.take(i + 1)) == prefix.insert(
                    k,
                    st@,
                ));
                assert(upsert_model(prefix, k, st@) == prefix.insert(k, st@));
            }
            i = i + 1;
        }
        proof {
            assert(other.names@.take(n as int) =~= other.names@);
            assert(other.stats@.take(n as int) =~= other.stats@);
        }
    }

    /// Look one entity up.
    pub fn get(&self, name: &[u8]) -> (r: Option<Stats>)
        requires
            self.inv(),
        ensures
            match r {
                Some(st) => self@.dom().contains(name@) && st@ == self@[name@],
                None => !self@.dom().contains(name@),
            },
    {
        proof {
            self.lemma_names_distinct();
            lemma_map_of_props(self.names@, self.stats@);
        }
        let n = self.names.len();
        let mut i: usize = 0;
        while i < n
            invariant
                0 <= i <= n,
                n == self.names@.len(),
                self.inv(),
                forall|j: int| 0 <= j < i ==> #[trigger] self.names@[j]@ != name@,
                forall|p: int|
                    0 <= p < self.names@.len() ==> self@.dom().contains(
                        #[trigger] self.names@[p]@,
                    ) && self@[self.names@[p]@] == self.stats@[p]@,
            decreases n - i,
        {
            match lex_cmp(self.names[i].as_slice(), name) {
                NameOrder::Same => {
                    return Some(self.stats[i]);
                },
                NameOrder::Before => {
                    proof {
                        lemma_lex_lt_ne(self.names@[i as int]@, name@);
                    }
                },
                NameOrder::After => {
                    proof {
                        lemma_lex_lt_ne(name@, self.names@[i as int]@);
                    }
                },
            }
            i = i + 1;
        }
        proof {
            if self@.dom().contains(name@) {
                let j = choose|j: int| 0 <= j < self.names@.len() && self.names@[j]@ == name@;
                assert(self.names@[j]@ != name@);
            }
        }
        None
    }

    /// How many distinct entities the table holds.
    pub fn len(&self) -> (r: usize)
        requires
            self.inv(),
        ensures
            r == self@.dom().len(),
    {
        proof {
            self.lemma_names_distinct();
            lemma_map_of_props(self.names@, self.stats@);
        }
        self.names.len()
    }

    /// Emit the final rows, sorted by entity name ascending, deriving
    /// each mean from its sum and count. Consumes the table.
    pub fn finalize(self) -> (rows: Vec<Row>)
        requires
            self.inv(),
        ensures
            rows@.len() == self@.dom().len(),
            forall|i: int, j: int|
                0 <= i < j < rows@.len() ==> lex_lt(
                    #[trigger] rows@[i].name@,
                    #[trigger] rows@[j].name@,
                ),
            forall|i: int|
                0 <= i < rows@.len() ==> {
                    let g = self@[#[trigger] rows@[i].name@];
                    &&& self@.dom().contains(rows@[i].name@)
                    &&& rows@[i].min == dec_of_scaled(g.min)
                    &&& rows@[i].mean == dec_of_scaled(mean_scaled(g))
                    &&& rows@[i].max == dec_of_scaled(g.max)
                },
            forall|k: Seq<u8>|
                self@.dom().contains(k) ==> exists|i: int|
                    0 <= i < rows@.len() && #[trigger] rows@[i].name@ == k,
    {
        proof {
            self.lemma_names_distinct();
            lemma_map_of_props(self.names@, self.stats@);
        }
        let n = self.names.len();
        let mut rows: Vec<Row> = Vec::new();
        let mut i: usize = 0;
        while i < n
            invariant
                0 <= i <= n,
                n == self.names@.len(),
                self.inv(),
                rows@.len() == i,
                forall|p: int|
                    0 <= p < self.names@.len() ==> self@.dom().contains(
                        #[trigger] self.names@[p]@,
                    ) && self@[self.names@[p]@] == self.stats@[p]@,
                forall|p: int| 0 <= p < i ==> #[trigger] rows@[p].name@ == self.names@[p]@,
                forall|p: int|
                    0 <= p < i ==> {
                        let g = self@[#[trigger] rows@[p].name@];
                        &&& rows@[p].min == dec_of_scaled(g.min)
                        &&& rows@[p].mean == dec_of_scaled(mean_scaled(g))
                        &&& rows@[p].max == dec_of_scaled(g.max)
                    },
            decreases n - i,
        {
            let st = self.stats[i];
            let mean = mean_scaled_exec(&st);
            let row = Row {
                name: self.names[i].clone(),
                min: dec_from_scaled(st.min),
                mean: dec_from_scaled(mean),
                max: dec_from_scaled(st.max),
            };
            rows.push(row);
            i = i + 1;
        }
        proof {
            assert forall|k: Seq<u8>| self@.dom().contains(k) implies exists|i: int|
                0 <= i < rows@.len() && #[trigger] rows@[i].name@ == k by {
                let j = choose|j: int| 0 <= j < self.names@.len() && self.names@[j]@ == k;
                assert(rows@[j].name@ == k);
            }
        }
        rows
    }
}

} // verus!
