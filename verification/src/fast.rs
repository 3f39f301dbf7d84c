//! Hash-indexed aggregation.
//!
//! The sorted table pays a scan per lookup. This path keeps the
//! entries unsorted in insertion order and finds each entity's slot
//! through a hash index with a fast deterministic hasher, then folds
//! the finished slots into a sorted table. The index is
//! `rustc_hash::FxHashMap`; Verus sees it only through the contracts
//! on the small wrappers below, and everything built on top of those
//! contracts is verified.

use vstd::prelude::*;

use crate::RunError;
use crate::aggregate::PartialAggregate;
use crate::aggregate::Stats;
use crate::aggregate::map_of;
use crate::aggregate::lemma_map_of_props;
use crate::aggregate::lemma_map_of_update;
use crate::aggregate::stats_combine;
use crate::aggregate::stats_unit;
use crate::aggregate::stats_wf;
use crate::decimal::dec_scaled_exec;
use crate::model::GStats;
use crate::model::agg_model;
use crate::model::count_of;
use crate::model::lemma_agg_count_le_len;
use crate::model::observe_model;
use crate::model::stat_merge;
use crate::model::stat_unit;
use crate::model::upsert_model;
use crate::record::line_error;
use crate::record::line_ok;
use crate::record::parse_record;
use crate::strategy::all_lines_ok;
use crate::strategy::first_bad_line;
use crate::strategy::lines_view;
use crate::strategy::record_of_line;
use crate::strategy::records_of;
use crate::strategy::table_of;

verus! {

/// A name-to-slot index backed by `rustc_hash::FxHashMap`. Opaque to
/// Verus; its contents are named by `fast_index_map`.
#[verifier::external_body]
pub struct FastIndex {
    inner: rustc_hash::FxHashMap<Vec<u8>, usize>,
}

/// What the index holds: the slot stored under each name.
pub uninterp spec fn fast_index_map(t: FastIndex) -> Map<Seq<u8>, int>;

/// The contents of a fresh index.
pub open spec fn empty_index() -> Map<Seq<u8>, int> {
    Map::empty()
}

impl FastIndex {
    /// Relies on FxHashMap::default: a fresh table holds no entries.
    #[verifier::external_body]
    pub fn new() -> (r: Self)
        ensures
            fast_index_map(r) == empty_index(),
    {
        FastIndex { inner: rustc_hash::FxHashMap::default() }
    }

    /// Relies on HashMap::get: returns the value stored under the key,
    /// or nothing when the key is absent.
    #[verifier::external_body]
    pub fn lookup(&self, name: &[u8]) -> (r: Option<usize>)
        ensures
            match r {
                Some(slot) => fast_index_map(*self).dom().contains(name@) && fast_index_map(
                    *self,
                )[name@] == slot as int,
                None => !fast_index_map(*self).dom().contains(name@),
            },
    {
        self.inner.get(name).copied()
    }

    /// Relies on HashMap::insert: afterwards the key maps to the value,
    /// other entries unchanged.
    #[verifier::external_body]
    pub fn store(&mut self, name: Vec<u8>, slot: usize)
        ensures
            fast_index_map(*final(self)) == fast_index_map(*old(self)).insert(
                name@,
                slot as int,
            ),
    {
        self.inner.insert(name, slot);
    }
}

/// The index points exactly at the slots of the name column.
spec fn index_consistent(idx: FastIndex, names: Seq<Vec<u8>>) -> bool {
    &&& (forall|j: int|
        0 <= j < names.len() ==> fast_index_map(idx).dom().contains(#[trigger] names[j]@)
            && fast_index_map(idx)[names[j]@] == j)
    &&& (forall|k: Seq<u8>|
        fast_index_map(idx).dom().contains(k) ==> 0 <= #[trigger] fast_index_map(idx)[k]
            < names.len() && names[fast_index_map(idx)[k]]@ == k)
}

/// Parse every line into a single table, aborting on the first bad
/// line, with hash-indexed slot lookup instead of a sorted scan.
/// Produces the same table as `aggregate_lines`.
pub fn aggregate_fast(lines: &Vec<Vec<u8>>) -> (r: Result<PartialAggregate, RunError>)
    ensures
        r is Ok <==> all_lines_ok(lines_view(lines@)),
        r matches Ok(agg) ==> agg.inv() && agg@ == table_of(lines_view(lines@)),
        !all_lines_ok(lines_view(lines@)) ==> r == Err::<PartialAggregate, RunError>(
            line_error(lines_view(lines@)[first_bad_line(lines_view(lines@))]),
        ),
{
    let ghost lv = lines_view(lines@);
    let mut names: Vec<Vec<u8>> = Vec::new();
    let mut stats: Vec<Stats> = Vec::new();
    let mut idx = FastIndex::new();
    let n = lines.len();
    let mut i: usize = 0;
    proof {
        assert(lv.take(0) =~= Seq::<Seq<u8>>::empty());
        assert(records_of(lv.take(0)) =~= Seq::<(Seq<u8>, int)>::empty());
    }
    while i < n
        invariant
            0 <= i <= n,
            n == lines@.len(),
            lv == lines_view(lines@),
            names@.len() == stats@.len(),
            index_consistent(idx, names@),
            forall|p: int, q: int| 0 <= p < q < names@.len() ==> names@[p]@ != names@[q]@,
            forall|p: int| 0 <= p < stats@.len() ==> stats_wf(#[trigger] stats@[p]),
            map_of(names@, stats@) == agg_model(records_of(lv.take(i as int))),
            forall|p: int| 0 <= p < i ==> line_ok(#[trigger] lv[p]),
        decreases n - i,
    {
        let ghost pre = records_of(lv.take(i as int));
        proof {
            assert(lv[i as int] == lines@[i as int]@);
            assert(lv.take(i + 1).drop_last() =~= lv.take(i as int));
            assert(lv.take(i + 1).last() == lv[i as int]);
            assert(records_of(lv.take(i + 1)).drop_last() =~= pre);
            assert(records_of(lv.take(i + 1)).last() == record_of_line(lv[i as int]));
        }
        match parse_record(lines[i].as_slice()) {
            Ok(rec) => {
                let v = dec_scaled_exec(&rec.value);
                let unit = stats_unit(v);
                let ghost k = rec.name@;
                proof {
                    lemma_agg_count_le_len(pre, k);
                    lemma_map_of_props(names@, stats@);
                }
                match idx.lookup(rec.name.as_slice()) {
                    Some(slot) => {
                        proof {
                            assert(names@[slot as int]@ == k);
                            assert(map_of(names@, stats@)[k] == stats@[slot as int]@);
                            assert(count_of(map_of(names@, stats@), k) == stats@[slot as int].count);
                        }
                        let merged = stats_combine(stats[slot], unit);
                        proof {
                            lemma_map_of_update(names@, stats@, slot as int, merged);
                            assert(stat_merge(stats@[slot as int]@, stat_unit(v as int))
                                == stat_merge(map_of(names@, stats@)[k], stat_unit(v as int)));
                        }
                        stats.set(slot, merged);
                        proof {
                            assert(map_of(names@, stats@) == upsert_model(
                                agg_model(pre),
                                k,
                                stat_unit(v as int),
                            ));
                        }
                    },
                    None => {
                        proof {
                            assert forall|j: int| 0 <= j < names@.len() implies names@[j]@
                                != k by {
                                if names@[j]@ == k {
                                    assert(fast_index_map(idx).dom().contains(k));
                                }
                            }
                            assert(!map_of(names@, stats@).dom().contains(k)) by {
                                if map_of(names@, stats@).dom().contains(k) {
                                    let j = choose|j: int|
                                        0 <= j < names@.len() && names@[j]@ == k;
                                    assert(names@[j]@ != k);
                                }
                            }
                        }
                        let slot = names.len();
                        let nm2 = rec.name.clone();
                        idx.store(rec.name, slot);
                        let ghost names0 = names@;
                        let ghost stats0 = stats@;
                        names.push(nm2);
                        stats.push(unit);
                        proof {
                            assert(names@.drop_last() =~= names0);
                            assert(stats@.drop_last() =~= stats0);
                            assert(map_of(names@, stats@) == map_of(names0, stats0).insert(
                                k,
                                stat_unit(v as int),
                            ));
                            assert(map_of(names@, stats@) == upsert_model(
                                agg_model(pre),
                                k,
                                stat_unit(v as int),
                            ));
                        }
                    },
                }
                proof {
                    assert(map_of(names@, stats@) == observe_model(agg_model(pre), k, v as int));
                    assert(map_of(names@, stats@) == agg_model(records_of(lv.take(i + 1))));
                }
            },
            Err(e) => {
                proof {
                    assert(!line_ok(lv[i as int]));
                    crate::strategy::lemma_first_bad_is(lv, i as int);
                }
                return Err(e);
            },
        }
        i = i + 1;
    }
    proof {
        assert(lv.take(n as int) =~= lv);
    }
    // Fold the unsorted slots into a sorted table.
    let mut agg = PartialAggregate::new();
    let m = names.len();
    let mut j: usize = 0;
    proof {
        assert(names@.take(0) =~= Seq::<Vec<u8>>::empty());
        assert(stats@.take(0) =~= Seq::<Stats>::empty());
    }
    while j < m
        invariant
            0 <= j <= m,
            m == names@.len(),
            names@.len() == stats@.len(),
            forall|p: int, q: int| 0 <= p < q < names@.len() ==> names@[p]@ != names@[q]@,
            forall|p: int| 0 <= p < stats@.len() ==> stats_wf(#[trigger] stats@[p]),
            agg.inv(),
            agg@ == map_of(names@.take(j as int), stats@.take(j as int)),
        decreases m - j,
    {
        let ghost prefix = map_of(names@.take(j as int), stats@.take(j as int));
        proof {
            assert forall|p: int| 0 <= p < j implies names@.take(j as int)[p]@
                != names@[j as int]@ by {
                assert(names@.take(j as int)[p]@ == names@[p]@);
            }
            lemma_map_of_props(names@.take(j as int), stats@.take(j as int));
            assert(!prefix.dom().contains(names@[j as int]@)) by {
                if prefix.dom().contains(names@[j as int]@) {
                    let p = choose|p: int|
                        0 <= p < j && names@.take(j as int)[p]@ == names@[j as int]@;
                    assert(names@.take(j as int)[p]@ != names@[j as int]@);
                }
            }
        }
        let nm = names[j].clone();
        let st = stats[j];
        agg.upsert_stats(nm, st);
        proof {
            assert(names@.take(j + 1).drop_last() =~= names@.take(j as int));
            assert(stats@.take(j + 1).drop_last() =~= stats@.take(j as int));
            assert(names@.take(j + 1).last() == names@[j as int]);
            assert(stats@.take(j + 1).last() == stats@[j as int]);
            assert(agg@ == map_of(names@.take(j + 1), stats@.take(j + 1)));
        }
        j = j + 1;
    }
    proof {
        assert(names@.take(m as int) =~= names@);
        assert(stats@.take(m as int) =~= stats@);
    }
    Ok(agg)
}

} // verus!
