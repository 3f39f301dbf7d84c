//! The partition strategies.
//!
//! All four fan parse-and-observe work out over workers and fan partial
//! aggregates back in. The library holds each strategy's record flow as
//! verified sequential logic: how lines are partitioned, what each
//! worker contributes, and how partials merge. A driver may run the
//! workers concurrently; the laws in `model` (merge commutativity and
//! associativity, fold-concatenation, reorder invariance) and the
//! fan-out partition law below make every schedule produce the same
//! table.
//!
//! Failure policy: a bad line aborts the run with its parse error
//! (fail-fast); `aggregate_lines_lenient` instead skips and counts bad
//! lines.

use vstd::prelude::*;
use vstd::seq_lib::group_to_multiset_ensures;
use vstd::seq_lib::lemma_multiset_commutative;

use crate::RunError;
use crate::aggregate::PartialAggregate;
use crate::aggregate::Row;
use crate::decimal::dec_scaled;
use crate::decimal::dec_of_scaled;
use crate::decimal::dec_wf;
use crate::model::GStats;
use crate::model::agg_model;
use crate::model::count_of;
use crate::model::lemma_agg_concat;
use crate::model::lemma_agg_count_le_len;
use crate::model::lemma_agg_permutation;
use crate::model::merge_model;
use crate::model::observe_model;
use crate::record::Record;
use crate::record::line_error;
use crate::record::line_ok;
use crate::record::line_value;
use crate::record::name_of;
use crate::record::parse_record;
use crate::aggregate::lex_lt;
use crate::aggregate::mean_scaled;

verus! {

/// The four interchangeable concurrency designs.
#[derive(Clone, Copy, Debug, PartialEq, Eq, Structural)]
pub enum Strategy {
    /// One shared table, one lock, one `observe` per lock acquisition.
    MutexShared,
    /// Fixed-size chunks, a local table per chunk, one merge per chunk.
    ChunkedMutexShared,
    /// Workers send records over a queue to a single observing consumer.
    PointToPoint,
    /// Every record reaches every consumer; a deterministic filter makes
    /// each record count exactly once.
    BroadcastFilter,
}

/// The lines a vector of byte lines denotes.
pub open spec fn lines_view(lines: Seq<Vec<u8>>) -> Seq<Seq<u8>> {
    lines.map_values(|l: Vec<u8>| l@)
}

pub open spec fn all_lines_ok(lines: Seq<Seq<u8>>) -> bool {
    forall|i: int| 0 <= i < lines.len() ==> line_ok(#[trigger] lines[i])
}

/// The record a good line denotes.
pub open spec fn record_of_line(l: Seq<u8>) -> (Seq<u8>, int) {
    (name_of(l), line_value(l))
}

pub open spec fn records_of(lines: Seq<Seq<u8>>) -> Seq<(Seq<u8>, int)> {
    lines.map_values(|l: Seq<u8>| record_of_line(l))
}

/// The records a vector of parsed records denotes.
pub open spec fn records_view(rs: Seq<Record>) -> Seq<(Seq<u8>, int)> {
    rs.map_values(|r: Record| (r.name@, dec_scaled(r.value)))
}

/// The final table of an input: the aggregate of all its records.
pub open spec fn table_of(lines: Seq<Seq<u8>>) -> Map<Seq<u8>, GStats> {
    agg_model(records_of(lines))
}

/// The index of the first rejected line, or the number of lines.
pub open spec fn first_bad_line(lines: Seq<Seq<u8>>) -> int
    decreases lines.len(),
{
    if lines.len() == 0 {
        0
    } else if !line_ok(lines.first()) {
        0
    } else {
        1 + first_bad_line(lines.drop_first())
    }
}

pub proof fn lemma_first_bad_is(lines: Seq<Seq<u8>>, k: int)
    requires
        0 <= k <= lines.len(),
        forall|i: int| 0 <= i < k ==> line_ok(#[trigger] lines[i]),
        k < lines.len() ==> !line_ok(lines[k]),
    ensures
        first_bad_line(lines) == k,
    decreases lines.len(),
{
    if lines.len() > 0 {
        if k == 0 {
        } else {
            assert(line_ok(lines[0]));
            assert forall|i: int| 0 <= i < k - 1 implies line_ok(
                #[trigger] lines.drop_first()[i],
            ) by {
                assert(lines.drop_first()[i] == lines[i + 1]);
            }
            assert(k - 1 < lines.drop_first().len() ==> lines.drop_first()[k - 1] == lines[k]);
            lemma_first_bad_is(lines.drop_first(), k - 1);
        }
    }
}

/// Parse and fold the lines of `[from, to)` into `agg`, which already
/// holds the aggregate of the ghost records `rs0`. Fails on the first
/// bad line of the range.
fn observe_range_into(
    agg: &mut PartialAggregate,
    lines: &Vec<Vec<u8>>,
    from: usize,
    to: usize,
    Ghost(rs0): Ghost<Seq<(Seq<u8>, int)>>,
) -> (r: Result<(), RunError>)
    requires
        from <= to <= lines@.len(),
        old(agg).inv(),
        old(agg)@ == agg_model(rs0),
        rs0.len() + (to - from) <= u64::MAX,
    ensures
        final(agg).inv(),
        r is Ok <==> (forall|j: int| from <= j < to ==> line_ok(#[trigger] lines_view(lines@)[j])),
        r is Ok ==> final(agg)@ == agg_model(
            rs0 + records_of(lines_view(lines@).subrange(from as int, to as int)),
        ),
        r is Err ==> exists|j: int|
            #![auto]
            from <= j < to && !line_ok(lines_view(lines@)[j]) && (forall|p: int|
                from <= p < j ==> line_ok(#[trigger] lines_view(lines@)[p])) && r == Err::<
                (),
                RunError,
            >(line_error(lines_view(lines@)[j])),
{
    let ghost lv = lines_view(lines@);
    let mut i: usize = from;
    proof {
        assert(lv.subrange(from as int, from as int) =~= Seq::<Seq<u8>>::empty());
        assert(records_of(lv.subrange(from as int, from as int)) =~= Seq::<(Seq<u8>, int)>::empty());
        assert(rs0 + records_of(lv.subrange(from as int, from as int)) =~= rs0);
    }
    while i < to
        invariant
            from <= i <= to <= lines@.len(),
            lv == lines_view(lines@),
            rs0.len() + (to - from) <= u64::MAX,
            agg.inv(),
            agg@ == agg_model(rs0 + records_of(lv.subrange(from as int, i as int))),
            forall|p: int| from <= p < i ==> line_ok(#[trigger] lv[p]),
        decreases to - i,
    {
        let ghost pre = rs0 + records_of(lv.subrange(from as int, i as int));
        proof {
            assert(lv[i as int] == lines@[i as int]@);
        }
        match parse_record(lines[i].as_slice()) {
            Ok(rec) => {
                proof {
                    lemma_agg_count_le_len(pre, rec.name@);
                    assert(pre.len() == rs0.len() + (i - from));
                }
                agg.observe(rec.name, &rec.value);
                proof {
                    let sub2 = lv.subrange(from as int, i + 1);
                    assert(sub2.drop_last() =~= lv.subrange(from as int, i as int));
                    assert(sub2.last() == lv[i as int]);
                    assert(records_of(sub2).drop_last() =~= records_of(
                        lv.subrange(from as int, i as int),
                    ));
                    assert(records_of(sub2).last() == record_of_line(lv[i as int]));
                    let rs2 = rs0 + records_of(sub2);
                    assert(rs2.drop_last() =~= pre);
                    assert(rs2.last() == record_of_line(lv[i as int]));
                    assert(agg@ == observe_model(
                        agg_model(pre),
                        name_of(lv[i as int]),
                        line_value(lv[i as int]),
                    ));
                    assert(agg@ == agg_model(rs2));
                }
            },
            Err(e) => {
                proof {
                    assert(!line_ok(lv[i as int]));
                }
                return Err(e);
            },
        }
        i = i + 1;
    }
    Ok(())
}

/// Parse every line of the whole input into a single table, aborting on
/// the first bad line.
pub fn aggregate_lines(lines: &Vec<Vec<u8>>) -> (r: Result<PartialAggregate, RunError>)
    ensures
        r is Ok <==> all_lines_ok(lines_view(lines@)),
        r matches Ok(agg) ==> agg.inv() && agg@ == table_of(lines_view(lines@)),
        !all_lines_ok(lines_view(lines@)) ==> r == Err::<PartialAggregate, RunError>(
            line_error(lines_view(lines@)[first_bad_line(lines_view(lines@))]),
        ),
{
    let ghost lv = lines_view(lines@);
    let mut agg = PartialAggregate::new();
    proof {
        assert(agg_model(Seq::<(Seq<u8>, int)>::empty()) == Map::<Seq<u8>, GStats>::empty());
    }
    let n = lines.len();
    match observe_range_into(&mut agg, lines, 0, n, Ghost(Seq::empty())) {
        Ok(()) => {
            proof {
                assert(lv.subrange(0, n as int) =~= lv);
                assert(Seq::<(Seq<u8>, int)>::empty() + records_of(lv) =~= records_of(lv));
            }
            Ok(agg)
        },
        Err(e) => {
            proof {
                let j = choose|j: int|
                    #![auto]
                    0 <= j < n && !line_ok(lv[j]) && (forall|p: int|
                        0 <= p < j ==> line_ok(#[trigger] lv[p])) && Err::<(), RunError>(e) == Err::<
                        (),
                        RunError,
                    >(line_error(lv[j]));
                lemma_first_bad_is(lv, j);
            }
            Err(e)
        },
    }
}

/// The lines of the input that parse.
pub open spec fn good_lines(lines: Seq<Seq<u8>>) -> Seq<Seq<u8>> {
    lines.filter(|l: Seq<u8>| line_ok(l))
}

/// Parse every line, skipping and counting the lines that are rejected:
/// the lenient policy. Returns the table of the good lines and how many
/// lines were skipped.
pub fn aggregate_lines_lenient(lines: &Vec<Vec<u8>>) -> (r: (PartialAggregate, usize))
    ensures
        r.0.inv(),
        r.0@ == table_of(good_lines(lines_view(lines@))),
        r.1 == lines@.len() - good_lines(lines_view(lines@)).len(),
{
    let ghost lv = lines_view(lines@);
    let mut agg = PartialAggregate::new();
    let mut skipped: usize = 0;
    let n = lines.len();
    let mut i: usize = 0;
    proof {
        assert(lv.take(0) =~= Seq::<Seq<u8>>::empty());
        assert(good_lines(lv.take(0)) =~= Seq::<Seq<u8>>::empty());
        assert(records_of(good_lines(lv.take(0))) =~= Seq::<(Seq<u8>, int)>::empty());
    }
    while i < n
        invariant
            0 <= i <= n,
            n == lines@.len(),
            lv == lines_view(lines@),
            agg.inv(),
            agg@ == agg_model(records_of(good_lines(lv.take(i as int)))),
            good_lines(lv.take(i as int)).len() + skipped == i,
        decreases n - i,
    {
        let ghost tk = lv.take(i as int);
        let ghost tk2 = lv.take(i + 1);
        proof {
            assert(tk2.drop_last() =~= tk);
            assert(tk2.last() == lv[i as int]);
            assert(lv[i as int] == lines@[i as int]@);
            reveal(Seq::filter);
        }
        match parse_record(lines[i].as_slice()) {
            Ok(rec) => {
                let ghost pre = records_of(good_lines(tk));
                proof {
                    assert(good_lines(tk2) =~= good_lines(tk).push(lv[i as int]));
                    assert(records_of(good_lines(tk2)).drop_last() =~= pre);
                    assert(records_of(good_lines(tk2)).last() == record_of_line(lv[i as int]));
                    lemma_agg_count_le_len(pre, rec.name@);
                }
                agg.observe(rec.name, &rec.value);
            },
            Err(_) => {
                proof {
                    assert(!line_ok(lv[i as int]));
                    assert(good_lines(tk2) =~= good_lines(tk));
                }
                skipped = skipped + 1;
            },
        }
        i = i + 1;
    }
    proof {
        assert(lv.take(n as int) =~= lv);
    }
    (agg, skipped)
}

/// Parse every line into records, fail-fast: the senders' work in the
/// message-passing strategies.
fn parse_all(lines: &Vec<Vec<u8>>) -> (r: Result<Vec<Record>, RunError>)
    ensures
        r is Ok <==> all_lines_ok(lines_view(lines@)),
        r matches Ok(msgs) ==> records_view(msgs@) == records_of(lines_view(lines@)) && (forall|
            i: int,
        |
            0 <= i < msgs@.len() ==> dec_wf(#[trigger] msgs@[i].value)),
        !all_lines_ok(lines_view(lines@)) ==> r == Err::<Vec<Record>, RunError>(
            line_error(lines_view(lines@)[first_bad_line(lines_view(lines@))]),
        ),
{
    let ghost lv = lines_view(lines@);
    let n = lines.len();
    let mut msgs: Vec<Record> = Vec::new();
    let mut i: usize = 0;
    proof {
        assert(records_view(msgs@) =~= records_of(lv.take(0)));
    }
    while i < n
        invariant
            0 <= i <= n,
            n == lines@.len(),
            lv == lines_view(lines@),
            records_view(msgs@) == records_of(lv.take(i as int)),
            forall|p: int| 0 <= p < msgs@.len() ==> dec_wf(#[trigger] msgs@[p].value),
            forall|p: int| 0 <= p < i ==> line_ok(#[trigger] lv[p]),
            msgs@.len() == i,
        decreases n - i,
    {
        proof {
            assert(lv[i as int] == lines@[i as int]@);
        }
        match parse_record(lines[i].as_slice()) {
            Ok(rec) => {
                let ghost m0 = msgs@;
                msgs.push(rec);
                proof {
                    assert(msgs@ == m0.push(rec));
                    assert forall|j: int| 0 <= j < i + 1 implies records_view(msgs@)[j]
                        == records_of(lv.take(i + 1))[j] by {
                        if j < i {
                            assert(msgs@[j] == m0[j]);
                            assert(records_view(m0)[j] == records_of(lv.take(i as int))[j]);
                            assert(records_of(lv.take(i as int))[j] == record_of_line(lv[j]));
                            assert(records_of(lv.take(i + 1))[j] == record_of_line(lv[j]));
                        } else {
                            assert(msgs@[j] == rec);
                        }
                    }
                    assert(records_view(msgs@) =~= records_of(lv.take(i + 1)));
                }
            },
            Err(e) => {
                proof {
                    assert(!line_ok(lv[i as int]));
                    lemma_first_bad_is(lv, i as int);
                }
                return Err(e);
            },
        }
        i = i + 1;
    }
    proof {
        assert(lv.take(n as int) =~= lv);
    }
    Ok(msgs)
}

/// Fold already-parsed records into `agg`: the single consumer's work
/// in the point-to-point strategy.
fn observe_records_into(
    agg: &mut PartialAggregate,
    records: &Vec<Record>,
    Ghost(rs0): Ghost<Seq<(Seq<u8>, int)>>,
)
    requires
        old(agg).inv(),
        old(agg)@ == agg_model(rs0),
        rs0.len() + records@.len() <= u64::MAX,
        forall|i: int| 0 <= i < records@.len() ==> dec_wf(#[trigger] records@[i].value),
    ensures
        final(agg).inv(),
        final(agg)@ == agg_model(rs0 + records_view(records@)),
{
    let n = records.len();
    let mut i: usize = 0;
    proof {
        assert(rs0 + records_view(records@.take(0)) =~= rs0);
    }
    while i < n
        invariant
            0 <= i <= n,
            n == records@.len(),
            rs0.len() + records@.len() <= u64::MAX,
            forall|p: int| 0 <= p < records@.len() ==> dec_wf(#[trigger] records@[p].value),
            agg.inv(),
            agg@ == agg_model(rs0 + records_view(records@.take(i as int))),
        decreases n - i,
    {
        let ghost pre = rs0 + records_view(records@.take(i as int));
        let rec = &records[i];
        proof {
            lemma_agg_count_le_len(pre, rec.name@);
            assert(pre.len() == rs0.len() + i);
        }
        let name = rec.name.clone();
        agg.observe(name, &rec.value);
        proof {
            let rv2 = records_view(records@.take(i + 1));
            assert(rv2.drop_last() =~= records_view(records@.take(i as int)));
            assert(rv2.last() == (records@[i as int].name@, dec_scaled(records@[i as int].value)));
            assert((rs0 + rv2).drop_last() =~= pre);
        }
        i = i + 1;
    }
    proof {
        assert(records@.take(n as int) =~= records@);
    }
}

/// The deterministic name hash the fan-out filter is built on: a
/// polynomial hash of the name bytes, reduced modulo a fixed prime.
pub open spec fn name_hash(s: Seq<u8>) -> nat
    decreases s.len(),
{
    if s.len() == 0 {
        5381
    } else {
        ((name_hash(s.drop_last()) * 33 + s.last()) % 1_000_000_007) as nat
    }
}

/// Which consumer a name belongs to among `n`.
pub open spec fn bucket_of(name: Seq<u8>, n: nat) -> nat {
    name_hash(name) % n
}

pub fn name_hash_exec(name: &[u8]) -> (h: u64)
    ensures
        h as nat == name_hash(name@),
{
    let n = name.len();
    let mut h: u64 = 5381;
    let mut i: usize = 0;
    while i < n
        invariant
            0 <= i <= n,
            n == name@.len(),
            h as nat == name_hash(name@.take(i as int)),
            h < 1_000_000_007,
        decreases n - i,
    {
        proof {
            assert(name@.take(i + 1).drop_last() =~= name@.take(i as int));
            assert(name@.take(i + 1).last() == name@[i as int]);
        }
        h = (h * 33 + name[i] as u64) % 1_000_000_007;
        i = i + 1;
    }
    proof {
        assert(name@.take(n as int) =~= name@);
    }
    h
}

/// Does consumer `consumer` of `consumers` accept a record of this name?
/// Exactly the consumer whose index is the name's bucket does.
pub fn accepts(consumer: u64, consumers: u64, name: &[u8]) -> (b: bool)
    requires
        1 <= consumers,
    ensures
        b == (bucket_of(name@, consumers as nat) == consumer as nat),
{
    let h = name_hash_exec(name);
    h % consumers == consumer
}

/// The records consumer `c` of `n` accepts.
pub open spec fn consumer_records(rs: Seq<(Seq<u8>, int)>, c: nat, n: nat) -> Seq<(Seq<u8>, int)> {
    rs.filter(|r: (Seq<u8>, int)| bucket_of(r.0, n) == c)
}

/// The records accepted by the consumers below `c`.
pub open spec fn low_records(rs: Seq<(Seq<u8>, int)>, c: nat, n: nat) -> Seq<(Seq<u8>, int)> {
    rs.filter(|r: (Seq<u8>, int)| bucket_of(r.0, n) < c)
}

/// The records below `c` plus those of consumer `c` are exactly the
/// records below `c + 1`, as multisets.
proof fn lemma_filter_split(rs: Seq<(Seq<u8>, int)>, c: nat, n: nat)
    ensures
        low_records(rs, c, n).to_multiset().add(consumer_records(rs, c, n).to_multiset())
            =~= low_records(rs, (c + 1) as nat, n).to_multiset(),
        low_records(rs, (c + 1) as nat, n).len() <= rs.len(),
    decreases rs.len(),
{
    broadcast use group_to_multiset_ensures;

    reveal(Seq::filter);
    if rs.len() == 0 {
    } else {
        let dl = rs.drop_last();
        let x = rs.last();
        lemma_filter_split(dl, c, n);
        let lo1 = low_records(dl, c, n);
        let co1 = consumer_records(dl, c, n);
        let hi1 = low_records(dl, (c + 1) as nat, n);
        let b = bucket_of(x.0, n);
        if b < c {
            assert(low_records(rs, c, n) == lo1.push(x));
            assert(consumer_records(rs, c, n) == co1);
            assert(low_records(rs, (c + 1) as nat, n) == hi1.push(x));
            assert(lo1.push(x).to_multiset().add(co1.to_multiset()) =~= hi1.to_multiset().insert(
                x,
            ));
        } else if b == c {
            assert(low_records(rs, c, n) == lo1);
            assert(consumer_records(rs, c, n) == co1.push(x));
            assert(low_records(rs, (c + 1) as nat, n) == hi1.push(x));
            assert(lo1.to_multiset().add(co1.push(x).to_multiset()) =~= hi1.to_multiset().insert(
                x,
            ));
        } else {
            assert(low_records(rs, c, n) == lo1);
            assert(consumer_records(rs, c, n) == co1);
            assert(low_records(rs, (c + 1) as nat, n) == hi1);
        }
    }
}

proof fn lemma_low_zero(rs: Seq<(Seq<u8>, int)>, n: nat)
    ensures
        low_records(rs, 0, n) == Seq::<(Seq<u8>, int)>::empty(),
    decreases rs.len(),
{
    reveal(Seq::filter);
    if rs.len() > 0 {
        lemma_low_zero(rs.drop_last(), n);
    }
}

proof fn lemma_low_full(rs: Seq<(Seq<u8>, int)>, n: nat)
    requires
        n >= 1,
    ensures
        low_records(rs, n, n) == rs,
    decreases rs.len(),
{
    reveal(Seq::filter);
    if rs.len() > 0 {
        lemma_low_full(rs.drop_last(), n);
        assert(rs.drop_last().push(rs.last()) =~= rs);
    }
}

/// Exactly-once fan-out. Each record's name has one bucket, so exactly
/// one of the `n` consumers accepts it; merging the consumers'
/// aggregates one by one therefore rebuilds the aggregate of all
/// records — nothing is dropped and nothing is counted twice.
pub proof fn lemma_broadcast_partition(rs: Seq<(Seq<u8>, int)>, n: nat)
    requires
        n >= 1,
    ensures
        low_records(rs, 0, n) == Seq::<(Seq<u8>, int)>::empty(),
        low_records(rs, n, n) == rs,
        forall|c: nat|
            c < n ==> #[trigger] merge_model(
                agg_model(low_records(rs, c, n)),
                agg_model(consumer_records(rs, c, n)),
            ) == agg_model(low_records(rs, (c + 1) as nat, n)),
{
    lemma_low_zero(rs, n);
    lemma_low_full(rs, n);
    assert forall|c: nat| c < n implies #[trigger] merge_model(
        agg_model(low_records(rs, c, n)),
        agg_model(consumer_records(rs, c, n)),
    ) == agg_model(low_records(rs, (c + 1) as nat, n)) by {
        lemma_filter_split(rs, c, n);
        lemma_multiset_commutative(low_records(rs, c, n), consumer_records(rs, c, n));
        lemma_agg_permutation(
            low_records(rs, c, n) + consumer_records(rs, c, n),
            low_records(rs, (c + 1) as nat, n),
        );
        lemma_agg_concat(low_records(rs, c, n), consumer_records(rs, c, n));
    }
}

/// `records_view` of a one-longer prefix.
proof fn lemma_records_view_take_push(rs: Seq<Record>, i: int)
    requires
        0 <= i < rs.len(),
    ensures
        records_view(rs.take(i + 1)) == records_view(rs.take(i)).push(
            (rs[i].name@, dec_scaled(rs[i].value)),
        ),
{
    assert forall|j: int| 0 <= j < i + 1 implies records_view(rs.take(i + 1))[j] == records_view(
        rs.take(i),
    ).push((rs[i].name@, dec_scaled(rs[i].value)))[j] by {
        if j < i {
            assert(rs.take(i + 1)[j] == rs[j]);
            assert(rs.take(i)[j] == rs[j]);
        } else {
            assert(rs.take(i + 1)[j] == rs[i]);
        }
    }
    assert(records_view(rs.take(i + 1)) =~= records_view(rs.take(i)).push(
        (rs[i].name@, dec_scaled(rs[i].value)),
    ));
}

/// Build consumer `consumer`'s aggregate: scan the whole broadcast
/// record stream and fold in exactly the records the filter accepts.
pub fn broadcast_consumer_aggregate(records: &Vec<Record>, consumer: u64, consumers: u64) -> (agg:
    PartialAggregate)
    requires
        1 <= consumers,
        forall|i: int| 0 <= i < records@.len() ==> dec_wf(#[trigger] records@[i].value),
    ensures
        agg.inv(),
        agg@ == agg_model(
            consumer_records(records_view(records@), consumer as nat, consumers as nat),
        ),
{
    let ghost n_ = consumers as nat;
    let ghost c_ = consumer as nat;
    let mut agg = PartialAggregate::new();
    let n = records.len();
    let mut i: usize = 0;
    proof {
        reveal(Seq::filter);
        assert(records@.take(0) =~= Seq::<Record>::empty());
        assert(records_view(records@.take(0)) =~= Seq::<(Seq<u8>, int)>::empty());
        assert(consumer_records(records_view(records@.take(0)), c_, n_) =~= Seq::<
            (Seq<u8>, int),
        >::empty());
    }
    while i < n
        invariant
            0 <= i <= n,
            n == records@.len(),
            1 <= consumers,
            n_ == consumers as nat,
            c_ == consumer as nat,
            forall|p: int| 0 <= p < records@.len() ==> dec_wf(#[trigger] records@[p].value),
            agg.inv(),
            agg@ == agg_model(consumer_records(records_view(records@.take(i as int)), c_, n_)),
            consumer_records(records_view(records@.take(i as int)), c_, n_).len() <= i,
        decreases n - i,
    {
        let ghost rv1 = records_view(records@.take(i as int));
        let ghost rv2 = records_view(records@.take(i + 1));
        let rec = &records[i];
        proof {
            lemma_records_view_take_push(records@, i as int);
            reveal(Seq::filter);
            assert(rv2.drop_last() =~= rv1);
        }
        if accepts(consumer, consumers, rec.name.as_slice()) {
            let ghost pre = consumer_records(rv1, c_, n_);
            proof {
                assert(consumer_records(rv2, c_, n_) == pre.push(
                    (rec.name@, dec_scaled(rec.value)),
                ));
                lemma_agg_count_le_len(pre, rec.name@);
            }
            let name = rec.name.clone();
            agg.observe(name, &rec.value);
            proof {
                assert(consumer_records(rv2, c_, n_).drop_last() =~= pre);
            }
        } else {
            proof {
                assert(consumer_records(rv2, c_, n_) == consumer_records(rv1, c_, n_));
            }
        }
        i = i + 1;
    }
    proof {
        assert(records@.take(n as int) =~= records@);
    }
    agg
}

/// Concatenating adjacent ranges concatenates their records.
proof fn lemma_records_concat(lv: Seq<Seq<u8>>, a: int, b: int, c: int)
    requires
        0 <= a <= b <= c <= lv.len(),
    ensures
        records_of(lv.subrange(a, b)) + records_of(lv.subrange(b, c)) == records_of(
            lv.subrange(a, c),
        ),
{
    assert(records_of(lv.subrange(a, b)) + records_of(lv.subrange(b, c)) =~= records_of(
        lv.subrange(a, c),
    ));
}

/// Shared-state strategy: `workers` workers take contiguous slices of
/// the input and every `observe` lands in one shared table. Run here in
/// slice order; the reorder-invariance law covers every other
/// interleaving of the workers' observations.
pub fn run_mutex_shared(lines: &Vec<Vec<u8>>, workers: usize) -> (r: Result<
    PartialAggregate,
    RunError,
>)
    requires
        1 <= workers,
    ensures
        r is Ok <==> all_lines_ok(lines_view(lines@)),
        r matches Ok(agg) ==> agg.inv() && agg@ == table_of(lines_view(lines@)),
        !all_lines_ok(lines_view(lines@)) ==> r == Err::<PartialAggregate, RunError>(
            line_error(lines_view(lines@)[first_bad_line(lines_view(lines@))]),
        ),
{
    let ghost lv = lines_view(lines@);
    let n = lines.len();
    let per = n / workers;
    let mut agg = PartialAggregate::new();
    let mut w: usize = 0;
    let mut start: usize = 0;
    proof {
        assert(lv.subrange(0, 0) =~= Seq::<Seq<u8>>::empty());
        assert(records_of(lv.subrange(0, 0)) =~= Seq::<(Seq<u8>, int)>::empty());
    }
    while w < workers
        invariant
            0 <= w <= workers,
            n == lines@.len(),
            lv == lines_view(lines@),
            per == n / workers,
            1 <= workers,
            w < workers ==> start == w * per,
            w == workers ==> start == n,
            start <= n,
            agg.inv(),
            agg@ == agg_model(records_of(lv.subrange(0, start as int))),
            forall|p: int| 0 <= p < start ==> line_ok(#[trigger] lv[p]),
        decreases workers - w,
    {
        proof {
            assert(workers * per <= n) by (nonlinear_arith)
                requires
                    per == n / workers,
                    workers >= 1,
            ;
            if w < workers - 1 {
                assert((w + 1) * per <= workers * per) by (nonlinear_arith)
                    requires
                        w + 1 <= workers,
                        per >= 0,
                ;
                assert(w * per + per == (w + 1) * per) by (nonlinear_arith);
            }
        }
        let end = if w == workers - 1 {
            n
        } else {
            start + per
        };
        match observe_range_into(
            &mut agg,
            lines,
            start,
            end,
            Ghost(records_of(lv.subrange(0, start as int))),
        ) {
            Ok(()) => {
                proof {
                    lemma_records_concat(lv, 0, start as int, end as int);
                }
            },
            Err(e) => {
                proof {
                    let j = choose|j: int|
                        #![auto]
                        start <= j < end && !line_ok(lv[j]) && (forall|p: int|
                            start <= p < j ==> line_ok(#[trigger] lv[p])) && Err::<(), RunError>(
                            e,
                        ) == Err::<(), RunError>(line_error(lv[j]));
                    assert forall|p: int| 0 <= p < j implies line_ok(#[trigger] lv[p]) by {}
                    lemma_first_bad_is(lv, j);
                }
                return Err(e);
            },
        }
        start = end;
        w = w + 1;
    }
    proof {
        assert(lv.subrange(0, n as int) =~= lv);
    }
    Ok(agg)
}

/// Chunked strategy: the input is cut into fixed-size chunks, each
/// chunk builds a local table without any sharing, and only the final
/// per-chunk merge touches the shared table.
pub fn run_chunked(lines: &Vec<Vec<u8>>, chunk_size: usize) -> (r: Result<
    PartialAggregate,
    RunError,
>)
    requires
        1 <= chunk_size,
    ensures
        r is Ok <==> all_lines_ok(lines_view(lines@)),
        r matches Ok(agg) ==> agg.inv() && agg@ == table_of(lines_view(lines@)),
        !all_lines_ok(lines_view(lines@)) ==> r == Err::<PartialAggregate, RunError>(
            line_error(lines_view(lines@)[first_bad_line(lines_view(lines@))]),
        ),
{
    let ghost lv = lines_view(lines@);
    let n = lines.len();
    let mut agg = PartialAggregate::new();
    let mut start: usize = 0;
    proof {
        assert(lv.subrange(0, 0) =~= Seq::<Seq<u8>>::empty());
        assert(records_of(lv.subrange(0, 0)) =~= Seq::<(Seq<u8>, int)>::empty());
    }
    while start < n
        invariant
            0 <= start <= n,
            n == lines@.len(),
            lv == lines_view(lines@),
            1 <= chunk_size,
            agg.inv(),
            agg@ == agg_model(records_of(lv.subrange(0, start as int))),
            forall|p: int| 0 <= p < start ==> line_ok(#[trigger] lv[p]),
        decreases n - start,
    {
        let end = if n - start < chunk_size {
            n
        } else {
            start + chunk_size
        };
        let mut local = PartialAggregate::new();
        proof {
            assert(agg_model(Seq::<(Seq<u8>, int)>::empty()) == Map::<Seq<u8>, GStats>::empty());
        }
        match observe_range_into(&mut local, lines, start, end, Ghost(Seq::empty())) {
            Ok(()) => {},
            Err(e) => {
                proof {
                    let j = choose|j: int|
                        #![auto]
                        start <= j < end && !line_ok(lv[j]) && (forall|p: int|
                            start <= p < j ==> line_ok(#[trigger] lv[p])) && Err::<(), RunError>(
                            e,
                        ) == Err::<(), RunError>(line_error(lv[j]));
                    assert forall|p: int| 0 <= p < j implies line_ok(#[trigger] lv[p]) by {}
                    lemma_first_bad_is(lv, j);
                }
                return Err(e);
            },
        }
        let ghost shared_rs = records_of(lv.subrange(0, start as int));
        let ghost local_rs = Seq::<(Seq<u8>, int)>::empty() + records_of(
            lv.subrange(start as int, end as int),
        );
        proof {
            assert(local_rs =~= records_of(lv.subrange(start as int, end as int)));
            assert forall|k: Seq<u8>| count_of(agg@, k) + count_of(local@, k)
                <= u64::MAX by {
                lemma_agg_count_le_len(shared_rs, k);
                lemma_agg_count_le_len(records_of(lv.subrange(start as int, end as int)), k);
            }
        }
        agg.merge(local);
        proof {
            lemma_agg_concat(shared_rs, records_of(lv.subrange(start as int, end as int)));
            lemma_records_concat(lv, 0, start as int, end as int);
        }
        start = end;
    }
    proof {
        assert(lv.subrange(0, n as int) =~= lv);
    }
    Ok(agg)
}

/// Point-to-point strategy: workers parse their slices and send the
/// records over a queue; one consumer folds every received record into
/// its table. Run here in send order; the reorder-invariance law covers
/// every arrival order the queue may produce.
pub fn run_point_to_point(lines: &Vec<Vec<u8>>, workers: usize) -> (r: Result<
    PartialAggregate,
    RunError,
>)
    requires
        1 <= workers,
    ensures
        r is Ok <==> all_lines_ok(lines_view(lines@)),
        r matches Ok(agg) ==> agg.inv() && agg@ == table_of(lines_view(lines@)),
        !all_lines_ok(lines_view(lines@)) ==> r == Err::<PartialAggregate, RunError>(
            line_error(lines_view(lines@)[first_bad_line(lines_view(lines@))]),
        ),
{
    let ghost lv = lines_view(lines@);
    let msgs = match parse_all(lines) {
        Ok(msgs) => msgs,
        Err(e) => {
            return Err(e);
        },
    };
    let mut agg = PartialAggregate::new();
    let n = msgs.len();
    proof {
        assert(agg_model(Seq::<(Seq<u8>, int)>::empty()) == Map::<Seq<u8>, GStats>::empty());
        assert(msgs@.len() == n);
        assert(n <= usize::MAX);
        assert(usize::MAX as nat <= u64::MAX as nat);
    }
    observe_records_into(&mut agg, &msgs, Ghost(Seq::empty()));
    proof {
        assert(Seq::<(Seq<u8>, int)>::empty() + records_view(msgs@) =~= records_view(msgs@));
    }
    Ok(agg)
}

/// Broadcast strategy: every record reaches all `consumers` consumers;
/// each keeps only the records its filter accepts and the consumers'
/// tables are merged. The partition law makes the merged table equal
/// the unpartitioned one.
pub fn run_broadcast(lines: &Vec<Vec<u8>>, consumers: u64) -> (r: Result<
    PartialAggregate,
    RunError,
>)
    requires
        1 <= consumers,
    ensures
        r is Ok <==> all_lines_ok(lines_view(lines@)),
        r matches Ok(agg) ==> agg.inv() && agg@ == table_of(lines_view(lines@)),
        !all_lines_ok(lines_view(lines@)) ==> r == Err::<PartialAggregate, RunError>(
            line_error(lines_view(lines@)[first_bad_line(lines_view(lines@))]),
        ),
{
    let ghost lv = lines_view(lines@);
    let msgs = match parse_all(lines) {
        Ok(msgs) => msgs,
        Err(e) => {
            return Err(e);
        },
    };
    let ghost rv = records_view(msgs@);
    let ghost n_ = consumers as nat;
    let mut merged = PartialAggregate::new();
    let mut c: u64 = 0;
    let nmsgs = msgs.len();
    proof {
        lemma_low_zero(rv, n_);
        assert(agg_model(Seq::<(Seq<u8>, int)>::empty()) == Map::<Seq<u8>, GStats>::empty());
        assert(rv.len() == msgs@.len());
        assert(msgs@.len() == nmsgs);
        assert(nmsgs <= usize::MAX);
        assert(usize::MAX as nat <= u64::MAX as nat);
    }
    while c < consumers
        invariant
            0 <= c <= consumers,
            n_ == consumers as nat,
            rv == records_view(msgs@),
            rv == records_of(lv),
            rv.len() <= u64::MAX,
            forall|p: int| 0 <= p < msgs@.len() ==> dec_wf(#[trigger] msgs@[p].value),
            merged.inv(),
            merged@ == agg_model(low_records(rv, c as nat, n_)),
        decreases consumers - c,
    {
        let cons = broadcast_consumer_aggregate(&msgs, c, consumers);
        let ghost mlow = agg_model(low_records(rv, c as nat, n_));
        let ghost mcon = agg_model(consumer_records(rv, c as nat, n_));
        proof {
            lemma_filter_split(rv, c as nat, n_);
            lemma_multiset_commutative(
                low_records(rv, c as nat, n_),
                consumer_records(rv, c as nat, n_),
            );
            lemma_agg_permutation(
                low_records(rv, c as nat, n_) + consumer_records(rv, c as nat, n_),
                low_records(rv, (c + 1) as nat, n_),
            );
            lemma_agg_concat(low_records(rv, c as nat, n_), consumer_records(rv, c as nat, n_));
            assert forall|k: Seq<u8>| count_of(merged@, k) + count_of(cons@, k)
                <= u64::MAX by {
                assert(count_of(merge_model(mlow, mcon), k) == count_of(mlow, k) + count_of(
                    mcon,
                    k,
                ));
                lemma_agg_count_le_len(low_records(rv, (c + 1) as nat, n_), k);
            }
        }
        merged.merge(cons);
        c = c + 1;
    }
    proof {
        lemma_low_full(rv, n_);
    }
    Ok(merged)
}

/// Relies on num_cpus::get: the number of available CPUs of the current
/// system, which is always at least 1.
#[verifier::external_body]
fn detected_workers() -> (n: usize)
    ensures
        1 <= n,
{
    num_cpus::get()
}

/// The default worker count: one worker per available processing unit.
pub fn default_worker_count() -> (n: usize)
    ensures
        1 <= n,
{
    detected_workers()
}

/// Run one strategy end to end over the input lines and emit the final
/// sorted rows. Every strategy produces the same rows on the same
/// input: the table of all records, sorted by entity name.
pub fn run_strategy(
    strategy: Strategy,
    lines: &Vec<Vec<u8>>,
    workers: usize,
    chunk_size: usize,
    consumers: u64,
) -> (r: Result<Vec<Row>, RunError>)
    requires
        1 <= workers,
        1 <= chunk_size,
        1 <= consumers,
    ensures
        r is Ok <==> all_lines_ok(lines_view(lines@)),
        r matches Ok(rows) ==> {
            let table = table_of(lines_view(lines@));
            &&& rows@.len() == table.dom().len()
            &&& (forall|i: int, j: int|
                0 <= i < j < rows@.len() ==> lex_lt(
                    #[trigger] rows@[i].name@,
                    #[trigger] rows@[j].name@,
                ))
            &&& (forall|i: int|
                0 <= i < rows@.len() ==> {
                    let g = table[#[trigger] rows@[i].name@];
                    &&& table.dom().contains(rows@[i].name@)
                    &&& rows@[i].min == dec_of_scaled(g.min)
                    &&& rows@[i].mean == dec_of_scaled(mean_scaled(g))
                    &&& rows@[i].max == dec_of_scaled(g.max)
                })
            &&& (forall|k: Seq<u8>|
                table.dom().contains(k) ==> exists|i: int|
                    0 <= i < rows@.len() && #[trigger] rows@[i].name@ == k)
        },
        !all_lines_ok(lines_view(lines@)) ==> r == Err::<Vec<Row>, RunError>(
            line_error(lines_view(lines@)[first_bad_line(lines_view(lines@))]),
        ),
{
    let agg = match strategy {
        Strategy::MutexShared => run_mutex_shared(lines, workers),
        Strategy::ChunkedMutexShared => run_chunked(lines, chunk_size),
        Strategy::PointToPoint => run_point_to_point(lines, workers),
        Strategy::BroadcastFilter => run_broadcast(lines, consumers),
    };
    match agg {
        Ok(agg) => Ok(agg.finalize()),
        Err(e) => Err(e),
    }
}

} // verus!
