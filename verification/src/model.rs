//! The mathematical model of aggregation.
//!
//! A record sequence is folded, one record at a time, into a map from key
//! bytes to running statistics.  The lemmas here pin that fold down: per
//! key it equals the direct statistics of that key's values, and folding
//! a concatenation equals merging the two folds.

use vstd::prelude::*;

verus! {

/// Running statistics of one key, in the mathematical world: minimum,
/// maximum and sum of the value tenths, and the number of occurrences.
pub struct DataModel {
    pub min: int,
    pub max: int,
    pub sum: int,
    pub count: nat,
}

pub type AggMap = Map<Seq<u8>, DataModel>;

pub open spec fn data_single(v: int) -> DataModel {
    DataModel { min: v, max: v, sum: v, count: 1 }
}

/// The order-independent combination rule: elementwise minimum and
/// maximum, and the sums of sums and counts.
pub open spec fn data_combine(a: DataModel, b: DataModel) -> DataModel {
    DataModel {
        min: if a.min <= b.min { a.min } else { b.min },
        max: if a.max >= b.max { a.max } else { b.max },
        sum: a.sum + b.sum,
        count: a.count + b.count,
    }
}

pub open spec fn data_add(a: DataModel, v: int) -> DataModel {
    data_combine(a, data_single(v))
}

/// What any table entry satisfies: at least one occurrence, extremes in
/// machine-integer range and ordered, and a sum bounded by the extremes
/// scaled by the count (so in particular min <= sum/count <= max).
pub open spec fn data_valid(d: DataModel) -> bool {
    &&& 1 <= d.count
    &&& i32::MIN <= d.min <= d.max <= i32::MAX
    &&& d.min * d.count <= d.sum <= d.max * d.count
}

/// One record folded into the map: a fresh entry for a new key, the
/// combination rule for a seen one.
pub open spec fn table_push(m: AggMap, k: Seq<u8>, v: int) -> AggMap {
    if m.contains_key(k) {
        m.insert(k, data_add(m[k], v))
    } else {
        m.insert(k, data_single(v))
    }
}

pub open spec fn table_fold(m: AggMap, recs: Seq<(Seq<u8>, int)>) -> AggMap
    decreases recs.len(),
{
    if recs.len() == 0 {
        m
    } else {
        table_push(table_fold(m, recs.drop_last()), recs.last().0, recs.last().1)
    }
}

/// The aggregate of a record sequence.
pub open spec fn table_of(recs: Seq<(Seq<u8>, int)>) -> AggMap {
    table_fold(Map::empty(), recs)
}

/// Two aggregates merged key by key.
pub open spec fn combine_maps(m1: AggMap, m2: AggMap) -> AggMap {
    Map::new(
        |k: Seq<u8>| m1.contains_key(k) || m2.contains_key(k),
        |k: Seq<u8>|
            if m1.contains_key(k) && m2.contains_key(k) {
                data_combine(m1[k], m2[k])
            } else if m1.contains_key(k) {
                m1[k]
            } else {
                m2[k]
            },
    )
}

/// The set of distinct keys of a record sequence.
pub open spec fn rec_keys(recs: Seq<(Seq<u8>, int)>) -> Set<Seq<u8>>
    decreases recs.len(),
{
    if recs.len() == 0 {
        Set::empty()
    } else {
        rec_keys(recs.drop_last()).insert(recs.last().0)
    }
}

/// The values of one key, in record order.
pub open spec fn values_of(recs: Seq<(Seq<u8>, int)>, k: Seq<u8>) -> Seq<int>
    decreases recs.len(),
{
    if recs.len() == 0 {
        Seq::empty()
    } else if recs.last().0 == k {
        values_of(recs.drop_last(), k).push(recs.last().1)
    } else {
        values_of(recs.drop_last(), k)
    }
}

/// The statistics of a value sequence by direct scan.
pub open spec fn stats_of(vs: Seq<int>) -> DataModel
    decreases vs.len(),
{
    if vs.len() == 0 {
        data_single(0)
    } else if vs.len() == 1 {
        data_single(vs[0])
    } else {
        data_add(stats_of(vs.drop_last()), vs.last())
    }
}

pub proof fn lemma_rec_keys_finite(recs: Seq<(Seq<u8>, int)>)
    ensures
        rec_keys(recs).finite(),
        rec_keys(recs).len() <= recs.len(),
    decreases recs.len(),
{
    if recs.len() > 0 {
        lemma_rec_keys_finite(recs.drop_last());
    }
}

/// Every record's key is among the distinct keys.
pub proof fn lemma_rec_keys_contains(recs: Seq<(Seq<u8>, int)>, i: int)
    requires
        0 <= i < recs.len(),
    ensures
        rec_keys(recs).contains(recs[i].0),
    decreases recs.len(),
{
    if i < recs.len() - 1 {
        lemma_rec_keys_contains(recs.drop_last(), i);
    }
}

pub proof fn lemma_rec_keys_concat(a: Seq<(Seq<u8>, int)>, b: Seq<(Seq<u8>, int)>)
    ensures
        rec_keys(a + b) == rec_keys(a).union(rec_keys(b)),
    decreases b.len(),
{
    if b.len() == 0 {
        assert(a + b =~= a);
        assert(rec_keys(a).union(rec_keys(b)) =~= rec_keys(a));
    } else {
        lemma_rec_keys_concat(a, b.drop_last());
        assert((a + b).drop_last() =~= a + b.drop_last());
        assert((a + b).last() == b.last());
        assert(rec_keys(a).union(rec_keys(b.drop_last())).insert(b.last().0) =~= rec_keys(
            a,
        ).union(rec_keys(b)));
    }
}

pub proof fn lemma_fold_dom(m: AggMap, recs: Seq<(Seq<u8>, int)>)
    ensures
        table_fold(m, recs).dom() == m.dom().union(rec_keys(recs)),
    decreases recs.len(),
{
    if recs.len() == 0 {
        assert(m.dom().union(rec_keys(recs)) =~= m.dom());
    } else {
        lemma_fold_dom(m, recs.drop_last());
        assert(table_fold(m, recs).dom() =~= m.dom().union(rec_keys(recs)));
    }
}

/// AGGREGATE CORRECTNESS: in the fold of a record sequence, a key is
/// present exactly when it occurs, and its entry holds the minimum, the
/// maximum, the sum and the number of that key's values as a direct scan
/// of the sequence computes them.
pub proof fn lemma_aggregate_correct(recs: Seq<(Seq<u8>, int)>, k: Seq<u8>)
    ensures
        table_of(recs).contains_key(k) <==> values_of(recs, k).len() > 0,
        table_of(recs).contains_key(k) ==> table_of(recs)[k] == stats_of(values_of(recs, k)),
    decreases recs.len(),
{
    if recs.len() > 0 {
        lemma_aggregate_correct(recs.drop_last(), k);
        let prev = table_of(recs.drop_last());
        let vs = values_of(recs.drop_last(), k);
        if recs.last().0 == k && prev.contains_key(k) {
            assert(stats_of(vs.push(recs.last().1)) == data_add(stats_of(vs), recs.last().1)) by {
                assert(vs.push(recs.last().1).drop_last() =~= vs);
            }
        }
        if recs.last().0 == k && !prev.contains_key(k) {
            assert(vs.len() == 0);
            assert(values_of(recs, k) =~= seq![recs.last().1]);
        }
    }
}

proof fn lemma_push_combine(m1: AggMap, m2: AggMap, k: Seq<u8>, v: int)
    ensures
        table_push(combine_maps(m1, m2), k, v) == combine_maps(m1, table_push(m2, k, v)),
{
    assert(table_push(combine_maps(m1, m2), k, v) =~= combine_maps(m1, table_push(m2, k, v)));
}

/// MERGE CORRECTNESS: folding a concatenation of two record sequences
/// equals merging their two folds key by key — scanning two partitions
/// separately and merging the tables gives the single-scan table.
pub proof fn lemma_merge_tables(a: Seq<(Seq<u8>, int)>, b: Seq<(Seq<u8>, int)>)
    ensures
        table_of(a + b) == combine_maps(table_of(a), table_of(b)),
    decreases b.len(),
{
    if b.len() == 0 {
        assert(a + b =~= a);
        assert(combine_maps(table_of(a), table_of(b)) =~= table_of(a));
    } else {
        lemma_merge_tables(a, b.drop_last());
        assert((a + b).drop_last() =~= a + b.drop_last());
        lemma_push_combine(table_of(a), table_of(b.drop_last()), b.last().0, b.last().1);
    }
}

} // verus!
