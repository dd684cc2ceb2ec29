//! The worker lane, the merger and the sequential driver.
//!
//! `process` folds one record into a table; `consume` runs a lane over
//! one partition; `merge_into` folds one lane's table into another; and
//! `cluster_process` plans the partitions, runs every lane and merges
//! the results.  The driver's contract pins the outcome down to the
//! record sequence of the buffer alone, so the result is the same for
//! every lane count.

use vstd::prelude::*;
use vstd::set_lib::lemma_len_subset;
use crate::model::combine_maps;
use crate::model::lemma_fold_dom;
use crate::model::lemma_merge_tables;
use crate::model::lemma_rec_keys_concat;
use crate::model::lemma_rec_keys_contains;
use crate::model::lemma_rec_keys_finite;
use crate::model::rec_keys;
use crate::model::table_fold;
use crate::model::table_of;
use crate::model::AggMap;
use crate::planner::aligned;
use crate::planner::lemma_lane_split;
use crate::records::lemma_lane_records_len;
use crate::records::parse_line;
use crate::records::spec_lane_records;
use crate::records::spec_parse_line;
use crate::records::spec_records;
use crate::records::AggError;
use crate::table::drained_counts;
use crate::table::entry_ok;
use crate::table::key_of;
use crate::table::Entry;
use crate::table::LookupTable;
use crate::table::MAP_SIZE;

verus! {

/// Scan one record at `offset` and fold it into the table; the hot-path
/// step of a worker lane.  `Ok(None)` signals end of input; `Ok(Some(n))`
/// hands back the offset of the next record.  Fails exactly on a
/// malformed record or on a new key meeting a full table, leaving the
/// table unchanged.
pub fn process(data: &[u8], offset: usize, store: &mut LookupTable) -> (r: Result<
    Option<usize>,
    AggError,
>)
    requires
        data@.len() < usize::MAX,
        old(store).wf(data@),
        old(store).spec_total() + 1 <= u64::MAX,
    ensures
        match r {
            Ok(None) => offset >= data@.len() && *final(store) == *old(store),
            Ok(Some(next)) => {
                &&& offset < data@.len()
                &&& spec_parse_line(data@, offset as int) matches Some((k, v, nx)) && {
                    &&& nx == next as int
                    &&& final(store).map_view(data@) == crate::model::table_push(
                        old(store).map_view(data@),
                        k,
                        v,
                    )
                    &&& final(store).map_view(data@).dom() == old(store).map_view(
                        data@,
                    ).dom().insert(k)
                }
                &&& final(store).wf(data@)
                &&& final(store).spec_total() == old(store).spec_total() + 1
                &&& offset + 5 <= next <= data@.len() + 1
            },
            Err(e) => {
                &&& offset < data@.len()
                &&& *final(store) == *old(store)
                &&& match e {
                    AggError::TableCapacityExceeded => spec_parse_line(data@, offset as int)
                        matches Some((k, v, nx)) && !old(store).map_view(data@).contains_key(k)
                        && old(store).spec_used() == MAP_SIZE,
                    _ => spec_parse_line(data@, offset as int) is None,
                }
            },
        },
{
    match parse_line(data, offset)? {
        None => Ok(None),
        Some(pr) => {
            let ghost k = data@.subrange(pr.place_start as int, pr.place_end as int);
            match store.insert_or_update(data, pr.place_start, pr.place_end, pr.place_hash, pr.val)
            {
                Ok(_) => {
                    proof {
                        assert(final(store).map_view(data@).dom() =~= old(store).map_view(
                            data@,
                        ).dom().insert(k));
                    }
                    Ok(Some(pr.next))
                },
                Err(e) => Err(e),
            }
        },
    }
}

/// The worker lane: scan every record starting within the partition
/// `[start, start + size)` and fold it into the table.  The last record
/// of the partition may extend past the partition end; it still belongs
/// to this lane, since lanes own the records that start in their range.
/// Fails exactly when a scanned record is malformed or the distinct keys
/// overrun the table.
pub fn consume(data: &[u8], start: usize, size: usize, store: &mut LookupTable) -> (r: Result<
    (),
    AggError,
>)
    requires
        data@.len() < usize::MAX,
        start <= data@.len(),
        old(store).wf(data@),
        old(store).spec_total() + size <= u64::MAX,
    ensures
        final(store).wf(data@),
        ({
            let lane = spec_lane_records(data@, start as int, start as int + size as int);
            match r {
                Ok(_) => {
                    &&& lane matches Some(recs) && {
                        &&& final(store).map_view(data@) == table_fold(
                            old(store).map_view(data@),
                            recs,
                        )
                        &&& final(store).map_view(data@).dom() == old(store).map_view(
                            data@,
                        ).dom().union(rec_keys(recs))
                        &&& final(store).spec_total() == old(store).spec_total() + recs.len()
                    }
                },
                Err(_) => !(lane matches Some(recs) && old(store).map_view(data@).dom().union(
                    rec_keys(recs),
                ).len() <= MAP_SIZE),
            }
        }),
{
    let ghost limit = start as int + size as int;
    let ghost m_init = store.map_view(data@);
    let ghost t_init = store.spec_total();
    proof {
        store.lemma_dom_card(data@);
    }
    let mut readptr = start;
    let ghost mut processed = Seq::<(Seq<u8>, int)>::empty();
    proof {
        assert(table_fold(m_init, processed) == m_init);
        assert(m_init.dom().union(rec_keys(processed)) =~= m_init.dom());
        assert(processed + spec_lane_records(data@, readptr as int, limit)->0 =~= spec_lane_records(
            data@,
            readptr as int,
            limit,
        )->0);
    }
    while readptr - start < size
        invariant
            data@.len() < usize::MAX,
            limit == start as int + size as int,
            m_init == old(store).map_view(data@),
            t_init == old(store).spec_total(),
            start <= readptr <= data@.len() + 1,
            store.wf(data@),
            m_init.dom().finite(),
            t_init + size <= u64::MAX,
            store.map_view(data@) == table_fold(m_init, processed),
            store.map_view(data@).dom() == m_init.dom().union(rec_keys(processed)),
            store.spec_total() == t_init + processed.len(),
            5 * processed.len() <= readptr - start,
            spec_lane_records(data@, start as int, limit) == (match spec_lane_records(
                data@,
                readptr as int,
                limit,
            ) {
                Some(rest) => Some(processed + rest),
                None => None::<Seq<(Seq<u8>, int)>>,
            }),
        decreases data@.len() + 1 - readptr,
    {
        proof {
            assert(processed.len() <= 5 * processed.len());
            assert(store.spec_total() + 1 <= u64::MAX);
        }
        let ghost processed0 = processed;
        match process(data, readptr, store) {
            Ok(None) => {
                proof {
                    assert(spec_lane_records(data@, readptr as int, limit) == Some(
                        Seq::<(Seq<u8>, int)>::empty(),
                    ));
                    assert(processed + Seq::<(Seq<u8>, int)>::empty() =~= processed);
                }
                return Ok(());
            },
            Ok(Some(next)) => {
                proof {
                    let (k, v, nx) = spec_parse_line(data@, readptr as int)->0;
                    assert(readptr < limit);
                    processed = processed.push((k, v));
                    assert(processed.drop_last() =~= processed0);
                    assert(processed.last() == (k, v));
                    assert(store.map_view(data@) == table_fold(m_init, processed));
                    assert(rec_keys(processed) =~= rec_keys(processed0).insert(k));
                    assert(store.map_view(data@).dom() =~= m_init.dom().union(
                        rec_keys(processed),
                    ));
                    match spec_lane_records(data@, nx, limit) {
                        Option::Some(rest) => {
                            assert(spec_lane_records(data@, readptr as int, limit) == Some(
                                seq![(k, v)] + rest,
                            ));
                            assert(processed0 + (seq![(k, v)] + rest) =~= processed + rest);
                        },
                        Option::None => {
                            assert(spec_lane_records(data@, readptr as int, limit) is None);
                        },
                    }
                }
                readptr = next;
            },
            Err(e) => {
                proof {
                    lemma_consume_failure(
                        data@,
                        start as int,
                        readptr as int,
                        limit,
                        processed,
                        m_init,
                        *store,
                        e,
                    );
                }
                return Err(e);
            },
        }
    }
    proof {
        assert(readptr >= limit);
        assert(spec_lane_records(data@, readptr as int, limit) == Some(
            Seq::<(Seq<u8>, int)>::empty(),
        ));
        assert(processed + Seq::<(Seq<u8>, int)>::empty() =~= processed);
    }
    Ok(())
}

/// The keys and statistics of the first `n` drained entries, as a map.
spec fn drained_prefix_map(data: Seq<u8>, out: Seq<Entry>, n: int) -> AggMap
    decreases n,
{
    if n <= 0 {
        Map::empty()
    } else if 0 <= n - 1 < out.len() {
        drained_prefix_map(data, out, n - 1).insert(key_of(out[n - 1], data), out[n - 1].stats@)
    } else {
        drained_prefix_map(data, out, n - 1)
    }
}

/// With pairwise distinct keys, the prefix map holds exactly the keys of
/// the first `n` entries, each with its entry's statistics.
proof fn lemma_drained_prefix_map(data: Seq<u8>, out: Seq<Entry>, n: int)
    requires
        0 <= n <= out.len(),
        forall|i1: int, i2: int|
            0 <= i1 < i2 < out.len() ==> key_of(#[trigger] out[i1], data) != key_of(
                #[trigger] out[i2],
                data,
            ),
    ensures
        drained_prefix_map(data, out, n).dom().finite(),
        forall|x: int|
            0 <= x < n ==> drained_prefix_map(data, out, n).contains_key(
                key_of(#[trigger] out[x], data),
            ) && drained_prefix_map(data, out, n)[key_of(out[x], data)] == out[x].stats@,
        forall|k: Seq<u8>|
            drained_prefix_map(data, out, n).contains_key(k) ==> exists|x: int|
                0 <= x < n && key_of(#[trigger] out[x], data) == k,
    decreases n,
{
    if n > 0 {
        lemma_drained_prefix_map(data, out, n - 1);
        assert forall|k: Seq<u8>| drained_prefix_map(data, out, n).contains_key(k) implies exists|
            x: int,
        | 0 <= x < n && key_of(#[trigger] out[x], data) == k by {
            if k != key_of(out[n - 1], data) {
                let x = choose|x: int|
                    0 <= x < n - 1 && key_of(#[trigger] out[x], data) == k;
                assert(key_of(out[x], data) == k);
            } else {
                assert(key_of(out[n - 1], data) == k);
            }
        }
    }
}

/// The merger's single fold: drain one lane's table and fold every
/// entry into this table, combining statistics key by key.  Succeeds
/// exactly when the two key sets together fit the capacity.
pub fn merge_into(store: &mut LookupTable, data: &[u8], other: LookupTable) -> (r: Result<
    (),
    AggError,
>)
    requires
        old(store).wf(data@),
        other.wf(data@),
        old(store).spec_total() + other.spec_total() <= u64::MAX,
    ensures
        final(store).wf(data@),
        match r {
            Ok(_) => {
                &&& final(store).map_view(data@) == combine_maps(
                    old(store).map_view(data@),
                    other.map_view(data@),
                )
                &&& final(store).spec_total() == old(store).spec_total() + other.spec_total()
                &&& old(store).map_view(data@).dom().union(
                    other.map_view(data@).dom(),
                ).len() <= MAP_SIZE
            },
            Err(e) => {
                &&& e is TableCapacityExceeded
                &&& old(store).map_view(data@).dom().union(
                    other.map_view(data@).dom(),
                ).len() > MAP_SIZE
            },
        },
{
    let ghost m0 = store.map_view(data@);
    let ghost t0 = store.spec_total();
    let ghost om = other.map_view(data@);
    let ghost ot = other.spec_total();
    proof {
        store.lemma_dom_card(data@);
        other.lemma_dom_card(data@);
    }
    let entries = other.drain(data);
    let ghost es = entries@;
    let n = entries.len();
    let mut i: usize = 0;
    proof {
        assert(combine_maps(m0, drained_prefix_map(data@, es, 0)) =~= m0);
        lemma_drained_prefix_map(data@, es, es.len() as int);
    }
    while i < n
        invariant
            i <= n,
            n == es.len(),
            es == entries@,
            m0 == old(store).map_view(data@),
            t0 == old(store).spec_total(),
            om == other.map_view(data@),
            ot == other.spec_total(),
            t0 + ot <= u64::MAX,
            m0.dom().finite(),
            om.dom().finite(),
            store.wf(data@),
            forall|x: int|
                0 <= x < es.len() ==> entry_ok(#[trigger] es[x], data@) && om.contains_key(
                    key_of(es[x], data@),
                ) && om[key_of(es[x], data@)] == es[x].stats@,
            forall|i1: int, i2: int|
                0 <= i1 < i2 < es.len() ==> key_of(#[trigger] es[i1], data@) != key_of(
                    #[trigger] es[i2],
                    data@,
                ),
            forall|k: Seq<u8>|
                #[trigger] om.contains_key(k) ==> exists|x: int|
                    0 <= x < es.len() && key_of(#[trigger] es[x], data@) == k,
            drained_counts(es, es.len() as int) == ot,
            store.map_view(data@) == combine_maps(m0, drained_prefix_map(data@, es, i as int)),
            store.spec_total() == t0 + drained_counts(es, i as int),
        decreases n - i,
    {
        let e = entries[i];
        let ghost mp = drained_prefix_map(data@, es, i as int);
        let ghost k = key_of(e, data@);
        proof {
            assert(entry_ok(es[i as int], data@));
            lemma_drained_prefix_map(data@, es, i as int);
            if mp.contains_key(k) {
                let x = choose|x: int| 0 <= x < i && key_of(#[trigger] es[x], data@) == k;
                assert(key_of(es[x], data@) != key_of(es[i as int], data@));
                assert(false);
            }
            lemma_drained_counts_mono(es, i as int + 1, es.len() as int);
            assert(store.spec_total() + e.stats.count <= u64::MAX);
        }
        match store.merge_entry(data, e.key_start, e.key_end, e.hash, e.stats) {
            Ok(_) => {
                proof {
                    let mp2 = drained_prefix_map(data@, es, i as int + 1);
                    assert(mp2 == mp.insert(k, e.stats@));
                    assert(store.map_view(data@) =~= combine_maps(m0, mp2));
                }
                i = i + 1;
            },
            Err(err) => {
                proof {
                    store.lemma_dom_card(data@);
                    let dom_now = store.map_view(data@).dom();
                    let big = m0.dom().union(om.dom());
                    assert forall|k2: Seq<u8>| #[trigger] dom_now.contains(k2) implies big.contains(
                        k2,
                    ) by {
                        if !m0.contains_key(k2) {
                            assert(mp.contains_key(k2));
                            let x = choose|x: int|
                                0 <= x < i && key_of(#[trigger] es[x], data@) == k2;
                            assert(om.contains_key(key_of(es[x], data@)));
                        }
                    }
                    assert(om.contains_key(k));
                    assert(dom_now.insert(k).subset_of(big));
                    vstd::set::axiom_set_union_finite(m0.dom(), om.dom());
                    assert(big.finite());
                    lemma_len_subset(dom_now.insert(k), big);
                    assert(dom_now.len() == MAP_SIZE);
                    assert(!dom_now.contains(k));
                    assert(dom_now.insert(k).len() == MAP_SIZE + 1);
                }
                return Err(err);
            },
        }
    }
    proof {
        let mp = drained_prefix_map(data@, es, es.len() as int);
        assert forall|k2: Seq<u8>| #[trigger] om.contains_key(k2) implies mp.contains_key(k2)
            && mp[k2] == om[k2] by {
            let x = choose|x: int| 0 <= x < es.len() && key_of(#[trigger] es[x], data@) == k2;
            assert(mp.contains_key(key_of(es[x], data@)));
            assert(mp[key_of(es[x], data@)] == es[x].stats@);
        }
        assert forall|k2: Seq<u8>| #[trigger] mp.contains_key(k2) implies om.contains_key(k2) by {
            let x = choose|x: int| 0 <= x < es.len() && key_of(#[trigger] es[x], data@) == k2;
            assert(om.contains_key(key_of(es[x], data@)));
        }
        assert(mp =~= om);
        store.lemma_dom_card(data@);
        store.lemma_bounds(data@);
        assert(store.map_view(data@).dom() =~= m0.dom().union(om.dom()));
    }
    Ok(())
}

/// A failing lane step refutes the lane's success condition: a malformed
/// record poisons the whole lane scan, and a full table on a new key
/// pins the combined key count above the capacity.
proof fn lemma_consume_failure(
    data: Seq<u8>,
    start: int,
    readptr: int,
    limit: int,
    processed: Seq<(Seq<u8>, int)>,
    m_init: AggMap,
    store: LookupTable,
    e: AggError,
)
    requires
        store.wf(data),
        m_init.dom().finite(),
        0 <= start <= readptr < limit,
        readptr < data.len(),
        store.map_view(data).dom() == m_init.dom().union(rec_keys(processed)),
        spec_lane_records(data, start, limit) == (match spec_lane_records(data, readptr, limit) {
            Some(rest) => Some(processed + rest),
            None => None::<Seq<(Seq<u8>, int)>>,
        }),
        match e {
            AggError::TableCapacityExceeded => spec_parse_line(data, readptr) matches Some(
                (k, v, nx),
            ) && !store.map_view(data).contains_key(k) && store.spec_used() == MAP_SIZE,
            _ => spec_parse_line(data, readptr) is None,
        },
    ensures
        !(spec_lane_records(data, start, limit) matches Some(recs) && m_init.dom().union(
            rec_keys(recs),
        ).len() <= MAP_SIZE),
{
    match spec_lane_records(data, start, limit) {
        Option::None => {},
        Option::Some(recs) => {
            assert(spec_lane_records(data, readptr, limit) is Some);
            let rest = spec_lane_records(data, readptr, limit)->0;
            assert(recs == processed + rest);
            match e {
                AggError::TableCapacityExceeded => {
                    let (k, v, nx) = spec_parse_line(data, readptr)->0;
                    assert(spec_lane_records(data, nx, limit) is Some);
                    let rest2 = spec_lane_records(data, nx, limit)->0;
                    assert(rest == seq![(k, v)] + rest2);
                    lemma_rec_keys_concat(processed, rest);
                    let dom_now = store.map_view(data).dom();
                    store.lemma_dom_card(data);
                    let big = m_init.dom().union(rec_keys(recs));
                    assert(recs[processed.len() as int] == (k, v));
                    lemma_rec_keys_contains(recs, processed.len() as int);
                    assert(rec_keys(recs).contains(k));
                    assert(dom_now.insert(k).subset_of(big));
                    lemma_rec_keys_finite(recs);
                    lemma_len_subset(dom_now.insert(k), big);
                    assert(dom_now.insert(k).len() == MAP_SIZE + 1);
                    assert(big.len() > MAP_SIZE);
                },
                _ => {
                    assert(spec_lane_records(data, readptr, limit) is None);
                    assert(false);
                },
            }
        },
    }
}

/// A planned boundary list: starts at zero, ends at the buffer length,
/// never decreases, and every boundary is aligned to a record start.
pub open spec fn bounds_ok(data: Seq<u8>, bs: Seq<usize>, lanes: int) -> bool {
    &&& bs.len() == lanes + 1
    &&& bs[0] == 0
    &&& bs[lanes] == data.len()
    &&& forall|y: int| 0 <= y <= lanes ==> aligned(data, #[trigger] bs[y] as int)
    &&& forall|y: int| 0 <= y <= lanes ==> #[trigger] bs[y] <= data.len()
    &&& forall|y: int| 0 <= y < lanes ==> #[trigger] bs[y] <= bs[y + 1]
}

/// PARTITION INVARIANCE: under any planned boundary list over a
/// well-formed buffer, partition `y`'s records appended to the records
/// of the partitions before it give exactly the records of the buffer
/// up to the next boundary, and every partition's keys are among the
/// buffer's keys.  With the merge rule this pins the run's outcome to
/// the record sequence alone, whatever the lane count.
pub proof fn lemma_prefix_of_records(data: Seq<u8>, bs: Seq<usize>, lanes: int, y: int)
    requires
        bounds_ok(data, bs, lanes),
        0 <= y <= lanes,
        spec_records(data, 0) is Some,
    ensures
        spec_lane_records(data, 0, bs[y] as int) is Some,
        y < lanes ==> spec_lane_records(data, bs[y] as int, bs[y + 1] as int) is Some,
        rec_keys(spec_lane_records(data, 0, bs[y] as int)->0).subset_of(
            rec_keys(spec_records(data, 0)->0),
        ),
        y < lanes ==> spec_lane_records(data, 0, bs[y + 1] as int)->0 == spec_lane_records(
            data,
            0,
            bs[y] as int,
        )->0 + spec_lane_records(data, bs[y] as int, bs[y + 1] as int)->0,
        y < lanes ==> rec_keys(spec_lane_records(data, 0, bs[y + 1] as int)->0).subset_of(
            rec_keys(spec_records(data, 0)->0),
        ),
{
    let len = data.len() as int;
    let all = spec_records(data, 0)->0;
    lemma_lane_split(data, 0, bs[y] as int, len);
    let p = spec_lane_records(data, 0, bs[y] as int)->0;
    let q = spec_lane_records(data, bs[y] as int, len)->0;
    lemma_rec_keys_concat(p, q);
    if y < lanes {
        lemma_lane_split(data, bs[y] as int, bs[y + 1] as int, len);
        let s = spec_lane_records(data, bs[y] as int, bs[y + 1] as int)->0;
        let q2 = spec_lane_records(data, bs[y + 1] as int, len)->0;
        lemma_lane_split(data, 0, bs[y + 1] as int, len);
        let p2 = spec_lane_records(data, 0, bs[y + 1] as int)->0;
        assert(all == p + (s + q2));
        assert(all == p2 + q2);
        assert(p2.len() == p.len() + s.len());
        assert(p2 =~= p + s) by {
            assert forall|idx: int| 0 <= idx < p2.len() implies p2[idx] == (p + s)[idx] by {
                assert(p2[idx] == (p2 + q2)[idx]);
                assert((p + s)[idx] == (p + (s + q2))[idx]);
            }
        }
        lemma_rec_keys_concat(p, s);
        lemma_rec_keys_concat(p + s, q2);
    }
}

/// The driver: plan the partitions, run a worker lane over each, and
/// merge every lane's table into one.  The result is pinned down by the
/// record sequence of the buffer alone — the lane count never shows in
/// it — and the run succeeds exactly when every record is well formed
/// and the distinct keys fit the table.
pub fn cluster_process(data: &[u8], lanes: usize) -> (r: Result<LookupTable, AggError>)
    requires
        1 <= lanes,
        data@.len() < usize::MAX,
    ensures
        match r {
            Ok(t) => spec_records(data@, 0) matches Some(recs) && {
                &&& t.wf(data@)
                &&& t.map_view(data@) == table_of(recs)
                &&& t.spec_total() == recs.len()
                &&& rec_keys(recs).len() <= MAP_SIZE
            },
            Err(_) => !(spec_records(data@, 0) matches Some(recs) && rec_keys(recs).len()
                <= MAP_SIZE),
        },
{
    let len = data.len();
    let per = len / lanes;
    let mut bounds: Vec<usize> = Vec::new();
    bounds.push(0);
    let ghost mut last_raw: int = 0;
    let mut i: usize = 1;
    while i < lanes
        invariant
            1 <= i <= lanes,
            per == len as int / lanes as int,
            len == data@.len(),
            bounds@.len() == i,
            bounds@[0] == 0,
            last_raw == per as int * (i - 1),
            forall|x: int|
                0 <= x < i ==> aligned(data@, #[trigger] bounds@[x] as int) && bounds@[x] <= len,
            forall|x: int| 0 <= x < i - 1 ==> #[trigger] bounds@[x] <= bounds@[x + 1],
            last_raw <= bounds@[i - 1] as int <= len,
            forall|p: int| last_raw <= p < bounds@[i - 1] as int ==> !aligned(data@, p),
        decreases lanes - i,
    {
        proof {
            assert(per as int * lanes as int <= len as int) by (nonlinear_arith)
                requires
                    per as int == len as int / lanes as int,
                    1 <= lanes,
                    0 <= len,
            ;
            assert(per as int * (i - 1) <= per as int * (i as int) <= per as int * (
            lanes as int)) by (nonlinear_arith)
                requires
                    0 <= per,
                    1 <= i <= lanes,
            ;
        }
        let raw = per * i;
        let b = crate::planner::find_record_start(data, raw);
        proof {
            let prev = bounds@[i - 1] as int;
            if b < prev {
                assert(last_raw <= raw as int <= b);
                assert(!aligned(data@, b as int));
                assert(false);
            }
        }
        bounds.push(b);
        proof {
            last_raw = raw as int;
        }
        i += 1;
    }
    bounds.push(len);
    let ghost bs = bounds@;
    proof {
        assert(aligned(data@, len as int));
        assert(bounds_ok(data@, bs, lanes as int));
    }
    let mut stores: Vec<LookupTable> = Vec::new();
    let ghost mut lrecs = Seq::<Seq<(Seq<u8>, int)>>::empty();
    let mut x: usize = 0;
    while x < lanes
        invariant
            x <= lanes,
            1 <= lanes,
            len == data@.len(),
            data@.len() < usize::MAX,
            bs == bounds@,
            bounds_ok(data@, bs, lanes as int),
            stores@.len() == x,
            lrecs.len() == x,
            forall|y: int|
                0 <= y < x ==> spec_lane_records(data@, bs[y] as int, bs[y + 1] as int) == Some(
                    #[trigger] lrecs[y],
                ),
            forall|y: int|
                0 <= y < x ==> {
                    &&& (#[trigger] stores@[y]).wf(data@)
                    &&& stores@[y].map_view(data@) == table_of(lrecs[y])
                    &&& stores@[y].spec_total() == lrecs[y].len()
                },
        decreases lanes - x,
    {
        let mut t = LookupTable::new();
        let start = bounds[x];
        let size = bounds[x + 1] - bounds[x];
        match consume(data, start, size, &mut t) {
            Ok(_) => {
                proof {
                    let recs = spec_lane_records(
                        data@,
                        start as int,
                        start as int + size as int,
                    )->0;
                    lrecs = lrecs.push(recs);
                    assert(start as int + size as int == bs[x as int + 1] as int);
                    assert(t.map_view(data@) == table_of(recs));
                }
                stores.push(t);
            },
            Err(e) => {
                proof {
                    if spec_records(data@, 0) is Some {
                        let all = spec_records(data@, 0)->0;
                        if rec_keys(all).len() <= MAP_SIZE {
                            lemma_prefix_of_records(data@, bs, lanes as int, x as int);
                            let s = spec_lane_records(
                                data@,
                                bs[x as int] as int,
                                bs[x as int + 1] as int,
                            )->0;
                            assert(start as int + size as int == bs[x as int + 1] as int);
                            let pfx = spec_lane_records(data@, 0, bs[x as int] as int)->0;
                            lemma_rec_keys_concat(pfx, s);
                            assert(rec_keys(s).subset_of(rec_keys(all)));
                            lemma_rec_keys_finite(all);
                            lemma_len_subset(rec_keys(s), rec_keys(all));
                            assert(AggMap::empty().dom().union(rec_keys(s)) =~= rec_keys(s));
                            assert(false);
                        }
                    }
                }
                return Err(e);
            },
        }
        x += 1;
    }
    let mut acc = LookupTable::new();
    let ghost mut pref = Seq::<(Seq<u8>, int)>::empty();
    let mut y: usize = 0;
    while y < lanes
        invariant
            y <= lanes,
            1 <= lanes,
            len == data@.len(),
            data@.len() < usize::MAX,
            bounds_ok(data@, bs, lanes as int),
            stores@.len() == lanes - y,
            lrecs.len() == lanes,
            forall|z: int|
                0 <= z < lanes ==> spec_lane_records(data@, bs[z] as int, bs[z + 1] as int)
                    == Some(#[trigger] lrecs[z]),
            forall|z: int| 0 <= z < lanes ==> bs[z] <= #[trigger] bs[z + 1],
            forall|z: int|
                0 <= z < lanes - y ==> {
                    &&& (#[trigger] stores@[z]).wf(data@)
                    &&& stores@[z].map_view(data@) == table_of(lrecs[y + z])
                    &&& stores@[z].spec_total() == lrecs[y + z].len()
                },
            spec_lane_records(data@, 0, bs[y as int] as int) == Some(pref),
            acc.wf(data@),
            acc.map_view(data@) == table_of(pref),
            acc.spec_total() == pref.len(),
        decreases lanes - y,
    {
        let t = stores.remove(0);
        let ghost cur = lrecs[y as int];
        proof {
            lemma_lane_split(data@, 0, bs[y as int] as int, bs[y as int + 1] as int);
            assert(spec_lane_records(data@, 0, bs[y as int + 1] as int) == Some(pref + cur));
            lemma_lane_records_len(data@, 0, bs[y as int + 1] as int);
            assert(5 * (pref.len() + cur.len()) <= data@.len() + 5);
            assert(acc.spec_total() + t.spec_total() <= u64::MAX);
        }
        match merge_into(&mut acc, data, t) {
            Ok(_) => {
                proof {
                    lemma_merge_tables(pref, cur);
                    pref = pref + cur;
                }
            },
            Err(e) => {
                proof {
                    if spec_records(data@, 0) is Some {
                        let all = spec_records(data@, 0)->0;
                        if rec_keys(all).len() <= MAP_SIZE {
                            lemma_prefix_of_records(data@, bs, lanes as int, y as int);
                            lemma_fold_dom(AggMap::empty(), pref);
                            lemma_fold_dom(AggMap::empty(), cur);
                            lemma_rec_keys_concat(pref, cur);
                            assert(table_of(pref).dom().union(table_of(cur).dom()) =~= rec_keys(
                                pref + cur,
                            ));
                            lemma_rec_keys_finite(all);
                            lemma_len_subset(rec_keys(pref + cur), rec_keys(all));
                            assert(false);
                        }
                    }
                }
                return Err(e);
            },
        }
        y += 1;
    }
    proof {
        assert(bs[lanes as int] as int == data@.len() as int);
        assert(spec_records(data@, 0) == Some(pref));
        acc.lemma_dom_card(data@);
        acc.lemma_bounds(data@);
        lemma_fold_dom(AggMap::empty(), pref);
        assert(rec_keys(pref) =~= acc.map_view(data@).dom());
    }
    Ok(acc)
}

/// Prefix sums of drained counts grow with the prefix.
proof fn lemma_drained_counts_mono(s: Seq<Entry>, a: int, b: int)
    requires
        a <= b,
    ensures
        drained_counts(s, a) <= drained_counts(s, b),
    decreases b - a,
{
    if a < b {
        lemma_drained_counts_mono(s, a, b - 1);
    }
}

} // verus!
