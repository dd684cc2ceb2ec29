//! The aggregation table: a fixed-capacity open-addressing map from key
//! byte spans to running statistics.
//!
//! Keys are never copied: an entry holds the span of the key's bytes
//! within the input buffer, together with its precomputed hash.  The
//! collision policy is linear probing with key comparison; a new key
//! meeting a full table is the one fatal table condition.  Capacity is
//! fixed at construction, a prime chosen well above the expected number
//! of distinct keys; there is no resizing.

use vstd::prelude::*;
use vstd::arithmetic::mul::lemma_mul_basics;
use vstd::arithmetic::mul::lemma_mul_inequality;
use vstd::arithmetic::mul::lemma_mul_is_distributive_add;
use crate::model::AggMap;
use crate::model::DataModel;
use crate::model::data_combine;
use crate::model::data_single;
use crate::model::data_valid;
use crate::model::table_push;
use crate::records::AggError;
use crate::records::fnv1a;

verus! {

/// The number of slots of every table: a prime, far above the expected
/// distinct-key count so that probe chains stay short.
pub const MAP_SIZE: usize = 7607;

/// Running statistics of one key, as kept at run time.  `min`, `max` and
/// `sum` are value tenths; `count` is the number of records folded in.
#[derive(Clone, Copy, PartialEq, Eq, Debug)]
pub struct Data {
    pub min: i32,
    pub max: i32,
    pub sum: i128,
    pub count: u64,
}

impl View for Data {
    type V = DataModel;

    open spec fn view(&self) -> DataModel {
        DataModel {
            min: self.min as int,
            max: self.max as int,
            sum: self.sum as int,
            count: self.count as nat,
        }
    }
}

/// One live slot: the key's byte span within the input buffer, the key's
/// FNV-1a hash, and the running statistics.
#[derive(Clone, Copy, Debug)]
pub struct Entry {
    pub key_start: usize,
    pub key_end: usize,
    pub hash: u32,
    pub stats: Data,
}

/// The key bytes of an entry, read from the input buffer.
pub open spec fn key_of(e: Entry, data: Seq<u8>) -> Seq<u8> {
    data.subrange(e.key_start as int, e.key_end as int)
}

/// Slot `j` exists and is occupied.
pub open spec fn occ(s: Seq<Option<Entry>>, j: int) -> bool {
    0 <= j < s.len() && s[j] is Some
}

/// The entry of slot `j`.
pub open spec fn ent(s: Seq<Option<Entry>>, j: int) -> Entry {
    s[j]->0
}

/// The home slot of a hash.
pub open spec fn home_of(hash: u32) -> int {
    hash as int % (MAP_SIZE as int)
}

/// The slot reached after `d` probe steps from `home`, wrapping around.
pub open spec fn slot_index(home: int, d: int) -> int {
    if home + d < MAP_SIZE as int {
        home + d
    } else {
        home + d - MAP_SIZE as int
    }
}

/// How many probe steps from `home` reach slot `j`.
pub open spec fn probe_dist(home: int, j: int) -> int {
    if j >= home {
        j - home
    } else {
        j + MAP_SIZE as int - home
    }
}

/// The occupied slots among the first `n`.
pub open spec fn occupied_upto(s: Seq<Option<Entry>>, n: int) -> int
    decreases n,
{
    if n <= 0 {
        0
    } else {
        occupied_upto(s, n - 1) + if 0 <= n - 1 < s.len() && s[n - 1] is Some {
            1int
        } else {
            0int
        }
    }
}

/// The sum of the counts of the occupied slots among the first `n`.
pub open spec fn count_upto(s: Seq<Option<Entry>>, n: int) -> int
    decreases n,
{
    if n <= 0 {
        0
    } else {
        count_upto(s, n - 1) + if 0 <= n - 1 < s.len() && s[n - 1] is Some {
            ent(s, n - 1).stats.count as int
        } else {
            0int
        }
    }
}

/// Some occupied slot holds key `k`.
pub open spec fn slots_have_key(s: Seq<Option<Entry>>, data: Seq<u8>, k: Seq<u8>) -> bool {
    exists|j: int| #[trigger] occ(s, j) && key_of(ent(s, j), data) == k
}

/// The slot holding key `k` (unique in a well-formed table).
pub open spec fn slot_of_key(s: Seq<Option<Entry>>, data: Seq<u8>, k: Seq<u8>) -> int {
    choose|j: int| #[trigger] occ(s, j) && key_of(ent(s, j), data) == k
}

/// An entry agrees with the buffer: its span is in bounds, its hash is
/// the hash of its key bytes, and its statistics are coherent.
pub open spec fn entry_ok(e: Entry, data: Seq<u8>) -> bool {
    &&& e.key_start <= e.key_end <= data.len()
    &&& e.hash == fnv1a(key_of(e, data))
    &&& data_valid(e.stats@)
}

pub open spec fn slots_entries_ok(s: Seq<Option<Entry>>, data: Seq<u8>) -> bool {
    forall|j: int| #[trigger] occ(s, j) ==> entry_ok(ent(s, j), data)
}

/// The linear-probing invariant: every entry is reachable from its home
/// slot through occupied slots.
pub open spec fn slots_probe_ok(s: Seq<Option<Entry>>) -> bool {
    forall|j: int, d: int|
        #![trigger occ(s, j), slot_index(home_of(ent(s, j).hash), d)]
        occ(s, j) && 0 <= d < probe_dist(home_of(ent(s, j).hash), j) ==> occ(
            s,
            slot_index(home_of(ent(s, j).hash), d),
        )
}

/// No two occupied slots hold the same key.
pub open spec fn slots_distinct(s: Seq<Option<Entry>>, data: Seq<u8>) -> bool {
    forall|j1: int, j2: int|
        #[trigger] occ(s, j1) && #[trigger] occ(s, j2) && j1 != j2 ==> key_of(ent(s, j1), data)
            != key_of(ent(s, j2), data)
}

/// The slots as a map from key bytes to statistics.
pub open spec fn slots_view(s: Seq<Option<Entry>>, data: Seq<u8>) -> AggMap {
    Map::new(
        |k: Seq<u8>| slots_have_key(s, data, k),
        |k: Seq<u8>| ent(s, slot_of_key(s, data, k)).stats@,
    )
}

/// A fixed-capacity open-addressing table from key byte spans of one
/// input buffer to running statistics, with linear probing.
pub struct LookupTable {
    slots: Vec<Option<Entry>>,
    used: usize,
    total: Ghost<nat>,
}

impl LookupTable {
    /// Well-formedness against the input buffer `data`: every entry
    /// agrees with the buffer, every entry is reachable from its home
    /// slot through occupied slots (the linear-probing invariant), no
    /// two slots hold the same key, and the occupancy and total counts
    /// are what the slots say.
    pub closed spec fn wf(&self, data: Seq<u8>) -> bool {
        let s = self.slots@;
        &&& s.len() == MAP_SIZE
        &&& slots_entries_ok(s, data)
        &&& slots_probe_ok(s)
        &&& slots_distinct(s, data)
        &&& self.used == occupied_upto(s, s.len() as int)
        &&& self.total@ == count_upto(s, s.len() as int)
        &&& count_upto(s, s.len() as int) <= u64::MAX
    }

    /// The number of occupied slots.
    pub closed spec fn spec_used(&self) -> int {
        self.used as int
    }

    /// The sum of the counts of all entries: how many records have been
    /// folded into the table.
    pub closed spec fn spec_total(&self) -> int {
        self.total@ as int
    }

    /// The table as a map from key bytes to statistics.
    pub closed spec fn map_view(&self, data: Seq<u8>) -> AggMap {
        slots_view(self.slots@, data)
    }

    /// An empty table, well-formed against every buffer.
    pub fn new() -> (r: LookupTable)
        ensures
            forall|data: Seq<u8>| #[trigger] r.wf(data),
            forall|data: Seq<u8>| #[trigger] r.map_view(data) == AggMap::empty(),
            r.spec_used() == 0,
            r.spec_total() == 0,
    {
        let mut slots: Vec<Option<Entry>> = Vec::new();
        let mut i: usize = 0;
        while i < MAP_SIZE
            invariant
                i <= MAP_SIZE,
                slots@.len() == i,
                forall|j: int| 0 <= j < i ==> slots@[j] is None,
            decreases MAP_SIZE - i,
        {
            slots.push(None);
            i += 1;
        }
        let r = LookupTable { slots, used: 0, total: Ghost(0) };
        proof {
            lemma_counts_all_none(r.slots@, MAP_SIZE as int);
            assert forall|data: Seq<u8>| #[trigger] r.wf(data) && r.map_view(data)
                == AggMap::empty() by {
                assert(forall|j: int| !occ(r.slots@, j));
                assert(r.map_view(data) =~= AggMap::empty());
            }
        }
        r
    }
}

/// What the probe loop reports: a slot holding the key, the empty slot
/// where the key belongs, or a table with no empty slot and no match.
enum SlotFind {
    Found(usize),
    Empty(usize),
    Full,
}

/// Bytewise comparison of two spans of the input buffer.
fn keys_equal(data: &[u8], s1: usize, e1: usize, s2: usize, e2: usize) -> (r: bool)
    requires
        s1 <= e1 <= data@.len(),
        s2 <= e2 <= data@.len(),
    ensures
        r == (data@.subrange(s1 as int, e1 as int) == data@.subrange(s2 as int, e2 as int)),
{
    let ghost k1 = data@.subrange(s1 as int, e1 as int);
    let ghost k2 = data@.subrange(s2 as int, e2 as int);
    if e1 - s1 != e2 - s2 {
        assert(k1.len() != k2.len());
        return false;
    }
    let n = e1 - s1;
    let mut m: usize = 0;
    while m < n
        invariant
            m <= n,
            n == e1 - s1 == e2 - s2,
            s1 <= e1 <= data@.len(),
            s2 <= e2 <= data@.len(),
            k1 == data@.subrange(s1 as int, e1 as int),
            k2 == data@.subrange(s2 as int, e2 as int),
            forall|x: int| 0 <= x < m ==> k1[x] == k2[x],
        decreases n - m,
    {
        if data[s1 + m] != data[s2 + m] {
            assert(k1[m as int] != k2[m as int]);
            return false;
        }
        m += 1;
    }
    assert(k1 =~= k2);
    true
}

impl LookupTable {
    /// Linear probing from the hash's home slot: stop at a slot holding
    /// the key, at an empty slot (the key is then absent), or after
    /// visiting every slot (the table is then full and the key absent).
    fn find_slot(&self, data: &[u8], ks: usize, ke: usize, hash: u32) -> (r: SlotFind)
        requires
            self.wf(data@),
            ks <= ke <= data@.len(),
            hash == fnv1a(data@.subrange(ks as int, ke as int)),
        ensures
            ({
                let s = self.slots@;
                let k = data@.subrange(ks as int, ke as int);
                match r {
                    SlotFind::Found(j) => occ(s, j as int) && key_of(ent(s, j as int), data@) == k,
                    SlotFind::Empty(j) => {
                        &&& j < MAP_SIZE
                        &&& s[j as int] is None
                        &&& !slots_have_key(s, data@, k)
                        &&& forall|d: int|
                            0 <= d < probe_dist(home_of(hash), j as int) ==> occ(
                                s,
                                #[trigger] slot_index(home_of(hash), d),
                            )
                    },
                    SlotFind::Full => !slots_have_key(s, data@, k) && self.spec_used()
                        == MAP_SIZE,
                }
            }),
    {
        let ghost s = self.slots@;
        let ghost k = data@.subrange(ks as int, ke as int);
        let ghost home = home_of(hash);
        let h: usize = (hash as usize) % MAP_SIZE;
        let mut i: usize = 0;
        while i < MAP_SIZE
            invariant
                self.wf(data@),
                ks <= ke <= data@.len(),
                hash == fnv1a(k),
                s == self.slots@,
                k == data@.subrange(ks as int, ke as int),
                home == home_of(hash),
                h == home,
                i <= MAP_SIZE,
                forall|d: int|
                    0 <= d < i ==> occ(s, #[trigger] slot_index(home, d)) && key_of(
                        ent(s, slot_index(home, d)),
                        data@,
                    ) != k,
            decreases MAP_SIZE - i,
        {
            let j = if h + i < MAP_SIZE {
                h + i
            } else {
                h + i - MAP_SIZE
            };
            assert(j as int == slot_index(home, i as int));
            match self.slots[j] {
                Option::None => {
                    proof {
                        lemma_absent_on_empty_probe(s, data@, k, hash, i as int);
                    }
                    return SlotFind::Empty(j);
                },
                Option::Some(e) => {
                    proof {
                        assert(occ(s, j as int));
                        assert(entry_ok(ent(s, j as int), data@));
                        assert(e == ent(s, j as int));
                    }
                    if e.hash == hash && keys_equal(data, e.key_start, e.key_end, ks, ke) {
                        return SlotFind::Found(j);
                    }
                    proof {
                        assert(occ(s, j as int));
                        assert(entry_ok(ent(s, j as int), data@));
                        assert(key_of(ent(s, j as int), data@) != k);
                    }
                    i += 1;
                },
            }
        }
        proof {
            assert forall|j: int| 0 <= j < MAP_SIZE implies occ(s, j) by {
                assert(slot_index(home, probe_dist(home, j)) == j);
                assert(occ(s, slot_index(home, probe_dist(home, j))));
            }
            if slots_have_key(s, data@, k) {
                let j0 = slot_of_key(s, data@, k);
                assert(occ(s, j0) && key_of(ent(s, j0), data@) == k);
                assert(slot_index(home, probe_dist(home, j0)) == j0);
                assert(false);
            }
            lemma_occupied_upto_full(s, MAP_SIZE as int);
        }
        SlotFind::Full
    }
}

/// In a table without duplicate keys, the slot holding a key is unique,
/// so the view maps the key to exactly that slot's statistics.
proof fn lemma_unique_slot(s: Seq<Option<Entry>>, data: Seq<u8>, j: int, k: Seq<u8>)
    requires
        slots_distinct(s, data),
        occ(s, j),
        key_of(ent(s, j), data) == k,
    ensures
        slots_have_key(s, data, k),
        slot_of_key(s, data, k) == j,
        slots_view(s, data).contains_key(k),
        slots_view(s, data)[k] == ent(s, j).stats@,
{
    assert(occ(s, j) && key_of(ent(s, j), data) == k);
    let j2 = slot_of_key(s, data, k);
    assert(occ(s, j2) && key_of(ent(s, j2), data) == k);
    if j2 != j {
        assert(key_of(ent(s, j), data) != key_of(ent(s, j2), data));
        assert(false);
    }
}

/// Overwriting the statistics of an occupied slot (same span, same hash)
/// updates the view at that slot's key and nothing else.
proof fn lemma_view_update_existing(s: Seq<Option<Entry>>, data: Seq<u8>, j: int, ne: Entry)
    requires
        slots_distinct(s, data),
        occ(s, j),
        ne.key_start == ent(s, j).key_start,
        ne.key_end == ent(s, j).key_end,
        ne.hash == ent(s, j).hash,
    ensures
        slots_view(s.update(j, Some(ne)), data) == slots_view(s, data).insert(
            key_of(ent(s, j), data),
            ne.stats@,
        ),
        slots_distinct(s.update(j, Some(ne)), data),
        forall|x: int| #[trigger] occ(s.update(j, Some(ne)), x) == occ(s, x),
{
    let s2 = s.update(j, Some(ne));
    let k = key_of(ent(s, j), data);
    assert forall|x: int| #[trigger] occ(s2, x) == occ(s, x) by {
        if x != j {
            assert(0 <= x < s.len() ==> s2[x] == s[x]);
        }
    }
    assert forall|x: int| #[trigger] occ(s2, x) implies key_of(ent(s2, x), data) == key_of(
        ent(s, x),
        data,
    ) by {
        if x != j {
            assert(s2[x] == s[x]);
        }
    }
    assert forall|k2: Seq<u8>| slots_have_key(s2, data, k2) == slots_have_key(s, data, k2) by {
        if slots_have_key(s2, data, k2) {
            let x = choose|x: int| #[trigger] occ(s2, x) && key_of(ent(s2, x), data) == k2;
            assert(occ(s, x) && key_of(ent(s, x), data) == k2);
        }
        if slots_have_key(s, data, k2) {
            let x = choose|x: int| #[trigger] occ(s, x) && key_of(ent(s, x), data) == k2;
            assert(occ(s2, x) && key_of(ent(s2, x), data) == k2);
        }
    }
    assert forall|k2: Seq<u8>| #[trigger] slots_have_key(s2, data, k2) implies slots_view(
        s2,
        data,
    )[k2] == slots_view(s, data).insert(k, ne.stats@)[k2] by {
        let x2 = slot_of_key(s2, data, k2);
        assert(occ(s2, x2) && key_of(ent(s2, x2), data) == k2);
        if k2 == k {
            if x2 != j {
                assert(key_of(ent(s, x2), data) != key_of(ent(s, j), data));
                assert(false);
            }
            assert(slots_view(s2, data)[k2] == ne.stats@);
        } else {
            assert(x2 != j);
            lemma_unique_slot(s, data, x2, k2);
        }
    }
    assert(slots_view(s2, data) =~= slots_view(s, data).insert(k, ne.stats@));
}

/// Filling an empty slot with a key the table lacks adds exactly that
/// key to the view.
proof fn lemma_view_update_new(s: Seq<Option<Entry>>, data: Seq<u8>, j: int, ne: Entry)
    requires
        slots_distinct(s, data),
        0 <= j < s.len(),
        s[j] is None,
        ne.key_start <= ne.key_end <= data.len(),
        !slots_have_key(s, data, key_of(ne, data)),
    ensures
        slots_view(s.update(j, Some(ne)), data) == slots_view(s, data).insert(
            key_of(ne, data),
            ne.stats@,
        ),
        slots_distinct(s.update(j, Some(ne)), data),
        forall|x: int|
            #[trigger] occ(s.update(j, Some(ne)), x) == (occ(s, x) || x == j),
{
    let s2 = s.update(j, Some(ne));
    let k = key_of(ne, data);
    assert forall|x: int| #[trigger] occ(s2, x) == (occ(s, x) || x == j) by {
        if x != j {
            assert(0 <= x < s.len() ==> s2[x] == s[x]);
        }
    }
    assert forall|x: int| occ(s, x) implies #[trigger] key_of(ent(s2, x), data) == key_of(
        ent(s, x),
        data,
    ) && occ(s2, x) by {
        assert(x != j);
        assert(s2[x] == s[x]);
    }
    assert(occ(s2, j) && key_of(ent(s2, j), data) == k);
    assert forall|x1: int, x2: int|
        #[trigger] occ(s2, x1) && #[trigger] occ(s2, x2) && x1 != x2 implies key_of(
        ent(s2, x1),
        data,
    ) != key_of(ent(s2, x2), data) by {
        if x1 != j && x2 != j {
            assert(occ(s, x1) && occ(s, x2));
        } else if x1 == j {
            assert(occ(s, x2));
            if key_of(ent(s, x2), data) == k {
                assert(slots_have_key(s, data, k));
                assert(false);
            }
        } else {
            assert(occ(s, x1));
            if key_of(ent(s, x1), data) == k {
                assert(slots_have_key(s, data, k));
                assert(false);
            }
        }
    }
    assert forall|k2: Seq<u8>|
        slots_have_key(s2, data, k2) == (slots_have_key(s, data, k2) || k2 == k) by {
        if slots_have_key(s2, data, k2) {
            let x = choose|x: int| #[trigger] occ(s2, x) && key_of(ent(s2, x), data) == k2;
            if x != j {
                assert(occ(s, x) && key_of(ent(s, x), data) == k2);
            }
        }
        if slots_have_key(s, data, k2) {
            let x = choose|x: int| #[trigger] occ(s, x) && key_of(ent(s, x), data) == k2;
            assert(occ(s2, x) && key_of(ent(s2, x), data) == k2);
        }
        if k2 == k {
            assert(occ(s2, j) && key_of(ent(s2, j), data) == k2);
        }
    }
    assert forall|k2: Seq<u8>| #[trigger] slots_have_key(s2, data, k2) implies slots_view(
        s2,
        data,
    )[k2] == slots_view(s, data).insert(k, ne.stats@)[k2] by {
        let x2 = slot_of_key(s2, data, k2);
        assert(occ(s2, x2) && key_of(ent(s2, x2), data) == k2);
        if k2 == k {
            lemma_unique_slot(s2, data, j, k);
            assert(slots_view(s2, data)[k2] == ne.stats@);
        } else {
            assert(x2 != j);
            assert(occ(s, x2) && key_of(ent(s, x2), data) == k2);
            lemma_unique_slot(s2, data, x2, k2);
            lemma_unique_slot(s, data, x2, k2);
        }
    }
    assert(slots_view(s2, data) =~= slots_view(s, data).insert(k, ne.stats@));
}

/// If every probe-path slot before an empty one lacks the key, the key
/// is nowhere: an occupied slot with that key would have its whole probe
/// path occupied.
proof fn lemma_absent_on_empty_probe(
    s: Seq<Option<Entry>>,
    data: Seq<u8>,
    k: Seq<u8>,
    hash: u32,
    i: int,
)
    requires
        s.len() == MAP_SIZE,
        0 <= i < MAP_SIZE,
        hash == fnv1a(k),
        slots_entries_ok(s, data),
        slots_probe_ok(s),
        forall|d: int|
            0 <= d < i ==> occ(s, #[trigger] slot_index(home_of(hash), d)) && key_of(
                ent(s, slot_index(home_of(hash), d)),
                data,
            ) != k,
        s[slot_index(home_of(hash), i)] is None,
    ensures
        !slots_have_key(s, data, k),
{
    let home = home_of(hash);
    if slots_have_key(s, data, k) {
        let j0 = choose|j: int| #[trigger] occ(s, j) && key_of(ent(s, j), data) == k;
        assert(occ(s, j0) && key_of(ent(s, j0), data) == k);
        assert(ent(s, j0).hash == hash);
        let d0 = probe_dist(home, j0);
        assert(slot_index(home, d0) == j0);
        if d0 < i {
            assert(key_of(ent(s, slot_index(home, d0)), data) != k);
        } else if d0 == i {
            assert(occ(s, slot_index(home, i)));
        } else {
            assert(occ(s, slot_index(home_of(ent(s, j0).hash), i)));
        }
        assert(false);
    }
}

/// A fully occupied table has occupancy count equal to its size.
proof fn lemma_occupied_upto_full(s: Seq<Option<Entry>>, n: int)
    requires
        n <= s.len(),
        forall|j: int| 0 <= j < s.len() ==> occ(s, j),
    ensures
        occupied_upto(s, n) == if n >= 0 {
            n
        } else {
            0
        },
    decreases n,
{
    if n > 0 {
        assert(occ(s, n - 1));
        lemma_occupied_upto_full(s, n - 1);
    }
}

/// Counting over all-empty slots yields zero.
proof fn lemma_counts_all_none(s: Seq<Option<Entry>>, n: int)
    requires
        forall|j: int| 0 <= j < s.len() ==> s[j] is None,
    ensures
        occupied_upto(s, n) == 0,
        count_upto(s, n) == 0,
    decreases n,
{
    if n > 0 {
        lemma_counts_all_none(s, n - 1);
    }
}

/// Bounds of the occupancy count, and its exactness at the boundary:
/// an empty slot keeps it below the slot count.
proof fn lemma_occupied_upto_le(s: Seq<Option<Entry>>, n: int)
    ensures
        0 <= occupied_upto(s, n),
        n >= 0 ==> occupied_upto(s, n) <= n,
    decreases n,
{
    if n > 0 {
        lemma_occupied_upto_le(s, n - 1);
    }
}

proof fn lemma_occupied_upto_none(s: Seq<Option<Entry>>, n: int, j: int)
    requires
        0 <= j < n,
        0 <= j < s.len(),
        s[j] is None,
    ensures
        occupied_upto(s, n) < n,
    decreases n,
{
    lemma_occupied_upto_le(s, n - 1);
    if j < n - 1 {
        lemma_occupied_upto_none(s, n - 1, j);
    }
}

proof fn lemma_occupied_upto_all(s: Seq<Option<Entry>>, n: int)
    requires
        occupied_upto(s, n) == n,
        0 <= n <= s.len(),
    ensures
        forall|j: int| 0 <= j < n ==> occ(s, j),
    decreases n,
{
    if n > 0 {
        lemma_occupied_upto_le(s, n - 1);
        assert(s[n - 1] is Some);
        lemma_occupied_upto_all(s, n - 1);
    }
}

/// How one slot update moves the occupancy count.
proof fn lemma_occupied_upto_update(s: Seq<Option<Entry>>, n: int, j: int, e: Entry)
    requires
        0 <= j < s.len(),
    ensures
        occupied_upto(s.update(j, Some(e)), n) == occupied_upto(s, n) + if j < n && s[j] is None {
            1int
        } else {
            0int
        },
    decreases n,
{
    if n > 0 {
        lemma_occupied_upto_update(s, n - 1, j, e);
    }
}

/// How one slot update moves the total count.
proof fn lemma_count_upto_update(s: Seq<Option<Entry>>, n: int, j: int, e: Entry)
    requires
        0 <= j < s.len(),
    ensures
        count_upto(s.update(j, Some(e)), n) == count_upto(s, n) + if j < n {
            e.stats.count as int - (if s[j] is Some {
                ent(s, j).stats.count as int
            } else {
                0int
            })
        } else {
            0int
        },
    decreases n,
{
    if n > 0 {
        lemma_count_upto_update(s, n - 1, j, e);
    }
}

/// Every entry's count is part of the total, and the total is never
/// negative.
proof fn lemma_count_upto_nonneg(s: Seq<Option<Entry>>, n: int)
    ensures
        0 <= count_upto(s, n),
    decreases n,
{
    if n > 0 {
        lemma_count_upto_nonneg(s, n - 1);
    }
}

proof fn lemma_count_le_total(s: Seq<Option<Entry>>, n: int, j: int)
    requires
        0 <= j < n,
        occ(s, j),
    ensures
        ent(s, j).stats.count as int <= count_upto(s, n),
    decreases n,
{
    if j == n - 1 {
        lemma_count_upto_nonneg(s, n - 1);
    } else {
        lemma_count_le_total(s, n - 1, j);
    }
}

/// A coherent statistics record has its sum bounded by the extremes
/// scaled by the count.
proof fn lemma_valid_sum_bounds(d: DataModel)
    requires
        data_valid(d),
        d.count <= u64::MAX,
    ensures
        -0x8000_0000 * (u64::MAX + 1) <= d.sum <= 0x8000_0000 * (u64::MAX + 1),
{
    assert(-0x8000_0000 * (u64::MAX + 1) <= d.sum <= 0x8000_0000 * (u64::MAX + 1))
        by (nonlinear_arith)
        requires
            d.min * d.count <= d.sum <= d.max * d.count,
            -0x8000_0000 <= d.min,
            d.max <= 0x7fff_ffff,
            0 <= d.count <= u64::MAX,
    ;
}

impl LookupTable {
    /// Fold a whole statistics record into the table under the key at
    /// `data[ks..ke]` with precomputed hash: the single operation behind
    /// both the per-record update and the merge phase.  A fresh entry is
    /// created for a new key; for a seen key the statistics are combined.
    /// Fails exactly when the key is new and every slot is occupied.
    pub fn merge_entry(
        &mut self,
        data: &[u8],
        ks: usize,
        ke: usize,
        hash: u32,
        st: Data,
    ) -> (r: Result<(), AggError>)
        requires
            old(self).wf(data@),
            ks <= ke <= data@.len(),
            hash == fnv1a(data@.subrange(ks as int, ke as int)),
            data_valid(st@),
            old(self).spec_total() + st.count <= u64::MAX,
        ensures
            ({
                let k = data@.subrange(ks as int, ke as int);
                let m0 = old(self).map_view(data@);
                match r {
                    Ok(_) => {
                        &&& final(self).wf(data@)
                        &&& m0.contains_key(k) || old(self).spec_used() < MAP_SIZE
                        &&& final(self).map_view(data@) == m0.insert(
                            k,
                            if m0.contains_key(k) {
                                data_combine(m0[k], st@)
                            } else {
                                st@
                            },
                        )
                        &&& final(self).spec_total() == old(self).spec_total() + st.count
                        &&& final(self).spec_used() == old(self).spec_used() + (if m0.contains_key(k) {
                            0int
                        } else {
                            1int
                        })
                    },
                    Err(e) => {
                        &&& e is TableCapacityExceeded
                        &&& !m0.contains_key(k)
                        &&& old(self).spec_used() == MAP_SIZE
                        &&& *final(self) == *old(self)
                    },
                }
            }),
    {
        let ghost s0 = self.slots@;
        let ghost k = data@.subrange(ks as int, ke as int);
        let ghost m0 = self.map_view(data@);
        match self.find_slot(data, ks, ke, hash) {
            SlotFind::Found(j) => {
                proof {
                    lemma_unique_slot(s0, data@, j as int, k);
                    lemma_count_le_total(s0, MAP_SIZE as int, j as int);
                }
                let e = self.slots[j].unwrap();
                proof {
                    assert(e == ent(s0, j as int));
                    assert(entry_ok(e, data@));
                    lemma_valid_sum_bounds(e.stats@);
                    lemma_valid_sum_bounds(st@);
                    lemma_combine_valid(e.stats@, st@);
                }
                let nd = Data {
                    min: if e.stats.min <= st.min {
                        e.stats.min
                    } else {
                        st.min
                    },
                    max: if e.stats.max >= st.max {
                        e.stats.max
                    } else {
                        st.max
                    },
                    sum: e.stats.sum + st.sum,
                    count: e.stats.count + st.count,
                };
                let ne = Entry { key_start: e.key_start, key_end: e.key_end, hash: e.hash, stats: nd };
                self.slots.set(j, Some(ne));
                proof {
                    self.total@ = self.total@ + st.count as nat;
                }
                proof {
                    let s2 = self.slots@;
                    assert(s2 == s0.update(j as int, Some(ne)));
                    assert(nd@ == data_combine(e.stats@, st@));
                    lemma_view_update_existing(s0, data@, j as int, ne);
                    assert forall|x: int| #[trigger] occ(s2, x) implies entry_ok(
                        ent(s2, x),
                        data@,
                    ) by {
                        assert(occ(s0, x));
                        if x != j as int {
                            assert(ent(s2, x) == ent(s0, x));
                        } else {
                            assert(key_of(ne, data@) == key_of(e, data@));
                        }
                    }
                    assert forall|x: int, d: int|
                        #![trigger occ(s2, x), slot_index(home_of(ent(s2, x).hash), d)]
                        occ(s2, x) && 0 <= d < probe_dist(home_of(ent(s2, x).hash), x) implies occ(
                        s2,
                        slot_index(home_of(ent(s2, x).hash), d),
                    ) by {
                        assert(occ(s0, x));
                        assert(ent(s2, x).hash == ent(s0, x).hash);
                        assert(occ(s0, slot_index(home_of(ent(s0, x).hash), d)));
                    }
                    lemma_occupied_upto_update(s0, MAP_SIZE as int, j as int, ne);
                    lemma_count_upto_update(s0, MAP_SIZE as int, j as int, ne);
                }
                Ok(())
            },
            SlotFind::Empty(j) => {
                proof {
                    lemma_occupied_upto_none(s0, MAP_SIZE as int, j as int);
                }
                let ne = Entry { key_start: ks, key_end: ke, hash, stats: st };
                self.slots.set(j, Some(ne));
                self.used = self.used + 1;
                proof {
                    self.total@ = self.total@ + st.count as nat;
                }
                proof {
                    let s2 = self.slots@;
                    assert(s2 == s0.update(j as int, Some(ne)));
                    assert(key_of(ne, data@) == k);
                    lemma_view_update_new(s0, data@, j as int, ne);
                    assert forall|x: int| #[trigger] occ(s2, x) implies entry_ok(
                        ent(s2, x),
                        data@,
                    ) by {
                        if x != j as int {
                            assert(occ(s0, x));
                            assert(ent(s2, x) == ent(s0, x));
                        } else {
                            assert(ent(s2, x) == ne);
                        }
                    }
                    assert forall|x: int, d: int|
                        #![trigger occ(s2, x), slot_index(home_of(ent(s2, x).hash), d)]
                        occ(s2, x) && 0 <= d < probe_dist(home_of(ent(s2, x).hash), x) implies occ(
                        s2,
                        slot_index(home_of(ent(s2, x).hash), d),
                    ) by {
                        let hm = home_of(ent(s2, x).hash);
                        if x == j as int {
                            assert(ent(s2, x) == ne);
                            assert(hm == home_of(hash));
                            assert(occ(s0, slot_index(hm, d)));
                        } else {
                            assert(occ(s0, x));
                            assert(ent(s2, x) == ent(s0, x));
                            assert(occ(s0, slot_index(hm, d)));
                        }
                    }
                    lemma_occupied_upto_update(s0, MAP_SIZE as int, j as int, ne);
                    lemma_count_upto_update(s0, MAP_SIZE as int, j as int, ne);
                    assert(!m0.contains_key(k));
                }
                Ok(())
            },
            SlotFind::Full => {
                proof {
                    assert(!m0.contains_key(k));
                }
                Err(AggError::TableCapacityExceeded)
            },
        }
    }

    /// The hot-path operation, once per record: fold one value into the
    /// table under the key at `data[ks..ke]` with precomputed hash.
    /// Fails exactly when the key is new and every slot is occupied.
    pub fn insert_or_update(
        &mut self,
        data: &[u8],
        ks: usize,
        ke: usize,
        hash: u32,
        v: i32,
    ) -> (r: Result<(), AggError>)
        requires
            old(self).wf(data@),
            ks <= ke <= data@.len(),
            hash == fnv1a(data@.subrange(ks as int, ke as int)),
            old(self).spec_total() + 1 <= u64::MAX,
        ensures
            ({
                let k = data@.subrange(ks as int, ke as int);
                let m0 = old(self).map_view(data@);
                match r {
                    Ok(_) => {
                        &&& final(self).wf(data@)
                        &&& m0.contains_key(k) || old(self).spec_used() < MAP_SIZE
                        &&& final(self).map_view(data@) == table_push(m0, k, v as int)
                        &&& final(self).spec_total() == old(self).spec_total() + 1
                        &&& final(self).spec_used() == old(self).spec_used() + (if m0.contains_key(k) {
                            0int
                        } else {
                            1int
                        })
                    },
                    Err(e) => {
                        &&& e is TableCapacityExceeded
                        &&& !m0.contains_key(k)
                        &&& old(self).spec_used() == MAP_SIZE
                        &&& *final(self) == *old(self)
                    },
                }
            }),
    {
        let st = Data { min: v, max: v, sum: v as i128, count: 1 };
        proof {
            assert(st@ == data_single(v as int));
            assert(data_valid(st@)) by {
                assert(st@.min * st@.count == st@.min) by {
                    lemma_mul_basics(st@.min);
                }
                assert(st@.max * st@.count == st@.max) by {
                    lemma_mul_basics(st@.max);
                }
            }
        }
        self.merge_entry(data, ks, ke, hash, st)
    }
}

/// The sum of the counts of the first `n` drained entries.
pub open spec fn drained_counts(s: Seq<Entry>, n: int) -> int
    decreases n,
{
    if n <= 0 {
        0
    } else {
        drained_counts(s, n - 1) + if 0 <= n - 1 < s.len() {
            s[n - 1].stats.count as int
        } else {
            0int
        }
    }
}

proof fn lemma_drained_counts_push(s: Seq<Entry>, e: Entry, n: int)
    requires
        n <= s.len(),
    ensures
        drained_counts(s.push(e), n) == drained_counts(s, n),
    decreases n,
{
    if n > 0 {
        lemma_drained_counts_push(s, e, n - 1);
    }
}

/// The distinct keys of the first `n` slots.
spec fn keys_upto(s: Seq<Option<Entry>>, data: Seq<u8>, n: int) -> Set<Seq<u8>>
    decreases n,
{
    if n <= 0 {
        Set::empty()
    } else if occ(s, n - 1) {
        keys_upto(s, data, n - 1).insert(key_of(ent(s, n - 1), data))
    } else {
        keys_upto(s, data, n - 1)
    }
}

proof fn lemma_keys_upto(s: Seq<Option<Entry>>, data: Seq<u8>, n: int)
    requires
        slots_distinct(s, data),
        n <= s.len(),
    ensures
        keys_upto(s, data, n).finite(),
        keys_upto(s, data, n).len() == occupied_upto(s, n),
        forall|k: Seq<u8>|
            keys_upto(s, data, n).contains(k) <==> exists|x: int|
                0 <= x < n && #[trigger] occ(s, x) && key_of(ent(s, x), data) == k,
    decreases n,
{
    if n > 0 {
        lemma_keys_upto(s, data, n - 1);
        if occ(s, n - 1) {
            let k1 = key_of(ent(s, n - 1), data);
            if keys_upto(s, data, n - 1).contains(k1) {
                let x = choose|x: int|
                    0 <= x < n - 1 && #[trigger] occ(s, x) && key_of(ent(s, x), data) == k1;
                assert(key_of(ent(s, x), data) != key_of(ent(s, n - 1), data));
                assert(false);
            }
            assert forall|k: Seq<u8>| keys_upto(s, data, n).contains(k) implies exists|x: int|
                0 <= x < n && #[trigger] occ(s, x) && key_of(ent(s, x), data) == k by {
                if k == k1 {
                    assert(occ(s, n - 1) && key_of(ent(s, n - 1), data) == k);
                } else {
                    let x = choose|x: int|
                        0 <= x < n - 1 && #[trigger] occ(s, x) && key_of(ent(s, x), data) == k;
                    assert(occ(s, x) && key_of(ent(s, x), data) == k);
                }
            }
        }
    }
}

impl LookupTable {
    /// Occupancy never exceeds the capacity, and the record total is
    /// never negative.
    pub proof fn lemma_bounds(&self, data: Seq<u8>)
        requires
            self.wf(data),
        ensures
            0 <= self.spec_used() <= MAP_SIZE,
            0 <= self.spec_total() <= u64::MAX,
    {
        lemma_occupied_upto_le(self.slots@, MAP_SIZE as int);
        lemma_count_upto_nonneg(self.slots@, MAP_SIZE as int);
    }

    /// The table's keys are exactly as many as its occupied slots.
    pub proof fn lemma_dom_card(&self, data: Seq<u8>)
        requires
            self.wf(data),
        ensures
            self.map_view(data).dom().finite(),
            self.map_view(data).dom().len() == self.spec_used(),
    {
        lemma_keys_upto(self.slots@, data, MAP_SIZE as int);
        assert(self.map_view(data).dom() =~= keys_upto(self.slots@, data, MAP_SIZE as int));
    }

    /// Consume the table, yielding every live entry exactly once, in slot
    /// order: each key of the table appears under exactly one returned
    /// entry, with the table's statistics for it, and the counts of the
    /// returned entries sum to the number of records folded in.
    pub fn drain(self, data: &[u8]) -> (out: Vec<Entry>)
        requires
            self.wf(data@),
        ensures
            out@.len() == self.spec_used(),
            forall|i: int|
                0 <= i < out@.len() ==> entry_ok(#[trigger] out@[i], data@) && self.map_view(
                    data@,
                ).contains_key(key_of(out@[i], data@)) && self.map_view(data@)[key_of(
                    out@[i],
                    data@,
                )] == out@[i].stats@,
            forall|i1: int, i2: int|
                0 <= i1 < i2 < out@.len() ==> key_of(#[trigger] out@[i1], data@) != key_of(
                    #[trigger] out@[i2],
                    data@,
                ),
            forall|k: Seq<u8>|
                #[trigger] self.map_view(data@).contains_key(k) ==> exists|i: int|
                    0 <= i < out@.len() && key_of(#[trigger] out@[i], data@) == k,
            drained_counts(out@, out@.len() as int) == self.spec_total(),
    {
        let ghost s = self.slots@;
        let mut out: Vec<Entry> = Vec::new();
        let mut j: usize = 0;
        while j < MAP_SIZE
            invariant
                self.wf(data@),
                s == self.slots@,
                j <= MAP_SIZE,
                out@.len() == occupied_upto(s, j as int),
                drained_counts(out@, out@.len() as int) == count_upto(s, j as int),
                forall|i: int|
                    #![trigger out@[i]]
                    0 <= i < out@.len() ==> exists|x: int|
                        0 <= x < j && #[trigger] occ(s, x) && out@[i] == ent(s, x),
                forall|x: int|
                    0 <= x < j && #[trigger] occ(s, x) ==> exists|i: int|
                        0 <= i < out@.len() && out@[i] == ent(s, x),
                forall|i1: int, i2: int|
                    0 <= i1 < i2 < out@.len() ==> key_of(#[trigger] out@[i1], data@) != key_of(
                        #[trigger] out@[i2],
                        data@,
                    ),
            decreases MAP_SIZE - j,
        {
            let ghost out0 = out@;
            match self.slots[j] {
                Option::Some(e) => {
                    proof {
                        assert(occ(s, j as int));
                        assert(e == ent(s, j as int));
                        lemma_drained_counts_push(out0, e, out0.len() as int);
                        assert forall|i1: int, i2: int|
                            0 <= i1 < i2 < out0.push(e).len() implies key_of(
                            #[trigger] out0.push(e)[i1],
                            data@,
                        ) != key_of(#[trigger] out0.push(e)[i2], data@) by {
                            if i2 == out0.len() as int {
                                let x = choose|x: int|
                                    0 <= x < j && #[trigger] occ(s, x) && out0[i1] == ent(s, x);
                                assert(occ(s, x) && x != j as int);
                                assert(key_of(ent(s, x), data@) != key_of(ent(s, j as int), data@));
                            }
                        }
                    }
                    out.push(e);
                    proof {
                        assert forall|i: int| #![trigger out@[i]] 0 <= i < out@.len() implies exists|x: int|
                            0 <= x < j + 1 && #[trigger] occ(s, x) && out@[i] == ent(s, x) by {
                            if i < out0.len() {
                                let x = choose|x: int|
                                    0 <= x < j && #[trigger] occ(s, x) && out0[i] == ent(s, x);
                                assert(occ(s, x) && out@[i] == ent(s, x));
                            } else {
                                assert(occ(s, j as int) && out@[i] == ent(s, j as int));
                            }
                        }
                        assert forall|x: int| 0 <= x < j + 1 && #[trigger] occ(s, x) implies exists|
                            i: int,
                        | 0 <= i < out@.len() && out@[i] == ent(s, x) by {
                            if x < j {
                                let i = choose|i: int|
                                    0 <= i < out0.len() && out0[i] == ent(s, x);
                                assert(out@[i] == ent(s, x));
                            } else {
                                assert(out@[out0.len() as int] == ent(s, x));
                            }
                        }
                    }
                },
                Option::None => {
                },
            }
            j += 1;
        }
        proof {
            assert forall|i: int| 0 <= i < out@.len() implies entry_ok(#[trigger] out@[i], data@)
                && self.map_view(data@).contains_key(key_of(out@[i], data@)) && self.map_view(
                data@,
            )[key_of(out@[i], data@)] == out@[i].stats@ by {
                let x = choose|x: int|
                    0 <= x < MAP_SIZE && #[trigger] occ(s, x) && out@[i] == ent(s, x);
                lemma_unique_slot(s, data@, x, key_of(ent(s, x), data@));
            }
            assert forall|k: Seq<u8>| #[trigger] self.map_view(data@).contains_key(k) implies exists|
                i: int,
            | 0 <= i < out@.len() && key_of(#[trigger] out@[i], data@) == k by {
                let x = choose|x: int| #[trigger] occ(s, x) && key_of(ent(s, x), data@) == k;
                let i = choose|i: int| 0 <= i < out@.len() && out@[i] == ent(s, x);
                assert(key_of(out@[i], data@) == k);
            }
        }
        out
    }
}

/// Combining two coherent statistics records yields a coherent record.
proof fn lemma_combine_valid(a: DataModel, b: DataModel)
    requires
        data_valid(a),
        data_valid(b),
    ensures
        data_valid(data_combine(a, b)),
{
    let c = data_combine(a, b);
    lemma_mul_inequality(c.min, a.min, a.count as int);
    lemma_mul_inequality(c.min, b.min, b.count as int);
    lemma_mul_inequality(a.max, c.max, a.count as int);
    lemma_mul_inequality(b.max, c.max, b.count as int);
    lemma_mul_is_distributive_add(c.min, a.count as int, b.count as int);
    lemma_mul_is_distributive_add(c.max, a.count as int, b.count as int);
}

} // verus!
