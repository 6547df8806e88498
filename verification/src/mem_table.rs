//! Memtables: the versions that were written last, in memory.
use vstd::prelude::*;
use bytes::Bytes;
use crate::deps;
use crate::deps::{Bound, SkipList};
use crate::error::LsmError;
use crate::iterators::StorageIterator;
use crate::key;
use crate::key::{KeySlice, KeyTs, KeyVec, TS_DEFAULT, TS_RANGE_BEGIN, TS_RANGE_END};
use crate::model;
use crate::model::{Entry, Versions};
use crate::table::SsTableBuilder;
use crate::table::builder;
use crate::wal;
use crate::wal::{ByteOrder, LogRecord, Record, Wal};

verus! {

/// A basic mem-table based on crossbeam-skiplist.
pub struct MemTable {
    map: SkipList,
    wal: Option<Wal>,
    id: usize,
    approximate_size: usize,
}

/// The versions that a skip list holds.
pub open spec fn versions_of(m: Map<(Seq<u8>, u64), Seq<u8>>) -> Versions {
    Map::new(
        |k: KeyTs| m.contains_key((k.key, deps::inverted(k.ts))),
        |k: KeyTs| m[(k.key, deps::inverted(k.ts))],
    )
}

pub proof fn lemma_versions_insert(
    m: Map<(Seq<u8>, u64), Seq<u8>>,
    k: KeyTs,
    value: Seq<u8>,
)
    ensures
        versions_of(m.insert((k.key, deps::inverted(k.ts)), value)) == versions_of(m).insert(
            k,
            value,
        ),
{
    assert(versions_of(m.insert((k.key, deps::inverted(k.ts)), value)) =~= versions_of(m).insert(
        k,
        value,
    ));
}

pub proof fn lemma_no_versions()
    ensures
        versions_of(deps::no_entries()) == Map::<KeyTs, Seq<u8>>::empty(),
{
    assert(versions_of(deps::no_entries()) =~= Map::<KeyTs, Seq<u8>>::empty());
}

/// The versions that are there after records were put in their order.
pub open spec fn replay(m: Versions, rs: Seq<Record>) -> Versions
    decreases rs.len(),
{
    if rs.len() == 0 {
        m
    } else {
        replay(m, rs.drop_last()).insert(rs.last().key, rs.last().value)
    }
}

proof fn lemma_replay_first(m: Versions, rs: Seq<Record>)
    requires
        rs.len() > 0,
    ensures
        replay(m, rs) == replay(m.insert(rs[0].key, rs[0].value), rs.skip(1)),
    decreases rs.len(),
{
    if rs.len() == 1 {
        assert(rs.drop_last() =~= Seq::empty());
        assert(rs.skip(1) =~= Seq::empty());
        assert(replay(m, rs.drop_last()) == m);
    } else {
        lemma_replay_first(m, rs.drop_last());
        assert(rs.drop_last().skip(1) =~= rs.skip(1).drop_last());
    }
}

/// A record of a log, under its key without timestamp.
pub open spec fn unversioned(r: LogRecord) -> Record {
    Record { key: KeyTs { key: r.key, ts: TS_DEFAULT }, value: r.value }
}

pub open spec fn unversioned_all(rs: Seq<LogRecord>) -> Seq<Record> {
    rs.map_values(|r: LogRecord| unversioned(r))
}

/// The version that a record of a memtable's log has.
pub open spec fn versioned(r: LogRecord) -> Record {
    Record { key: wal::split_key(r.key), value: r.value }
}

/// The versions that a memtable's log has.
pub open spec fn log_versions(rs: Seq<LogRecord>) -> Seq<Record> {
    rs.map_values(|r: LogRecord| versioned(r))
}

/// The records that a memtable's log has for versions.
pub open spec fn records_log(rs: Seq<Record>) -> Seq<LogRecord> {
    rs.map_values(|r: Record| wal::log_record(r))
}

/// Each record of a log has a timestamp.
pub open spec fn all_timed(rs: Seq<LogRecord>) -> bool {
    forall|i: int| 0 <= i < rs.len() ==> (#[trigger] rs[i]).key.len() >= 8
}

proof fn lemma_replayed(m: Map<(Seq<u8>, u64), Seq<u8>>, rs: Seq<LogRecord>)
    ensures
        versions_of(wal::replayed(m, rs)) == replay(versions_of(m), unversioned_all(rs)),
    decreases rs.len(),
{
    let us = unversioned_all(rs);
    if rs.len() > 0 {
        let r = rs[0];
        let k = KeyTs { key: r.key, ts: TS_DEFAULT };
        lemma_versions_insert(m, k, r.value);
        lemma_replayed(m.insert((r.key, deps::inverted(TS_DEFAULT)), r.value), rs.skip(1));
        assert(us.skip(1) =~= unversioned_all(rs.skip(1)));
        lemma_replay_first(versions_of(m), us);
    }
}

/// Versions under the bytes that a memtable's log has for their keys, under these keys.
spec fn split_map(m: Versions) -> Versions {
    Map::new(
        |k: KeyTs| m.contains_key(KeyTs { key: wal::raw_key(k), ts: TS_DEFAULT }),
        |k: KeyTs| m[KeyTs { key: wal::raw_key(k), ts: TS_DEFAULT }],
    )
}

proof fn lemma_split_replay(rs: Seq<LogRecord>)
    requires
        all_timed(rs),
    ensures
        replay(Map::empty(), log_versions(rs)) == split_map(
            replay(Map::empty(), unversioned_all(rs)),
        ),
    decreases rs.len(),
{
    let us = unversioned_all(rs);
    let vs = log_versions(rs);
    if rs.len() == 0 {
        assert(replay(Map::empty(), vs) =~= split_map(replay(Map::empty(), us)));
    } else {
        let t = rs.drop_last();
        let r = rs.last();
        assert forall|i: int| 0 <= i < t.len() implies (#[trigger] t[i]).key.len() >= 8 by {
            assert(t[i] == rs[i]);
        }
        lemma_split_replay(t);
        assert(us.drop_last() =~= unversioned_all(t));
        assert(vs.drop_last() =~= log_versions(t));
        assert(rs[rs.len() - 1].key.len() >= 8);
        let m = replay(Map::empty(), us.drop_last());
        let k = wal::split_key(r.key);
        wal::lemma_raw_split(r.key);
        let q = KeyTs { key: r.key, ts: TS_DEFAULT };
        assert forall|x: KeyTs| (KeyTs { key: #[trigger] wal::raw_key(x), ts: TS_DEFAULT } == q) == (x
            == k) by {
            wal::lemma_split_raw(x);
        }
        assert(split_map(m.insert(q, r.value)) =~= split_map(m).insert(k, r.value));
    }
}

/// The keys that are there after records were put are those of the records.
proof fn lemma_replay_has(rs: Seq<Record>, k: KeyTs)
    ensures
        replay(Map::empty(), rs).contains_key(k) <==> exists|i: int|
            0 <= i < rs.len() && (#[trigger] rs[i]).key == k,
    decreases rs.len(),
{
    if rs.len() > 0 {
        let t = rs.drop_last();
        lemma_replay_has(t, k);
        if exists|i: int| 0 <= i < t.len() && (#[trigger] t[i]).key == k {
            let i = choose|i: int| 0 <= i < t.len() && (#[trigger] t[i]).key == k;
            assert(rs[i].key == k);
        }
        if exists|i: int| 0 <= i < rs.len() && (#[trigger] rs[i]).key == k {
            let i = choose|i: int| 0 <= i < rs.len() && (#[trigger] rs[i]).key == k;
            if i < t.len() {
                assert(t[i].key == k);
            }
        }
        assert(rs[rs.len() - 1].key == rs.last().key);
    }
}

/// Items without timestamps as records of a log.
spec fn item_records(s: Seq<Entry>) -> Seq<LogRecord> {
    s.map_values(|e: Entry| LogRecord { key: e.key.key, value: e.value })
}

/// A sorted run, put entry by entry, is the run's map.
proof fn lemma_replay_run(s: Seq<Entry>)
    requires
        model::sorted(s),
        forall|i: int| 0 <= i < s.len() ==> (#[trigger] s[i]).key.ts == TS_DEFAULT,
    ensures
        replay(Map::empty(), unversioned_all(item_records(s))) == model::entry_map(s),
    decreases s.len(),
{
    let us = unversioned_all(item_records(s));
    if s.len() == 0 {
        assert(replay(Map::empty(), us) =~= model::entry_map(s));
    } else {
        let t = s.drop_last();
        let e = s.last();
        let one = seq![e];
        assert(s =~= t + one);
        model::lemma_sorted_parts(t, one);
        assert forall|i: int| 0 <= i < t.len() implies (#[trigger] t[i]).key.ts == TS_DEFAULT by {
            assert(t[i] == s[i]);
        }
        lemma_replay_run(t);
        assert(us.drop_last() =~= unversioned_all(item_records(t)));
        assert(s[s.len() - 1].key.ts == TS_DEFAULT);
        assert(us.last().key == e.key);
        model::lemma_entry_map_append(t, one);
        model::lemma_entry_map_index(one, 0);
        assert forall|k: KeyTs| #[trigger] model::entry_map(one).contains_key(k) implies k
            == e.key by {
            let i = model::lemma_entry_map_key(one, k);
        }
        assert(!model::entry_map(t).contains_key(e.key)) by {
            if model::entry_map(t).contains_key(e.key) {
                let i = model::lemma_entry_map_key(t, e.key);
                assert(key::key_lt(t[i].key, one[0].key));
                key::lemma_key_order(t[i].key, one[0].key);
            }
        }
        assert(model::entry_map(s) =~= model::entry_map(t).insert(e.key, e.value));
    }
}

/// What a memtable's log leads to, and what the items lead to in which it was put first.
proof fn lemma_log_items(rs: Seq<LogRecord>, s: Seq<Entry>)
    requires
        model::sorted(s),
        model::entry_map(s) == replay(Map::empty(), unversioned_all(rs)),
    ensures
        all_timed(rs) <==> all_timed(item_records(s)),
        all_timed(rs) ==> replay(Map::empty(), log_versions(rs)) == replay(
            Map::empty(),
            log_versions(item_records(s)),
        ),
{
    let us = unversioned_all(rs);
    let items = item_records(s);
    assert forall|i: int| 0 <= i < s.len() implies (#[trigger] s[i]).key.ts == TS_DEFAULT by {
        model::lemma_entry_map_index(s, i);
        lemma_replay_has(us, s[i].key);
        let j = choose|j: int| 0 <= j < us.len() && (#[trigger] us[j]).key == s[i].key;
        assert(us[j] == unversioned(rs[j]));
    }
    lemma_replay_run(s);
    if all_timed(rs) {
        assert forall|i: int| 0 <= i < items.len() implies (#[trigger] items[i]).key.len() >= 8 by {
            model::lemma_entry_map_index(s, i);
            lemma_replay_has(us, s[i].key);
            let j = choose|j: int| 0 <= j < us.len() && (#[trigger] us[j]).key == s[i].key;
            assert(rs[j].key.len() >= 8);
        }
        lemma_split_replay(rs);
        lemma_split_replay(items);
    }
    if all_timed(items) {
        assert forall|j: int| 0 <= j < rs.len() implies (#[trigger] rs[j]).key.len() >= 8 by {
            assert(us[j].key.key == rs[j].key);
            lemma_replay_has(us, us[j].key);
            let i = model::lemma_entry_map_key(s, us[j].key);
            assert(items[i].key.len() >= 8);
        }
    }
}

/// A number as a `usize` holds it.
pub open spec fn wrapped(x: nat) -> usize {
    (x as int % (usize::MAX + 1)) as usize
}

/// The size that a version counts: the user key, the timestamp and the value.
pub open spec fn entry_size(e: Entry) -> nat {
    e.key.key.len() + 8 + e.value.len()
}

pub open spec fn run_size(s: Seq<Entry>) -> nat
    decreases s.len(),
{
    if s.len() == 0 {
        0
    } else {
        run_size(s.drop_last()) + entry_size(s.last())
    }
}

/// The size of a run: of each version the length of the user key, eight bytes for the timestamp, and
/// the length of the value.
pub proof fn lemma_run_size(s: Seq<Entry>, e: Entry)
    ensures
        run_size(Seq::empty()) == 0,
        run_size(s.push(e)) == run_size(s) + e.key.key.len() + 8 + e.value.len(),
{
    assert(s.push(e).drop_last() =~= s);
}

/// What a scan shows of a run. A cursor at the empty user key counts as exhausted.
pub open spec fn shown(s: Seq<Entry>) -> Seq<Entry> {
    if s.len() > 0 && s[0].key.key.len() == 0 {
        Seq::empty()
    } else {
        s
    }
}

/// No user key in what a scan shows is empty.
pub proof fn lemma_shown(s: Seq<Entry>)
    requires
        model::sorted(s),
    ensures
        forall|i: int| 0 <= i < shown(s).len() ==> (#[trigger] shown(s)[i]).key.key.len() > 0,
{
    reveal(key::key_lt);
    assert forall|i: int| 0 <= i < shown(s).len() implies (#[trigger] shown(s)[i]).key.key.len()
        > 0 by {
        if i > 0 {
            assert(key::key_lt(s[0].key, s[i].key));
        }
    }
}

/// What a scan of a memtable shows: the versions within its range, in the order of keys and with
/// their values; nothing if an empty user key is among them.
pub proof fn lemma_scan_shows(
    m: Versions,
    lower: Bound<Seq<u8>>,
    upper: Bound<Seq<u8>>,
    k: KeyTs,
    v: Seq<u8>,
)
    requires
        model::in_range(m, lower, upper).dom().finite(),
    ensures
        ({
            let s = shown(model::sorted_entries(model::in_range(m, lower, upper)));
            &&& model::sorted(s)
            &&& s.contains(Entry { key: k, value: v }) ==> m.contains_key(k) && m[k] == v
                && model::within(k.key, lower, upper)
            &&& m.contains_key(k) && k.key.len() == 0 && model::within(k.key, lower, upper)
                ==> s.len() == 0
            &&& (forall|q: KeyTs| #[trigger]
                m.contains_key(q) && model::within(q.key, lower, upper) ==> q.key.len() > 0) ==> (
            m.contains_key(k) && m[k] == v && model::within(k.key, lower, upper) ==> s.contains(
                Entry { key: k, value: v },
            ))
        }),
{
    let n = model::in_range(m, lower, upper);
    let all = model::sorted_entries(n);
    let s = shown(all);
    model::lemma_sorted_entries(n);
    model::lemma_within(m, lower, upper, k);
    let e = Entry { key: k, value: v };
    if s.contains(e) {
        let i = s.index_of(e);
        model::lemma_entry_map_index(all, i);
    }
    if m.contains_key(k) && k.key.len() == 0 && model::within(k.key, lower, upper) {
        let i = model::lemma_entry_map_key(all, k);
        reveal(key::key_lt);
        if i > 0 {
            assert(key::key_lt(all[0].key, all[i].key));
        }
        assert(all[0].key.key.len() == 0);
    }
    if forall|q: KeyTs| #[trigger]
        m.contains_key(q) && model::within(q.key, lower, upper) ==> q.key.len() > 0 {
        if all.len() > 0 {
            model::lemma_entry_map_index(all, 0);
            model::lemma_within(m, lower, upper, all[0].key);
        }
        assert(s == all);
        if m.contains_key(k) && m[k] == v && model::within(k.key, lower, upper) {
            let i = model::lemma_entry_map_key(all, k);
            assert(s[i] == e);
        }
    }
}

/// Create a bound of `Bytes` from a bound of `&[u8]`.
pub(crate) fn map_bound(bound: Bound<&[u8]>) -> (r: Bound<Bytes>)
    ensures
        bytes_bound(r) == model::bound(bound),
{
    match bound {
        Bound::Included(x) => Bound::Included(deps::bytes_copy(x)),
        Bound::Excluded(x) => Bound::Excluded(deps::bytes_copy(x)),
        Bound::Unbounded => Bound::Unbounded,
    }
}

/// A bound, with its bytes as a mathematical value.
pub open spec fn bytes_bound(b: Bound<Bytes>) -> Bound<Seq<u8>> {
    match b {
        Bound::Included(x) => Bound::Included(deps::bytes_seq(x)),
        Bound::Excluded(x) => Bound::Excluded(deps::bytes_seq(x)),
        Bound::Unbounded => Bound::Unbounded,
    }
}

/// A bound on user keys at some timestamps, which depend on whether the bound is included.
pub open spec fn key_bound(b: Bound<Seq<u8>>, included: u64, excluded: u64) -> Bound<KeyTs> {
    match b {
        Bound::Included(x) => Bound::Included(KeyTs { key: x, ts: included }),
        Bound::Excluded(x) => Bound::Excluded(KeyTs { key: x, ts: excluded }),
        Bound::Unbounded => Bound::Unbounded,
    }
}

pub open spec fn keyvec_bound(b: Bound<KeyVec>) -> Bound<KeyTs> {
    match b {
        Bound::Included(x) => Bound::Included(x@),
        Bound::Excluded(x) => Bound::Excluded(x@),
        Bound::Unbounded => Bound::Unbounded,
    }
}

/// A bound on keys without versions.
pub fn map_bound_keybytes(bound: Bound<&[u8]>) -> (r: Bound<KeyVec>)
    ensures
        keyvec_bound(r) == key_bound(model::bound(bound), TS_DEFAULT, TS_DEFAULT),
        (bound is Unbounded <==> r is Unbounded) && (bound is Included <==> r is Included),
        bound matches Bound::Included(x) ==> r->Included_0@ == (KeyTs { key: x@, ts: 0 }),
        bound matches Bound::Excluded(x) ==> r->Excluded_0@ == (KeyTs { key: x@, ts: 0 }),
{
    map_bound_at(bound, TS_DEFAULT, TS_DEFAULT)
}

/// A lower bound on keys that has all versions of an included user key, and none of an excluded.
pub fn map_bound_lower(bound: Bound<&[u8]>) -> (r: Bound<KeyVec>)
    ensures
        keyvec_bound(r) == key_bound(model::bound(bound), TS_RANGE_BEGIN, TS_RANGE_END),
        (bound is Unbounded <==> r is Unbounded) && (bound is Included <==> r is Included),
        bound matches Bound::Included(x) ==> r->Included_0@ == (KeyTs { key: x@, ts: u64::MAX }),
        bound matches Bound::Excluded(x) ==> r->Excluded_0@ == (KeyTs { key: x@, ts: 0 }),
{
    map_bound_at(bound, TS_RANGE_BEGIN, TS_RANGE_END)
}

/// An upper bound on keys that has all versions of an included user key, and none of an excluded.
pub fn map_bound_upper(bound: Bound<&[u8]>) -> (r: Bound<KeyVec>)
    ensures
        keyvec_bound(r) == key_bound(model::bound(bound), TS_RANGE_END, TS_RANGE_BEGIN),
        (bound is Unbounded <==> r is Unbounded) && (bound is Included <==> r is Included),
        bound matches Bound::Included(x) ==> r->Included_0@ == (KeyTs { key: x@, ts: 0 }),
        bound matches Bound::Excluded(x) ==> r->Excluded_0@ == (KeyTs { key: x@, ts: u64::MAX }),
{
    map_bound_at(bound, TS_RANGE_END, TS_RANGE_BEGIN)
}

fn map_bound_at(bound: Bound<&[u8]>, included: u64, excluded: u64) -> (r: Bound<KeyVec>)
    ensures
        keyvec_bound(r) == key_bound(model::bound(bound), included, excluded),
{
    match bound {
        Bound::Included(x) => Bound::Included(
            KeyVec::from_vec_with_ts(vstd::slice::slice_to_vec(x), included),
        ),
        Bound::Excluded(x) => Bound::Excluded(
            KeyVec::from_vec_with_ts(vstd::slice::slice_to_vec(x), excluded),
        ),
        Bound::Unbounded => Bound::Unbounded,
    }
}

/// A bound as the skip list takes it.
fn list_bound(bound: Bound<KeyVec>) -> (r: Bound<(Vec<u8>, u64)>)
    ensures
        match (keyvec_bound(bound), r) {
            (Bound::Included(k), Bound::Included(p)) => p.0@ == k.key && p.1 == deps::inverted(
                k.ts,
            ),
            (Bound::Excluded(k), Bound::Excluded(p)) => p.0@ == k.key && p.1 == deps::inverted(
                k.ts,
            ),
            (Bound::Unbounded, Bound::Unbounded) => true,
            _ => false,
        },
{
    match bound {
        Bound::Included(k) => {
            let ts = k.as_key_slice().ts();
            Bound::Included((k.into_inner(), deps::invert(ts)))
        },
        Bound::Excluded(k) => {
            let ts = k.as_key_slice().ts();
            Bound::Excluded((k.into_inner(), deps::invert(ts)))
        },
        Bound::Unbounded => Bound::Unbounded,
    }
}

/// An item of a skip list as an entry.
pub open spec fn item_entry(item: ((Vec<u8>, u64), Vec<u8>)) -> Entry {
    Entry {
        key: KeyTs { key: item.0.0@, ts: deps::inverted(item.0.1) },
        value: item.1@,
    }
}

pub open spec fn items_run(items: Seq<((Vec<u8>, u64), Vec<u8>)>) -> Seq<Entry> {
    items.map_values(|x: ((Vec<u8>, u64), Vec<u8>)| item_entry(x))
}

/// The items of a skip list within a range of user keys.
pub(crate) fn list_range(map: &SkipList, lower: Bound<&[u8]>, upper: Bound<&[u8]>) -> (r: Vec<
    ((Vec<u8>, u64), Vec<u8>),
>)
    ensures
        model::sorted(items_run(r@)),
        model::entry_map(items_run(r@)) == model::in_range(
            versions_of(deps::skip_entries(*map)),
            model::bound(lower),
            model::bound(upper),
        ),
{
    let lo = list_bound(map_bound_lower(lower));
    let up = list_bound(map_bound_upper(upper));
    let r = deps::skip_range(map, lo, up);
    proof {
        let s = items_run(r@);
        let list = deps::skip_entries(*map);
        let m = model::in_range(versions_of(list), model::bound(lower), model::bound(upper));
        reveal(key::key_lt);
        assert forall|i: int, j: int| #![trigger s[i], s[j]] 0 <= i < j < s.len() implies key::key_lt(
            s[i].key,
            s[j].key,
        ) by {
            assert(deps::pair_lt((r@[i].0.0@, r@[i].0.1), (r@[j].0.0@, r@[j].0.1)));
        }
        assert forall|k: KeyTs| #[trigger] m.contains_key(k) implies model::has_key(s, k) by {
            let p = (k.key, deps::inverted(k.ts));
            assert(list.contains_key(p));
            assert(deps::above(p, lo));
            assert(deps::below(p, up));
            let i = choose|i: int|
                0 <= i < r@.len() && (#[trigger] r@[i]).0.0@ == p.0 && r@[i].0.1 == p.1;
            assert(s[i].key == k);
        }
        assert forall|k: KeyTs| #[trigger] model::entry_map(s).contains_key(k) implies m.contains_key(
            k,
        ) && m[k] == model::entry_map(s)[k] by {
            let i = model::lemma_entry_map_key(s, k);
            let p = (r@[i].0.0@, r@[i].0.1);
            assert(p == (k.key, deps::inverted(k.ts)));
            assert(list.contains_key(p) && deps::above(p, lo) && deps::below(p, up));
        }
        assert(model::entry_map(s) =~= m);
    }
    r
}

/// The draft of a table after a run of entries was added.
pub open spec fn added_all(d: builder::TableDraft, s: Seq<Entry>) -> builder::TableDraft
    decreases s.len(),
{
    if s.len() == 0 {
        d
    } else {
        added_all(d, s.drop_last()).added(s.last().key, s.last().value)
    }
}

/// Stored lengths can hold the sizes of all entries, and no user key is empty.
pub open spec fn all_storable(s: Seq<Entry>) -> bool {
    forall|i: int|
        0 <= i < s.len() ==> crate::block::storable((#[trigger] s[i]).key, s[i].value)
}

impl MemTable {
    /// The versions that the memtable holds.
    pub closed spec fn versions(&self) -> Versions {
        versions_of(deps::skip_entries(self.map))
    }

    pub closed spec fn spec_id(&self) -> usize {
        self.id
    }

    pub closed spec fn size(&self) -> usize {
        self.approximate_size
    }

    /// The log, if there is one.
    pub closed spec fn log(&self) -> Option<Wal> {
        self.wal
    }

    /// Create a new mem-table.
    pub fn create(id: usize) -> (r: MemTable)
        ensures
            r.versions() == Map::<KeyTs, Seq<u8>>::empty(),
            r.log() is None,
            r.spec_id() == id,
            r.size() == 0,
    {
        proof {
            lemma_no_versions();
        }
        MemTable { map: deps::skip_new(), wal: None, id, approximate_size: 0 }
    }

    /// Create a new mem-table with WAL
    pub fn create_with_wal(id: usize) -> (r: MemTable)
        ensures
            r.versions() == Map::<KeyTs, Seq<u8>>::empty(),
            r.log() matches Some(w) && w.pending() == Seq::<u8>::empty(),
            r.spec_id() == id,
            r.size() == 0,
    {
        proof {
            lemma_no_versions();
        }
        MemTable { map: deps::skip_new(), wal: Some(Wal::create()), id, approximate_size: 0 }
    }

    /// Create a memtable from the content of its log's file.
    pub fn recover_from_wal(id: usize, data: &[u8]) -> (r: Result<MemTable, LsmError>)
        ensures
            exists|order: ByteOrder| #[trigger] is_recovered(order, id, data@, r),
    {
        let order = wal::native_order();
        let r = MemTable::recover_with_order(order, id, data);
        assert(is_recovered(order, id, data@, r));
        r
    }

    /// Create a memtable from the content of its log's file, in some byte order.
    pub fn recover_with_order(order: ByteOrder, id: usize, data: &[u8]) -> (r: Result<
        MemTable,
        LsmError,
    >)
        ensures
            is_recovered(order, id, data@, r),
    {
        let mut raw = deps::skip_new();
        let wal = match Wal::recover_with_order(order, data, &mut raw) {
            Ok(w) => w,
            Err(e) => {
                return Err(e);
            },
        };
        let ghost rs = wal::log_records(order, data@);
        let map = match split_keys(&raw, Ghost(rs)) {
            None => {
                return Err(LsmError::Truncated);
            },
            Some(map) => map,
        };
        let items = list_range(&map, Bound::Unbounded, Bound::Unbounded);
        let ghost s = items_run(items@);
        let mut size: usize = 0;
        let mut i: usize = 0;
        assert(run_size(s.take(0)) == 0);
        while i < items.len()
            invariant
                i <= items.len(),
                s == items_run(items@),
                size == wrapped(run_size(s.take(i as int))),
            decreases items.len() - i,
        {
            let one: usize = raw_size(items[i].0.0.len(), items[i].1.len());
            size = wrapping_sum(size, one);
            proof {
                let t = s.take(i + 1);
                assert(t.drop_last() =~= s.take(i as int));
                assert(t.last() == s[i as int]);
                lemma_wrapped_sum(run_size(t.drop_last()), entry_size(t.last()));
            }
            i = i + 1;
        }
        proof {
            assert(s.take(i as int) =~= s);
            let m = versions_of(deps::skip_entries(map));
            assert(model::in_range(m, Bound::Unbounded, Bound::Unbounded) =~= m);
            model::lemma_sorted_entries_of(s);
        }
        Ok(MemTable { map, wal: Some(wal), id, approximate_size: size })
    }

    pub fn for_testing_put_slice(&mut self, key: &[u8], value: &[u8]) -> (r: Result<(), LsmError>)
        ensures
            r is Ok,
            was_put(*old(self), *final(self), KeyTs { key: key@, ts: TS_DEFAULT }, value@),
    {
        self.put(KeySlice::from_slice(key, TS_DEFAULT), value)
    }

    pub fn for_testing_get_slice(&self, key: &[u8]) -> (r: Option<Bytes>)
        ensures
            r is Some <==> self.versions().contains_key(KeyTs { key: key@, ts: TS_DEFAULT }),
            r matches Some(v) ==> deps::bytes_seq(v) == self.versions()[KeyTs {
                key: key@,
                ts: TS_DEFAULT,
            }],
    {
        self.get(key)
    }

    pub fn for_testing_scan_slice(&self, lower: Bound<&[u8]>, upper: Bound<&[u8]>) -> (r:
        MemTableIterator)
        ensures
            r.wf(),
            r.remaining() == shown(
                model::sorted_entries(
                    model::in_range(self.versions(), model::bound(lower), model::bound(upper)),
                ),
            ),
    {
        self.scan(lower, upper)
    }

    /// Get a value by key: the version that carries no timestamp.
    pub fn get(&self, key: &[u8]) -> (r: Option<Bytes>)
        ensures
            r is Some <==> self.versions().contains_key(KeyTs { key: key@, ts: TS_DEFAULT }),
            r matches Some(v) ==> deps::bytes_seq(v) == self.versions()[KeyTs {
                key: key@,
                ts: TS_DEFAULT,
            }],
    {
        let k = (vstd::slice::slice_to_vec(key), deps::invert(TS_DEFAULT));
        match deps::skip_get(&self.map, &k) {
            None => None,
            Some(v) => Some(deps::bytes_from_vec(v)),
        }
    }

    /// Put a key-value pair into the mem-table.
    pub fn put(&mut self, key: KeySlice<'_>, value: &[u8]) -> (r: Result<(), LsmError>)
        ensures
            r is Ok,
            was_put(*old(self), *final(self), key@, value@),
            final(self).versions() == old(self).versions().insert(key@, value@),
            old(self).size() + key@.key.len() + 8 + value@.len() <= usize::MAX ==> final(self).size() == old(self).size() + key@.key.len() + 8 + value@.len(),
    {
        proof {
            lemma_versions_insert(deps::skip_entries(self.map), key@, value@);
            lemma_wrapped_add(self.approximate_size, entry_size(Entry { key: key@, value: value@ }));
            let total = (self.approximate_size + entry_size(
                Entry { key: key@, value: value@ },
            )) as nat;
            if total <= usize::MAX {
                vstd::arithmetic::div_mod::lemma_small_mod(total, (usize::MAX + 1) as nat);
            }
        }
        deps::skip_insert(
            &mut self.map,
            (vstd::slice::slice_to_vec(key.key_ref()), deps::invert(key.ts())),
            vstd::slice::slice_to_vec(value),
        );
        let size: usize = raw_size(key.len(), value.len());
        self.approximate_size = wrapping_sum(self.approximate_size, size);
        match self.wal.take() {
            None => Ok(()),
            Some(mut wal) => {
                let raw = wal::to_raw_key(key);
                let r = wal.put(raw.as_slice(), value);
                self.wal = Some(wal);
                r
            },
        }
    }

    /// Put several key-value pairs, one after the other.
    pub fn put_batch(&mut self, data: &[(KeySlice<'_>, &[u8])]) -> (r: Result<(), LsmError>)
        ensures
            r is Ok,
            were_put(*old(self), *final(self), batch_records(data@)),
    {
        let ghost rs = batch_records(data@);
        let mut i: usize = 0;
        proof {
            assert(rs.take(0) =~= Seq::empty());
            vstd::arithmetic::div_mod::lemma_small_mod(
                self.size() as nat,
                (usize::MAX + 1) as nat,
            );
            if self.log() is Some {
                let w = self.log()->0;
                assert(w.pending() + wal_bytes(w, rs.take(0)) =~= w.pending());
            }
        }
        while i < data.len()
            invariant
                i <= data.len(),
                rs == batch_records(data@),
                were_put(*old(self), *self, rs.take(i as int)),
            decreases data.len() - i,
        {
            let ghost before = *self;
            let (key, value) = data[i];
            match self.put(key, value) {
                Err(e) => {
                    return Err(e);
                },
                Ok(()) => {},
            }
            proof {
                let t = rs.take(i + 1);
                assert(t.drop_last() =~= rs.take(i as int));
                assert(t.last() == rs[i as int]);
                lemma_wrapped_more(old(self).size(), records_size(t.drop_last()), entry_size(
                    Entry { key: t.last().key, value: t.last().value },
                ));
                if before.log() is Some {
                    assert(self.log()->0.pending() =~= old(self).log()->0.pending() + wal_bytes(
                        old(self).log()->0,
                        t,
                    ));
                }
            }
            i = i + 1;
        }
        assert(rs.take(i as int) =~= rs);
        Ok(())
    }

    /// Hands over what the log still has to write to its file.
    pub fn sync_wal(&mut self) -> (r: Vec<u8>)
        ensures
            final(self).versions() == old(self).versions(),
            final(self).spec_id() == old(self).spec_id(),
            final(self).size() == old(self).size(),
            match old(self).log() {
                None => r@ == Seq::<u8>::empty() && final(self).log() is None,
                Some(w) => r@ == w.pending() && (final(self).log() matches Some(x) && x.pending()
                    == Seq::<u8>::empty() && x.order() == w.order()),
            },
    {
        match self.wal.take() {
            None => Vec::new(),
            Some(mut wal) => {
                let bytes = wal.sync();
                self.wal = Some(wal);
                bytes
            },
        }
    }

    /// Get an iterator over a range of keys.
    pub fn scan(&self, lower: Bound<&[u8]>, upper: Bound<&[u8]>) -> (r: MemTableIterator)
        ensures
            r.wf(),
            model::in_range(
                self.versions(),
                model::bound(lower),
                model::bound(upper),
            ).dom().finite(),
            r.remaining() == shown(
                model::sorted_entries(
                    model::in_range(self.versions(), model::bound(lower), model::bound(upper)),
                ),
            ),
    {
        MemTableIterator::over(&self.map, lower, upper)
    }

    /// Flush the mem-table to SSTable.
    pub fn flush(&self, builder: &mut SsTableBuilder) -> (r: Result<(), LsmError>)
        requires
            old(builder)@.wf(),
        ensures
            r is Ok,
            self.versions().dom().finite(),
            final(builder)@.wf(),
            final(builder)@ == added_all(
                old(builder)@,
                shown(model::sorted_entries(self.versions())),
            ),
            old(builder)@.sound() && old(builder)@.entries().len() == 0 && all_storable(
                shown(model::sorted_entries(self.versions())),
            ) ==> final(builder)@.sound() && final(builder)@.entries() == shown(
                model::sorted_entries(self.versions()),
            ),
    {
        let mut iter = self.scan(Bound::Unbounded, Bound::Unbounded);
        let ghost s = iter.remaining();
        let ghost fine = builder@.sound() && builder@.entries().len() == 0 && all_storable(s);
        proof {
            assert(model::in_range(self.versions(), Bound::Unbounded, Bound::Unbounded)
                =~= self.versions());
            iter.lemma_remaining_sorted();
            lemma_shown(s);
            assert(shown(s) == s);
            assert(s.skip(0) =~= s);
            assert(s.take(0) =~= Seq::empty());
            assert(fine ==> builder@.entries() =~= Seq::empty());
        }
        let ghost mut n: int = 0;
        while iter.is_valid()
            invariant
                iter.wf(),
                0 <= n <= s.len(),
                iter.remaining() == s.skip(n),
                model::sorted(s),
                s == shown(model::sorted_entries(self.versions())),
                forall|i: int| 0 <= i < s.len() ==> (#[trigger] s[i]).key.key.len() > 0,
                builder@.wf(),
                builder@ == added_all(old(builder)@, s.take(n)),
                fine ==> all_storable(s),
                fine ==> builder@.sound() && builder@.entries() == s.take(n),
            decreases s.len() - n,
        {
            proof {
                assert(s.skip(n)[0] == s[n]);
                assert(fine && n > 0 ==> s.take(n).last() == s[n - 1]);
                assert(s.take(n + 1).drop_last() =~= s.take(n));
                assert(s.take(n + 1).last() == s[n]);
                assert(s.take(n).push(s[n]) =~= s.take(n + 1));
                assert(s.skip(n).skip(1) =~= s.skip(n + 1));
            }
            builder.add(iter.key(), iter.value());
            match iter.next() {
                Err(e) => {
                    return Err(e);
                },
                Ok(()) => {},
            }
            proof {
                n = n + 1;
            }
        }
        assert(s.take(n) =~= s);
        Ok(())
    }

    pub fn id(&self) -> (r: usize)
        ensures
            r == self.spec_id(),
    {
        self.id
    }

    pub fn approximate_size(&self) -> (r: usize)
        ensures
            r == self.size(),
    {
        self.approximate_size
    }

    /// Only use this function when closing the database
    pub fn is_empty(&self) -> (r: bool)
        ensures
            r == (self.versions() == Map::<KeyTs, Seq<u8>>::empty()),
    {
        let r = deps::skip_is_empty(&self.map);
        proof {
            let m = deps::skip_entries(self.map);
            if r {
                assert(self.versions() =~= Map::<KeyTs, Seq<u8>>::empty());
            } else {
                let p = choose|p: (Seq<u8>, u64)| m.contains_key(p);
                let k = KeyTs { key: p.0, ts: deps::inverted(p.1) };
                assert(p == (k.key, deps::inverted(k.ts)));
                assert(self.versions().contains_key(k));
            }
        }
        r
    }
}

/// The sum of two sizes.
fn wrapping_sum(a: usize, b: usize) -> (r: usize)
    ensures
        r == wrapped((a + b) as nat),
{
    proof {
        let m = usize::MAX + 1;
        if a + b < m {
            vstd::arithmetic::div_mod::lemma_small_mod((a + b) as nat, m as nat);
        } else {
            vstd::arithmetic::div_mod::lemma_fundamental_div_mod_converse(a + b, m, 1, a + b - m);
        }
    }
    a.wrapping_add(b)
}

/// The key length, with the timestamp, and the value length.
fn raw_size(key_len: usize, value_len: usize) -> (r: usize)
    ensures
        r == wrapped((key_len + 8 + value_len) as nat),
{
    proof {
        lemma_wrapped_add(value_len, (key_len + 8) as nat);
    }
    wrapping_sum(wrapping_sum(key_len, 8), value_len)
}

proof fn lemma_wrapped_add(a: usize, b: nat)
    ensures
        wrapped((a + wrapped(b)) as nat) == wrapped((a + b) as nat),
{
    vstd::arithmetic::div_mod::lemma_add_mod_noop(a as int, b as int, usize::MAX + 1);
    vstd::arithmetic::div_mod::lemma_add_mod_noop(a as int, wrapped(b) as int, usize::MAX + 1);
    vstd::arithmetic::div_mod::lemma_mod_twice(b as int, usize::MAX + 1);
}

proof fn lemma_wrapped_sum(a: nat, b: nat)
    ensures
        wrapped((wrapped(a) + wrapped(b)) as nat) == wrapped(a + b),
{
    vstd::arithmetic::div_mod::lemma_add_mod_noop(a as int, b as int, usize::MAX + 1);
}

proof fn lemma_wrapped_more(a: usize, b: nat, c: nat)
    ensures
        wrapped((wrapped((a + b) as nat) + c) as nat) == wrapped((a + (b + c)) as nat),
{
    lemma_wrapped_sum((a + b) as nat, c);
    lemma_wrapped_add(wrapped((a + b) as nat), c);
}

/// The memtable after one put.
pub open spec fn was_put(before: MemTable, after: MemTable, k: KeyTs, value: Seq<u8>) -> bool {
    &&& after.versions() == before.versions().insert(k, value)
    &&& after.spec_id() == before.spec_id()
    &&& after.size() == wrapped(
        (before.size() + entry_size(Entry { key: k, value })) as nat,
    )
    &&& match before.log() {
        None => after.log() is None,
        Some(w) => after.log() matches Some(x) && x.order() == w.order() && x.pending()
            == w.pending() + wal::record_bytes(w.order(), wal::raw_key(k), value),
    }
}

/// The pairs of a batch as records.
pub open spec fn batch_records(data: Seq<(KeySlice<'_>, &[u8])>) -> Seq<Record> {
    data.map_values(|p: (KeySlice<'_>, &[u8])| Record { key: p.0@, value: p.1@ })
}

pub open spec fn records_size(rs: Seq<Record>) -> nat
    decreases rs.len(),
{
    if rs.len() == 0 {
        0
    } else {
        records_size(rs.drop_last()) + entry_size(
            Entry { key: rs.last().key, value: rs.last().value },
        )
    }
}

/// What puts add to the size of a memtable: the length of the user key, eight bytes for the
/// timestamp, and the length of the value.
pub proof fn lemma_records_size(rs: Seq<Record>, r: Record)
    ensures
        records_size(Seq::empty()) == 0,
        records_size(rs.push(r)) == records_size(rs) + r.key.key.len() + 8 + r.value.len(),
{
    assert(rs.push(r).drop_last() =~= rs);
}

/// Of several puts of a key the last one counts, and a key that was not put stays as it was.
pub proof fn lemma_last_put_counts(m: Versions, rs: Seq<Record>, i: int, k: KeyTs)
    requires
        0 <= i,
    ensures
        0 <= i < rs.len() && rs[i].key == k && (forall|j: int|
            i < j < rs.len() ==> (#[trigger] rs[j]).key != k) ==> replay(m, rs).contains_key(k)
            && replay(m, rs)[k] == rs[i].value,
        (forall|j: int| 0 <= j < rs.len() ==> (#[trigger] rs[j]).key != k) ==> (replay(
            m,
            rs,
        ).contains_key(k) <==> m.contains_key(k)) && replay(m, rs)[k] == m[k],
    decreases rs.len(),
{
    if rs.len() > 0 {
        let t = rs.drop_last();
        let x = rs[rs.len() - 1];
        lemma_last_put_counts(m, t, i, k);
        if forall|j: int| i < j < rs.len() ==> (#[trigger] rs[j]).key != k {
            assert forall|j: int| i < j < t.len() implies (#[trigger] t[j]).key != k by {
                assert(t[j] == rs[j]);
            }
        }
        if forall|j: int| 0 <= j < rs.len() ==> (#[trigger] rs[j]).key != k {
            assert(x.key != k);
            assert forall|j: int| 0 <= j < t.len() implies (#[trigger] t[j]).key != k by {
                assert(t[j] == rs[j]);
            }
        }
        if 0 <= i < t.len() && (forall|j: int| i < j < rs.len() ==> (#[trigger] rs[j]).key != k) {
            assert(x.key != k);
            assert(t[i] == rs[i]);
        }
    }
}

/// What records add to a log.
pub open spec fn wal_bytes(w: Wal, rs: Seq<Record>) -> Seq<u8>
    decreases rs.len(),
{
    if rs.len() == 0 {
        Seq::empty()
    } else {
        wal_bytes(w, rs.drop_last()) + wal::record_bytes(
            w.order(),
            wal::raw_key(rs.last().key),
            rs.last().value,
        )
    }
}

/// The memtable after several puts.
pub open spec fn were_put(before: MemTable, after: MemTable, rs: Seq<Record>) -> bool {
    &&& after.versions() == replay(before.versions(), rs)
    &&& after.spec_id() == before.spec_id()
    &&& after.size() == wrapped((before.size() + records_size(rs)) as nat)
    &&& match before.log() {
        None => after.log() is None,
        Some(w) => after.log() matches Some(x) && x.order() == w.order() && x.pending()
            == w.pending() + wal_bytes(w, rs),
    }
}

/// The list of a memtable, from a list of what its log has; none if a key has no timestamp.
fn split_keys(raw: &SkipList, Ghost(rs): Ghost<Seq<LogRecord>>) -> (r: Option<SkipList>)
    requires
        deps::skip_entries(*raw) == wal::replayed(deps::no_entries(), rs),
    ensures
        r is Some <==> all_timed(rs),
        r matches Some(map) ==> versions_of(deps::skip_entries(map)) == replay(
            Map::empty(),
            log_versions(rs),
        ),
{
    let items = list_range(raw, Bound::Unbounded, Bound::Unbounded);
    let ghost s = items_run(items@);
    let ghost list = item_records(s);
    let ghost vs = log_versions(list);
    proof {
        lemma_replayed(deps::no_entries(), rs);
        lemma_no_versions();
        let m = versions_of(deps::skip_entries(*raw));
        assert(model::in_range(m, Bound::Unbounded, Bound::Unbounded) =~= m);
        lemma_log_items(rs, s);
    }
    let mut map = deps::skip_new();
    let mut i: usize = 0;
    proof {
        lemma_no_versions();
        assert(vs.take(0) =~= Seq::empty());
    }
    while i < items.len()
        invariant
            i <= items@.len(),
            s == items_run(items@),
            list == item_records(s),
            vs == log_versions(list),
            all_timed(rs) <==> all_timed(list),
            forall|j: int| 0 <= j < i ==> (#[trigger] list[j]).key.len() >= 8,
            versions_of(deps::skip_entries(map)) == replay(Map::empty(), vs.take(i as int)),
        decreases items@.len() - i,
    {
        let key: &[u8] = items[i].0.0.as_slice();
        assert(list[i as int].key == key@);
        if key.len() < 8 {
            return None;
        }
        let (user_key, ts) = wal::from_raw_key(key);
        let value = vstd::slice::slice_to_vec(items[i].1.as_slice());
        proof {
            let t = vs.take(i + 1);
            assert(t.drop_last() =~= vs.take(i as int));
            assert(t.last() == versioned(list[i as int]));
            lemma_versions_insert(
                deps::skip_entries(map),
                KeyTs { key: user_key@, ts },
                value@,
            );
        }
        deps::skip_insert(&mut map, (user_key, deps::invert(ts)), value);
        i = i + 1;
    }
    assert(vs.take(i as int) =~= vs);
    Some(map)
}

/// Why the content of a log makes no memtable, if it does not: a record of it cannot be read, or
/// has no timestamp.
pub open spec fn recovery_error(order: ByteOrder, data: Seq<u8>) -> Option<LsmError> {
    match wal::log_error(order, data) {
        Some(e) => Some(e),
        None => if all_timed(wal::log_records(order, data)) {
            None
        } else {
            Some(LsmError::Truncated)
        },
    }
}

/// A memtable was made of the content of a log.
pub open spec fn is_recovered(
    order: ByteOrder,
    id: usize,
    data: Seq<u8>,
    r: Result<MemTable, LsmError>,
) -> bool {
    match recovery_error(order, data) {
        Some(e) => r == Err::<MemTable, LsmError>(e),
        None => {
            &&& r matches Ok(m)
            &&& m.versions() == replay(
                Map::empty(),
                log_versions(wal::log_records(order, data)),
            )
            &&& m.spec_id() == id
            &&& m.size() == wrapped(run_size(model::sorted_entries(m.versions())))
            &&& m.log() matches Some(w) && w.order() == order && w.pending() == Seq::<u8>::empty()
        },
    }
}

/// A memtable that is recovered from the log of a memtable holds the same versions, if stored
/// lengths can hold their sizes.
pub proof fn lemma_recovered_from_log(
    fresh: MemTable,
    written: MemTable,
    rs: Seq<Record>,
    id: usize,
    r: Result<MemTable, LsmError>,
)
    requires
        fresh.versions() == Map::<KeyTs, Seq<u8>>::empty(),
        fresh.log() matches Some(w) && w.pending() == Seq::<u8>::empty(),
        were_put(fresh, written, rs),
        forall|i: int| 0 <= i < rs.len() ==> wal::record_fits(wal::log_record(#[trigger] rs[i])),
        is_recovered(fresh.log()->0.order(), id, written.log()->0.pending(), r),
    ensures
        r matches Ok(m) && m.versions() == written.versions(),
{
    let w = fresh.log()->0;
    lemma_logged_new(fresh, w.order());
    lemma_logged_put(fresh, written, rs, Seq::empty());
    assert(written.log()->0.pending() =~= Seq::empty() + wal_bytes(w, rs));
    lemma_logged_recovered(written, w.order(), written.log()->0.pending(), id, r);
}

/// The versions for which a memtable's log has records are read back from it.
pub proof fn lemma_log_read_back(order: ByteOrder, rs: Seq<Record>)
    requires
        forall|i: int| 0 <= i < rs.len() ==> wal::record_fits(wal::log_record(#[trigger] rs[i])),
    ensures
        wal::log_error(order, wal::log_bytes(order, records_log(rs))) is None,
        all_timed(wal::log_records(order, wal::log_bytes(order, records_log(rs)))),
        log_versions(wal::log_records(order, wal::log_bytes(order, records_log(rs)))) == rs,
{
    let ls = records_log(rs);
    assert forall|i: int| 0 <= i < ls.len() implies wal::record_fits(#[trigger] ls[i]) by {
        assert(wal::record_fits(wal::log_record(rs[i])));
    }
    wal::lemma_log_round_trip(order, ls);
    assert forall|i: int| 0 <= i < ls.len() implies (#[trigger] ls[i]).key.len() >= 8
        && log_versions(ls)[i] == rs[i] by {
        wal::lemma_split_raw(rs[i].key);
    }
    assert(log_versions(ls) =~= rs);
}

/// The content of a log has records for some versions, and stored lengths can hold their sizes.
pub open spec fn holds_records(order: ByteOrder, data: Seq<u8>, rs: Seq<Record>) -> bool {
    &&& data == wal::log_bytes(order, records_log(rs))
    &&& forall|i: int| 0 <= i < rs.len() ==> wal::record_fits(wal::log_record(#[trigger] rs[i]))
}

/// The content of a log has records that lead to the versions of a memtable.
pub open spec fn is_logged(m: MemTable, order: ByteOrder, data: Seq<u8>) -> bool {
    exists|rs: Seq<Record>| #[trigger]
        holds_records(order, data, rs) && m.versions() == replay(Map::empty(), rs)
}

/// The log of a new memtable is empty.
pub proof fn lemma_logged_new(m: MemTable, order: ByteOrder)
    requires
        m.versions() == Map::<KeyTs, Seq<u8>>::empty(),
    ensures
        is_logged(m, order, Seq::empty()),
{
    let none = Seq::<Record>::empty();
    assert(records_log(none) =~= Seq::empty());
    assert(holds_records(order, Seq::empty(), none));
}

proof fn lemma_more_records(order: ByteOrder, data: Seq<u8>, w: Wal, a: Seq<Record>, b: Seq<Record>)
    requires
        w.order() == order,
        holds_records(order, data, a),
        forall|i: int| 0 <= i < b.len() ==> wal::record_fits(wal::log_record(#[trigger] b[i])),
    ensures
        holds_records(order, data + wal_bytes(w, b), a + b),
        replay(Map::empty(), a + b) == replay(replay(Map::empty(), a), b),
    decreases b.len(),
{
    if b.len() == 0 {
        assert(a + b =~= a);
        assert(data + wal_bytes(w, b) =~= data);
    } else {
        let c = b.drop_last();
        let r = b.last();
        assert(r == b[b.len() - 1]);
        assert forall|i: int| 0 <= i < c.len() implies wal::record_fits(
            wal::log_record(#[trigger] c[i]),
        ) by {
            assert(c[i] == b[i]);
        }
        lemma_more_records(order, data, w, a, c);
        let all = a + b;
        assert(all.drop_last() =~= a + c);
        assert(all.last() == r);
        wal::lemma_log_bytes_push(order, records_log(a + c), wal::log_record(r));
        assert(records_log(a + c).push(wal::log_record(r)) =~= records_log(all));
        assert(data + wal_bytes(w, b) =~= (data + wal_bytes(w, c)) + wal::record_bytes(
            order,
            wal::raw_key(r.key),
            r.value,
        ));
        assert forall|i: int| 0 <= i < all.len() implies wal::record_fits(
            wal::log_record(#[trigger] all[i]),
        ) by {
            if i < a.len() {
                assert(all[i] == a[i]);
            } else {
                assert(all[i] == b[i - a.len()]);
            }
        }
    }
}

/// What puts add to a memtable's log keeps the log at the memtable's versions.
pub proof fn lemma_logged_put(before: MemTable, after: MemTable, rs: Seq<Record>, data: Seq<u8>)
    requires
        before.log() matches Some(w) && is_logged(before, w.order(), data),
        were_put(before, after, rs),
        forall|i: int| 0 <= i < rs.len() ==> wal::record_fits(wal::log_record(#[trigger] rs[i])),
    ensures
        is_logged(after, before.log()->0.order(), data + wal_bytes(before.log()->0, rs)),
{
    let w = before.log()->0;
    let a = choose|a: Seq<Record>| #[trigger]
        holds_records(w.order(), data, a) && before.versions() == replay(Map::empty(), a);
    lemma_more_records(w.order(), data, w, a, rs);
    assert(holds_records(w.order(), data + wal_bytes(w, rs), a + rs));
}

/// What was written of a memtable's log and what still has to be written lead to the memtable's
/// versions, before puts and after them.
pub proof fn lemma_log_keeps_up(
    before: MemTable,
    after: MemTable,
    rs: Seq<Record>,
    written: Seq<u8>,
)
    requires
        before.log() matches Some(w) && is_logged(before, w.order(), written + w.pending()),
        were_put(before, after, rs),
        forall|i: int| 0 <= i < rs.len() ==> wal::record_fits(wal::log_record(#[trigger] rs[i])),
    ensures
        after.log() matches Some(w) && w.order() == before.log()->0.order() && is_logged(
            after,
            w.order(),
            written + w.pending(),
        ),
{
    let w = before.log()->0;
    lemma_logged_put(before, after, rs, written + w.pending());
    assert((written + w.pending()) + wal_bytes(w, rs) =~= written + after.log()->0.pending());
}

/// A memtable that is recovered from a log has the versions of the memtable whose log it is.
pub proof fn lemma_logged_recovered(
    m: MemTable,
    order: ByteOrder,
    data: Seq<u8>,
    id: usize,
    r: Result<MemTable, LsmError>,
)
    requires
        is_logged(m, order, data),
        is_recovered(order, id, data, r),
    ensures
        r matches Ok(n) && n.versions() == m.versions() && is_logged(n, order, data),
{
    let rs = choose|rs: Seq<Record>| #[trigger]
        holds_records(order, data, rs) && m.versions() == replay(Map::empty(), rs);
    lemma_log_read_back(order, rs);
}

/// An iterator over a range of a memtable.
pub struct MemTableIterator {
    items: Vec<((Vec<u8>, u64), Vec<u8>)>,
    pos: usize,
}

impl MemTableIterator {
    /// An iterator over the items of a skip list within a range of user keys.
    pub(crate) fn over(map: &SkipList, lower: Bound<&[u8]>, upper: Bound<&[u8]>) -> (r:
        MemTableIterator)
        ensures
            r.wf(),
            model::in_range(
                versions_of(deps::skip_entries(*map)),
                model::bound(lower),
                model::bound(upper),
            ).dom().finite(),
            r.remaining() == shown(
                model::sorted_entries(
                    model::in_range(
                        versions_of(deps::skip_entries(*map)),
                        model::bound(lower),
                        model::bound(upper),
                    ),
                ),
            ),
    {
        let items = list_range(map, lower, upper);
        proof {
            model::lemma_sorted_entries_of(items_run(items@));
            model::lemma_entry_map_finite(items_run(items@));
            assert(items_run(items@).skip(0) =~= items_run(items@));
        }
        MemTableIterator { items, pos: 0 }
    }

    spec fn run(&self) -> Seq<Entry> {
        items_run(self.items@)
    }
}

impl StorageIterator for MemTableIterator {
    closed spec fn wf(&self) -> bool {
        self.pos <= self.items@.len() && model::sorted(self.run())
    }

    closed spec fn remaining(&self) -> Seq<Entry> {
        shown(self.run().skip(self.pos as int))
    }

    open spec fn can_fail(&self, e: LsmError) -> bool {
        false
    }

    /// The cursor is at an empty user key, which counts as the end.
    closed spec fn may_resume(&self) -> bool {
        self.pos < self.items@.len() && self.items@[self.pos as int].0.0@.len() == 0
    }

    open spec fn active(&self) -> usize {
        1
    }

    proof fn lemma_remaining_sorted(&self) {
        let s = self.run();
        let t = s.skip(self.pos as int);
        assert forall|i: int, j: int| #![trigger t[i], t[j]] 0 <= i < j < t.len() implies key::key_lt(
            t[i].key,
            t[j].key,
        ) by {
            assert(key::key_lt(s[self.pos + i].key, s[self.pos + j].key));
        }
    }

    fn is_valid(&self) -> (r: bool) {
        self.pos < self.items.len() && self.items[self.pos].0.0.len() > 0
    }

    fn key(&self) -> (r: KeySlice<'_>) {
        if self.pos < self.items.len() {
            let k = &self.items[self.pos].0;
            KeySlice::from_slice(k.0.as_slice(), deps::invert(k.1))
        } else {
            KeySlice::from_slice(&[], TS_DEFAULT)
        }
    }

    fn value(&self) -> (r: &[u8]) {
        if self.pos < self.items.len() {
            self.items[self.pos].1.as_slice()
        } else {
            &[]
        }
    }

    fn next(&mut self) -> (r: Result<(), LsmError>) {
        if self.pos < self.items.len() {
            self.pos = self.pos + 1;
            proof {
                broadcast use crate::key::group_key_order;

                let s = self.run();
                let p = old(self).pos as int;
                if s[p].key.key.len() > 0 {
                    assert(s.skip(p).skip(1) =~= s.skip(p + 1));
                    if p + 1 < s.len() {
                        assert(key::key_lt(s[p].key, s[p + 1].key));
                        reveal(key::key_lt);
                        assert(s[p + 1].key.key.len() > 0);
                    }
                }
            }
        }
        Ok(())
    }

    fn num_active_iterators(&self) -> (r: usize) {
        1
    }
}

} // verus!
