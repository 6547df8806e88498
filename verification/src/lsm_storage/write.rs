//! Writes: batches go to the memtable, which is frozen when it has grown large.
use vstd::prelude::*;
use crate::compact::laws;
use crate::error::LsmError;
use crate::key::{KeySlice, KeyTs};
use crate::lsm_storage;
use crate::lsm_storage::{LsmStorageInner, LsmStorageState, WriteBatchRecord};
use crate::manifest::ManifestRecord;
use crate::mem_table;
use crate::mem_table::MemTable;
use crate::model;
use crate::model::Versions;
use crate::wal;
use crate::wal::Record;

verus! {

/// A write at some timestamp: a deletion writes the empty value.
pub open spec fn record_of(r: WriteBatchRecord<&[u8]>, ts: u64) -> Record {
    match r {
        WriteBatchRecord::Put(k, v) => Record { key: KeyTs { key: k@, ts }, value: v@ },
        WriteBatchRecord::Del(k) => Record { key: KeyTs { key: k@, ts }, value: Seq::empty() },
    }
}

/// The writes of a batch at some timestamp.
pub open spec fn records_of(batch: Seq<WriteBatchRecord<&[u8]>>, ts: u64) -> Seq<Record> {
    batch.map_values(|r: WriteBatchRecord<&[u8]>| record_of(r, ts))
}

/// The memtable is an immutable one now, the latest, and an empty one with a fresh id stands in its
/// place. The manifest has that id.
pub open spec fn is_frozen(before: LsmStorageInner, full: MemTable, after: LsmStorageInner) -> bool {
    &&& after.same_setup(before)
    &&& after.next_sst_id == before.next_sst_id + 1
    &&& after.manifest.pending@ == before.manifest.pending@.push(
        ManifestRecord::NewMemtable(before.next_sst_id),
    )
    &&& after.state.imm_memtables@ == seq![full] + before.state.imm_memtables@
    &&& after.state.memtable.versions() == Map::<KeyTs, Seq<u8>>::empty()
    &&& after.state.memtable.spec_id() == before.next_sst_id
    &&& after.state.memtable.size() == 0
    &&& if before.options.enable_wal {
        after.state.memtable.log() matches Some(w) && w.pending() == Seq::<u8>::empty()
    } else {
        after.state.memtable.log() is None
    }
    &&& after.state.l0_sstables == before.state.l0_sstables
    &&& after.state.levels == before.state.levels
    &&& after.state.sstables == before.state.sstables
}

/// The records are in the memtable, which was frozen if that made it large enough.
pub open spec fn is_written(before: LsmStorageInner, after: LsmStorageInner, rs: Seq<Record>) -> bool {
    exists|full: MemTable| #[trigger]
        mem_table::were_put(before.state.memtable, full, rs) && if full.size()
            >= before.options.target_sst_size {
            is_frozen(before, full, after)
        } else {
            is_put(before, full, after)
        }
}

/// The memtable is another one, and nothing else has changed but the timestamp of the latest
/// commit.
pub open spec fn is_put(before: LsmStorageInner, full: MemTable, after: LsmStorageInner) -> bool {
    &&& after.same_setup(before)
    &&& after.next_sst_id == before.next_sst_id
    &&& after.manifest == before.manifest
    &&& after.state == LsmStorageState { memtable: full, ..before.state }
}

/// Stored lengths can hold the sizes of a record, in a log and in a table.
pub open spec fn fits(r: WriteBatchRecord<&[u8]>) -> bool {
    match r {
        WriteBatchRecord::Put(k, v) => k@.len() + 8 < 0x1_0000 && v@.len() < 0x1_0000,
        WriteBatchRecord::Del(k) => k@.len() + 8 < 0x1_0000,
    }
}

/// Tells whether stored lengths can hold the sizes of all records of a batch.
pub fn can_store(batch: &[WriteBatchRecord<&[u8]>]) -> (r: bool)
    ensures
        r <==> forall|i: int| 0 <= i < batch@.len() ==> #[trigger] fits(batch@[i]),
{
    let mut i: usize = 0;
    while i < batch.len()
        invariant
            i <= batch@.len(),
            forall|j: int| 0 <= j < i ==> #[trigger] fits(batch@[j]),
        decreases batch@.len() - i,
    {
        let ok: bool = match &batch[i] {
            WriteBatchRecord::Put(k, v) => k.len() < 0x1_0000 - 8 && v.len() < 0x1_0000,
            WriteBatchRecord::Del(k) => k.len() < 0x1_0000 - 8,
        };
        if !ok {
            assert(!fits(batch@[i as int]));
            return false;
        }
        i = i + 1;
    }
    true
}

/// A record can be stored if its user key has at most 65527 bytes and its value at most 65535.
pub proof fn lemma_fits(r: WriteBatchRecord<&[u8]>)
    ensures
        r matches WriteBatchRecord::Put(k, v) ==> (fits(r) <==> k@.len() <= 65527 && v@.len()
            <= 65535),
        r matches WriteBatchRecord::Del(k) ==> (fits(r) <==> k@.len() <= 65527),
{
}

/// Versions that can be stored stay so with a batch whose records can be: in a table if no key is
/// empty, and in a log.
pub proof fn lemma_batch_stored(m: Versions, batch: Seq<WriteBatchRecord<&[u8]>>, ts: u64)
    requires
        laws::map_storable(m),
        forall|i: int| 0 <= i < batch.len() ==> #[trigger] fits(batch[i]),
        forall|i: int|
            0 <= i < batch.len() ==> (#[trigger] record_of(batch[i], ts)).key.key.len() > 0,
    ensures
        laws::map_storable(mem_table::replay(m, records_of(batch, ts))),
        forall|i: int|
            0 <= i < batch.len() ==> wal::record_fits(
                wal::log_record(#[trigger] records_of(batch, ts)[i]),
            ),
    decreases batch.len(),
{
    let rs = records_of(batch, ts);
    assert forall|i: int| 0 <= i < batch.len() implies wal::record_fits(
        wal::log_record(#[trigger] rs[i]),
    ) by {
        assert(fits(batch[i]));
        wal::lemma_split_raw(rs[i].key);
    }
    if batch.len() > 0 {
        let t = batch.drop_last();
        assert forall|i: int| 0 <= i < t.len() implies #[trigger] fits(t[i]) by {
            assert(t[i] == batch[i]);
        }
        assert forall|i: int| 0 <= i < t.len() implies (#[trigger] record_of(
            t[i],
            ts,
        )).key.key.len() > 0 by {
            assert(record_of(t[i], ts) == record_of(batch[i], ts));
        }
        lemma_batch_stored(m, t, ts);
        assert(rs.drop_last() =~= records_of(t, ts));
        let last = batch[batch.len() - 1];
        assert(fits(last));
        assert(record_of(last, ts).key.key.len() > 0);
        assert(rs.last() == record_of(last, ts));
    }
}

/// Stored lengths can hold the sizes of what is in memtables, and no user key there is empty.
pub open spec fn mems_storable(s: LsmStorageState) -> bool {
    forall|i: int|
        0 <= i < s.memtables().len() ==> laws::map_storable((#[trigger] s.memtables()[i]).versions())
}

/// Freezing the memtable leaves what is in memtables storable.
pub proof fn lemma_freeze_storable(before: LsmStorageInner, full: MemTable, after: LsmStorageInner)
    requires
        is_frozen(before, full, after),
        mems_storable(before.state),
        laws::map_storable(full.versions()),
    ensures
        mems_storable(after.state),
{
    let a = before.state.memtables();
    let b = after.state.memtables();
    assert forall|i: int| 0 <= i < b.len() implies laws::map_storable(
        (#[trigger] b[i]).versions(),
    ) by {
        if i >= 2 {
            assert(b[i] == a[i - 1]);
        }
    }
}

/// A batch whose records can be stored leaves what is in memtables storable.
pub proof fn lemma_write_storable(
    before: LsmStorageInner,
    after: LsmStorageInner,
    batch: Seq<WriteBatchRecord<&[u8]>>,
    ts: u64,
)
    requires
        is_written(before, after, records_of(batch, ts)),
        mems_storable(before.state),
        forall|i: int| 0 <= i < batch.len() ==> #[trigger] fits(batch[i]),
        forall|i: int|
            0 <= i < batch.len() ==> (#[trigger] record_of(batch[i], ts)).key.key.len() > 0,
    ensures
        mems_storable(after.state),
{
    let rs = records_of(batch, ts);
    let a = before.state.memtables();
    let b = after.state.memtables();
    assert(laws::map_storable(a[0].versions()));
    lemma_batch_stored(before.state.memtable.versions(), batch, ts);
    let full = choose|full: MemTable| #[trigger]
        mem_table::were_put(before.state.memtable, full, rs) && if full.size()
            >= before.options.target_sst_size {
            is_frozen(before, full, after)
        } else {
            is_put(before, full, after)
        };
    if full.size() >= before.options.target_sst_size {
        lemma_freeze_storable(before, full, after);
    } else {
        assert forall|i: int| 0 <= i < b.len() implies laws::map_storable(
            (#[trigger] b[i]).versions(),
        ) by {
            if i > 0 {
                assert(b[i] == a[i]);
            }
        }
    }
}

/// Records put into one collection are in front of what another one holds.
proof fn lemma_replay_prefer(a: Versions, b: Versions, rs: Seq<Record>)
    ensures
        model::prefer(mem_table::replay(a, rs), b) == mem_table::replay(model::prefer(a, b), rs),
    decreases rs.len(),
{
    if rs.len() > 0 {
        lemma_replay_prefer(a, b, rs.drop_last());
        let r = rs.last();
        let x = mem_table::replay(a, rs.drop_last());
        assert(model::prefer(x.insert(r.key, r.value), b) =~= model::prefer(x, b).insert(
            r.key,
            r.value,
        ));
    }
}

/// Records that are put into the memtable are put into the state.
proof fn lemma_put_versions(before: LsmStorageState, full: MemTable, rs: Seq<Record>)
    requires
        full.versions() == mem_table::replay(before.memtable.versions(), rs),
    ensures
        (LsmStorageState { memtable: full, ..before }).versions() == mem_table::replay(
            before.versions(),
            rs,
        ),
{
    let after = LsmStorageState { memtable: full, ..before };
    let f = |m: MemTable| m.versions();
    let imm = before.imm_memtables@.map_values(f);
    let rest = model::merged(imm);
    assert(before.memtables().map_values(f) =~= seq![before.memtable.versions()] + imm);
    assert(after.memtables().map_values(f) =~= seq![full.versions()] + imm);
    lsm_storage::lemma_merged_cons(before.memtable.versions(), imm);
    lsm_storage::lemma_merged_cons(full.versions(), imm);
    lemma_replay_prefer(before.memtable.versions(), rest, rs);
    lemma_replay_prefer(before.mem_versions(), before.l0_versions(), rs);
    lemma_replay_prefer(
        model::prefer(before.mem_versions(), before.l0_versions()),
        before.level_versions(),
        rs,
    );
}

/// Freezing the memtable keeps all versions.
proof fn lemma_freeze_versions(before: LsmStorageState, after: LsmStorageState)
    requires
        after.imm_memtables@ == seq![before.memtable] + before.imm_memtables@,
        after.memtable.versions() == Map::<KeyTs, Seq<u8>>::empty(),
        after.l0_sstables == before.l0_sstables,
        after.levels == before.levels,
        after.sstables == before.sstables,
    ensures
        after.versions() == before.versions(),
{
    let f = |m: MemTable| m.versions();
    let none = Map::<KeyTs, Seq<u8>>::empty();
    let old_maps = before.memtables().map_values(f);
    assert(after.memtables().map_values(f) =~= seq![none] + old_maps);
    lsm_storage::lemma_merged_cons(none, old_maps);
    assert(model::prefer(none, before.mem_versions()) =~= before.mem_versions());
}

/// Freezing the memtable keeps the ids apart.
proof fn lemma_freeze_ids(before: LsmStorageInner, after: LsmStorageInner)
    requires
        is_frozen(before, before.state.memtable, after),
        before.ids_fresh(),
    ensures
        after.ids_fresh(),
{
    let a = before.state.memtables();
    let b = after.state.memtables();
    assert(b =~= seq![after.state.memtable] + a);
    assert forall|i: int| 0 <= i < b.len() implies (#[trigger] b[i]).spec_id() < after.next_sst_id
        && !after.state.sstables@.contains_key(b[i].spec_id()) by {
        if i > 0 {
            assert(b[i] == a[i - 1]);
        }
    }
    assert forall|i: int, j: int| 0 <= i < j < b.len() implies (#[trigger] b[i]).spec_id() != (
    #[trigger] b[j]).spec_id() by {
        assert(b[j] == a[j - 1]);
        if i > 0 {
            assert(b[i] == a[i - 1]);
        }
    }
}

/// A version that is written at a reader's timestamp is what the reader gets.
pub proof fn lemma_read_your_write(m: Versions, uk: Seq<u8>, ts: u64, value: Seq<u8>)
    ensures
        model::lookup(m.insert(KeyTs { key: uk, ts }, value), uk, ts) == if value.len() > 0 {
            Some(value)
        } else {
            None
        },
{
    let n = m.insert(KeyTs { key: uk, ts }, value);
    assert(model::is_newest(n, uk, ts, ts));
    model::lemma_lookup(n, uk, ts, ts);
}

/// What is written after a reader's timestamp, or to another user key, does not change what the
/// reader gets.
pub proof fn lemma_snapshot(m: Versions, k: KeyTs, value: Seq<u8>, uk: Seq<u8>, ts: u64)
    requires
        k.ts > ts || k.key != uk,
    ensures
        model::lookup(m.insert(k, value), uk, ts) == model::lookup(m, uk, ts),
{
    model::lemma_lookup_same(m.insert(k, value), m, uk, ts);
}

/// What the last of the records that have a user key says of it; nothing if none has it.
pub open spec fn last_write(rs: Seq<Record>, uk: Seq<u8>) -> Option<Seq<u8>>
    decreases rs.len(),
{
    if rs.len() == 0 {
        None
    } else if rs.last().key.key == uk {
        Some(rs.last().value)
    } else {
        last_write(rs.drop_last(), uk)
    }
}

/// After a batch a reader at its timestamp gets for each user key what the batch wrote last, and
/// what was there before for the user keys that are not in it.
pub proof fn lemma_batch_read(m: Versions, rs: Seq<Record>, uk: Seq<u8>, ts: u64)
    requires
        forall|i: int| 0 <= i < rs.len() ==> (#[trigger] rs[i]).key.ts == ts,
    ensures
        model::lookup(mem_table::replay(m, rs), uk, ts) == match last_write(rs, uk) {
            Some(v) => if v.len() > 0 {
                Some(v)
            } else {
                None
            },
            None => model::lookup(m, uk, ts),
        },
    decreases rs.len(),
{
    if rs.len() > 0 {
        let t = rs.drop_last();
        let r = rs.last();
        let n = mem_table::replay(m, t);
        assert(rs[rs.len() - 1].key.ts == ts);
        assert forall|i: int| 0 <= i < t.len() implies (#[trigger] t[i]).key.ts == ts by {
            assert(t[i] == rs[i]);
        }
        lemma_batch_read(m, t, uk, ts);
        if r.key.key == uk {
            assert(r.key == KeyTs { key: uk, ts });
            lemma_read_your_write(n, uk, ts, r.value);
        } else {
            lemma_snapshot(n, r.key, r.value, uk, ts);
        }
    }
}

/// A batch does not change what readers at earlier timestamps get.
pub proof fn lemma_batch_snapshot(m: Versions, rs: Seq<Record>, uk: Seq<u8>, ts: u64)
    requires
        forall|i: int| 0 <= i < rs.len() ==> (#[trigger] rs[i]).key.ts > ts,
    ensures
        model::lookup(mem_table::replay(m, rs), uk, ts) == model::lookup(m, uk, ts),
    decreases rs.len(),
{
    if rs.len() > 0 {
        let t = rs.drop_last();
        assert(rs[rs.len() - 1].key.ts > ts);
        assert forall|i: int| 0 <= i < t.len() implies (#[trigger] t[i]).key.ts > ts by {
            assert(t[i] == rs[i]);
        }
        lemma_batch_snapshot(m, t, uk, ts);
        lemma_snapshot(mem_table::replay(m, t), rs.last().key, rs.last().value, uk, ts);
    }
}

/// After a batch no version is newer than the latest commit, if none was before.
pub proof fn lemma_batch_bounded(m: Versions, rs: Seq<Record>, latest: u64)
    requires
        latest < u64::MAX,
        forall|k: KeyTs| #[trigger] m.contains_key(k) ==> k.ts <= latest,
        forall|i: int| 0 <= i < rs.len() ==> (#[trigger] rs[i]).key.ts == latest + 1,
    ensures
        forall|k: KeyTs| #[trigger]
            mem_table::replay(m, rs).contains_key(k) ==> k.ts <= latest + 1,
    decreases rs.len(),
{
    if rs.len() > 0 {
        let t = rs.drop_last();
        assert(rs[rs.len() - 1].key.ts == latest + 1);
        assert forall|i: int| 0 <= i < t.len() implies (#[trigger] t[i]).key.ts == latest + 1 by {
            assert(t[i] == rs[i]);
        }
        lemma_batch_bounded(m, t, latest);
        assert forall|k: KeyTs| #[trigger] mem_table::replay(m, rs).contains_key(k) implies k.ts
            <= latest + 1 by {
            if k != rs.last().key {
                assert(mem_table::replay(m, t).contains_key(k));
            }
        }
    } else {
        assert(mem_table::replay(m, rs) == m);
    }
}

/// Where no version is newer than the latest commit, a later reader gets the same.
pub proof fn lemma_lookup_later(m: Versions, uk: Seq<u8>, latest: u64, ts: u64)
    requires
        forall|k: KeyTs| #[trigger] m.contains_key(k) ==> k.ts <= latest,
        latest <= ts,
    ensures
        model::lookup(m, uk, ts) == model::lookup(m, uk, latest),
{
    assert forall|t: u64| model::is_newest(m, uk, ts, t) <==> model::is_newest(m, uk, latest, t) by {
        if model::is_newest(m, uk, ts, t) {
            assert(m.contains_key(KeyTs { key: uk, ts: t }));
        }
        if model::is_newest(m, uk, latest, t) {
            assert forall|u: u64|
                u <= ts && #[trigger] m.contains_key(KeyTs { key: uk, ts: u }) implies u <= t by {}
        }
    }
    if exists|t: u64| model::is_newest(m, uk, ts, t) {
        let t = choose|t: u64| model::is_newest(m, uk, ts, t);
        model::lemma_lookup(m, uk, ts, t);
        model::lemma_lookup(m, uk, latest, t);
    }
}

/// What a reader gets of a user key after some writes: what the last of them that has it says, or
/// what was there before.
pub open spec fn read_after(
    before: LsmStorageInner,
    rs: Seq<Record>,
    uk: Seq<u8>,
) -> Option<Seq<u8>> {
    match last_write(rs, uk) {
        Some(v) if uk.len() > 0 => if v.len() > 0 {
            Some(v)
        } else {
            None
        },
        _ => before.reads(uk),
    }
}

/// The user key of a record.
pub open spec fn key_of(r: WriteBatchRecord<&[u8]>) -> Seq<u8> {
    match r {
        WriteBatchRecord::Put(k, v) => k@,
        WriteBatchRecord::Del(k) => k@,
    }
}

/// What is read after a batch: of a user key that is in it the value of the last record that has it,
/// nothing if that is a deletion or has no value, and of all others what was read before.
pub proof fn lemma_last_record_decides(
    before: LsmStorageInner,
    batch: Seq<WriteBatchRecord<&[u8]>>,
    ts: u64,
    j: int,
    uk: Seq<u8>,
)
    requires
        0 <= j,
    ensures
        j < batch.len() && key_of(batch[j]) == uk && uk.len() > 0 && (forall|l: int|
            j < l < batch.len() ==> key_of(#[trigger] batch[l]) != uk) ==> read_after(
            before,
            records_of(batch, ts),
            uk,
        ) == match batch[j] {
            WriteBatchRecord::Put(k, v) if v@.len() > 0 => Some(v@),
            _ => None::<Seq<u8>>,
        },
        (forall|l: int| 0 <= l < batch.len() ==> key_of(#[trigger] batch[l]) != uk) ==> read_after(
            before,
            records_of(batch, ts),
            uk,
        ) == before.reads(uk),
    decreases batch.len(),
{
    let rs = records_of(batch, ts);
    if batch.len() > 0 {
        let t = batch.drop_last();
        let x = batch[batch.len() - 1];
        assert(rs.drop_last() =~= records_of(t, ts));
        assert(rs.last() == record_of(x, ts));
        assert(rs.last().key.key == key_of(x));
        lemma_last_record_decides(before, t, ts, j, uk);
        assert forall|l: int| 0 <= l < t.len() implies key_of(#[trigger] t[l]) == key_of(
            batch[l],
        ) by {}
        if j < t.len() {
            assert(t[j] == batch[j]);
        }
    }
}

/// The memtable is frozen by a write if and only if that brings its size to the target.
pub proof fn lemma_frozen_when_full(before: LsmStorageInner, after: LsmStorageInner, rs: Seq<Record>)
    requires
        is_written(before, after, rs),
        before.state.memtable.size() + mem_table::records_size(rs) <= usize::MAX,
    ensures
        before.state.memtable.size() + mem_table::records_size(rs)
            >= before.options.target_sst_size ==> {
            &&& after.state.imm_memtables@.len() == before.state.imm_memtables@.len() + 1
            &&& after.state.imm_memtables@.skip(1) == before.state.imm_memtables@
            &&& after.state.imm_memtables@[0].versions() == mem_table::replay(
                before.state.memtable.versions(),
                rs,
            )
            &&& after.state.imm_memtables@[0].spec_id() == before.state.memtable.spec_id()
            &&& after.state.memtable.versions() == Map::<KeyTs, Seq<u8>>::empty()
            &&& after.state.memtable.size() == 0
            &&& after.state.memtable.spec_id() == before.next_sst_id
            &&& after.state.memtable.log() is Some <==> before.options.enable_wal
            &&& after.next_sst_id == before.next_sst_id + 1
        },
        before.state.memtable.size() + mem_table::records_size(rs)
            < before.options.target_sst_size ==> {
            &&& after.state.imm_memtables@ == before.state.imm_memtables@
            &&& after.state.memtable.versions() == mem_table::replay(
                before.state.memtable.versions(),
                rs,
            )
            &&& after.state.memtable.spec_id() == before.state.memtable.spec_id()
            &&& after.state.memtable.size() == before.state.memtable.size()
                + mem_table::records_size(rs)
            &&& after.next_sst_id == before.next_sst_id
        },
{
    let full = choose|full: MemTable| #[trigger]
        mem_table::were_put(before.state.memtable, full, rs) && if full.size()
            >= before.options.target_sst_size {
            is_frozen(before, full, after)
        } else {
            is_put(before, full, after)
        };
    let total = (before.state.memtable.size() + mem_table::records_size(rs)) as nat;
    vstd::arithmetic::div_mod::lemma_small_mod(total, (usize::MAX + 1) as nat);
    if total >= before.options.target_sst_size {
        assert(after.state.imm_memtables@.skip(1) =~= before.state.imm_memtables@);
    }
}

/// After writes at the next timestamp a reader gets what they say of the user keys that they have
/// and what was there of all others. Readers at earlier timestamps get what they got.
pub proof fn lemma_write_read(before: LsmStorageInner, after: LsmStorageInner, rs: Seq<Record>)
    requires
        before.mvcc.latest() < u64::MAX,
        after.mvcc.latest() == before.mvcc.latest() + 1,
        forall|i: int| 0 <= i < rs.len() ==> (#[trigger] rs[i]).key.ts == after.mvcc.latest(),
        after.state.versions() == mem_table::replay(before.state.versions(), rs),
    ensures
        forall|uk: Seq<u8>, ts: u64|
            ts <= before.mvcc.latest() ==> #[trigger] after.reads_at(uk, ts) == before.reads_at(
                uk,
                ts,
            ),
        before.bounded() ==> after.bounded() && forall|uk: Seq<u8>| #[trigger]
            after.reads(uk) == read_after(before, rs, uk),
{
    let m = before.state.versions();
    let latest = before.mvcc.latest();
    assert forall|uk: Seq<u8>, ts: u64| ts <= latest implies #[trigger] after.reads_at(uk, ts)
        == before.reads_at(uk, ts) by {
        lemma_batch_snapshot(m, rs, uk, ts);
    }
    if before.bounded() {
        lemma_batch_bounded(m, rs, latest);
        assert forall|uk: Seq<u8>| #[trigger] after.reads(uk) == read_after(before, rs, uk) by {
            lemma_batch_read(m, rs, uk, after.mvcc.latest());
            lemma_lookup_later(m, uk, latest, after.mvcc.latest());
        }
    }
}

/// Writes at a timestamp after all others leave newer versions before older ones.
proof fn lemma_write_layered(before: LsmStorageState, full: MemTable, rs: Seq<Record>, ts: u64)
    requires
        model::layered(before.layers()),
        full.versions() == mem_table::replay(before.memtable.versions(), rs),
        forall|i: int| 0 <= i < rs.len() ==> (#[trigger] rs[i]).key.ts == ts,
        forall|k: KeyTs| #[trigger] before.versions().contains_key(k) ==> k.ts <= ts,
    ensures
        model::layered((LsmStorageState { memtable: full, ..before }).layers()),
{
    let after = LsmStorageState { memtable: full, ..before };
    let a = before.layers();
    let b = after.layers();
    let m = before.memtable.versions();
    let rest = model::merged(a.skip(1));
    assert(a[0] == m && b[0] == full.versions());
    assert(b.skip(1) =~= a.skip(1));
    crate::compact::laws::lemma_versions(before);
    assert forall|k: KeyTs, q: KeyTs|
        #![trigger full.versions().contains_key(k), rest.contains_key(q)]
        full.versions().contains_key(k) && rest.contains_key(q) && k.key == q.key implies k.ts
        >= q.ts by {
        lemma_replay_keys(m, rs, k, ts);
        assert(before.versions().contains_key(q));
        if k.ts != ts {
            assert(m.contains_key(k));
        }
    }
}

proof fn lemma_replay_keys(m: Versions, rs: Seq<Record>, k: KeyTs, ts: u64)
    requires
        mem_table::replay(m, rs).contains_key(k),
        forall|i: int| 0 <= i < rs.len() ==> (#[trigger] rs[i]).key.ts == ts,
    ensures
        m.contains_key(k) || k.ts == ts,
    decreases rs.len(),
{
    if rs.len() > 0 {
        let t = rs.drop_last();
        assert(rs[rs.len() - 1].key.ts == ts);
        assert forall|i: int| 0 <= i < t.len() implies (#[trigger] t[i]).key.ts == ts by {
            assert(t[i] == rs[i]);
        }
        if k != rs.last().key {
            lemma_replay_keys(m, t, k, ts);
        }
    }
}

/// Freezing the memtable leaves an engine settled.
proof fn lemma_freeze_settled(before: LsmStorageInner, after: LsmStorageInner)
    requires
        is_frozen(before, before.state.memtable, after),
        after.mvcc == before.mvcc,
        after.state.versions() == before.state.versions(),
        before.settled(),
    ensures
        after.settled(),
{
    reveal(LsmStorageInner::settled);
    let a = before.state.layers();
    let b = after.state.layers();
    let none = Map::<KeyTs, Seq<u8>>::empty();
    assert(b =~= seq![none] + a);
    assert(b.skip(1) =~= a);
}

impl LsmStorageInner {
    /// Write a batch of data into the storage.
    pub fn write_batch(&mut self, batch: &[WriteBatchRecord<&[u8]>]) -> (r: Result<(), LsmError>)
        requires
            old(self).mvcc.latest() < u64::MAX,
            old(self).next_sst_id < usize::MAX,
        ensures
            r is Ok,
            final(self).mvcc.latest() == old(self).mvcc.latest() + 1,
            is_written(
                *old(self),
                *final(self),
                records_of(batch@, final(self).mvcc.latest()),
            ),
            final(self).state.versions() == mem_table::replay(
                old(self).state.versions(),
                records_of(batch@, final(self).mvcc.latest()),
            ),
            old(self).state.wf() ==> final(self).state.wf(),
            old(self).ids_fresh() ==> final(self).ids_fresh(),
            old(self).settled() ==> final(self).settled(),
            forall|uk: Seq<u8>, ts: u64|
                ts <= old(self).mvcc.latest() ==> #[trigger] final(self).reads_at(uk, ts) == old(self).reads_at(uk, ts),
            old(self).bounded() ==> final(self).bounded() && forall|uk: Seq<u8>| #[trigger]
                final(self).reads(uk) == read_after(
                    *old(self),
                    records_of(batch@, final(self).mvcc.latest()),
                    uk,
                ),
    {
        let ts: u64 = self.mvcc().latest_commit_ts() + 1;
        let ghost rs = records_of(batch@, ts);
        let mut data: Vec<(KeySlice<'_>, &[u8])> = Vec::new();
        let mut i: usize = 0;
        while i < batch.len()
            invariant
                i <= batch@.len(),
                data@.len() == i,
                forall|j: int|
                    0 <= j < i ==> (#[trigger] data@[j]).0@ == record_of(batch@[j], ts).key
                        && data@[j].1@ == record_of(batch@[j], ts).value,
            decreases batch@.len() - i,
        {
            match &batch[i] {
                WriteBatchRecord::Put(k, v) => {
                    data.push((KeySlice::from_slice(*k, ts), *v));
                },
                WriteBatchRecord::Del(k) => {
                    data.push((KeySlice::from_slice(*k, ts), &[]));
                    assert(data@[i as int].1@ =~= Seq::<u8>::empty());
                },
            }
            i = i + 1;
        }
        assert(mem_table::batch_records(data@) =~= rs);
        match self.state.memtable.put_batch(data.as_slice()) {
            Err(e) => {
                return Err(e);
            },
            Ok(()) => {},
        }
        proof {
            lemma_put_versions(old(self).state, self.state.memtable, rs);
            if old(self).ids_fresh() {
                let a = old(self).state.memtables();
                let b = self.state.memtables();
                assert forall|i: int| 0 <= i < b.len() implies (#[trigger] b[i]).spec_id()
                    == a[i].spec_id() by {}
                assert(self.ids_fresh());
            }
            if old(self).settled() {
                reveal(LsmStorageInner::settled);
                lemma_write_layered(old(self).state, self.state.memtable, rs, ts);
            }
        }
        let ghost full = self.state.memtable;
        match self.try_freeze() {
            Err(e) => {
                return Err(e);
            },
            Ok(()) => {},
        }
        self.mvcc.update_commit_ts(ts);
        proof {
            assert(mem_table::were_put(old(self).state.memtable, full, rs));
            lemma_write_read(*old(self), *self, rs);
            if old(self).settled() {
                reveal(LsmStorageInner::settled);
            }
        }
        Ok(())
    }

    /// Freezes the memtable if it has grown large.
    pub fn try_freeze(&mut self) -> (r: Result<(), LsmError>)
        requires
            old(self).next_sst_id < usize::MAX,
        ensures
            r is Ok,
            final(self).mvcc == old(self).mvcc,
            if old(self).state.memtable.size() >= old(self).options.target_sst_size {
                is_frozen(*old(self), old(self).state.memtable, *final(self))
            } else {
                *final(self) == *old(self)
            },
            final(self).state.versions() == old(self).state.versions(),
            old(self).state.wf() ==> final(self).state.wf(),
            old(self).ids_fresh() ==> final(self).ids_fresh(),
            old(self).settled() ==> final(self).settled(),
            model::layered(old(self).state.layers()) ==> model::layered(final(self).state.layers()),
    {
        let approx_size: usize = self.state.memtable.approximate_size();
        if approx_size >= self.options.target_sst_size {
            return self.force_freeze_memtable();
        }
        Ok(())
    }

    /// Put a key-value pair into the storage by writing into the current memtable.
    pub fn put(&mut self, key: &[u8], value: &[u8]) -> (r: Result<(), LsmError>)
        requires
            old(self).mvcc.latest() < u64::MAX,
            old(self).next_sst_id < usize::MAX,
        ensures
            r is Ok,
            final(self).mvcc.latest() == old(self).mvcc.latest() + 1,
            is_written(
                *old(self),
                *final(self),
                seq![Record { key: KeyTs { key: key@, ts: final(self).mvcc.latest() }, value: value@ }],
            ),
            final(self).state.versions() == old(self).state.versions().insert(
                KeyTs { key: key@, ts: final(self).mvcc.latest() },
                value@,
            ),
            old(self).state.wf() ==> final(self).state.wf(),
            old(self).ids_fresh() ==> final(self).ids_fresh(),
            old(self).settled() ==> final(self).settled(),
            forall|uk: Seq<u8>, ts: u64|
                ts <= old(self).mvcc.latest() ==> #[trigger] final(self).reads_at(uk, ts) == old(self).reads_at(uk, ts),
            old(self).bounded() ==> final(self).bounded() && forall|uk: Seq<u8>| #[trigger]
                final(self).reads(uk) == if uk == key@ && uk.len() > 0 {
                    if value@.len() > 0 {
                        Some(value@)
                    } else {
                        None
                    }
                } else {
                    old(self).reads(uk)
                },
    {
        let batch: [WriteBatchRecord<&[u8]>; 1] = [WriteBatchRecord::Put(key, value)];
        let r = self.write_batch(&batch);
        proof {
            let ts = self.mvcc.latest();
            let one = Record { key: KeyTs { key: key@, ts }, value: value@ };
            assert(records_of(batch@, ts) =~= seq![one]);
            lemma_replay_one(old(self).state.versions(), one);
            assert forall|uk: Seq<u8>| #[trigger] last_write(seq![one], uk) == if uk == key@ {
                Some(one.value)
            } else {
                None
            } by {
                assert(seq![one].drop_last() =~= Seq::empty());
                assert(last_write(seq![one].drop_last(), uk) is None);
            }
        }
        r
    }

    /// Remove a key from the storage by writing an empty value.
    pub fn delete(&mut self, key: &[u8]) -> (r: Result<(), LsmError>)
        requires
            old(self).mvcc.latest() < u64::MAX,
            old(self).next_sst_id < usize::MAX,
        ensures
            r is Ok,
            final(self).mvcc.latest() == old(self).mvcc.latest() + 1,
            is_written(
                *old(self),
                *final(self),
                seq![
                    Record {
                        key: KeyTs { key: key@, ts: final(self).mvcc.latest() },
                        value: Seq::empty(),
                    },
                ],
            ),
            final(self).state.versions() == old(self).state.versions().insert(
                KeyTs { key: key@, ts: final(self).mvcc.latest() },
                Seq::empty(),
            ),
            old(self).state.wf() ==> final(self).state.wf(),
            old(self).ids_fresh() ==> final(self).ids_fresh(),
            old(self).settled() ==> final(self).settled(),
            forall|uk: Seq<u8>, ts: u64|
                ts <= old(self).mvcc.latest() ==> #[trigger] final(self).reads_at(uk, ts) == old(self).reads_at(uk, ts),
            old(self).bounded() ==> final(self).bounded() && forall|uk: Seq<u8>| #[trigger]
                final(self).reads(uk) == if uk == key@ {
                    None
                } else {
                    old(self).reads(uk)
                },
    {
        let batch: [WriteBatchRecord<&[u8]>; 1] = [WriteBatchRecord::Del(key)];
        let r = self.write_batch(&batch);
        proof {
            let ts = self.mvcc.latest();
            let one = Record { key: KeyTs { key: key@, ts }, value: Seq::empty() };
            assert(records_of(batch@, ts) =~= seq![one]);
            lemma_replay_one(old(self).state.versions(), one);
            assert forall|uk: Seq<u8>| #[trigger] last_write(seq![one], uk) == if uk == key@ {
                Some(one.value)
            } else {
                None
            } by {
                assert(seq![one].drop_last() =~= Seq::empty());
                assert(last_write(seq![one].drop_last(), uk) is None);
            }
        }
        r
    }

    /// Force freeze the current memtable to an immutable memtable
    pub fn force_freeze_memtable(&mut self) -> (r: Result<(), LsmError>)
        requires
            old(self).next_sst_id < usize::MAX,
        ensures
            r is Ok,
            final(self).mvcc == old(self).mvcc,
            is_frozen(*old(self), old(self).state.memtable, *final(self)),
            final(self).state.versions() == old(self).state.versions(),
            old(self).state.wf() ==> final(self).state.wf(),
            old(self).ids_fresh() ==> final(self).ids_fresh(),
            old(self).settled() ==> final(self).settled(),
            model::layered(old(self).state.layers()) ==> model::layered(final(self).state.layers()),
    {
        let memtable_id: usize = self.next_sst_id();
        let mut memtable = if self.options.enable_wal {
            MemTable::create_with_wal(memtable_id)
        } else {
            MemTable::create(memtable_id)
        };
        core::mem::swap(&mut self.state.memtable, &mut memtable);
        self.state.imm_memtables.insert(0, memtable);
        self.manifest.add_record(ManifestRecord::NewMemtable(memtable_id));
        proof {
            assert(self.state.imm_memtables@ =~= seq![old(self).state.memtable] + old(self).state.imm_memtables@);
            lemma_freeze_versions(old(self).state, self.state);
            if old(self).ids_fresh() {
                lemma_freeze_ids(*old(self), *self);
            }
            if old(self).settled() {
                lemma_freeze_settled(*old(self), *self);
            }
            let a = old(self).state.layers();
            let b = self.state.layers();
            assert(b =~= seq![Map::<KeyTs, Seq<u8>>::empty()] + a);
            assert(b.skip(1) =~= a);
        }
        Ok(())
    }
}

proof fn lemma_replay_one(m: Versions, r: Record)
    ensures
        mem_table::replay(m, seq![r]) == m.insert(r.key, r.value),
{
    assert(seq![r].drop_last() =~= Seq::empty());
    assert(mem_table::replay(m, seq![r].drop_last()) == m);
}

} // verus!
