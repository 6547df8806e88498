//! Flushes: the earliest immutable memtable becomes a table.
use vstd::prelude::*;
use crate::deps;
use crate::error::LsmError;
use crate::key::KeyTs;
use crate::lsm_storage;
use crate::lsm_storage::{LsmStorageInner, LsmStorageState};
use crate::manifest::ManifestRecord;
use crate::mem_table;
use crate::mem_table::MemTable;
use crate::model;
use crate::model::{Entry, Versions};
use crate::table::bloom;
use crate::table::builder;
use crate::table::builder::TableDraft;
use crate::table::laws;
use crate::table::layout;
use crate::table::layout::Layout;
use crate::table::{SsTable, SsTableBuilder};

verus! {

/// A table was built from a draft.
pub open spec fn is_built(t: SsTable, d: TableDraft, id: usize) -> bool {
    let f = d.finished();
    &&& t.id() == id
    &&& t.filter() matches Some(b) && builder::is_table_filter(b, f.key_hashes) && t.content()
        == layout::file_bytes(f.data, f.meta, deps::bytes_seq(b.filter), b.k)
    &&& t.layout() == (Layout { data: t.content(), meta: f.meta, end: f.data.len() as int })
    &&& t.first() == f.first_key
    &&& t.last() == f.last_key
    &&& t.newest() == 0
    &&& d.sound() ==> t.wf() && t.entries() == d.entries()
}

/// The filter of a table lets every key pass that was added to the table.
pub proof fn lemma_added_keys_pass(block_size: usize, s: Seq<Entry>, t: SsTable, id: usize)
    requires
        is_built(t, mem_table::added_all(TableDraft::empty(block_size), s), id),
    ensures
        t.filter() matches Some(b) && forall|i: int|
            0 <= i < s.len() ==> b.lets_pass((#[trigger] s[i]).key.key),
{
    let d = mem_table::added_all(TableDraft::empty(block_size), s);
    let b = t.filter()->0;
    lemma_added_hashes(TableDraft::empty(block_size), s);
    assert(d.finished().key_hashes == d.key_hashes);
    assert forall|i: int| 0 <= i < s.len() implies b.lets_pass((#[trigger] s[i]).key.key) by {
        let h = deps::fingerprint32_of(s[i].key.key);
        if deps::hashable(s[i].key.key) {
            bloom::lemma_no_false_negatives(
                deps::bytes_seq(b.filter),
                b.k as int,
                d.key_hashes,
                h,
            );
        }
    }
}

/// The draft of a table has the hashes of all keys that were added.
proof fn lemma_added_hashes(d: TableDraft, s: Seq<Entry>)
    ensures
        builder::hashes_cover(mem_table::added_all(d, s).key_hashes, s),
    decreases s.len(),
{
    if s.len() > 0 {
        let t = s.drop_last();
        let before = mem_table::added_all(d, t).key_hashes;
        let after = mem_table::added_all(d, s).key_hashes;
        lemma_added_hashes(d, t);
        reveal(TableDraft::added);
        assert forall|i: int| 0 <= i < s.len() && deps::hashable(
            (#[trigger] s[i]).key.key,
        ) implies after.contains(deps::fingerprint32_of(s[i].key.key)) by {
            let h = deps::fingerprint32_of(s[i].key.key);
            if i < t.len() {
                assert(t[i] == s[i]);
                let j = before.index_of(h);
                assert(after[j] == h);
            } else {
                assert(after[before.len() as int] == h);
            }
        }
    }
}

/// The draft of the table to which a memtable is flushed.
pub open spec fn flush_draft(m: Versions, block_size: usize) -> TableDraft {
    mem_table::added_all(
        TableDraft::empty(block_size),
        mem_table::shown(model::sorted_entries(m)),
    )
}

/// Stored lengths can hold the sizes of all versions, and no user key is empty.
pub open spec fn flushable(m: Versions, block_size: usize) -> bool {
    &&& block_size <= 0x1_0000
    &&& forall|k: KeyTs| #[trigger] m.contains_key(k) ==> crate::block::storable(k, m[k])
}

/// The earliest immutable memtable is gone, and a table stands in L0 or, where memtables are
/// flushed to tiers, as a tier of its own. The manifest has the table's id.
pub open spec fn is_flushed(before: LsmStorageInner, after: LsmStorageInner, t: SsTable) -> bool {
    &&& after.same_setup(before)
    &&& after.mvcc == before.mvcc
    &&& after.next_sst_id == before.next_sst_id
    &&& after.manifest.pending@ == before.manifest.pending@.push(ManifestRecord::Flush(t.id()))
    &&& after.state.memtable == before.state.memtable
    &&& after.state.imm_memtables@ == before.state.imm_memtables@.drop_last()
    &&& after.state.sstables@ == before.state.sstables@.insert(t.id(), t)
    &&& if before.compaction_controller.to_l0() {
        &&& after.state.l0_sstables@ == seq![t.id()] + before.state.l0_sstables@
        &&& after.state.levels == before.state.levels
    } else {
        &&& after.state.l0_sstables == before.state.l0_sstables
        &&& lsm_storage::level_ids(after.state.levels@) == seq![(t.id(), seq![t.id()])]
            + lsm_storage::level_ids(before.state.levels@)
    }
}

impl LsmStorageInner {
    /// The table to which the earliest immutable memtable is flushed.
    pub fn build_next_imm_memtable(&self) -> (r: Result<Option<SsTable>, LsmError>)
        ensures
            r matches Ok(None) ==> self.state.imm_memtables@.len() == 0,
            r matches Ok(Some(t)) ==> {
                let m = self.state.imm_memtables@.last();
                &&& self.state.imm_memtables@.len() > 0
                &&& is_built(
                    t,
                    flush_draft(m.versions(), self.options.block_size),
                    m.spec_id(),
                )
                &&& flushable(m.versions(), self.options.block_size) ==> t.wf() && model::entry_map(
                    t.entries(),
                ) == m.versions()
            },
            r matches Err(e) ==> {
                let m = self.state.imm_memtables@.last();
                &&& self.state.imm_memtables@.len() > 0
                &&& e == LsmError::TooManyKeys
                &&& flush_draft(m.versions(), self.options.block_size).key_hashes.len() * 10 + 7
                    > usize::MAX
            },
    {
        let n: usize = self.state.imm_memtables.len();
        if n == 0 {
            return Ok(None);
        }
        let memtable = &self.state.imm_memtables[n - 1];
        let mut ss_table_builder = SsTableBuilder::new(self.options.block_size);
        match memtable.flush(&mut ss_table_builder) {
            Err(e) => {
                return Err(e);
            },
            Ok(()) => {},
        }
        let ghost d = ss_table_builder@;
        proof {
            let m = memtable.versions();
            if flushable(m, self.options.block_size) {
                lemma_flushable(m, self.options.block_size);
            }
        }
        match ss_table_builder.build(memtable.id()) {
            Err(e) => Err(e),
            Ok(t) => Ok(Some(t)),
        }
    }

    /// Puts a table in the place of the earliest immutable memtable.
    pub fn install_flushed(&mut self, ss_table: SsTable)
        requires
            old(self).state.imm_memtables@.len() > 0,
            old(self).state.imm_memtables@.last().spec_id() == ss_table.id(),
        ensures
            is_flushed(*old(self), *final(self), ss_table),
            keeps_state(*old(self), *final(self), ss_table),
    {
        broadcast use vstd::std_specs::hash::group_hash_axioms;

        let sst_id: usize = ss_table.sst_id();
        let _ = self.state.imm_memtables.pop();
        if self.compaction_controller.flush_to_l0() {
            self.state.l0_sstables.insert(0, sst_id);
        } else {
            let mut ids: Vec<usize> = Vec::new();
            ids.push(sst_id);
            self.state.levels.insert(0, (sst_id, ids));
            assert(ids@ =~= seq![sst_id]);
        }
        self.state.sstables.insert(sst_id, ss_table);
        self.manifest.add_record(ManifestRecord::Flush(sst_id));
        proof {
            if self.compaction_controller.to_l0() {
                assert(self.state.l0_sstables@ =~= seq![sst_id] + old(self).state.l0_sstables@);
            } else {
                assert(lsm_storage::level_ids(self.state.levels@) =~= seq![(sst_id, seq![sst_id])]
                    + lsm_storage::level_ids(old(self).state.levels@));
            }
            lemma_keeps_state(*old(self), *self, ss_table);
        }
    }

    /// Force flush the earliest-created immutable memtable to a table
    pub fn force_flush_next_imm_memtable(&mut self) -> (r: Result<(), LsmError>)
        ensures
            r is Err ==> *final(self) == *old(self),
            r is Ok && old(self).state.imm_memtables@.len() == 0 ==> *final(self) == *old(self),
            r is Ok && old(self).state.imm_memtables@.len() > 0 ==> exists|t: SsTable| #[trigger]
                is_flush(*old(self), *final(self), t),
            r is Ok && old(self).state.imm_memtables@.len() > 0 && old(self).intact() && is_safe(
                *old(self),
            ) ==> final(self).intact() && final(self).state.versions() == old(self).state.versions(),
            r matches Err(e) ==> {
                let m = old(self).state.imm_memtables@.last();
                &&& old(self).state.imm_memtables@.len() > 0
                &&& e == LsmError::TooManyKeys
                &&& flush_draft(m.versions(), old(self).options.block_size).key_hashes.len() * 10
                    + 7 > usize::MAX
            },
    {
        match self.build_next_imm_memtable() {
            Err(e) => Err(e),
            Ok(None) => Ok(()),
            Ok(Some(t)) => {
                self.install_flushed(t);
                assert(is_flush(*old(self), *self, t));
                proof {
                    if old(self).intact() && is_safe(*old(self)) {
                        lemma_flush_intact(*old(self), *self, t);
                    }
                }
                Ok(())
            },
        }
    }

    /// Freezes the memtable unless it is empty.
    pub fn freeze_nonempty(&mut self) -> (r: Result<(), LsmError>)
        requires
            old(self).next_sst_id < usize::MAX,
        ensures
            r is Ok,
            if old(self).state.memtable.versions() == Map::<KeyTs, Seq<u8>>::empty() {
                *final(self) == *old(self)
            } else {
                &&& final(self).mvcc == old(self).mvcc
                &&& lsm_storage::write::is_frozen(
                    *old(self),
                    old(self).state.memtable,
                    *final(self),
                )
            },
            final(self).state.versions() == old(self).state.versions(),
            old(self).state.wf() ==> final(self).state.wf(),
            old(self).ids_fresh() ==> final(self).ids_fresh(),
            old(self).settled() ==> final(self).settled(),
    {
        if !self.state.memtable.is_empty() {
            return self.force_freeze_memtable();
        }
        Ok(())
    }

    /// Freezes the memtable unless it is empty, and flushes the earliest immutable memtable.
    pub fn force_flush(&mut self) -> (r: Result<(), LsmError>)
        requires
            old(self).next_sst_id < usize::MAX,
        ensures
            exists|mid: LsmStorageInner| #[trigger] is_force_flush(*old(self), mid, *final(self), r),
    {
        match self.freeze_nonempty() {
            Err(e) => {
                return Err(e);
            },
            Ok(()) => {},
        }
        let ghost mid = *self;
        let r = self.force_flush_next_imm_memtable();
        assert(is_force_flush(*old(self), mid, *self, r));
        r
    }

    /// Tells whether there are more memtables than the limit.
    pub fn flush_due(&self) -> (r: bool)
        ensures
            r == (1 + self.state.imm_memtables@.len() > self.options.num_memtable_limit),
    {
        self.state.imm_memtables.len() >= self.options.num_memtable_limit
    }

    /// Flushes the earliest immutable memtable if there are more memtables than the limit.
    pub fn trigger_flush(&mut self) -> (r: Result<(), LsmError>)
        ensures
            1 + old(self).state.imm_memtables@.len() <= old(self).options.num_memtable_limit ==> r
                is Ok && *final(self) == *old(self),
            r is Err ==> *final(self) == *old(self),
            1 + old(self).state.imm_memtables@.len() > old(self).options.num_memtable_limit && r
                is Ok && old(self).state.imm_memtables@.len() > 0 ==> exists|t: SsTable| #[trigger]
                is_flush(*old(self), *final(self), t),
            r is Ok && old(self).intact() && (old(self).state.imm_memtables@.len() > 0 ==> is_safe(
                *old(self),
            )) ==> final(self).intact() && final(self).state.versions() == old(self).state.versions(),
            r is Ok && old(self).state.imm_memtables@.len() == 0 ==> *final(self) == *old(self),
            r matches Err(e) ==> {
                let m = old(self).state.imm_memtables@.last();
                &&& old(self).state.imm_memtables@.len() > 0
                &&& e == LsmError::TooManyKeys
                &&& flush_draft(m.versions(), old(self).options.block_size).key_hashes.len() * 10
                    + 7 > usize::MAX
            },
    {
        if self.flush_due() {
            return self.force_flush_next_imm_memtable();
        }
        Ok(())
    }
}

/// The memtable was frozen unless it was empty, and then the earliest immutable memtable flushed.
pub open spec fn is_force_flush(
    before: LsmStorageInner,
    mid: LsmStorageInner,
    after: LsmStorageInner,
    r: Result<(), LsmError>,
) -> bool {
    &&& if before.state.memtable.versions() == Map::<KeyTs, Seq<u8>>::empty() {
        mid == before
    } else {
        &&& mid.mvcc == before.mvcc
        &&& lsm_storage::write::is_frozen(before, before.state.memtable, mid)
    }
    &&& mid.state.versions() == before.state.versions()
    &&& before.state.wf() ==> mid.state.wf()
    &&& before.ids_fresh() ==> mid.ids_fresh()
    &&& before.settled() ==> mid.settled()
    &&& r is Err || mid.state.imm_memtables@.len() == 0 ==> after == mid
    &&& r is Ok && mid.state.imm_memtables@.len() > 0 ==> exists|t: SsTable| #[trigger]
        is_flush(mid, after, t)
    &&& r is Ok && before.intact() && (mid.state.imm_memtables@.len() > 0 ==> is_safe(mid))
        ==> after.intact() && after.state.versions() == before.state.versions()
    &&& r matches Err(e) ==> {
        let m = mid.state.imm_memtables@.last();
        &&& mid.state.imm_memtables@.len() > 0
        &&& e == LsmError::TooManyKeys
        &&& flush_draft(m.versions(), mid.options.block_size).key_hashes.len() * 10 + 7
            > usize::MAX
    }
}

/// The earliest immutable memtable was flushed to a table.
pub open spec fn is_flush(before: LsmStorageInner, after: LsmStorageInner, t: SsTable) -> bool {
    let m = before.state.imm_memtables@.last();
    &&& is_built(t, flush_draft(m.versions(), before.options.block_size), m.spec_id())
    &&& is_flushed(before, after, t)
    &&& keeps_state(before, after, t)
    &&& flushable(m.versions(), before.options.block_size) ==> t.wf() && model::entry_map(
        t.entries(),
    ) == m.versions()
}

/// A flush to L0, or to tiers where L0 is empty, of a memtable whose versions can be stored.
pub open spec fn is_safe(before: LsmStorageInner) -> bool {
    &&& before.compaction_controller.to_l0() || before.state.l0_sstables@.len() == 0
    &&& flushable(before.state.imm_memtables@.last().versions(), before.options.block_size)
}

/// A flush to L0 is safe if what is in memtables can be stored.
pub proof fn lemma_flush_safe(before: LsmStorageInner)
    requires
        before.settled(),
        before.compaction_controller.to_l0(),
        before.state.imm_memtables@.len() > 0,
        lsm_storage::write::mems_storable(before.state),
    ensures
        is_safe(before),
{
    reveal(LsmStorageInner::settled);
    let a = before.state.memtables();
    assert(a[a.len() - 1] == before.state.imm_memtables@.last());
}

/// What a forced flush leaves: the memtable is empty, and one immutable memtable less is there than
/// with it, if there was any; the others are those that were there.
pub proof fn lemma_force_flush(
    before: LsmStorageInner,
    mid: LsmStorageInner,
    after: LsmStorageInner,
    r: Result<(), LsmError>,
)
    requires
        is_force_flush(before, mid, after, r),
        r is Ok,
    ensures
        ({
            let none = Map::<KeyTs, Seq<u8>>::empty();
            let all = if before.state.memtable.versions() == none {
                before.state.imm_memtables@
            } else {
                seq![before.state.memtable] + before.state.imm_memtables@
            };
            &&& after.state.memtable.versions() == none
            &&& all.len() == 0 ==> after == before
            &&& all.len() > 0 ==> after.state.imm_memtables@ == all.drop_last()
                && after.state.sstables@.contains_key(all.last().spec_id())
                && after.state.sstables@[all.last().spec_id()].id() == all.last().spec_id()
        }),
{
    if mid.state.imm_memtables@.len() > 0 {
        let t = choose|t: SsTable| #[trigger] is_flush(mid, after, t);
        assert(after.state.sstables@.contains_key(t.id()));
    }
}

/// What a flush does: the earliest immutable memtable, and no other, is gone; the table that has its
/// id and just its versions, in blocks that are filled as far as the block size allows, is the
/// latest of L0 or the latest tier.
#[verifier::rlimit(40)]
pub proof fn lemma_what_is_flushed(
    before: LsmStorageInner,
    after: LsmStorageInner,
    t: SsTable,
    k: KeyTs,
    v: Seq<u8>,
)
    requires
        before.state.imm_memtables@.len() > 0,
        before.state.imm_memtables@.last().versions().dom().finite(),
        is_safe(before),
        is_flush(before, after, t),
    ensures
        ({
            let n = before.state.imm_memtables@.len() as int;
            let m = before.state.imm_memtables@[n - 1];
            &&& after.state.imm_memtables@.len() == n - 1
            &&& forall|i: int|
                0 <= i < n - 1 ==> (#[trigger] after.state.imm_memtables@[i])
                    == before.state.imm_memtables@[i]
            &&& after.state.memtable == before.state.memtable
            &&& t.id() == m.spec_id()
            &&& t.entries().contains(Entry { key: k, value: v }) <==> m.versions().contains_key(k)
                && m.versions()[k] == v
            &&& model::sorted(t.entries())
            &&& laws::is_packed(t.layout(), before.options.block_size)
            &&& after.state.sstables@ == before.state.sstables@.insert(t.id(), t)
            &&& !(before.compaction_controller is Tiered) ==> after.state.l0_sstables@.len()
                == before.state.l0_sstables@.len() + 1 && after.state.l0_sstables@[0] == t.id()
                && after.state.l0_sstables@.skip(1) == before.state.l0_sstables@
                && after.state.levels == before.state.levels
            &&& before.compaction_controller is Tiered ==> after.state.l0_sstables
                == before.state.l0_sstables && after.state.levels@.len()
                == before.state.levels@.len() + 1 && after.state.levels@[0].0 == t.id()
                && after.state.levels@[0].1@ == seq![t.id()] && forall|i: int|
                0 <= i < before.state.levels@.len() ==> (#[trigger] after.state.levels@[i + 1]).0
                    == before.state.levels@[i].0 && after.state.levels@[i + 1].1@
                    == before.state.levels@[i].1@
        }),
{
    let m = before.state.imm_memtables@.last();
    let s = model::sorted_entries(m.versions());
    let e = Entry { key: k, value: v };
    lemma_flushable(m.versions(), before.options.block_size);
    model::lemma_sorted_entries(m.versions());
    laws::lemma_blocks_are_filled(before.options.block_size, s, t, m.spec_id());
    if s.contains(e) {
        let i = s.index_of(e);
        model::lemma_entry_map_index(s, i);
    }
    if m.versions().contains_key(k) && m.versions()[k] == v {
        let i = model::lemma_entry_map_key(s, k);
        assert(s[i] == e);
    }
    if before.compaction_controller.to_l0() {
        assert(after.state.l0_sstables@.skip(1) =~= before.state.l0_sstables@);
    } else {
        let a = lsm_storage::level_ids(before.state.levels@);
        let b = lsm_storage::level_ids(after.state.levels@);
        assert(a.len() == before.state.levels@.len() && b.len() == after.state.levels@.len());
        assert(b[0] == (t.id(), seq![t.id()]));
        assert forall|i: int| 0 <= i < before.state.levels@.len() implies (
        #[trigger] after.state.levels@[i + 1]).0 == before.state.levels@[i].0
            && after.state.levels@[i + 1].1@ == before.state.levels@[i].1@ by {
            assert(b[i + 1] == a[i]);
        }
    }
}

/// A flush leaves what is in memtables storable.
pub proof fn lemma_flush_storable(before: LsmStorageInner, after: LsmStorageInner, t: SsTable)
    requires
        before.state.imm_memtables@.len() > 0,
        lsm_storage::write::mems_storable(before.state),
        is_flushed(before, after, t),
    ensures
        lsm_storage::write::mems_storable(after.state),
{
    let a = before.state.memtables();
    let b = after.state.memtables();
    assert forall|i: int| 0 <= i < b.len() implies crate::compact::laws::map_storable(
        (#[trigger] b[i]).versions(),
    ) by {
        assert(b[i] == a[i]);
    }
}

/// A flush keeps the state in order, its ids apart and all versions, if the table has the
/// memtable's versions and its id is fresh; where tables are flushed to tiers, L0 must be empty.
pub open spec fn keeps_state(before: LsmStorageInner, after: LsmStorageInner, t: SsTable) -> bool {
    before.state.wf() && before.ids_fresh() && t.wf() && model::entry_map(t.entries())
        == before.state.imm_memtables@.last().versions() && (before.compaction_controller.to_l0()
        || before.state.l0_sstables@.len() == 0) ==> {
        &&& after.state.wf()
        &&& after.ids_fresh()
        &&& after.state.versions() == before.state.versions()
    }
}

/// A memtable that can be flushed shows all its versions.
proof fn lemma_flushable(m: Versions, block_size: usize)
    requires
        m.dom().finite(),
        flushable(m, block_size),
    ensures
        mem_table::shown(model::sorted_entries(m)) == model::sorted_entries(m),
        mem_table::all_storable(model::sorted_entries(m)),
        model::entry_map(model::sorted_entries(m)) == m,
{
    let s = model::sorted_entries(m);
    model::lemma_sorted_entries(m);
    assert forall|i: int| 0 <= i < s.len() implies crate::block::storable(
        (#[trigger] s[i]).key,
        s[i].value,
    ) by {
        model::lemma_entry_map_index(s, i);
        assert(m.contains_key(s[i].key));
    }
}

/// A table with another id leaves the tables with some ids as they are.
pub proof fn lemma_other_id(tables: Map<usize, SsTable>, ids: Seq<usize>, id: usize, t: SsTable)
    requires
        !ids.contains(id),
    ensures
        lsm_storage::table_runs(tables.insert(id, t), ids) == lsm_storage::table_runs(tables, ids),
        lsm_storage::table_maps(tables.insert(id, t), ids) == lsm_storage::table_maps(tables, ids),
        lsm_storage::tables_ok(tables, ids) ==> lsm_storage::tables_ok(tables.insert(id, t), ids),
{
    let new = tables.insert(id, t);
    assert forall|i: int| 0 <= i < ids.len() implies #[trigger] new[ids[i]] == tables[ids[i]] by {
        assert(ids[i] != id);
    }
    assert(lsm_storage::table_runs(new, ids) =~= lsm_storage::table_runs(tables, ids));
    assert(lsm_storage::table_maps(new, ids) =~= lsm_storage::table_maps(tables, ids));
}

#[verifier::rlimit(40)]
proof fn lemma_keeps_state(before: LsmStorageInner, after: LsmStorageInner, t: SsTable)
    requires
        before.state.imm_memtables@.len() > 0,
        before.state.imm_memtables@.last().spec_id() == t.id(),
        is_flushed(before, after, t),
    ensures
        keeps_state(before, after, t),
{
    let a = before.state;
    let b = after.state;
    let m = a.imm_memtables@.last();
    let id = t.id();
    let tm = model::entry_map(t.entries());
    if a.wf() && before.ids_fresh() && t.wf() && tm == m.versions() && (
    before.compaction_controller.to_l0() || a.l0_sstables@.len() == 0) {
        let n = a.memtables().len();
        assert(a.memtables()[n - 1] == m);
        assert(!a.sstables@.contains_key(id));
        lemma_flush_mem(a, b);
        lemma_flush_tables(before, after, t);
        lemma_flush_ids(before, after, t);
        let f = |x: MemTable| x.versions();
        model::lemma_merged_push(b.memtables().map_values(f), tm);
        assert(a.memtables().map_values(f) =~= b.memtables().map_values(f).push(tm));
        assert(a.mem_versions() == model::prefer(b.mem_versions(), tm));
        let x = b.mem_versions();
        if before.compaction_controller.to_l0() {
            assert(model::prefer(model::prefer(x, tm), a.l0_versions()) =~= model::prefer(
                x,
                model::prefer(tm, a.l0_versions()),
            ));
        } else {
            let none = Map::<KeyTs, Seq<u8>>::empty();
            assert(a.l0_versions() =~= none);
            assert(b.l0_versions() =~= none);
            assert(model::prefer(model::prefer(x, tm), none) =~= model::prefer(x, tm));
            assert(model::prefer(x, none) =~= x);
            assert(model::prefer(model::prefer(x, tm), a.level_versions()) =~= model::prefer(
                x,
                model::prefer(tm, a.level_versions()),
            ));
        }
    }
}

proof fn lemma_flush_mem(a: LsmStorageState, b: LsmStorageState)
    requires
        a.imm_memtables@.len() > 0,
        b.memtable == a.memtable,
        b.imm_memtables@ == a.imm_memtables@.drop_last(),
    ensures
        a.memtables() == b.memtables().push(a.imm_memtables@.last()),
{
    assert(a.memtables() =~= b.memtables().push(a.imm_memtables@.last()));
}

#[verifier::rlimit(40)]
proof fn lemma_flush_tables(before: LsmStorageInner, after: LsmStorageInner, t: SsTable)
    requires
        is_flushed(before, after, t),
        before.state.wf(),
        t.wf(),
        !before.state.sstables@.contains_key(t.id()),
    ensures
        after.state.wf(),
        before.compaction_controller.to_l0() ==> after.state.l0_versions() == model::prefer(
            model::entry_map(t.entries()),
            before.state.l0_versions(),
        ) && after.state.level_versions() == before.state.level_versions(),
        !before.compaction_controller.to_l0() ==> after.state.level_versions() == model::prefer(
            model::entry_map(t.entries()),
            before.state.level_versions(),
        ),
{
    let a = before.state;
    let b = after.state;
    let id = t.id();
    let tm = model::entry_map(t.entries());
    lemma_other_id(a.sstables@, a.l0_sstables@, id, t);
    let old_maps = lsm_storage::table_maps(a.sstables@, a.l0_sstables@);
    let old_levels = lsm_storage::level_maps(a.sstables@, a.levels@);
    assert forall|i: int| 0 <= i < a.levels@.len() implies lsm_storage::level_ok(
        b.sstables@,
        (#[trigger] a.levels@[i]).1@,
    ) && lsm_storage::table_runs(b.sstables@, a.levels@[i].1@) == lsm_storage::table_runs(
        a.sstables@,
        a.levels@[i].1@,
    ) by {
        assert(lsm_storage::level_ok(a.sstables@, a.levels@[i].1@));
        lemma_other_id(a.sstables@, a.levels@[i].1@, id, t);
    }
    if before.compaction_controller.to_l0() {
        let ids = seq![id] + a.l0_sstables@;
        assert(lsm_storage::table_maps(b.sstables@, ids) =~= seq![tm] + old_maps);
        lsm_storage::lemma_merged_cons(tm, old_maps);
        assert(lsm_storage::level_maps(b.sstables@, b.levels@) =~= old_levels);
        assert forall|i: int| 0 <= i < ids.len() implies b.sstables@.contains_key(
            #[trigger] ids[i],
        ) && b.sstables@[ids[i]].wf() by {
            if i > 0 {
                assert(ids[i] == a.l0_sstables@[i - 1]);
            }
        }
    } else {
        let one = seq![id];
        assert(lsm_storage::table_runs(b.sstables@, one) =~= Seq::<
            Seq<model::Entry>,
        >::empty().push(t.entries()));
        model::lemma_concat_push(Seq::empty(), t.entries());
        assert(model::concat(lsm_storage::table_runs(b.sstables@, one)) =~= t.entries());
        let x = lsm_storage::level_ids(a.levels@);
        let y = lsm_storage::level_ids(b.levels@);
        assert(b.levels@.len() == y.len() && a.levels@.len() == x.len());
        assert(y[0].1 == b.levels@[0].1@);
        assert forall|i: int| 0 < i < b.levels@.len() implies (#[trigger] b.levels@[i]).1@
            == a.levels@[i - 1].1@ by {
            assert(y[i].1 == b.levels@[i].1@);
            assert(x[i - 1].1 == a.levels@[i - 1].1@);
            assert(y[i] == x[i - 1]);
        }
        assert(lsm_storage::level_maps(b.sstables@, b.levels@) =~= seq![tm] + old_levels);
        lsm_storage::lemma_merged_cons(tm, old_levels);
        assert forall|i: int| 0 <= i < b.levels@.len() implies lsm_storage::level_ok(
            b.sstables@,
            (#[trigger] b.levels@[i]).1@,
        ) by {
            if i > 0 {
                assert(lsm_storage::level_ok(b.sstables@, a.levels@[i - 1].1@));
            }
        }
    }
}

proof fn lemma_flush_ids(before: LsmStorageInner, after: LsmStorageInner, t: SsTable)
    requires
        is_flushed(before, after, t),
        before.state.wf(),
        before.ids_fresh(),
        before.state.imm_memtables@.len() > 0,
        before.state.imm_memtables@.last().spec_id() == t.id(),
    ensures
        after.ids_fresh(),
{
    let a = before.state;
    let b = after.state;
    let id = t.id();
    let n = a.memtables().len();
    lemma_flush_mem(a, b);
    assert(a.memtables()[n - 1].spec_id() == id);
    assert forall|i: int| 0 <= i < b.memtables().len() implies (
    #[trigger] b.memtables()[i]).spec_id() < after.next_sst_id && !b.sstables@.contains_key(
        b.memtables()[i].spec_id(),
    ) by {
        assert(a.memtables()[i] == b.memtables()[i]);
        assert(a.memtables()[i].spec_id() != a.memtables()[n - 1].spec_id());
    }
    assert forall|i: int, j: int| 0 <= i < j < b.memtables().len() implies (
    #[trigger] b.memtables()[i]).spec_id() != (#[trigger] b.memtables()[j]).spec_id() by {
        assert(a.memtables()[i] == b.memtables()[i]);
        assert(a.memtables()[j] == b.memtables()[j]);
    }
    let x = lsm_storage::level_ids(a.levels@);
    let y = lsm_storage::level_ids(b.levels@);
    assert(b.levels@.len() == y.len() && a.levels@.len() == x.len());
    if before.compaction_controller.to_l0() {
        assert(b.l0_sstables@.no_duplicates()) by {
            assert forall|i: int, j: int| 0 <= i < j < b.l0_sstables@.len() implies
                b.l0_sstables@[i] != b.l0_sstables@[j] by {
                assert(b.l0_sstables@[j] == a.l0_sstables@[j - 1]);
                assert(a.sstables@.contains_key(a.l0_sstables@[j - 1]));
                if i > 0 {
                    assert(b.l0_sstables@[i] == a.l0_sstables@[i - 1]);
                }
            }
        }
        assert forall|i: int, p: int, q: int|
            0 <= i < b.levels@.len() && 0 <= p < b.l0_sstables@.len() && 0 <= q
                < b.levels@[i].1@.len() implies #[trigger] b.l0_sstables@[p]
            != #[trigger] b.levels@[i].1@[q] by {
            assert(lsm_storage::level_ok(a.sstables@, a.levels@[i].1@));
            assert(a.sstables@.contains_key(a.levels@[i].1@[q]));
            if p > 0 {
                assert(b.l0_sstables@[p] == a.l0_sstables@[p - 1]);
            }
        }
    } else {
        assert(y[0].1 == b.levels@[0].1@);
        assert forall|i: int| 0 < i < b.levels@.len() implies (#[trigger] b.levels@[i]).1@
            == a.levels@[i - 1].1@ by {
            assert(y[i].1 == b.levels@[i].1@);
            assert(x[i - 1].1 == a.levels@[i - 1].1@);
            assert(y[i] == x[i - 1]);
        }
        assert forall|i: int, p: int, q: int|
            0 <= i < b.levels@.len() && 0 <= p < b.l0_sstables@.len() && 0 <= q
                < b.levels@[i].1@.len() implies #[trigger] b.l0_sstables@[p]
            != #[trigger] b.levels@[i].1@[q] by {
            assert(a.sstables@.contains_key(a.l0_sstables@[p]));
            if i > 0 {
                assert(a.l0_sstables@[p] != a.levels@[i - 1].1@[q]);
            }
        }
        assert forall|i: int, j: int, p: int, q: int|
            0 <= i < j < b.levels@.len() && 0 <= p < b.levels@[i].1@.len() && 0 <= q
                < b.levels@[j].1@.len() implies #[trigger] b.levels@[i].1@[p]
            != #[trigger] b.levels@[j].1@[q] by {
            assert(lsm_storage::level_ok(a.sstables@, a.levels@[j - 1].1@));
            assert(a.sstables@.contains_key(a.levels@[j - 1].1@[q]));
            if i > 0 {
                assert(a.levels@[i - 1].1@[p] != a.levels@[j - 1].1@[q]);
            }
        }
    }
}

/// A flush leaves an engine intact.
pub proof fn lemma_flush_intact(before: LsmStorageInner, after: LsmStorageInner, t: SsTable)
    requires
        before.state.imm_memtables@.len() > 0,
        is_flush(before, after, t),
        is_safe(before),
        before.intact(),
    ensures
        after.intact(),
        after.state.versions() == before.state.versions(),
{
    reveal(LsmStorageInner::settled);
    let a = before.state;
    let b = after.state;
    let m = a.imm_memtables@.last().versions();
    let s = t.entries();
    let id = t.id();
    let n = a.memtables().len();
    assert(a.memtables()[n - 1] == a.imm_memtables@.last());
    assert(!a.sstables@.contains_key(id));
    assert(mem_table::all_storable(s)) by {
        assert forall|i: int| 0 <= i < s.len() implies crate::block::storable(
            (#[trigger] s[i]).key,
            s[i].value,
        ) by {
            model::lemma_entry_map_index(s, i);
            assert(m.contains_key(s[i].key));
        }
    }
    lemma_flush_mem(a, b);
    lemma_flush_layers(before, after, t);
}

/// A flush moves a layer from the memtables to the tables, and leaves the order of layers.
#[verifier::rlimit(40)]
proof fn lemma_flush_layers(before: LsmStorageInner, after: LsmStorageInner, t: SsTable)
    requires
        is_flushed(before, after, t),
        before.state.wf(),
        before.state.memtables() == after.state.memtables().push(
            before.state.imm_memtables@.last(),
        ),
        model::entry_map(t.entries()) == before.state.imm_memtables@.last().versions(),
        !before.state.sstables@.contains_key(t.id()),
        before.compaction_controller.to_l0() || before.state.l0_sstables@.len() == 0,
    ensures
        after.state.layers() == before.state.layers(),
{
    let a = before.state;
    let b = after.state;
    let id = t.id();
    let tm = model::entry_map(t.entries());
    let f = |m: MemTable| m.versions();
    let am = lsm_storage::level_maps(a.sstables@, a.levels@);
    let bm = lsm_storage::level_maps(b.sstables@, b.levels@);
    let a0 = lsm_storage::table_maps(a.sstables@, a.l0_sstables@);
    let b0 = lsm_storage::table_maps(b.sstables@, b.l0_sstables@);
    lemma_other_id(a.sstables@, a.l0_sstables@, id, t);
    assert forall|i: int| 0 <= i < a.levels@.len() implies lsm_storage::table_runs(
        b.sstables@,
        (#[trigger] a.levels@[i]).1@,
    ) == lsm_storage::table_runs(a.sstables@, a.levels@[i].1@) by {
        assert(lsm_storage::level_ok(a.sstables@, a.levels@[i].1@));
        lemma_other_id(a.sstables@, a.levels@[i].1@, id, t);
    }
    assert(a.memtables().map_values(f) =~= b.memtables().map_values(f).push(tm));
    if before.compaction_controller.to_l0() {
        assert(b0 =~= seq![tm] + a0);
        assert(bm =~= am);
    } else {
        let one = seq![id];
        let x = lsm_storage::level_ids(a.levels@);
        let y = lsm_storage::level_ids(b.levels@);
        assert(b.levels@.len() == y.len() && a.levels@.len() == x.len());
        assert(y[0].1 == b.levels@[0].1@);
        assert forall|i: int| 0 < i < b.levels@.len() implies (#[trigger] b.levels@[i]).1@
            == a.levels@[i - 1].1@ by {
            assert(y[i].1 == b.levels@[i].1@);
            assert(x[i - 1].1 == a.levels@[i - 1].1@);
            assert(y[i] == x[i - 1]);
        }
        assert(lsm_storage::table_runs(b.sstables@, one) =~= Seq::<
            Seq<model::Entry>,
        >::empty().push(t.entries()));
        model::lemma_concat_push(Seq::empty(), t.entries());
        assert(model::concat(lsm_storage::table_runs(b.sstables@, one)) =~= t.entries());
        assert(bm =~= seq![tm] + am);
        assert(a0 =~= Seq::empty());
        assert(b0 =~= Seq::empty());
    }
    assert(b.layers() =~= a.layers());
}

} // verus!
