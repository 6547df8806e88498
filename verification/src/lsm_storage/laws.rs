//! What a restart brings back.
use vstd::prelude::*;
use crate::compact::simple_leveled;
use crate::compact::simple_leveled::SimpleLeveledCompactionTask;
use crate::compact::{CompactionOptions, CompactionTask};
use crate::error::LsmError;
use crate::key::KeyTs;
use crate::lsm_storage;
use crate::lsm_storage::flush;
use crate::lsm_storage::recover;
use crate::lsm_storage::recover::Recovery;
use crate::lsm_storage::{LsmStorageInner, LsmStorageOptions, LsmStorageState};
use crate::manifest::ManifestRecord;
use crate::mem_table;
use crate::mem_table::MemTable;
use crate::model;
use crate::table::builder;
use crate::table::builder::TableDraft;
use crate::table::layout;
use crate::table::{FileObject, SsTable};
use crate::wal;
use crate::wal::{ByteOrder, Record};

verus! {

/// The ids of the memtables, from latest to earliest.
pub open spec fn mem_ids(s: LsmStorageState) -> Seq<usize> {
    s.memtables().map_values(|m: MemTable| m.spec_id())
}

/// The records of a manifest lead to the tables of the state and, where there are logs, to its
/// memtables and to the next id.
pub open spec fn is_recorded(i: LsmStorageInner, rs: Seq<ManifestRecord>) -> bool {
    let v = recover::replayed(i.options, rs);
    &&& recover::records_fit(i.options, rs)
    &&& v.l0 == i.state.l0_sstables@
    &&& v.levels == lsm_storage::level_ids(i.state.levels@)
    &&& i.options.enable_wal ==> recover::unflushed(v) == mem_ids(i.state) && v.next
        == i.next_sst_id && forall|id: usize| #[trigger] v.flushed.contains(id) ==> id < v.next
}

/// The manifest of a new engine leads to its state.
pub proof fn lemma_new_recorded(i: LsmStorageInner)
    requires
        lsm_storage::level_ids(i.state.levels@) == lsm_storage::initial_levels(
            i.options.compaction_options,
        ),
        i.state.l0_sstables@ == Seq::<usize>::empty(),
        i.state.imm_memtables@ == Seq::<MemTable>::empty(),
        i.state.memtable.spec_id() == 0,
        i.next_sst_id == 1,
        i.manifest.pending@ == if i.options.enable_wal {
            seq![ManifestRecord::NewMemtable(0)]
        } else {
            Seq::empty()
        },
    ensures
        is_recorded(i, i.manifest.pending@),
{
    let rs = i.manifest.pending@;
    let v = recover::replayed(i.options, rs);
    if i.options.enable_wal {
        assert(rs.drop_last() =~= Seq::empty());
        let none = recover::nothing_replayed(i.options);
        assert(recover::replayed(i.options, rs.drop_last()) == none);
        assert(v == none.step(ManifestRecord::NewMemtable(0)));
        assert(v.memtables =~= seq![0usize]);
        reveal(Seq::filter);
        let keep = |id: usize| !v.flushed.contains(id);
        assert(v.memtables.drop_last().filter(keep) =~= Seq::empty());
        assert(recover::unflushed(v) =~= seq![0usize]);
        assert(mem_ids(i.state) =~= seq![0usize]);
    }
}

/// Freezing the memtable adds to the manifest what leads to the new state.
pub proof fn lemma_freeze_recorded(
    before: LsmStorageInner,
    full: MemTable,
    after: LsmStorageInner,
    rs: Seq<ManifestRecord>,
)
    requires
        lsm_storage::write::is_frozen(before, full, after),
        full.spec_id() == before.state.memtable.spec_id(),
        before.next_sst_id < usize::MAX,
        is_recorded(before, rs),
    ensures
        is_recorded(after, rs.push(ManifestRecord::NewMemtable(before.next_sst_id))),
{
    let id = before.next_sst_id;
    let r = ManifestRecord::NewMemtable(id);
    let all = rs.push(r);
    let v = recover::replayed(before.options, rs);
    let w = recover::replayed(before.options, all);
    assert(all.drop_last() =~= rs);
    assert(w == v.step(r));
    assert forall|j: int| 0 <= j < all.len() implies recover::record_fits(
        before.options.compaction_options is Simple,
        lsm_storage::initial_levels(before.options.compaction_options).len(),
        #[trigger] all[j],
    ) by {
        if j < rs.len() {
            assert(all[j] == rs[j]);
        }
    }
    if before.options.enable_wal {
        let keep = |x: usize| !v.flushed.contains(x);
        assert(keep(id));
        lemma_filter_cons(id, v.memtables, keep);
        assert(mem_ids(after.state) =~= seq![id] + mem_ids(before.state));
    }
}

/// What was written of the manifest and what still has to be written lead to the state, before the
/// memtable is frozen and after it.
pub proof fn lemma_freeze_keeps_record(
    before: LsmStorageInner,
    full: MemTable,
    after: LsmStorageInner,
    written: Seq<ManifestRecord>,
)
    requires
        lsm_storage::write::is_frozen(before, full, after),
        full.spec_id() == before.state.memtable.spec_id(),
        before.next_sst_id < usize::MAX,
        is_recorded(before, written + before.manifest.pending@),
    ensures
        is_recorded(after, written + after.manifest.pending@),
{
    let rs = written + before.manifest.pending@;
    lemma_freeze_recorded(before, full, after, rs);
    assert(written + after.manifest.pending@ =~= rs.push(
        ManifestRecord::NewMemtable(before.next_sst_id),
    ));
}

/// What was written of the manifest and what still has to be written lead to the state, before a
/// write and after it.
pub proof fn lemma_write_keeps_record(
    before: LsmStorageInner,
    after: LsmStorageInner,
    rs: Seq<Record>,
    written: Seq<ManifestRecord>,
)
    requires
        lsm_storage::write::is_written(before, after, rs),
        before.next_sst_id < usize::MAX,
        is_recorded(before, written + before.manifest.pending@),
    ensures
        is_recorded(after, written + after.manifest.pending@),
{
    let full = choose|full: MemTable| #[trigger]
        mem_table::were_put(before.state.memtable, full, rs) && if full.size()
            >= before.options.target_sst_size {
            lsm_storage::write::is_frozen(before, full, after)
        } else {
            lsm_storage::write::is_put(before, full, after)
        };
    if full.size() >= before.options.target_sst_size {
        lemma_freeze_keeps_record(before, full, after, written);
    } else {
        assert(mem_ids(after.state) =~= mem_ids(before.state));
    }
}

/// What was written of the manifest and what still has to be written lead to the state, before a
/// flush to L0 and after it.
pub proof fn lemma_flush_keeps_record(
    before: LsmStorageInner,
    after: LsmStorageInner,
    t: SsTable,
    written: Seq<ManifestRecord>,
)
    requires
        flush::is_flushed(before, after, t),
        before.compaction_controller.to_l0(),
        before.state.imm_memtables@.len() > 0,
        before.state.imm_memtables@.last().spec_id() == t.id(),
        before.ids_fresh(),
        is_recorded(before, written + before.manifest.pending@),
    ensures
        is_recorded(after, written + after.manifest.pending@),
{
    let rs = written + before.manifest.pending@;
    lemma_flush_recorded(before, after, t, rs);
    assert(written + after.manifest.pending@ =~= rs.push(ManifestRecord::Flush(t.id())));
}

proof fn lemma_filter_cons(x: usize, s: Seq<usize>, keep: spec_fn(usize) -> bool)
    requires
        keep(x),
    ensures
        (seq![x] + s).filter(keep) == seq![x] + s.filter(keep),
    decreases s.len(),
{
    reveal(Seq::filter);
    let all = seq![x] + s;
    if s.len() == 0 {
        assert(all.drop_last() =~= Seq::empty());
        assert(all.drop_last().filter(keep) =~= Seq::empty());
        assert(all.filter(keep) =~= seq![x] + s.filter(keep));
    } else {
        assert(all.drop_last() =~= seq![x] + s.drop_last());
        lemma_filter_cons(x, s.drop_last(), keep);
        assert(all.filter(keep) =~= seq![x] + s.filter(keep));
    }
}

proof fn lemma_filter_without(s: Seq<usize>, a: spec_fn(usize) -> bool, id: usize)
    ensures
        s.filter(|x: usize| a(x) && x != id) == s.filter(a).filter(|x: usize| x != id),
    decreases s.len(),
{
    reveal(Seq::filter);
    let b = |x: usize| a(x) && x != id;
    let c = |x: usize| x != id;
    if s.len() > 0 {
        lemma_filter_without(s.drop_last(), a, id);
        let t = s.drop_last().filter(a);
        if a(s.last()) {
            assert(t.push(s.last()).drop_last() =~= t);
        }
    }
}

proof fn lemma_filter_last(s: Seq<usize>, id: usize)
    requires
        s.no_duplicates(),
        s.len() > 0,
        s.last() == id,
    ensures
        s.filter(|x: usize| x != id) == s.drop_last(),
{
    reveal(Seq::filter);
    let c = |x: usize| x != id;
    let t = s.drop_last();
    assert forall|i: int| 0 <= i < t.len() implies t[i] != id by {
        assert(s[i] != s[s.len() - 1]);
    }
    lemma_filter_all(t, c);
}

proof fn lemma_filter_all(s: Seq<usize>, keep: spec_fn(usize) -> bool)
    requires
        forall|i: int| 0 <= i < s.len() ==> keep(#[trigger] s[i]),
    ensures
        s.filter(keep) == s,
    decreases s.len(),
{
    reveal(Seq::filter);
    if s.len() > 0 {
        assert(keep(s[s.len() - 1]));
        assert forall|i: int| 0 <= i < s.drop_last().len() implies keep(
            #[trigger] s.drop_last()[i],
        ) by {
            assert(s.drop_last()[i] == s[i]);
        }
        lemma_filter_all(s.drop_last(), keep);
        assert(s.drop_last().push(s.last()) =~= s);
    } else {
        assert(s.filter(keep) =~= s);
    }
}

/// A flush to L0 adds to the manifest what leads to the new state.
pub proof fn lemma_flush_recorded(
    before: LsmStorageInner,
    after: LsmStorageInner,
    t: SsTable,
    rs: Seq<ManifestRecord>,
)
    requires
        flush::is_flushed(before, after, t),
        before.compaction_controller.to_l0(),
        before.state.imm_memtables@.len() > 0,
        before.state.imm_memtables@.last().spec_id() == t.id(),
        before.ids_fresh(),
        is_recorded(before, rs),
    ensures
        is_recorded(after, rs.push(ManifestRecord::Flush(t.id()))),
{
    let id = t.id();
    let r = ManifestRecord::Flush(id);
    let all = rs.push(r);
    let v = recover::replayed(before.options, rs);
    let w = recover::replayed(before.options, all);
    let n = before.state.memtables().len();
    assert(all.drop_last() =~= rs);
    assert(w == v.step(r));
    assert(before.state.memtables()[n - 1] == before.state.imm_memtables@.last());
    assert(id < before.next_sst_id);
    assert forall|j: int| 0 <= j < all.len() implies recover::record_fits(
        before.options.compaction_options is Simple,
        lsm_storage::initial_levels(before.options.compaction_options).len(),
        #[trigger] all[j],
    ) by {
        if j < rs.len() {
            assert(all[j] == rs[j]);
        }
    }
    if before.options.enable_wal {
        let a = |x: usize| !v.flushed.contains(x);
        let b = |x: usize| a(x) && x != id;
        let c = |x: usize| !w.flushed.contains(x);
        assert forall|x: usize| #[trigger] b(x) == c(x) by {}
        assert(b =~= c);
        lemma_filter_without(v.memtables, a, id);
        let ids = mem_ids(before.state);
        assert(ids.last() == id);
        assert(ids.no_duplicates()) by {
            assert forall|i: int, j: int| 0 <= i < j < ids.len() implies ids[i] != ids[j] by {
                assert(before.state.memtables()[i].spec_id()
                    != before.state.memtables()[j].spec_id());
            }
        }
        lemma_filter_last(ids, id);
        assert(mem_ids(after.state) =~= ids.drop_last());
    }
}

/// A table's file leads to the table's entries.
pub open spec fn reopens(t: SsTable) -> bool {
    layout::file_parts(t.content()) matches Some(p) && p.layout.entries() == t.entries()
}

/// The file of a table that was built leads to the table's entries, if stored offsets can hold its
/// size.
pub proof fn lemma_built_reopens(t: SsTable, d: TableDraft, id: usize)
    requires
        flush::is_built(t, d, id),
        d.sound(),
        t.content().len() < 0x1_0000_0000,
    ensures
        reopens(t),
        layout::valid_file(t.content()),
{
    let b = t.filter()->0;
    builder::lemma_built_file_valid(d, b);
}

/// The file of a table that was opened leads to the table's entries.
pub proof fn lemma_opened_reopens(t: SsTable, id: usize, f: Seq<u8>)
    requires
        recover::is_opened(t, id, f),
    ensures
        reopens(t),
{
}

/// Of each memtable, what was written of its log and what still has to be written lead to its
/// versions.
pub open spec fn logs_up(s: LsmStorageState, written: Seq<Seq<u8>>) -> bool {
    &&& written.len() == s.memtables().len()
    &&& forall|j: int|
        0 <= j < written.len() ==> {
            let m = #[trigger] s.memtables()[j];
            m.log() matches Some(w) && mem_table::is_logged(
                m,
                w.order(),
                written[j] + w.pending(),
            )
        }
}

/// Where there are logs, no write is lost to them: they lead to the versions of the memtables before
/// a write and after it. The log of a memtable that takes the place of a frozen one is empty.
pub proof fn lemma_write_keeps_logs(
    before: LsmStorageInner,
    after: LsmStorageInner,
    rs: Seq<Record>,
    written: Seq<Seq<u8>>,
)
    requires
        before.options.enable_wal,
        lsm_storage::write::is_written(before, after, rs),
        forall|i: int| 0 <= i < rs.len() ==> wal::record_fits(wal::log_record(#[trigger] rs[i])),
        logs_up(before.state, written),
    ensures
        logs_up(
            after.state,
            if after.state.imm_memtables@.len() > before.state.imm_memtables@.len() {
                seq![Seq::empty()] + written
            } else {
                written
            },
        ),
{
    let full = choose|full: MemTable| #[trigger]
        mem_table::were_put(before.state.memtable, full, rs) && if full.size()
            >= before.options.target_sst_size {
            lsm_storage::write::is_frozen(before, full, after)
        } else {
            lsm_storage::write::is_put(before, full, after)
        };
    let a = before.state.memtables();
    let b = after.state.memtables();
    assert(a[0].log() is Some);
    mem_table::lemma_log_keeps_up(before.state.memtable, full, rs, written[0]);
    if full.size() >= before.options.target_sst_size {
        let now = seq![Seq::<u8>::empty()] + written;
        assert forall|j: int| 0 <= j < now.len() implies ({
            let m = #[trigger] b[j];
            m.log() matches Some(w) && mem_table::is_logged(m, w.order(), now[j] + w.pending())
        }) by {
            if j == 0 {
                let w = b[0].log()->0;
                mem_table::lemma_logged_new(b[0], w.order());
                assert(now[0] + w.pending() =~= Seq::empty());
            } else if j > 1 {
                assert(b[j] == a[j - 1]);
            }
        }
    } else {
        assert forall|j: int| 0 <= j < written.len() implies ({
            let m = #[trigger] b[j];
            m.log() matches Some(w) && mem_table::is_logged(
                m,
                w.order(),
                written[j] + w.pending(),
            )
        }) by {
            if j > 0 {
                assert(b[j] == a[j]);
            }
        }
    }
}

/// A flush takes the log of the memtable away that it flushes, and no other.
pub proof fn lemma_flush_keeps_logs(
    before: LsmStorageInner,
    after: LsmStorageInner,
    t: SsTable,
    written: Seq<Seq<u8>>,
)
    requires
        before.state.imm_memtables@.len() > 0,
        flush::is_flushed(before, after, t),
        logs_up(before.state, written),
    ensures
        logs_up(after.state, written.drop_last()),
{
    let a = before.state.memtables();
    let b = after.state.memtables();
    assert forall|j: int| 0 <= j < b.len() implies ({
        let m = #[trigger] b[j];
        m.log() matches Some(w) && mem_table::is_logged(
            m,
            w.order(),
            written.drop_last()[j] + w.pending(),
        )
    }) by {
        assert(b[j] == a[j]);
    }
}

/// The files of the tables are there, in the order in which a restart reads them.
pub open spec fn files_kept(s: LsmStorageState, files: Seq<FileObject>) -> bool {
    let ids = recover::used_ids(s);
    &&& forall|j: int|
        0 <= j < ids.len() ==> (#[trigger] files[j]).data@ == s.sstables@[ids[j]].content()
    &&& forall|j: int| 0 <= j < ids.len() ==> reopens(s.sstables@[#[trigger] ids[j]])
}

/// The logs of the memtables are there, from latest to earliest.
pub open spec fn logs_kept(s: LsmStorageState, order: ByteOrder, logs: Seq<Vec<u8>>) -> bool {
    &&& logs.len() == s.memtables().len()
    &&& forall|j: int|
        0 <= j < logs.len() ==> mem_table::is_logged(s.memtables()[j], order, (#[trigger] logs[j])@)
}

/// A restart with logs brings back all versions: the manifest leads to the same tables, whose files
/// lead to the same entries, and to the same memtables, whose logs lead to the same versions. The
/// manifest and the logs then lead to what was brought back.
#[verifier::rlimit(40)]
pub proof fn lemma_restart(
    before: LsmStorageInner,
    rs: Seq<ManifestRecord>,
    order: ByteOrder,
    r: Recovery,
    logs: Seq<Vec<u8>>,
    files: Seq<FileObject>,
    i: LsmStorageInner,
)
    requires
        before.options.enable_wal,
        is_recorded(before, rs),
        files_kept(before.state, files),
        logs_kept(before.state, order, logs),
        recover::is_recovery(before.options, rs, r),
        recover::is_restarted(order, before.options, r, logs, files, i),
    ensures
        i.state.versions() == before.state.versions(),
        i.next_sst_id == before.next_sst_id,
        is_recorded(i, rs),
        logs_kept(i.state, order, logs),
{
    let s = before.state;
    let ms = s.memtables();
    let ns = i.state.memtables();
    assert(mem_ids(s).len() == ms.len());
    assert forall|j: int| 0 <= j < ms.len() implies (#[trigger] ns[j]).versions()
        == ms[j].versions() && ns[j].spec_id() == ms[j].spec_id() && mem_table::is_logged(
        ns[j],
        order,
        logs[j]@,
    ) by {
        assert(mem_table::is_recovered(order, r.memtables@[j], logs[j]@, Ok(ns[j])));
        mem_table::lemma_logged_recovered(ms[j], order, logs[j]@, r.memtables@[j], Ok(ns[j]));
        assert(mem_ids(s)[j] == ms[j].spec_id());
    }
    let x = ms.map_values(|m: MemTable| m.versions());
    let y = ns.map_values(|m: MemTable| m.versions());
    assert forall|j: int| 0 <= j < x.len() implies x[j] == y[j] by {
        assert(y[j] == ns[j].versions());
    }
    assert(x =~= y);
    assert forall|j: int| 0 <= j < ms.len() implies mem_ids(i.state)[j] == mem_ids(s)[j] by {
        assert(mem_ids(i.state)[j] == ns[j].spec_id());
    }
    assert(mem_ids(i.state) =~= mem_ids(s));
    lemma_restart_tables(s, order, before.options, r, logs, files, i);
}

/// A restart brings back the versions of the tables: the manifest leads to the same tables, whose
/// files lead to the same entries.
#[verifier::rlimit(40)]
pub proof fn lemma_restart_tables(
    s: LsmStorageState,
    order: ByteOrder,
    o: LsmStorageOptions,
    r: Recovery,
    logs: Seq<Vec<u8>>,
    files: Seq<FileObject>,
    i: LsmStorageInner,
)
    requires
        recover::is_restarted(order, o, r, logs, files, i),
        r.state.l0_sstables@ == s.l0_sstables@,
        lsm_storage::level_ids(r.state.levels@) == lsm_storage::level_ids(s.levels@),
        files_kept(s, files),
    ensures
        i.state.l0_versions() == s.l0_versions(),
        i.state.level_versions() == s.level_versions(),
        same_tables(s, i.state),
        s.wf() ==> i.state.wf(),
        s.apart() ==> i.state.apart(),
{
    let b = i.state;
    let ids = recover::used_ids(s);
    assert(recover::used_ids(b) == ids);
    assert forall|j: int| 0 <= j < ids.len() implies b.sstables@[#[trigger] ids[j]].entries()
        == s.sstables@[ids[j]].entries() by {
        let id = ids[j];
        assert(b.sstables@.contains_key(id));
        let k = choose|k: int|
            0 <= k < ids.len() && ids[k] == id && #[trigger] recover::is_opened(
                b.sstables@[id],
                id,
                files[k].data@,
            );
        assert(files[k].data@ == s.sstables@[ids[k]].content());
        assert(reopens(s.sstables@[ids[k]]));
    }
    let x = lsm_storage::table_maps(s.sstables@, s.l0_sstables@);
    let y = lsm_storage::table_maps(b.sstables@, b.l0_sstables@);
    assert forall|j: int| 0 <= j < x.len() implies x[j] == y[j] by {
        assert(ids[j] == s.l0_sstables@[j]);
    }
    assert(x =~= y);
    let ls = lsm_storage::level_ids(s.levels@);
    let lb = lsm_storage::level_ids(b.levels@);
    assert(lb == ls);
    let p = lsm_storage::level_maps(s.sstables@, s.levels@);
    let q = lsm_storage::level_maps(b.sstables@, b.levels@);
    assert(p.len() == ls.len() && q.len() == lb.len());
    assert forall|n: int| 0 <= n < p.len() implies p[n] == q[n] && s.levels@[n].1@
        == b.levels@[n].1@ && lsm_storage::table_runs(s.sstables@, s.levels@[n].1@)
        == lsm_storage::table_runs(b.sstables@, (#[trigger] b.levels@[n]).1@) by {
        assert(ls[n].1 == s.levels@[n].1@ && lb[n].1 == b.levels@[n].1@);
        let here = s.levels@[n].1@;
        let rs = lsm_storage::table_runs(s.sstables@, here);
        let rb = lsm_storage::table_runs(b.sstables@, here);
        assert forall|j: int| 0 <= j < here.len() implies rs[j] == rb[j] by {
            let z = recover::lemma_ids_in(ls, n, j);
            assert(ids[s.l0_sstables@.len() + z] == here[j]);
        }
        assert(rs =~= rb);
    }
    assert forall|n: int| 0 <= n < p.len() implies p[n] == q[n] by {
        assert(s.levels@[n].1@ == b.levels@[n].1@);
    }
    assert(p =~= q);
    assert forall|id: usize| #[trigger] b.sstables@.contains_key(id) implies ids.contains(id)
        && b.sstables@[id].wf() && b.sstables@[id].entries() == s.sstables@[id].entries() by {
        let k = choose|k: int|
            0 <= k < ids.len() && ids[k] == id && #[trigger] recover::is_opened(
                b.sstables@[id],
                id,
                files[k].data@,
            );
        assert(ids[k] == id);
    }
    if s.wf() {
        assert forall|j: int| 0 <= j < b.l0_sstables@.len() implies b.sstables@.contains_key(
            #[trigger] b.l0_sstables@[j],
        ) by {
            assert(ids[j] == s.l0_sstables@[j]);
        }
        assert forall|n: int| 0 <= n < b.levels@.len() implies lsm_storage::level_ok(
            b.sstables@,
            (#[trigger] b.levels@[n]).1@,
        ) by {
            let here = b.levels@[n].1@;
            assert(lsm_storage::level_ok(s.sstables@, s.levels@[n].1@));
            assert forall|j: int| 0 <= j < here.len() implies b.sstables@.contains_key(
                #[trigger] here[j],
            ) by {
                assert(ls[n].1 == here);
                let z = recover::lemma_ids_in(ls, n, j);
                assert(ids[s.l0_sstables@.len() + z] == here[j]);
            }
        }
    }
    if s.apart() {
        assert forall|n: int| 0 <= n < b.levels@.len() implies (
        #[trigger] b.levels@[n]).1@.no_duplicates() by {
            assert(b.levels@[n].1@ == s.levels@[n].1@);
            assert(s.levels@[n].1@.no_duplicates());
        }
        assert forall|n: int, x: int, y: int|
            0 <= n < b.levels@.len() && 0 <= x < b.l0_sstables@.len() && 0 <= y
                < b.levels@[n].1@.len() implies #[trigger] b.l0_sstables@[x]
            != #[trigger] b.levels@[n].1@[y] by {
            assert(b.levels@[n].1@ == s.levels@[n].1@);
            assert(s.l0_sstables@[x] != s.levels@[n].1@[y]);
        }
        assert forall|n: int, m: int, x: int, y: int|
            0 <= n < m < b.levels@.len() && 0 <= x < b.levels@[n].1@.len() && 0 <= y
                < b.levels@[m].1@.len() implies #[trigger] b.levels@[n].1@[x]
            != #[trigger] b.levels@[m].1@[y] by {
            assert(b.levels@[n].1@ == s.levels@[n].1@);
            assert(b.levels@[m].1@ == s.levels@[m].1@);
            assert(s.levels@[n].1@[x] != s.levels@[m].1@[y]);
        }
    }
}

/// A state has tables in the places of another one, with the same entries, and no more tables.
pub open spec fn same_tables(a: LsmStorageState, b: LsmStorageState) -> bool {
    &&& lsm_storage::table_maps(b.sstables@, b.l0_sstables@) == lsm_storage::table_maps(
        a.sstables@,
        a.l0_sstables@,
    )
    &&& lsm_storage::level_maps(b.sstables@, b.levels@) == lsm_storage::level_maps(
        a.sstables@,
        a.levels@,
    )
    &&& forall|id: usize| #[trigger]
        b.sstables@.contains_key(id) ==> recover::used_ids(a).contains(id)
            && b.sstables@[id].entries() == a.sstables@[id].entries()
}

proof fn lemma_used_known(s: LsmStorageState, id: usize)
    requires
        s.wf(),
        recover::used_ids(s).contains(id),
    ensures
        s.sstables@.contains_key(id),
{
    let ids = recover::used_ids(s);
    let ls = lsm_storage::level_ids(s.levels@);
    let k = ids.index_of(id);
    let l0 = s.l0_sstables@;
    if k < l0.len() {
        assert(s.sstables@.contains_key(l0[k]));
    } else {
        let (n, j) = lemma_in_level(ls, k - l0.len());
        assert(ls[n].1 == s.levels@[n].1@);
        assert(lsm_storage::level_ok(s.sstables@, s.levels@[n].1@));
        assert(s.sstables@.contains_key(s.levels@[n].1@[j]));
    }
}

proof fn lemma_in_level(levels: Seq<(usize, Seq<usize>)>, k: int) -> (r: (int, int))
    requires
        0 <= k < recover::ids_in(levels).len(),
    ensures
        0 <= r.0 < levels.len(),
        0 <= r.1 < levels[r.0].1.len(),
        recover::ids_in(levels)[k] == levels[r.0].1[r.1],
    decreases levels.len(),
{
    let t = levels.drop_last();
    let n = recover::ids_in(t).len();
    if k < n {
        lemma_in_level(t, k)
    } else {
        (levels.len() - 1, k - n)
    }
}

/// After a restart with logs, what operations keep holds again, if no memtable has an empty user
/// key.
#[verifier::rlimit(40)]
pub proof fn lemma_restart_intact(
    before: LsmStorageInner,
    rs: Seq<ManifestRecord>,
    order: ByteOrder,
    r: Recovery,
    logs: Seq<Vec<u8>>,
    files: Seq<FileObject>,
    i: LsmStorageInner,
)
    requires
        before.options.enable_wal,
        is_recorded(before, rs),
        files_kept(before.state, files),
        logs_kept(before.state, order, logs),
        recover::is_recovery(before.options, rs, r),
        recover::is_restarted(order, before.options, r, logs, files, i),
        before.state.keys_nonempty(),
        before.intact(),
    ensures
        i.intact(),
{
    reveal(LsmStorageInner::settled);
    let a = before.state;
    let b = i.state;
    lemma_restart(before, rs, order, r, logs, files, i);
    lemma_restart_tables(a, order, before.options, r, logs, files, i);
    let ms = a.memtables();
    let ns = b.memtables();
    assert forall|j: int| 0 <= j < ns.len() implies (#[trigger] ns[j]).versions()
        == ms[j].versions() && ns[j].spec_id() == ms[j].spec_id() by {
        assert(mem_table::is_recovered(order, r.memtables@[j], logs[j]@, Ok(ns[j])));
        mem_table::lemma_logged_recovered(ms[j], order, logs[j]@, r.memtables@[j], Ok(ns[j]));
        assert(mem_ids(a)[j] == ms[j].spec_id());
    }
    let x = ms.map_values(|m: MemTable| m.versions());
    let y = ns.map_values(|m: MemTable| m.versions());
    assert forall|j: int| 0 <= j < x.len() implies x[j] == y[j] by {
        assert(y[j] == ns[j].versions());
    }
    assert(x =~= y);
    assert(b.layers() == a.layers());
    assert(b.keys_nonempty()) by {
        assert forall|j: int, k: KeyTs|
            0 <= j < ns.len() && #[trigger] ns[j].versions().contains_key(k) implies k.key.len()
            > 0 by {
            assert(ms[j].versions().contains_key(k));
        }
    }
    assert forall|id: usize| #[trigger] b.sstables@.contains_key(id) implies a.sstables@.contains_key(
        id,
    ) by {
        lemma_used_known(a, id);
    }
    assert forall|j: int| 0 <= j < ns.len() implies (#[trigger] ns[j]).spec_id() < i.next_sst_id
        && !b.sstables@.contains_key(ns[j].spec_id()) by {
        assert(ms[j].spec_id() < before.next_sst_id);
    }
    assert forall|j: int, k: int| 0 <= j < k < ns.len() implies (#[trigger] ns[j]).spec_id() != (
    #[trigger] ns[k]).spec_id() by {
        assert(ms[j].spec_id() != ms[k].spec_id());
    }
}

proof fn lemma_largest(ids: Seq<usize>, j: int)
    requires
        0 <= j < ids.len(),
    ensures
        ids[j] <= recover::largest(ids),
    decreases ids.len(),
{
    if j < ids.len() - 1 {
        lemma_largest(ids.drop_last(), j);
    }
}

/// The ids of the tables to which the records of a manifest lead are below the next id.
pub proof fn lemma_replayed_below(o: LsmStorageOptions, rs: Seq<ManifestRecord>)
    requires
        recover::records_fit(o, rs),
    ensures
        recover::replayed(o, rs).levels.len() == lsm_storage::initial_levels(
            o.compaction_options,
        ).len(),
        forall|j: int|
            0 <= j < recover::replayed(o, rs).l0.len() ==> #[trigger] recover::replayed(o, rs).l0[j]
                < recover::replayed(o, rs).next,
        forall|n: int, j: int|
            0 <= n < recover::replayed(o, rs).levels.len() && 0 <= j < recover::replayed(
                o,
                rs,
            ).levels[n].1.len() ==> #[trigger] recover::replayed(o, rs).levels[n].1[j]
                < recover::replayed(o, rs).next,
    decreases rs.len(),
{
    let w = recover::replayed(o, rs);
    if rs.len() > 0 {
        let t = rs.drop_last();
        let r = rs[rs.len() - 1];
        let v = recover::replayed(o, t);
        assert forall|i: int| 0 <= i < t.len() implies recover::record_fits(
            o.compaction_options is Simple,
            lsm_storage::initial_levels(o.compaction_options).len(),
            #[trigger] t[i],
        ) by {
            assert(t[i] == rs[i]);
        }
        lemma_replayed_below(o, t);
        assert(w == v.step(r));
        match r {
            ManifestRecord::Compaction(task, output) => {
                let task = task->Simple_0;
                let gone = task.upper_level_sst_ids@;
                assert forall|j: int| 0 <= j < output@.len() implies #[trigger] output@[j]
                    < w.next by {
                    lemma_largest(output@, j);
                }
                assert forall|j: int| 0 <= j < w.l0.len() implies #[trigger] w.l0[j] < w.next by {
                    if task.upper_level is None {
                        let keep = |id: usize| !gone.contains(id);
                        assert(v.l0.filter(keep)[j] == w.l0[j]);
                        v.l0.lemma_filter_contains_rev(keep, w.l0[j]);
                        let k = v.l0.index_of(w.l0[j]);
                        assert(v.l0[k] < v.next);
                    }
                }
                assert forall|n: int, j: int|
                    0 <= n < w.levels.len() && 0 <= j < w.levels[n].1.len() implies
                    #[trigger] w.levels[n].1[j] < w.next by {
                    if w.levels[n].1 == output@ {
                        assert(output@[j] < w.next);
                    } else {
                        assert(w.levels[n] == v.levels[n]);
                        assert(v.levels[n].1[j] < v.next);
                    }
                }
            },
            ManifestRecord::Flush(id) => {
                assert forall|j: int| 0 <= j < w.l0.len() implies #[trigger] w.l0[j] < w.next by {
                    if j > 0 {
                        assert(w.l0[j] == v.l0[j - 1]);
                    }
                }
                assert(w.levels == v.levels);
            },
            ManifestRecord::NewMemtable(id) => {
                assert(w.levels == v.levels && w.l0 == v.l0);
            },
        }
    }
}

/// A state with no more than an empty memtable has the versions of its tables, which are layered
/// like those of a state with the same tables.
proof fn lemma_empty_memtable(a: LsmStorageState, b: LsmStorageState)
    requires
        b.memtable.versions() == Map::<KeyTs, Seq<u8>>::empty(),
        b.imm_memtables@ == Seq::<MemTable>::empty(),
        same_tables(a, b),
    ensures
        b.versions() == model::prefer(a.l0_versions(), a.level_versions()),
        model::layered(a.layers()) ==> model::layered(b.layers()),
        b.keys_nonempty(),
{
    let none = Map::<KeyTs, Seq<u8>>::empty();
    let x = a.memtables().map_values(|m: MemTable| m.versions());
    let y = b.memtables().map_values(|m: MemTable| m.versions());
    let l0 = lsm_storage::table_maps(a.sstables@, a.l0_sstables@);
    let levels = lsm_storage::level_maps(a.sstables@, a.levels@);
    assert(y =~= seq![none]);
    assert(y[0] == none);
    assert(y.skip(1) =~= Seq::empty());
    assert(model::merged(y.skip(1)) == none);
    assert(model::merged(y) == model::prefer(none, none));
    assert(model::prefer(none, none) =~= none);
    assert(model::prefer(none, a.l0_versions()) =~= a.l0_versions());
    assert(a.layers() =~= x + (l0 + levels));
    model::lemma_layered_append(x, l0 + levels);
    assert(b.layers() =~= seq![none] + (l0 + levels));
    assert(b.layers().skip(1) =~= l0 + levels);
    assert forall|j: int, k: KeyTs|
        0 <= j < b.memtables().len() && #[trigger] b.memtables()[j].versions().contains_key(
            k,
        ) implies k.key.len() > 0 by {
        assert(y[j] == none);
    }
}

/// The ids of tables that the records of a manifest lead to are below the next id.
proof fn lemma_used_below(s: LsmStorageState, o: LsmStorageOptions, rs: Seq<ManifestRecord>, id: usize)
    requires
        recover::records_fit(o, rs),
        recover::replayed(o, rs).l0 == s.l0_sstables@,
        recover::replayed(o, rs).levels == lsm_storage::level_ids(s.levels@),
        recover::used_ids(s).contains(id),
    ensures
        id < recover::replayed(o, rs).next,
{
    let v = recover::replayed(o, rs);
    lemma_replayed_below(o, rs);
    let k = recover::used_ids(s).index_of(id);
    let n0 = s.l0_sstables@.len();
    if k < n0 {
        assert(v.l0[k] < v.next);
    } else {
        let (n, j) = lemma_in_level(v.levels, k - n0);
        assert(v.levels[n].1[j] < v.next);
    }
}

/// A restart without logs brings back the tables and an empty memtable, and leaves the engine
/// settled.
pub proof fn lemma_restart_without_logs(
    before: LsmStorageInner,
    rs: Seq<ManifestRecord>,
    order: ByteOrder,
    r: Recovery,
    logs: Seq<Vec<u8>>,
    files: Seq<FileObject>,
    i: LsmStorageInner,
)
    requires
        !before.options.enable_wal,
        is_recorded(before, rs),
        files_kept(before.state, files),
        recover::is_recovery(before.options, rs, r),
        recover::is_restarted(order, before.options, r, logs, files, i),
    ensures
        i.state.versions() == model::prefer(
            before.state.l0_versions(),
            before.state.level_versions(),
        ),
        before.settled() ==> i.settled(),
{
    let a = before.state;
    let b = i.state;
    lemma_restart_tables(a, order, before.options, r, logs, files, i);
    lemma_empty_memtable(a, b);
    if before.settled() {
        reveal(LsmStorageInner::settled);
        assert forall|id: usize| #[trigger] b.sstables@.contains_key(id) implies id
            < i.next_sst_id && a.sstables@.contains_key(id) by {
            lemma_used_known(a, id);
            lemma_used_below(a, before.options, rs, id);
        }
    }
}

/// The commit timestamp after a restart is not made up: it is that of a version in a table in use or
/// in a memtable, or 0.
pub proof fn lemma_restart_timestamp(
    order: ByteOrder,
    o: LsmStorageOptions,
    r: Recovery,
    logs: Seq<Vec<u8>>,
    files: Seq<FileObject>,
    i: LsmStorageInner,
)
    requires
        recover::is_restarted(order, o, r, logs, files, i),
    ensures
        i.mvcc.latest() == 0 || (exists|j: int, x: int|
            0 <= j < recover::used_ids(i.state).len() && 0 <= x
                < i.state.sstables@[recover::used_ids(i.state)[j]].entries().len()
                && #[trigger] i.state.sstables@[recover::used_ids(i.state)[j]].entries()[x].key.ts
                == i.mvcc.latest()) || (exists|j: int, k: KeyTs|
            0 <= j < i.state.memtables().len()
                && #[trigger] i.state.memtables()[j].versions().contains_key(k) && k.ts
                == i.mvcc.latest()),
{
    let ids = recover::used_ids(i.state);
    let tables = i.state.sstables@;
    let ms = i.state.memtables();
    let a = recover::tables_ts(tables, ids);
    let b = recover::mems_ts(ms);
    if i.mvcc.latest() > 0 {
        if a < b {
            let j = lemma_mems_ts_found(ms);
            let run = model::sorted_entries(ms[j].versions());
            let shown = mem_table::shown(run);
            assert(ms[j].versions().dom().finite());
            model::lemma_sorted_entries(ms[j].versions());
            let x = model::lemma_max_ts_found(shown);
            model::lemma_entry_map_index(run, x);
            assert(ms[j].versions().contains_key(run[x].key));
        } else {
            let j = lemma_tables_ts_found(tables, ids);
            assert(tables.contains_key(ids[j]));
            let t = tables[ids[j]];
            let k = choose|k: int|
                0 <= k < ids.len() && ids[k] == ids[j] && #[trigger] recover::is_opened(
                    t,
                    ids[j],
                    files[k].data@,
                );
            let x = model::lemma_max_ts_found(t.entries());
            assert(tables[ids[j]].entries()[x].key.ts == i.mvcc.latest());
        }
    }
}

proof fn lemma_mems_ts_found(ms: Seq<MemTable>) -> (j: int)
    requires
        recover::mems_ts(ms) > 0,
    ensures
        0 <= j < ms.len(),
        recover::mem_ts(ms[j]) == recover::mems_ts(ms),
    decreases ms.len(),
{
    let t = ms.drop_last();
    if recover::mems_ts(t) < recover::mem_ts(ms.last()) {
        ms.len() - 1
    } else {
        lemma_mems_ts_found(t)
    }
}

proof fn lemma_tables_ts_found(tables: Map<usize, SsTable>, ids: Seq<usize>) -> (j: int)
    requires
        recover::tables_ts(tables, ids) > 0,
    ensures
        0 <= j < ids.len(),
        tables[ids[j]].newest() == recover::tables_ts(tables, ids),
    decreases ids.len(),
{
    let t = ids.drop_last();
    if recover::tables_ts(tables, t) < tables[ids.last()].newest() {
        ids.len() - 1
    } else {
        lemma_tables_ts_found(tables, t)
    }
}

/// The record of a compaction leads to the lists of tables to which the compaction itself leads, and
/// no id that it brings is given out again.
pub proof fn lemma_compaction_replayed(
    o: LsmStorageOptions,
    rs: Seq<ManifestRecord>,
    a: LsmStorageState,
    b: LsmStorageState,
    task: SimpleLeveledCompactionTask,
    output: Vec<usize>,
    removed: Seq<usize>,
)
    requires
        recover::replayed(o, rs).l0 == a.l0_sstables@,
        recover::replayed(o, rs).levels == lsm_storage::level_ids(a.levels@),
        simple_leveled::is_applied(a, b, task, output@, removed),
    ensures
        ({
            let r = ManifestRecord::Compaction(CompactionTask::Simple(task), output);
            let v = recover::replayed(o, rs.push(r));
            &&& v.l0 == b.l0_sstables@
            &&& v.levels == lsm_storage::level_ids(b.levels@)
            &&& v.next >= recover::replayed(o, rs).next
            &&& forall|j: int| 0 <= j < output@.len() ==> #[trigger] output@[j] < v.next
            &&& v.memtables == recover::replayed(o, rs).memtables
            &&& v.flushed == recover::replayed(o, rs).flushed
        }),
{
    let r = ManifestRecord::Compaction(CompactionTask::Simple(task), output);
    let v = recover::replayed(o, rs.push(r));
    assert(rs.push(r).drop_last() =~= rs);
    assert forall|j: int| 0 <= j < output@.len() implies #[trigger] output@[j] < v.next by {
        lemma_largest(output@, j);
    }
}

/// What records lead to: a new memtable stands before the others, a flushed one is noted and its table
/// is the latest of L0, and no id that occurs is given out again.
pub proof fn lemma_record_replayed(o: LsmStorageOptions, rs: Seq<ManifestRecord>, id: usize)
    ensures
        ({
            let v = recover::replayed(o, rs);
            let w = recover::replayed(o, rs.push(ManifestRecord::NewMemtable(id)));
            &&& w.memtables.len() == v.memtables.len() + 1 && w.memtables[0] == id
                && w.memtables.skip(1) == v.memtables
            &&& w.next > id && w.next >= v.next && (w.next == v.next || w.next == id + 1)
            &&& w.l0 == v.l0 && w.levels == v.levels && w.flushed == v.flushed
        }),
        ({
            let v = recover::replayed(o, rs);
            let w = recover::replayed(o, rs.push(ManifestRecord::Flush(id)));
            &&& w.l0.len() == v.l0.len() + 1 && w.l0[0] == id && w.l0.skip(1) == v.l0
            &&& w.flushed.contains(id) && forall|x: usize|
                x != id ==> (#[trigger] w.flushed.contains(x) <==> v.flushed.contains(x))
            &&& w.next > id && w.next >= v.next && (w.next == v.next || w.next == id + 1)
            &&& w.memtables == v.memtables && w.levels == v.levels
        }),
{
    let v = recover::replayed(o, rs);
    let a = rs.push(ManifestRecord::NewMemtable(id));
    let b = rs.push(ManifestRecord::Flush(id));
    assert(a.drop_last() =~= rs && b.drop_last() =~= rs);
    assert(recover::replayed(o, a).memtables.skip(1) =~= v.memtables);
    assert(recover::replayed(o, b).l0.skip(1) =~= v.l0);
}

/// How a restart ends: with the reason of the first log that makes no memtable, where there are logs;
/// otherwise with `Corrupted` if one of the files is not that of a table; and otherwise well.
pub proof fn lemma_restart_outcome(
    order: ByteOrder,
    o: LsmStorageOptions,
    r: Recovery,
    logs: Seq<Vec<u8>>,
    files: Seq<FileObject>,
    x: Result<LsmStorageInner, LsmError>,
)
    requires
        recover::is_restart(order, o, r, logs, files, x),
    ensures
        x is Ok <==> {
            &&& o.enable_wal ==> forall|j: int|
                0 <= j < logs.len() ==> mem_table::recovery_error(order, (#[trigger] logs[j])@)
                    is None
            &&& forall|j: int|
                0 <= j < files.len() ==> layout::valid_file((#[trigger] files[j]).data@)
        },
        x is Err && (o.enable_wal ==> forall|j: int|
            0 <= j < logs.len() ==> mem_table::recovery_error(order, (#[trigger] logs[j])@) is None)
            ==> x->Err_0 == LsmError::Corrupted,
        x is Err && o.enable_wal && recover::logs_error(order, logs) is Some ==> x->Err_0
            == recover::logs_error(order, logs)->0,
        x matches Ok(i) ==> {
            &&& i.options == o
            &&& i.next_sst_id == r.next_sst_id
            &&& i.state.l0_sstables == r.state.l0_sstables
            &&& i.state.levels == r.state.levels
            &&& i.manifest.pending@.len() == 0
            &&& o.enable_wal && r.memtables@.len() > 0 ==> mem_ids(i.state).len() == logs.len()
                && forall|j: int|
                0 <= j < logs.len() ==> #[trigger] mem_ids(i.state)[j] == r.memtables@[j]
            &&& forall|id: usize| #[trigger]
                i.state.sstables@.contains_key(id) <==> recover::used_ids(i.state).contains(id)
        },
{
    lemma_first_bad_log(order, logs);
    if let Ok(i) = x {
        let ids = recover::used_ids(i.state);
        if o.enable_wal && r.memtables@.len() > 0 {
            let ms = i.state.memtables();
            assert forall|j: int| 0 <= j < logs.len() implies #[trigger] mem_ids(i.state)[j]
                == r.memtables@[j] by {
                assert(mem_table::is_recovered(order, r.memtables@[j], logs[j]@, Ok(ms[j])));
            }
        }
        assert forall|id: usize| #[trigger] i.state.sstables@.contains_key(id) <==> ids.contains(
            id,
        ) by {
            if i.state.sstables@.contains_key(id) {
                let k = choose|k: int|
                    0 <= k < ids.len() && ids[k] == id && #[trigger] recover::is_opened(
                        i.state.sstables@[id],
                        id,
                        files[k].data@,
                    );
                assert(ids[k] == id);
            }
            if ids.contains(id) {
                let k = ids.index_of(id);
                assert(i.state.sstables@.contains_key(ids[k]));
            }
        }
    }
}

/// The tables in use are those of L0 and those of the levels.
pub proof fn lemma_used_ids(s: LsmStorageState, id: usize)
    ensures
        recover::used_ids(s).contains(id) <==> s.l0_sstables@.contains(id) || exists|n: int|
            0 <= n < s.levels@.len() && (#[trigger] s.levels@[n]).1@.contains(id),
{
    let ids = recover::used_ids(s);
    let l0 = s.l0_sstables@;
    let ls = lsm_storage::level_ids(s.levels@);
    if ids.contains(id) {
        let k = ids.index_of(id);
        if k < l0.len() {
            assert(l0[k] == id);
        } else {
            let (n, j) = lemma_in_level(ls, k - l0.len());
            assert(s.levels@[n].1@[j] == id);
            assert(s.levels@[n].1@.contains(id));
        }
    }
    if l0.contains(id) {
        let k = l0.index_of(id);
        assert(ids[k] == id);
    }
    assert forall|n: int|
        0 <= n < s.levels@.len() && (#[trigger] s.levels@[n]).1@.contains(id) implies ids.contains(
        id,
    ) by {
        let j = s.levels@[n].1@.index_of(id);
        assert(ls[n].1 == s.levels@[n].1@);
        let z = recover::lemma_ids_in(ls, n, j);
        assert(ids[l0.len() + z] == id);
    }
}

/// Which records of a manifest are accepted: those whose ids leave room for a next one and, of
/// compactions, those of the simple leveled policy whose levels are there.
pub proof fn lemma_record_fits(simple: bool, levels: nat, r: ManifestRecord)
    ensures
        r matches ManifestRecord::NewMemtable(id) ==> (recover::record_fits(simple, levels, r)
            <==> id < usize::MAX),
        r matches ManifestRecord::Flush(id) ==> (recover::record_fits(simple, levels, r) <==> id
            < usize::MAX),
        r matches ManifestRecord::Compaction(task, output) ==> (recover::record_fits(
            simple,
            levels,
            r,
        ) <==> {
            &&& simple && task is Simple
            &&& task->Simple_0.upper_level is None ==> levels > 0
            &&& task->Simple_0.upper_level matches Some(u) ==> 1 <= u <= levels && 1
                <= task->Simple_0.lower_level <= levels
            &&& forall|j: int| 0 <= j < output@.len() ==> #[trigger] output@[j] < usize::MAX
        }),
{
    if let ManifestRecord::Compaction(task, output) = r {
        lemma_largest_below(output@, usize::MAX as int);
    }
}

proof fn lemma_largest_below(ids: Seq<usize>, n: int)
    requires
        n > 0,
    ensures
        recover::largest(ids) < n <==> forall|j: int| 0 <= j < ids.len() ==> #[trigger] ids[j] < n,
    decreases ids.len(),
{
    if ids.len() > 0 {
        let t = ids.drop_last();
        lemma_largest_below(t, n);
        assert(ids[ids.len() - 1] == ids.last());
        assert forall|j: int| 0 <= j < t.len() implies #[trigger] t[j] == ids[j] by {}
        if recover::largest(ids) < n {
            assert forall|j: int| 0 <= j < ids.len() implies #[trigger] ids[j] < n by {
                if j < t.len() {
                    assert(t[j] == ids[j]);
                }
            }
        }
    }
}

/// The memtables that a restart looks for are those that were made and not flushed.
pub proof fn lemma_unflushed(r: recover::Replayed, id: usize)
    ensures
        recover::unflushed(r).contains(id) <==> r.memtables.contains(id) && !r.flushed.contains(id),
{
    let keep = |x: usize| !r.flushed.contains(x);
    if recover::unflushed(r).contains(id) {
        r.memtables.lemma_filter_contains_rev(keep, id);
        lemma_filter_keeps(r.memtables, keep, id);
    }
    if r.memtables.contains(id) && keep(id) {
        r.memtables.lemma_filter_contains(keep, r.memtables.index_of(id));
    }
}

proof fn lemma_filter_keeps(s: Seq<usize>, keep: spec_fn(usize) -> bool, x: usize)
    requires
        s.filter(keep).contains(x),
    ensures
        keep(x),
    decreases s.len(),
{
    reveal(Seq::filter);
    let r = s.filter(keep);
    let i = r.index_of(x);
    if s.len() > 0 {
        let q = s.drop_last().filter(keep);
        if i < q.len() {
            assert(q[i] == x);
            lemma_filter_keeps(s.drop_last(), keep, x);
        }
    }
}

/// A restart fails over its logs if and only if one of them makes no memtable, and for the reason of
/// the first that does not.
pub proof fn lemma_first_bad_log(order: ByteOrder, logs: Seq<Vec<u8>>)
    ensures
        recover::logs_error(order, logs) is None <==> forall|j: int|
            0 <= j < logs.len() ==> mem_table::recovery_error(order, (#[trigger] logs[j])@) is None,
        recover::logs_error(order, logs) matches Some(e) ==> exists|j: int|
            {
                &&& 0 <= j < logs.len()
                &&& mem_table::recovery_error(order, (#[trigger] logs[j])@) == Some(e)
                &&& forall|l: int|
                    0 <= l < j ==> mem_table::recovery_error(order, (#[trigger] logs[l])@) is None
            },
    decreases logs.len(),
{
    if logs.len() > 0 {
        let t = logs.drop_last();
        let n = logs.len() - 1;
        lemma_first_bad_log(order, t);
        assert forall|j: int| 0 <= j < t.len() implies #[trigger] t[j] == logs[j] by {}
        match recover::logs_error(order, t) {
            Some(e) => {
                let j = choose|j: int|
                    {
                        &&& 0 <= j < t.len()
                        &&& mem_table::recovery_error(order, (#[trigger] t[j])@) == Some(e)
                        &&& forall|l: int|
                            0 <= l < j ==> mem_table::recovery_error(order, (#[trigger] t[l])@)
                                is None
                    };
                assert(mem_table::recovery_error(order, logs[j]@) == Some(e));
                assert forall|l: int| 0 <= l < j implies mem_table::recovery_error(
                    order,
                    (#[trigger] logs[l])@,
                ) is None by {
                    assert(t[l] == logs[l]);
                }
            },
            None => {
                assert forall|l: int| 0 <= l < n implies mem_table::recovery_error(
                    order,
                    (#[trigger] logs[l])@,
                ) is None by {
                    assert(t[l] == logs[l]);
                }
                assert(logs[n] == logs.last());
            },
        }
    }
}

/// The levels with which an engine begins: as many as the options say, with the numbers from 1 on,
/// all empty; one if there is no compaction, and none where memtables are flushed to tiers.
pub proof fn lemma_initial_levels(o: CompactionOptions)
    ensures
        ({
            let ls = lsm_storage::initial_levels(o);
            &&& o matches CompactionOptions::Simple(x) ==> ls.len() == x.max_levels
            &&& o matches CompactionOptions::Leveled(x) ==> ls.len() == x.max_levels
            &&& o is Tiered ==> ls.len() == 0
            &&& o is NoCompaction ==> ls.len() == 1
            &&& forall|i: int|
                0 <= i < ls.len() && i < usize::MAX ==> (#[trigger] ls[i]).0 == i + 1
                    && ls[i].1.len() == 0
        }),
{
}

} // verus!
