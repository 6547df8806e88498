//! Starts the engine: from nothing, or from what an earlier run has left.
use vstd::prelude::*;
use std::collections::{HashMap, HashSet};
use crate::compact;
use crate::compact::simple_leveled;
use crate::compact::run;
use crate::compact::{CompactionController, CompactionTask};
use crate::deps;
use crate::deps::Bound;
use crate::error::LsmError;
use crate::iterators::StorageIterator;
use crate::iterators::concat_iterator;
use crate::key;
use crate::key::{KeyTs, Order};
use crate::lsm_storage;
use crate::lsm_storage::{LsmStorageInner, LsmStorageOptions, LsmStorageState};
use crate::manifest::{Manifest, ManifestRecord};
use crate::mem_table;
use crate::mem_table::MemTable;
use crate::model;
use crate::mvcc::LsmMvccInner;
use crate::table::layout;
use crate::table::{FileObject, SsTable};
use crate::wal;
use crate::wal::ByteOrder;

verus! {

/// What the records of a manifest lead to.
#[verifier::ext_equal]
pub struct Replayed {
    pub l0: Seq<usize>,
    pub levels: Seq<(usize, Seq<usize>)>,
    pub next: int,
    /// The memtables that were made, from latest to earliest.
    pub memtables: Seq<usize>,
    pub flushed: Set<usize>,
}

pub open spec fn larger(a: int, b: int) -> int {
    if a < b {
        b
    } else {
        a
    }
}

/// The largest of some ids; 0 if there is none.
pub open spec fn largest(ids: Seq<usize>) -> int
    decreases ids.len(),
{
    if ids.len() == 0 {
        0
    } else {
        larger(largest(ids.drop_last()), ids.last() as int)
    }
}

/// The record fits what is there: its ids can be counted on, and a compaction is one that the
/// policy can apply to the levels.
pub open spec fn record_fits(simple: bool, levels: nat, r: ManifestRecord) -> bool {
    match r {
        ManifestRecord::NewMemtable(id) => id < usize::MAX,
        ManifestRecord::Flush(id) => id < usize::MAX,
        ManifestRecord::Compaction(task, output) => {
            &&& simple
            &&& task matches CompactionTask::Simple(t) && simple_leveled::applies(levels, t)
            &&& largest(output@) < usize::MAX
        },
    }
}

impl Replayed {
    /// What one more record leads to.
    pub open spec fn step(self, r: ManifestRecord) -> Replayed {
        match r {
            ManifestRecord::NewMemtable(id) => Replayed {
                next: larger(self.next, id + 1),
                memtables: seq![id] + self.memtables,
                ..self
            },
            ManifestRecord::Flush(id) => Replayed {
                next: larger(self.next, id + 1),
                l0: seq![id] + self.l0,
                flushed: self.flushed.insert(id),
                ..self
            },
            ManifestRecord::Compaction(task, output) => {
                let t = task->Simple_0;
                let next = larger(self.next, largest(output@) + 1);
                match t.upper_level {
                    None => Replayed {
                        next,
                        l0: lsm_storage::left_out(self.l0, t.upper_level_sst_ids@),
                        levels: self.levels.update(0, (1, output@)),
                        ..self
                    },
                    Some(u) => Replayed {
                        next,
                        levels: self.levels.update(u - 1, (u, Seq::empty())).update(
                            t.lower_level - 1,
                            (t.lower_level, output@),
                        ),
                        ..self
                    },
                }
            },
        }
    }
}

/// What is there before the first record.
pub open spec fn nothing_replayed(o: LsmStorageOptions) -> Replayed {
    Replayed {
        l0: Seq::empty(),
        levels: lsm_storage::initial_levels(o.compaction_options),
        next: 0,
        memtables: Seq::empty(),
        flushed: Set::empty(),
    }
}

/// What records lead to.
pub open spec fn replayed(o: LsmStorageOptions, rs: Seq<ManifestRecord>) -> Replayed
    decreases rs.len(),
{
    if rs.len() == 0 {
        nothing_replayed(o)
    } else {
        replayed(o, rs.drop_last()).step(rs.last())
    }
}

/// Each record fits what the records before it lead to.
pub open spec fn records_fit(o: LsmStorageOptions, rs: Seq<ManifestRecord>) -> bool {
    forall|i: int|
        0 <= i < rs.len() ==> record_fits(
            o.compaction_options is Simple,
            lsm_storage::initial_levels(o.compaction_options).len(),
            #[trigger] rs[i],
        )
}

/// The memtables that were not flushed, from latest to earliest.
pub open spec fn unflushed(r: Replayed) -> Seq<usize> {
    r.memtables.filter(|id: usize| !r.flushed.contains(id))
}

/// What is known before any other file than the manifest's is read.
pub struct Recovery {
    pub state: LsmStorageState,
    pub next_sst_id: usize,
    /// The memtables that were not flushed, from latest to earliest.
    pub memtables: Vec<usize>,
}

/// What is known agrees with what the records lead to.
pub open spec fn is_recovery(o: LsmStorageOptions, rs: Seq<ManifestRecord>, r: Recovery) -> bool {
    let v = replayed(o, rs);
    &&& r.state.l0_sstables@ == v.l0
    &&& lsm_storage::level_ids(r.state.levels@) == v.levels
    &&& r.next_sst_id == v.next
    &&& r.memtables@ == unflushed(v)
    &&& r.state.memtable.versions() == Map::<KeyTs, Seq<u8>>::empty()
    &&& r.state.memtable.spec_id() == 0
    &&& r.state.memtable.log() is None
    &&& r.state.memtable.size() == 0
    &&& r.state.imm_memtables@ == Seq::<MemTable>::empty()
    &&& r.state.sstables@ == Map::<usize, SsTable>::empty()
}

fn largest_id(ids: &Vec<usize>) -> (r: usize)
    ensures
        r == largest(ids@),
{
    let mut max: usize = 0;
    let mut i: usize = 0;
    while i < ids.len()
        invariant
            i <= ids@.len(),
            max == largest(ids@.take(i as int)),
        decreases ids@.len() - i,
    {
        if max < ids[i] {
            max = ids[i];
        }
        assert(ids@.take(i + 1).drop_last() =~= ids@.take(i as int));
        assert(ids@.take(i + 1).last() == ids@[i as int]);
        i = i + 1;
    }
    assert(ids@.take(i as int) =~= ids@);
    max
}

/// Tells whether a task of a manifest can be applied.
fn task_applies(task: &CompactionTask, levels: usize) -> (r: bool)
    ensures
        r == (*task matches CompactionTask::Simple(t) && simple_leveled::applies(levels as nat, t)),
{
    match task {
        CompactionTask::Simple(t) => match t.upper_level {
            None => levels > 0,
            Some(u) => 1 <= u && u <= levels && 1 <= t.lower_level && t.lower_level <= levels,
        },
        _ => false,
    }
}

/// The ids that are not in a set, in their order.
fn not_in(ids: &Vec<usize>, set: &HashSet<usize>) -> (r: Vec<usize>)
    ensures
        r@ == ids@.filter(|id: usize| !set@.contains(id)),
{
    let ghost keep = |id: usize| !set@.contains(id);
    let mut r: Vec<usize> = Vec::new();
    let mut i: usize = 0;
    proof {
        reveal(Seq::filter);
        assert(ids@.take(0).filter(keep) =~= Seq::empty());
    }
    while i < ids.len()
        invariant
            i <= ids@.len(),
            keep == (|id: usize| !set@.contains(id)),
            r@ == ids@.take(i as int).filter(keep),
        decreases ids@.len() - i,
    {
        broadcast use vstd::std_specs::hash::group_hash_axioms;

        proof {
            reveal(Seq::filter);
            assert(ids@.take(i + 1).drop_last() =~= ids@.take(i as int));
            assert(ids@.take(i + 1).last() == ids@[i as int]);
        }
        let id: usize = ids[i];
        if !set.contains(&id) {
            r.push(id);
        }
        i = i + 1;
    }
    assert(ids@.take(i as int) =~= ids@);
    r
}

/// Goes through the records of a manifest.
pub fn replay_manifest(options: &LsmStorageOptions, records: &Vec<ManifestRecord>) -> (r: Result<
    Recovery,
    LsmError,
>)
    ensures
        r is Ok <==> records_fit(*options, records@),
        r matches Err(e) ==> e == LsmError::BadRecord,
        r matches Ok(x) ==> is_recovery(*options, records@, x),
{
    broadcast use vstd::std_specs::hash::group_hash_axioms;

    let mut state = LsmStorageState::create(options);
    let compaction_controller = CompactionController::for_options(&options.compaction_options);
    let ghost all = records@;
    let ghost init = state;
    let mut next_sst_id: usize = 0;
    let mut flushed: HashSet<usize> = HashSet::new();
    let mut memtables: Vec<usize> = Vec::new();
    let levels: usize = state.levels.len();
    let mut i: usize = 0;
    proof {
        assert(all.take(0) =~= Seq::empty());
        assert(levels == lsm_storage::level_ids(state.levels@).len());
        assert(memtables@ =~= Seq::empty());
    }
    while i < records.len()
        invariant
            i <= all.len(),
            all == records@,
            levels == lsm_storage::initial_levels(options.compaction_options).len(),
            compaction_controller is Simple <==> options.compaction_options is Simple,
            forall|j: int|
                0 <= j < i ==> record_fits(
                    options.compaction_options is Simple,
                    levels as nat,
                    #[trigger] all[j],
                ),
            ({
                let v = replayed(*options, all.take(i as int));
                &&& state.l0_sstables@ == v.l0
                &&& lsm_storage::level_ids(state.levels@) == v.levels
                &&& v.levels.len() == levels
                &&& next_sst_id == v.next
                &&& memtables@ == v.memtables
                &&& flushed@ == v.flushed
            }),
            state.memtable == init.memtable,
            state.imm_memtables@ == init.imm_memtables@,
            state.sstables@ == init.sstables@,
        decreases all.len() - i,
    {
        broadcast use vstd::std_specs::hash::group_hash_axioms;

        proof {
            assert(all.take(i + 1).drop_last() =~= all.take(i as int));
            assert(all.take(i + 1).last() == all[i as int]);
            assert(state.levels@.len() == lsm_storage::level_ids(state.levels@).len());
        }
        match &records[i] {
            ManifestRecord::NewMemtable(id) => {
                if *id == usize::MAX {
                    return Err(LsmError::BadRecord);
                }
                if next_sst_id < *id + 1 {
                    next_sst_id = *id + 1;
                }
                let ghost before = memtables@;
                memtables.insert(0, *id);
                assert(memtables@ =~= seq![*id] + before);
            },
            ManifestRecord::Flush(id) => {
                if *id == usize::MAX {
                    return Err(LsmError::BadRecord);
                }
                if next_sst_id < *id + 1 {
                    next_sst_id = *id + 1;
                }
                let ghost before = state.l0_sstables@;
                state.l0_sstables.insert(0, *id);
                assert(state.l0_sstables@ =~= seq![*id] + before);
                flushed.insert(*id);
            },
            ManifestRecord::Compaction(task, output) => {
                let simple: bool = match &compaction_controller {
                    CompactionController::Simple(_) => true,
                    _ => false,
                };
                if !simple || !task_applies(task, state.levels.len()) {
                    return Err(LsmError::BadRecord);
                }
                let max: usize = largest_id(output);
                if max == usize::MAX {
                    return Err(LsmError::BadRecord);
                }
                let _ = compaction_controller.apply_compaction_result(
                    &mut state,
                    task,
                    output.as_slice(),
                );
                if next_sst_id < max + 1 {
                    next_sst_id = max + 1;
                }
            },
        }
        i = i + 1;
    }
    assert(all.take(i as int) =~= all);
    let memtables = not_in(&memtables, &flushed);
    Ok(Recovery { state, next_sst_id, memtables })
}

/// The ids in levels, one level after the other.
pub open spec fn ids_in(levels: Seq<(usize, Seq<usize>)>) -> Seq<usize>
    decreases levels.len(),
{
    if levels.len() == 0 {
        Seq::empty()
    } else {
        ids_in(levels.drop_last()) + levels.last().1
    }
}

/// The ids of all tables in use: those of L0, then those of the levels.
pub open spec fn used_ids(s: LsmStorageState) -> Seq<usize> {
    s.l0_sstables@ + ids_in(lsm_storage::level_ids(s.levels@))
}

/// A table was opened from a file.
pub open spec fn is_opened(t: SsTable, id: usize, f: Seq<u8>) -> bool {
    &&& t.wf()
    &&& t.id() == id
    &&& layout::file_parts(f) matches Some(p) && t.layout() == p.layout
    &&& t.filter() matches Some(b) && layout::file_parts(f) matches Some(p) && deps::bytes_seq(
        b.filter,
    ) == p.filter && b.k == p.k
    &&& t.newest() == model::max_ts(t.entries())
}

/// The tables were opened from the files.
pub open spec fn are_opened(
    tables: Map<usize, SsTable>,
    ids: Seq<usize>,
    files: Seq<FileObject>,
) -> bool {
    &&& forall|i: int| 0 <= i < ids.len() ==> tables.contains_key(#[trigger] ids[i])
    &&& forall|id: usize| #[trigger]
        tables.contains_key(id) ==> exists|i: int|
            0 <= i < ids.len() && ids[i] == id && #[trigger] is_opened(
                tables[id],
                id,
                files[i].data@,
            )
}

/// The newest timestamp of some tables; 0 if there is none.
pub open spec fn tables_ts(tables: Map<usize, SsTable>, ids: Seq<usize>) -> u64
    decreases ids.len(),
{
    if ids.len() == 0 {
        0
    } else {
        model::larger(tables_ts(tables, ids.drop_last()), tables[ids.last()].newest())
    }
}

/// The newest timestamp that a scan of a memtable shows.
pub open spec fn mem_ts(m: MemTable) -> u64 {
    model::max_ts(mem_table::shown(model::sorted_entries(m.versions())))
}

/// The newest timestamp of some memtables; 0 if there is none.
pub open spec fn mems_ts(ms: Seq<MemTable>) -> u64
    decreases ms.len(),
{
    if ms.len() == 0 {
        0
    } else {
        model::larger(mems_ts(ms.drop_last()), mem_ts(ms.last()))
    }
}

impl LsmStorageState {
    /// The ids of all tables in use: those of L0, then those of the levels.
    pub fn sst_ids(&self) -> (r: Vec<usize>)
        ensures
            r@ == used_ids(*self),
    {
        let mut ids = lsm_storage::copy_ids(&self.l0_sstables);
        let ghost all = lsm_storage::level_ids(self.levels@);
        let mut i: usize = 0;
        assert(ids@ + ids_in(all.take(0)) =~= ids@);
        while i < self.levels.len()
            invariant
                i <= self.levels@.len(),
                all == lsm_storage::level_ids(self.levels@),
                ids@ == self.l0_sstables@ + ids_in(all.take(i as int)),
            decreases self.levels@.len() - i,
        {
            let mut more = lsm_storage::copy_ids(&self.levels[i].1);
            let ghost added = more@;
            let ghost before = ids@;
            ids.append(&mut more);
            proof {
                let t = all.take(i + 1);
                assert(t.drop_last() =~= all.take(i as int));
                assert(t.last() == all[i as int]);
                assert(ids@ =~= self.l0_sstables@ + ids_in(t));
            }
            i = i + 1;
        }
        assert(all.take(i as int) =~= all);
        ids
    }

    /// The newest timestamp of some tables.
    fn newest_table(&self, ids: &Vec<usize>) -> (r: u64)
        requires
            forall|i: int| 0 <= i < ids@.len() ==> self.sstables@.contains_key(#[trigger] ids@[i]),
        ensures
            r == tables_ts(self.sstables@, ids@),
    {
        let mut max_ts: u64 = 0;
        let mut i: usize = 0;
        while i < ids.len()
            invariant
                i <= ids@.len(),
                forall|j: int|
                    0 <= j < ids@.len() ==> self.sstables@.contains_key(#[trigger] ids@[j]),
                max_ts == tables_ts(self.sstables@, ids@.take(i as int)),
            decreases ids@.len() - i,
        {
            broadcast use vstd::std_specs::hash::group_hash_axioms;

            assert(self.sstables@.contains_key(ids@[i as int]));
            match self.sstables.get(&ids[i]) {
                Some(t) => {
                    if max_ts < t.max_ts() {
                        max_ts = t.max_ts();
                    }
                },
                None => {
                    assert(false);
                },
            }
            assert(ids@.take(i + 1).drop_last() =~= ids@.take(i as int));
            assert(ids@.take(i + 1).last() == ids@[i as int]);
            i = i + 1;
        }
        assert(ids@.take(i as int) =~= ids@);
        max_ts
    }

    /// The newest timestamp of the memtables and of what came before.
    fn newest_memtable(&self, before: u64) -> (r: u64)
        ensures
            r == model::larger(before, mems_ts(self.memtables())),
            forall|i: int|
                0 <= i < self.memtables().len() ==> (
                #[trigger] self.memtables()[i]).versions().dom().finite(),
    {
        let ghost ms = self.memtables();
        let mut max_ts: u64 = newest_in(&self.memtable, before);
        let mut i: usize = 0;
        proof {
            assert(ms.take(1).drop_last() =~= Seq::empty());
            assert(ms.take(1).last() == self.memtable);
            assert(mems_ts(ms.take(1).drop_last()) == 0);
        }
        while i < self.imm_memtables.len()
            invariant
                i <= self.imm_memtables@.len(),
                ms == self.memtables(),
                max_ts == model::larger(before, mems_ts(ms.take(i + 1))),
                forall|j: int| 0 <= j <= i ==> (#[trigger] ms[j]).versions().dom().finite(),
            decreases self.imm_memtables@.len() - i,
        {
            max_ts = newest_in(&self.imm_memtables[i], max_ts);
            assert(ms[i + 1] == self.imm_memtables@[i as int]);
            assert(ms.take(i + 2).drop_last() =~= ms.take(i + 1));
            assert(ms.take(i + 2).last() == ms[i + 1]);
            i = i + 1;
        }
        assert(ms.take(i + 1) =~= ms);
        max_ts
    }
}

/// The newest timestamp that a scan of a memtable shows, or that came before.
fn newest_in(memtable: &MemTable, before: u64) -> (r: u64)
    ensures
        r == model::larger(before, mem_ts(*memtable)),
        memtable.versions().dom().finite(),
{
    let mut max_ts: u64 = before;
    let mut iter = memtable.scan(Bound::Unbounded, Bound::Unbounded);
    let ghost s = iter.remaining();
    let ghost mut n: int = 0;
    proof {
        assert(model::in_range(memtable.versions(), Bound::Unbounded, Bound::Unbounded)
            =~= memtable.versions());
        assert(s.skip(0) =~= s);
        assert(s.take(0) =~= Seq::empty());
    }
    while iter.is_valid()
        invariant
            iter.wf(),
            0 <= n <= s.len(),
            iter.remaining() == s.skip(n),
            max_ts == model::larger(before, model::max_ts(s.take(n))),
        decreases s.len() - n,
    {
        let ts: u64 = iter.key().ts();
        if max_ts < ts {
            max_ts = ts;
        }
        proof {
            assert(s.skip(n)[0] == s[n]);
            assert(s.take(n + 1).drop_last() =~= s.take(n));
            assert(s.take(n + 1).last() == s[n]);
            assert(s.skip(n).skip(1) =~= s.skip(n + 1));
            n = n + 1;
        }
        let _ = iter.next();
    }
    assert(s.take(n) =~= s);
    max_ts
}

/// Opens tables from files.
fn open_tables(ids: &Vec<usize>, files: Vec<FileObject>) -> (r: Result<HashMap<usize, SsTable>, LsmError>)
    requires
        files@.len() == ids@.len(),
    ensures
        r is Ok <==> forall|i: int|
            0 <= i < files@.len() ==> layout::valid_file((#[trigger] files@[i]).data@),
        r matches Ok(tables) ==> are_opened(tables@, ids@, files@),
        r matches Err(e) ==> e == LsmError::Corrupted,
{
    let ghost all = files@;
    let n: usize = ids.len();
    let mut tables: HashMap<usize, SsTable> = HashMap::new();
    let mut i: usize = 0;
    proof {
        broadcast use vstd::std_specs::hash::group_hash_axioms;

        assert(tables@ == Map::<usize, SsTable>::empty());
    }
    for file in it: files.into_iter()
        invariant
            it.seq() == all,
            i == it.index(),
            i <= n,
            n == ids@.len(),
            all.len() == n,
            forall|j: int| 0 <= j < i ==> layout::valid_file((#[trigger] all[j]).data@),
            are_opened(tables@, ids@.take(i as int), all),
    {
        broadcast use vstd::std_specs::hash::group_hash_axioms;

        let ghost before = tables@;
        let ghost seen = ids@.take(i as int);
        assert(file == all[i as int]);
        let id: usize = ids[i];
        match SsTable::open(id, file) {
            Err(e) => {
                return Err(e);
            },
            Ok(sst) => {
                let ghost t = sst;
                tables.insert(id, sst);
                proof {
                    let now = ids@.take(i + 1);
                    assert forall|j: int| 0 <= j < now.len() implies tables@.contains_key(
                        #[trigger] now[j],
                    ) by {
                        if j < i {
                            assert(seen[j] == now[j]);
                        }
                    }
                    assert forall|x: usize| #[trigger] tables@.contains_key(x) implies exists|j: int|
                        0 <= j < now.len() && now[j] == x && #[trigger] is_opened(
                            tables@[x],
                            x,
                            all[j].data@,
                        ) by {
                        if x == id {
                            assert(now[i as int] == x);
                            assert(is_opened(tables@[x], x, all[i as int].data@));
                        } else {
                            assert(before.contains_key(x));
                            let j = choose|j: int|
                                0 <= j < seen.len() && seen[j] == x && #[trigger] is_opened(
                                    before[x],
                                    x,
                                    all[j].data@,
                                );
                            assert(now[j] == x);
                            assert(is_opened(tables@[x], x, all[j].data@));
                        }
                    }
                }
            },
        }
        i = i + 1;
    }
    assert(ids@.take(i as int) =~= ids@);
    Ok(tables)
}

/// Why the first log that makes no memtable does not, if there is one.
pub open spec fn logs_error(order: ByteOrder, logs: Seq<Vec<u8>>) -> Option<LsmError>
    decreases logs.len(),
{
    if logs.len() == 0 {
        None
    } else {
        match logs_error(order, logs.drop_last()) {
            Some(e) => Some(e),
            None => mem_table::recovery_error(order, logs.last()@),
        }
    }
}

/// The memtables were recovered from the logs.
pub open spec fn are_recovered(
    order: ByteOrder,
    ids: Seq<usize>,
    logs: Seq<Vec<u8>>,
    ms: Seq<MemTable>,
) -> bool {
    &&& ms.len() == logs.len()
    &&& forall|i: int|
        0 <= i < ms.len() ==> #[trigger] mem_table::is_recovered(
            order,
            ids[i],
            logs[i]@,
            Ok(ms[i]),
        )
}

/// Recovers memtables from their logs.
fn recover_memtables(order: ByteOrder, ids: &Vec<usize>, logs: &Vec<Vec<u8>>) -> (r: Result<
    Vec<MemTable>,
    LsmError,
>)
    requires
        ids@.len() == logs@.len(),
    ensures
        match logs_error(order, logs@) {
            None => r matches Ok(ms) && are_recovered(order, ids@, logs@, ms@),
            Some(e) => r == Err::<Vec<MemTable>, LsmError>(e),
        },
{
    let mut ms: Vec<MemTable> = Vec::new();
    let mut i: usize = 0;
    while i < logs.len()
        invariant
            i <= logs@.len(),
            ids@.len() == logs@.len(),
            logs_error(order, logs@.take(i as int)) is None,
            ms@.len() == i,
            forall|j: int|
                0 <= j < i ==> #[trigger] mem_table::is_recovered(
                    order,
                    ids@[j],
                    logs@[j]@,
                    Ok(ms@[j]),
                ),
        decreases logs@.len() - i,
    {
        proof {
            let t = logs@.take(i + 1);
            assert(t.drop_last() =~= logs@.take(i as int));
            assert(t.last() == logs@[i as int]);
            if mem_table::recovery_error(order, logs@[i as int]@) is Some {
                lemma_logs_error(order, logs@, i + 1);
            }
        }
        let ghost before = ms@;
        match MemTable::recover_with_order(order, ids[i], logs[i].as_slice()) {
            Err(e) => {
                return Err(e);
            },
            Ok(m) => {
                ms.push(m);
                assert forall|j: int| 0 <= j < i + 1 implies #[trigger] mem_table::is_recovered(
                    order,
                    ids@[j],
                    logs@[j]@,
                    Ok(ms@[j]),
                ) by {
                    if j < i {
                        assert(mem_table::is_recovered(order, ids@[j], logs@[j]@, Ok(before[j])));
                    }
                }
            },
        }
        i = i + 1;
    }
    assert(logs@.take(i as int) =~= logs@);
    Ok(ms)
}

/// The first log that cannot be read decides.
proof fn lemma_logs_error(order: ByteOrder, logs: Seq<Vec<u8>>, n: int)
    requires
        0 <= n <= logs.len(),
        logs_error(order, logs.take(n)) is Some,
    ensures
        logs_error(order, logs) == logs_error(order, logs.take(n)),
    decreases logs.len() - n,
{
    if n < logs.len() {
        assert(logs.take(n + 1).drop_last() =~= logs.take(n));
        lemma_logs_error(order, logs, n + 1);
    } else {
        assert(logs.take(n) =~= logs);
    }
}

/// The engine as it is after a restart.
pub open spec fn is_restarted(
    order: ByteOrder,
    o: LsmStorageOptions,
    r: Recovery,
    logs: Seq<Vec<u8>>,
    files: Seq<FileObject>,
    i: LsmStorageInner,
) -> bool {
    &&& i.options == o
    &&& compact::controls(o.compaction_options, i.compaction_controller)
    &&& i.next_sst_id == r.next_sst_id
    &&& i.manifest.pending@ == Seq::<ManifestRecord>::empty()
    &&& i.compaction_filters@ == Seq::<lsm_storage::CompactionFilter>::empty()
    &&& i.state.l0_sstables == r.state.l0_sstables
    &&& i.state.levels == r.state.levels
    &&& are_opened(i.state.sstables@, used_ids(i.state), files)
    &&& if o.enable_wal && r.memtables@.len() > 0 {
        are_recovered(order, r.memtables@, logs, i.state.memtables())
    } else {
        i.state.memtable == r.state.memtable && i.state.imm_memtables@
            == r.state.imm_memtables@
    }
    &&& i.mvcc.latest() == model::larger(
        tables_ts(i.state.sstables@, used_ids(i.state)),
        mems_ts(i.state.memtables()),
    )
    &&& forall|j: int|
        0 <= j < i.state.memtables().len() ==> (
        #[trigger] i.state.memtables()[j]).versions().dom().finite()
    &&& i.state.keys_nonempty() ==> i.bounded()
}

/// The outcome of a restart: it fails at the first log that cannot be read to its end, and
/// otherwise if one of the files is not that of a table.
pub open spec fn is_restart(
    order: ByteOrder,
    o: LsmStorageOptions,
    recovery: Recovery,
    logs: Seq<Vec<u8>>,
    files: Seq<FileObject>,
    r: Result<LsmStorageInner, LsmError>,
) -> bool {
    let broken = if o.enable_wal {
        logs_error(order, logs)
    } else {
        None
    };
    match broken {
        Some(e) => r == Err::<LsmStorageInner, LsmError>(e),
        None => if forall|i: int|
            0 <= i < files.len() ==> layout::valid_file((#[trigger] files[i]).data@) {
            r matches Ok(i) && is_restarted(order, o, recovery, logs, files, i)
        } else {
            r == Err::<LsmStorageInner, LsmError>(LsmError::Corrupted)
        },
    }
}

impl LsmStorageInner {
    /// Starts the engine from nothing.
    pub fn create(options: LsmStorageOptions) -> (r: LsmStorageInner)
        ensures
            r.options == options,
            r.state.wf(),
            r.ids_fresh(),
            r.bounded(),
            options.block_size <= 0x1_0000 ==> r.intact(),
            r.next_sst_id == 1,
            r.mvcc.latest() == 0,
            r.state.versions() == Map::<KeyTs, Seq<u8>>::empty(),
            r.state.memtable.versions() == Map::<KeyTs, Seq<u8>>::empty(),
            r.state.memtable.spec_id() == 0,
            r.state.memtable.size() == 0,
            r.state.imm_memtables@ == Seq::<MemTable>::empty(),
            r.state.l0_sstables@ == Seq::<usize>::empty(),
            lsm_storage::level_ids(r.state.levels@) == lsm_storage::initial_levels(
                options.compaction_options,
            ),
            r.state.sstables@ == Map::<usize, SsTable>::empty(),
            r.compaction_filters@ == Seq::<lsm_storage::CompactionFilter>::empty(),
            if options.enable_wal {
                &&& r.state.memtable.log() matches Some(w) && w.pending() == Seq::<u8>::empty()
                &&& r.manifest.pending@ == seq![ManifestRecord::NewMemtable(0)]
            } else {
                &&& r.state.memtable.log() is None
                &&& r.manifest.pending@ == Seq::<ManifestRecord>::empty()
            },
            compact::controls(options.compaction_options, r.compaction_controller),
            r.state.numbered(),
    {
        let mut state = LsmStorageState::create(&options);
        let ghost init = state;
        let mut manifest = Manifest::create();
        if options.enable_wal {
            state.memtable = MemTable::create_with_wal(0);
            manifest.add_record(ManifestRecord::NewMemtable(0));
            assert(manifest.pending@ =~= seq![ManifestRecord::NewMemtable(0)]);
        }
        let compaction_controller = CompactionController::for_options(
            &options.compaction_options,
        );
        proof {
            let f = |m: MemTable| m.versions();
            assert(state.memtables().map_values(f) =~= init.memtables().map_values(f));
            assert forall|i: int| 0 <= i < state.levels@.len() implies (
            #[trigger] state.levels@[i]).1@.len() == 0 && state.levels@[i].0 == i + 1 by {
                let x = lsm_storage::level_ids(state.levels@);
                assert(x == lsm_storage::initial_levels(options.compaction_options));
                assert(x.len() == state.levels@.len());
                assert(x[i].1 == state.levels@[i].1@);
                assert(x[i].0 == state.levels@[i].0);
                assert(x[i].1.len() == 0);
                assert(x[i].0 == i + 1);
            }
            assert(state.memtables() =~= seq![state.memtable]);
            let layers = state.layers();
            let none = Map::<KeyTs, Seq<u8>>::empty();
            assert forall|i: int| 0 <= i < layers.len() implies #[trigger] layers[i] == none by {
                if i > 0 {
                    assert(state.levels@[i - 1].1@.len() == 0);
                    assert(model::concat(
                        lsm_storage::table_runs(state.sstables@, state.levels@[i - 1].1@),
                    ) =~= Seq::empty());
                    assert(layers[i] =~= none);
                }
            }
            lemma_layered_empty(layers);
            reveal(LsmStorageInner::settled);
        }
        LsmStorageInner {
            state,
            next_sst_id: 1,
            options,
            compaction_controller,
            manifest,
            mvcc: LsmMvccInner::new(0),
            compaction_filters: Vec::new(),
        }
    }

    /// Starts the engine from what an earlier run has left: what the manifest leads to, the
    /// content of the logs of the memtables that were not flushed, and of the files of the tables
    /// in use.
    pub fn restart(
        options: LsmStorageOptions,
        recovery: Recovery,
        logs: &Vec<Vec<u8>>,
        files: Vec<FileObject>,
    ) -> (r: Result<LsmStorageInner, LsmError>)
        requires
            options.enable_wal ==> logs@.len() == recovery.memtables@.len(),
            files@.len() == used_ids(recovery.state).len(),
        ensures
            exists|order: ByteOrder| #[trigger]
                is_restart(order, options, recovery, logs@, files@, r),
    {
        let order = wal::native_order();
        let r = LsmStorageInner::restart_with_order(order, options, recovery, logs, files);
        assert(is_restart(order, options, recovery, logs@, files@, r));
        r
    }

    /// Starts the engine from what an earlier run has left on a machine with some byte order.
    pub fn restart_with_order(
        order: ByteOrder,
        options: LsmStorageOptions,
        recovery: Recovery,
        logs: &Vec<Vec<u8>>,
        files: Vec<FileObject>,
    ) -> (r: Result<LsmStorageInner, LsmError>)
        requires
            options.enable_wal ==> logs@.len() == recovery.memtables@.len(),
            files@.len() == used_ids(recovery.state).len(),
        ensures
            is_restart(order, options, recovery, logs@, files@, r),
    {
        let Recovery { state, next_sst_id, memtables } = recovery;
        let mut state = state;
        if options.enable_wal {
            let ms = match recover_memtables(order, &memtables, logs) {
                Err(e) => {
                    return Err(e);
                },
                Ok(x) => x,
            };
            let mut ms = ms;
            let ghost all = ms@;
            if ms.len() > 0 {
                state.memtable = ms.remove(0);
                state.imm_memtables = ms;
                assert(state.memtables() =~= all);
            }
        }
        let ids = state.sst_ids();
        state.sstables = match open_tables(&ids, files) {
            Err(e) => {
                return Err(e);
            },
            Ok(x) => x,
        };
        // Recover the commit timestamp from the max ts seen across all data.
        let max_ts: u64 = state.newest_table(&ids);
        let max_ts: u64 = state.newest_memtable(max_ts);
        proof {
            if state.keys_nonempty() {
                lemma_ts_bound(state, files@, max_ts);
            }
        }
        let compaction_controller = CompactionController::for_options(
            &options.compaction_options,
        );
        Ok(
            LsmStorageInner {
                state,
                next_sst_id,
                options,
                compaction_controller,
                manifest: Manifest::create(),
                mvcc: LsmMvccInner::new(max_ts),
                compaction_filters: Vec::new(),
            },
        )
    }
}

/// Nothing is older than nothing.
proof fn lemma_layered_empty(ms: Seq<model::Versions>)
    requires
        forall|i: int| 0 <= i < ms.len() ==> #[trigger] ms[i] == Map::<KeyTs, Seq<u8>>::empty(),
    ensures
        model::layered(ms),
    decreases ms.len(),
{
    if ms.len() > 0 {
        let t = ms.skip(1);
        assert forall|i: int| 0 <= i < t.len() implies #[trigger] t[i] == Map::<
            KeyTs,
            Seq<u8>,
        >::empty() by {
            assert(t[i] == ms[i + 1]);
        }
        lemma_layered_empty(t);
    }
}

proof fn lemma_tables_ts(tables: Map<usize, SsTable>, ids: Seq<usize>, i: int)
    requires
        0 <= i < ids.len(),
    ensures
        tables[ids[i]].newest() <= tables_ts(tables, ids),
    decreases ids.len(),
{
    if i < ids.len() - 1 {
        lemma_tables_ts(tables, ids.drop_last(), i);
    }
}

proof fn lemma_mems_ts(ms: Seq<MemTable>, i: int)
    requires
        0 <= i < ms.len(),
    ensures
        mem_ts(ms[i]) <= mems_ts(ms),
    decreases ms.len(),
{
    if i < ms.len() - 1 {
        lemma_mems_ts(ms.drop_last(), i);
    }
}

pub(crate) proof fn lemma_ids_in(levels: Seq<(usize, Seq<usize>)>, i: int, j: int) -> (k: int)
    requires
        0 <= i < levels.len(),
        0 <= j < levels[i].1.len(),
    ensures
        0 <= k < ids_in(levels).len(),
        ids_in(levels)[k] == levels[i].1[j],
    decreases levels.len(),
{
    if i < levels.len() - 1 {
        lemma_ids_in(levels.drop_last(), i, j)
    } else {
        ids_in(levels.drop_last()).len() + j
    }
}

/// A version in a table is not newer than the newest of the tables in use.
proof fn lemma_table_bound(s: LsmStorageState, files: Seq<FileObject>, x: int, k: KeyTs)
    requires
        are_opened(s.sstables@, used_ids(s), files),
        0 <= x < used_ids(s).len(),
        model::entry_map(s.sstables@[used_ids(s)[x]].entries()).contains_key(k),
    ensures
        k.ts <= tables_ts(s.sstables@, used_ids(s)),
{
    let ids = used_ids(s);
    let t = s.sstables@[ids[x]];
    lemma_tables_ts(s.sstables@, ids, x);
    assert(s.sstables@.contains_key(ids[x]));
    let y = model::lemma_entry_map_key(t.entries(), k);
    model::lemma_max_ts_bound(t.entries(), y);
}

/// No version is newer than the newest timestamp of tables and memtables.
proof fn lemma_ts_bound(s: LsmStorageState, files: Seq<FileObject>, max_ts: u64)
    requires
        are_opened(s.sstables@, used_ids(s), files),
        s.keys_nonempty(),
        forall|i: int|
            0 <= i < s.memtables().len() ==> (
            #[trigger] s.memtables()[i]).versions().dom().finite(),
        max_ts == model::larger(
            tables_ts(s.sstables@, used_ids(s)),
            mems_ts(s.memtables()),
        ),
    ensures
        forall|k: KeyTs| #[trigger] s.versions().contains_key(k) ==> k.ts <= max_ts,
{
    let ids = used_ids(s);
    let levels = lsm_storage::level_ids(s.levels@);
    assert forall|k: KeyTs| #[trigger] s.versions().contains_key(k) implies k.ts <= max_ts by {
        let f = |m: MemTable| m.versions();
        let ms = s.memtables();
        if s.mem_versions().contains_key(k) {
            let i = model::lemma_merged_first(ms.map_values(f), k);
            let m = ms[i].versions();
            assert(m.contains_key(k));
            assert(m.dom().finite());
            model::lemma_sorted_entries(m);
            let run = model::sorted_entries(m);
            let x = model::lemma_entry_map_key(run, k);
            if run.len() > 0 {
                model::lemma_entry_map_index(run, 0);
                assert(ms[i].versions().contains_key(run[0].key));
            }
            assert(mem_table::shown(run) == run);
            model::lemma_max_ts_bound(run, x);
            lemma_mems_ts(ms, i);
        } else if s.l0_versions().contains_key(k) {
            let i = model::lemma_merged_first(
                lsm_storage::table_maps(s.sstables@, s.l0_sstables@),
                k,
            );
            assert(ids[i] == s.l0_sstables@[i]);
            lemma_table_bound(s, files, i, k);
        } else {
            let i = model::lemma_merged_first(lsm_storage::level_maps(s.sstables@, s.levels@), k);
            let rs = lsm_storage::table_runs(s.sstables@, s.levels@[i].1@);
            let x = model::lemma_entry_map_key(model::concat(rs), k);
            let (j, y) = model::lemma_concat_from(rs, x);
            assert(levels[i].1 == s.levels@[i].1@);
            let z = lemma_ids_in(levels, i, j);
            let w = s.l0_sstables@.len() + z;
            assert(ids[w] == s.levels@[i].1@[j]);
            let t = s.sstables@[ids[w]];
            assert(s.sstables@.contains_key(ids[w]));
            assert(rs[j] == t.entries());
            model::lemma_entry_map_index(t.entries(), y);
            lemma_table_bound(s, files, w, k);
        }
    }
}

/// Tables that were opened are in order.
pub proof fn lemma_opened(s: LsmStorageState, files: Seq<FileObject>)
    requires
        are_opened(s.sstables@, used_ids(s), files),
    ensures
        lsm_storage::tables_ok(s.sstables@, s.l0_sstables@),
        forall|i: int|
            0 <= i < s.levels@.len() ==> lsm_storage::tables_ok(
                s.sstables@,
                (#[trigger] s.levels@[i]).1@,
            ),
{
    let ids = used_ids(s);
    let levels = lsm_storage::level_ids(s.levels@);
    assert forall|i: int| 0 <= i < s.l0_sstables@.len() implies s.sstables@.contains_key(
        #[trigger] s.l0_sstables@[i],
    ) && s.sstables@[s.l0_sstables@[i]].wf() by {
        assert(ids[i] == s.l0_sstables@[i]);
    }
    assert forall|i: int| 0 <= i < s.levels@.len() implies lsm_storage::tables_ok(
        s.sstables@,
        (#[trigger] s.levels@[i]).1@,
    ) by {
        let here = s.levels@[i].1@;
        assert forall|j: int| 0 <= j < here.len() implies s.sstables@.contains_key(
            #[trigger] here[j],
        ) && s.sstables@[here[j]].wf() by {
            assert(levels[i].1 == here);
            let z = lemma_ids_in(levels, i, j);
            assert(ids[s.l0_sstables@.len() + z] == here[j]);
        }
    }
}

/// Tells whether the key ranges of tables follow each other.
fn is_run(tables: &Vec<&SsTable>) -> (r: bool)
    requires
        forall|i: int| 0 <= i < tables@.len() ==> (#[trigger] tables@[i]).wf(),
    ensures
        r == model::sorted(model::concat(concat_iterator::runs(tables@))),
{
    let ghost rs = concat_iterator::runs(tables@);
    let mut last: Option<&SsTable> = None;
    let mut i: usize = 0;
    assert(model::concat(rs.take(0)) =~= Seq::empty());
    while i < tables.len()
        invariant
            i <= tables@.len(),
            forall|j: int| 0 <= j < tables@.len() ==> (#[trigger] tables@[j]).wf(),
            rs == concat_iterator::runs(tables@),
            model::sorted(model::concat(rs.take(i as int))),
            match last {
                None => model::concat(rs.take(i as int)).len() == 0,
                Some(t) => model::concat(rs.take(i as int)).len() > 0 && t.last()
                    == model::concat(rs.take(i as int)).last().key,
            },
        decreases tables@.len() - i,
    {
        let table = tables[i];
        let ghost before = model::concat(rs.take(i as int));
        let ghost here = table.entries();
        let ghost after = model::concat(rs.skip(i + 1));
        proof {
            assert(rs[i as int] == here);
            model::lemma_concat_at(rs, i as int);
            if here.len() > 0 {
                model::lemma_entry_map_index(here, 0);
                lsm_storage::read::lemma_table_keys(*table, here[0].key);
            }
            assert(table.layout().ok());
        }
        if !table.first_key().is_empty() {
            let fits: bool = match last {
                None => true,
                Some(t) => match t.last_key().as_key_slice().compare(
                    table.first_key().as_key_slice(),
                ) {
                    Order::Less => true,
                    _ => false,
                },
            };
            if !fits {
                proof {
                    if model::sorted(model::concat(rs)) {
                        model::lemma_sorted_parts(before, here + after);
                        assert((here + after)[0] == here[0]);
                        assert(key::key_lt(
                            before[before.len() - 1].key,
                            (here + after)[0].key,
                        ));
                        key::lemma_key_order(before.last().key, here[0].key);
                    }
                }
                return false;
            }
            last = Some(table);
            proof {
                model::lemma_sorted_append(before, here);
                assert((before + here).last() == here.last());
            }
        } else {
            assert(here =~= Seq::empty());
            assert(before + here =~= before);
        }
        i = i + 1;
    }
    assert(rs.take(i as int) =~= rs);
    true
}

impl LsmStorageState {
    /// Tells whether the key ranges of the tables of each level follow each other.
    pub fn is_ordered(&self) -> (r: bool)
        requires
            lsm_storage::tables_ok(self.sstables@, self.l0_sstables@),
            forall|i: int|
                0 <= i < self.levels@.len() ==> lsm_storage::tables_ok(
                    self.sstables@,
                    (#[trigger] self.levels@[i]).1@,
                ),
        ensures
            r == self.wf(),
    {
        let mut i: usize = 0;
        while i < self.levels.len()
            invariant
                i <= self.levels@.len(),
                lsm_storage::tables_ok(self.sstables@, self.l0_sstables@),
                forall|j: int|
                    0 <= j < self.levels@.len() ==> lsm_storage::tables_ok(
                        self.sstables@,
                        (#[trigger] self.levels@[j]).1@,
                    ),
                forall|j: int|
                    0 <= j < i ==> lsm_storage::level_ok(
                        self.sstables@,
                        (#[trigger] self.levels@[j]).1@,
                    ),
            decreases self.levels@.len() - i,
        {
            assert(lsm_storage::tables_ok(self.sstables@, self.levels@[i as int].1@));
            let tables = run::tables_of(&self.sstables, &self.levels[i].1);
            if !is_run(&tables) {
                assert(!lsm_storage::level_ok(self.sstables@, self.levels@[i as int].1@));
                return false;
            }
            i = i + 1;
        }
        true
    }

    /// Tells whether the sources of a read, and the writes of a transaction, can be counted.
    pub fn is_countable(&self) -> (r: bool)
        ensures
            r == self.countable(),
    {
        let n: u128 = 2 + self.imm_memtables.len() as u128 + self.l0_sstables.len() as u128
            + self.levels.len() as u128;
        n <= usize::MAX as u128
    }

    /// Tells whether the levels have the numbers from 1 on.
    pub fn is_numbered(&self) -> (r: bool)
        ensures
            r == self.numbered(),
    {
        let mut i: usize = 0;
        while i < self.levels.len()
            invariant
                i <= self.levels@.len(),
                forall|j: int| 0 <= j < i ==> (#[trigger] self.levels@[j]).0 == j + 1,
            decreases self.levels@.len() - i,
        {
            if self.levels[i].0 != i + 1 {
                return false;
            }
            i = i + 1;
        }
        true
    }
}

} // verus!
