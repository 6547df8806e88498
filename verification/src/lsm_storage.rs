//! The storage engine: its state, reads and writes.
pub mod flush;
pub mod laws;
pub mod read;
pub mod recover;
pub mod write;

use vstd::prelude::*;
use std::collections::HashMap;
use bytes::Bytes;
use crate::compact::{CompactionController, CompactionOptions};
use crate::deps::Bound;
use crate::error::LsmError;
use crate::iterators;
use crate::iterators::StorageIterator;
use crate::key::KeyTs;
use crate::lsm_iterator::{FusedIterator, LsmIterator};
use crate::manifest::Manifest;
use crate::mem_table;
use crate::mem_table::MemTable;
use crate::model;
use crate::model::{Entry, Versions};
use crate::mvcc::LsmMvccInner;
use crate::mvcc::txn::Transaction;
use crate::table::SsTable;

verus! {

/// Represents the state of the storage engine.
pub struct LsmStorageState {
    /// The current memtable.
    pub memtable: MemTable,
    /// Immutable memtables, from latest to earliest.
    pub imm_memtables: Vec<MemTable>,
    /// L0 SSTs, from latest to earliest.
    pub l0_sstables: Vec<usize>,
    /// SsTables sorted by key range; L1 - L_max for leveled compaction, or tiers for tiered
    /// compaction.
    pub levels: Vec<(usize, Vec<usize>)>,
    /// SST objects.
    pub sstables: HashMap<usize, SsTable>,
}

/// The entries of each of some tables.
pub open spec fn table_runs(tables: Map<usize, SsTable>, ids: Seq<usize>) -> Seq<Seq<Entry>> {
    ids.map_values(|id: usize| tables[id].entries())
}

/// The versions in each of some tables.
pub open spec fn table_maps(tables: Map<usize, SsTable>, ids: Seq<usize>) -> Seq<Versions> {
    ids.map_values(|id: usize| model::entry_map(tables[id].entries()))
}

/// The tables with some ids are there and in order.
pub open spec fn tables_ok(tables: Map<usize, SsTable>, ids: Seq<usize>) -> bool {
    forall|i: int|
        0 <= i < ids.len() ==> tables.contains_key(#[trigger] ids[i]) && tables[ids[i]].wf()
}

/// The tables with some ids are in order, and their key ranges follow each other.
pub open spec fn level_ok(tables: Map<usize, SsTable>, ids: Seq<usize>) -> bool {
    tables_ok(tables, ids) && model::sorted(model::concat(table_runs(tables, ids)))
}

/// The versions in each level.
pub open spec fn level_maps(
    tables: Map<usize, SsTable>,
    levels: Seq<(usize, Vec<usize>)>,
) -> Seq<Versions> {
    levels.map_values(
        |l: (usize, Vec<usize>)| model::entry_map(model::concat(table_runs(tables, l.1@))),
    )
}

/// The versions of a memtable that a scan of a range shows: none, if there is an empty user key
/// among those in the range.
pub open spec fn mem_view(m: Versions, lower: Bound<Seq<u8>>, upper: Bound<Seq<u8>>) -> Versions {
    let r = model::in_range(m, lower, upper);
    if exists|k: crate::key::KeyTs| #[trigger] r.contains_key(k) && k.key.len() == 0 {
        Map::empty()
    } else {
        r
    }
}

/// A scan of a memtable shows a version if it is there, its user key is in the range, and no user key
/// there in the range is empty.
pub proof fn lemma_mem_view(
    m: Versions,
    lower: Bound<Seq<u8>>,
    upper: Bound<Seq<u8>>,
    k: crate::key::KeyTs,
)
    ensures
        mem_view(m, lower, upper).contains_key(k) <==> {
            &&& m.contains_key(k) && model::within(k.key, lower, upper)
            &&& forall|q: crate::key::KeyTs| #[trigger]
                m.contains_key(q) && model::within(q.key, lower, upper) ==> q.key.len() > 0
        },
        mem_view(m, lower, upper).contains_key(k) ==> mem_view(m, lower, upper)[k] == m[k],
{
    let r = model::in_range(m, lower, upper);
    assert forall|q: crate::key::KeyTs| #[trigger] r.contains_key(q) <==> m.contains_key(q)
        && model::within(q.key, lower, upper) by {
        model::lemma_within(m, lower, upper, q);
    }
    model::lemma_within(m, lower, upper, k);
    if forall|q: crate::key::KeyTs| #[trigger]
        m.contains_key(q) && model::within(q.key, lower, upper) ==> q.key.len() > 0 {
        assert(!(exists|q: crate::key::KeyTs| #[trigger] r.contains_key(q) && q.key.len() == 0));
    } else {
        let q = choose|q: crate::key::KeyTs| #[trigger]
            m.contains_key(q) && model::within(q.key, lower, upper) && q.key.len() == 0;
        assert(r.contains_key(q));
    }
}

impl LsmStorageState {
    /// The memtables, from latest to earliest.
    pub open spec fn memtables(&self) -> Seq<MemTable> {
        seq![self.memtable] + self.imm_memtables@
    }

    pub open spec fn mem_versions(&self) -> Versions {
        model::merged(self.memtables().map_values(|m: MemTable| m.versions()))
    }

    pub open spec fn l0_versions(&self) -> Versions {
        model::merged(table_maps(self.sstables@, self.l0_sstables@))
    }

    pub open spec fn level_versions(&self) -> Versions {
        model::merged(level_maps(self.sstables@, self.levels@))
    }

    /// All versions. Where one occurs twice, memtables decide before L0, L0 before the levels, and
    /// later memtables, tables and levels before earlier ones.
    pub open spec fn versions(&self) -> Versions {
        model::prefer(
            model::prefer(self.mem_versions(), self.l0_versions()),
            self.level_versions(),
        )
    }

    /// The versions within a range, as far as a scan of the memtables shows them.
    pub open spec fn view_in(&self, lower: Bound<Seq<u8>>, upper: Bound<Seq<u8>>) -> Versions {
        model::prefer(
            model::prefer(
                model::merged(
                    self.memtables().map_values(
                        |m: MemTable| mem_view(m.versions(), lower, upper),
                    ),
                ),
                model::in_range(self.l0_versions(), lower, upper),
            ),
            model::in_range(self.level_versions(), lower, upper),
        )
    }

    /// The memtables, the tables of L0 and the levels, in the order in which they decide.
    pub open spec fn layers(&self) -> Seq<Versions> {
        self.memtables().map_values(|m: MemTable| m.versions()) + table_maps(
            self.sstables@,
            self.l0_sstables@,
        ) + level_maps(self.sstables@, self.levels@)
    }

    /// The tables are there and in order, and so are the levels.
    pub open spec fn wf(&self) -> bool {
        &&& tables_ok(self.sstables@, self.l0_sstables@)
        &&& forall|i: int|
            0 <= i < self.levels@.len() ==> level_ok(
                self.sstables@,
                (#[trigger] self.levels@[i]).1@,
            )
    }

    /// How many sources feed a read at most: memtables, tables of L0, and levels.
    pub open spec fn sources(&self) -> nat {
        1 + self.imm_memtables@.len() + self.l0_sstables@.len() + self.levels@.len()
    }

    /// The sources of a read, and the writes of a transaction, can be counted.
    pub open spec fn countable(&self) -> bool {
        self.sources() + 1 <= usize::MAX
    }

    /// No id occurs twice, neither in L0 nor in the levels, nor in both.
    pub open spec fn apart(&self) -> bool {
        &&& self.l0_sstables@.no_duplicates()
        &&& forall|i: int|
            0 <= i < self.levels@.len() ==> (#[trigger] self.levels@[i]).1@.no_duplicates()
        &&& forall|i: int, a: int, b: int|
            0 <= i < self.levels@.len() && 0 <= a < self.l0_sstables@.len() && 0 <= b
                < self.levels@[i].1@.len() ==> #[trigger] self.l0_sstables@[a]
                != #[trigger] self.levels@[i].1@[b]
        &&& forall|i: int, j: int, a: int, b: int|
            0 <= i < j < self.levels@.len() && 0 <= a < self.levels@[i].1@.len() && 0 <= b
                < self.levels@[j].1@.len() ==> #[trigger] self.levels@[i].1@[a]
                != #[trigger] self.levels@[j].1@[b]
    }

    /// All ids are those of tables.
    pub open spec fn ids_known(&self) -> bool {
        &&& forall|a: int|
            0 <= a < self.l0_sstables@.len() ==> self.sstables@.contains_key(
                #[trigger] self.l0_sstables@[a],
            )
        &&& forall|i: int, a: int|
            0 <= i < self.levels@.len() && 0 <= a < self.levels@[i].1@.len()
                ==> self.sstables@.contains_key(#[trigger] self.levels@[i].1@[a])
    }

    /// A table is neither in use nor there.
    pub open spec fn is_gone(&self, id: usize) -> bool {
        &&& !self.sstables@.contains_key(id)
        &&& !self.l0_sstables@.contains(id)
        &&& forall|i: int|
            0 <= i < self.levels@.len() ==> !(#[trigger] self.levels@[i]).1@.contains(id)
    }

    /// The levels have the numbers from 1 on.
    pub open spec fn numbered(&self) -> bool {
        forall|i: int| 0 <= i < self.levels@.len() ==> (#[trigger] self.levels@[i]).0 == i + 1
    }

    /// The ids of tables are below `next`.
    pub open spec fn tables_below(&self, next: usize) -> bool {
        forall|id: usize| #[trigger] self.sstables@.contains_key(id) ==> id < next
    }

    /// The ids of memtables differ from each other and from those of tables, and all are below
    /// `next`.
    pub open spec fn ids_below(&self, next: usize) -> bool {
        &&& self.tables_below(next)
        &&& forall|i: int|
            0 <= i < self.memtables().len() ==> (#[trigger] self.memtables()[i]).spec_id() < next
                && !self.sstables@.contains_key(self.memtables()[i].spec_id())
        &&& forall|i: int, j: int|
            0 <= i < j < self.memtables().len() ==> (#[trigger] self.memtables()[i]).spec_id() != (
            #[trigger] self.memtables()[j]).spec_id()
    }

    /// No memtable has an empty user key.
    pub open spec fn keys_nonempty(&self) -> bool {
        forall|i: int, k: crate::key::KeyTs|
            0 <= i < self.memtables().len() && #[trigger] self.memtables()[i].versions().contains_key(
                k,
            ) ==> k.key.len() > 0
    }
}

/// Stored lengths can hold the sizes of all versions in tables.
pub open spec fn tables_storable(tables: Map<usize, SsTable>) -> bool {
    forall|id: usize| #[trigger]
        tables.contains_key(id) ==> mem_table::all_storable(tables[id].entries())
}

/// The levels, with the ids of their tables as mathematical values.
pub open spec fn level_ids(levels: Seq<(usize, Vec<usize>)>) -> Seq<(usize, Seq<usize>)> {
    levels.map_values(|l: (usize, Vec<usize>)| (l.0, l.1@))
}

/// The ids that are not among some others, in their order.
pub open spec fn left_out(ids: Seq<usize>, others: Seq<usize>) -> Seq<usize> {
    ids.filter(|id: usize| !others.contains(id))
}

/// Leaving ids out keeps the order of the others.
pub proof fn lemma_left_out_append(a: Seq<usize>, b: Seq<usize>, others: Seq<usize>)
    ensures
        left_out(a + b, others) == left_out(a, others) + left_out(b, others),
    decreases b.len(),
{
    reveal(Seq::filter);
    if b.len() == 0 {
        assert(a + b =~= a);
        assert(left_out(b, others) =~= Seq::empty());
        assert(left_out(a, others) + left_out(b, others) =~= left_out(a, others));
    } else {
        assert((a + b).drop_last() =~= a + b.drop_last());
        lemma_left_out_append(a, b.drop_last(), others);
        assert(left_out(a + b, others) =~= left_out(a, others) + left_out(b, others));
    }
}

/// The ids that are not among some others are just these.
pub proof fn lemma_left_out_has(ids: Seq<usize>, others: Seq<usize>, id: usize)
    ensures
        left_out(ids, others).contains(id) <==> ids.contains(id) && !others.contains(id),
        left_out(ids, others).len() <= ids.len(),
        (forall|i: int| 0 <= i < ids.len() ==> !others.contains(#[trigger] ids[i])) ==> left_out(
            ids,
            others,
        ) == ids,
    decreases ids.len(),
{
    reveal(Seq::filter);
    let r = left_out(ids, others);
    if ids.len() > 0 {
        let t = ids.drop_last();
        let x = ids.last();
        let q = left_out(t, others);
        lemma_left_out_has(t, others, id);
        assert(x == ids[ids.len() - 1]);
        assert(ids.contains(id) <==> t.contains(id) || id == x) by {
            if t.contains(id) {
                let j = t.index_of(id);
                assert(ids[j] == id);
            }
            if ids.contains(id) {
                let j = ids.index_of(id);
                if j < t.len() {
                    assert(t[j] == id);
                }
            }
        }
        if others.contains(x) {
            assert(r == q);
        } else {
            assert(r == q.push(x));
            assert(r.contains(id) <==> q.contains(id) || id == x) by {
                if q.contains(id) {
                    let j = q.index_of(id);
                    assert(r[j] == id);
                }
                if r.contains(id) {
                    let j = r.index_of(id);
                    if j < q.len() {
                        assert(q[j] == id);
                    }
                }
                assert(r[q.len() as int] == x);
            }
        }
        if forall|i: int| 0 <= i < ids.len() ==> !others.contains(#[trigger] ids[i]) {
            assert forall|i: int| 0 <= i < t.len() implies !others.contains(#[trigger] t[i]) by {
                assert(t[i] == ids[i]);
            }
            assert(t.push(x) =~= ids);
        }
    } else {
        assert(r =~= ids);
    }
}

pub fn copy_ids(ids: &Vec<usize>) -> (r: Vec<usize>)
    ensures
        r@ == ids@,
{
    vstd::slice::slice_to_vec(ids.as_slice())
}

fn contains_id(ids: &Vec<usize>, id: usize) -> (r: bool)
    ensures
        r == ids@.contains(id),
{
    let mut i: usize = 0;
    while i < ids.len()
        invariant
            i <= ids.len(),
            forall|j: int| 0 <= j < i ==> ids@[j] != id,
        decreases ids.len() - i,
    {
        if ids[i] == id {
            assert(ids@[i as int] == id);
            return true;
        }
        i = i + 1;
    }
    false
}

/// The ids that are not among some others, in their order.
pub fn without_ids(ids: &Vec<usize>, others: &Vec<usize>) -> (r: Vec<usize>)
    ensures
        r@ == left_out(ids@, others@),
{
    let mut r: Vec<usize> = Vec::new();
    let ghost keep = |id: usize| !others@.contains(id);
    let mut i: usize = 0;
    proof {
        reveal(Seq::filter);
        assert(ids@.take(0).filter(keep) =~= Seq::empty());
    }
    while i < ids.len()
        invariant
            i <= ids.len(),
            keep == (|id: usize| !others@.contains(id)),
            r@ == ids@.take(i as int).filter(keep),
        decreases ids.len() - i,
    {
        proof {
            reveal(Seq::filter);
            assert(ids@.take(i + 1).drop_last() =~= ids@.take(i as int));
            assert(ids@.take(i + 1).last() == ids@[i as int]);
        }
        let id: usize = ids[i];
        if !contains_id(others, id) {
            r.push(id);
        }
        i = i + 1;
    }
    assert(ids@.take(i as int) =~= ids@);
    r
}

#[derive(Debug, Clone)]
pub struct LsmStorageOptions {
    /// Block size in bytes
    pub block_size: usize,
    /// SST size in bytes, also the approximate memtable capacity limit
    pub target_sst_size: usize,
    /// Maximum number of memtables in memory, flush to L0 when exceeding this limit
    pub num_memtable_limit: usize,
    pub compaction_options: CompactionOptions,
    pub enable_wal: bool,
    pub serializable: bool,
}

impl LsmStorageOptions {
    pub fn default_for_week1_test() -> (r: LsmStorageOptions)
        ensures
            r == (LsmStorageOptions {
                block_size: 4096,
                target_sst_size: 0x20_0000,
                num_memtable_limit: 50,
                compaction_options: CompactionOptions::NoCompaction,
                enable_wal: false,
                serializable: false,
            }),
    {
        LsmStorageOptions {
            block_size: 4096,
            target_sst_size: 0x20_0000,
            compaction_options: CompactionOptions::NoCompaction,
            enable_wal: false,
            num_memtable_limit: 50,
            serializable: false,
        }
    }

    pub fn default_for_week1_day6_test() -> (r: LsmStorageOptions)
        ensures
            r == (LsmStorageOptions {
                block_size: 4096,
                target_sst_size: 0x20_0000,
                num_memtable_limit: 2,
                compaction_options: CompactionOptions::NoCompaction,
                enable_wal: false,
                serializable: false,
            }),
    {
        LsmStorageOptions {
            block_size: 4096,
            target_sst_size: 0x20_0000,
            compaction_options: CompactionOptions::NoCompaction,
            enable_wal: false,
            num_memtable_limit: 2,
            serializable: false,
        }
    }

    pub fn default_for_week2_test(compaction_options: CompactionOptions) -> (r: LsmStorageOptions)
        ensures
            r == (LsmStorageOptions {
                block_size: 4096,
                target_sst_size: 0x10_0000,
                num_memtable_limit: 2,
                compaction_options,
                enable_wal: false,
                serializable: false,
            }),
    {
        LsmStorageOptions {
            block_size: 4096,
            target_sst_size: 0x10_0000,  // 1MB
            compaction_options,
            enable_wal: false,
            num_memtable_limit: 2,
            serializable: false,
        }
    }
}

/// A write of a batch.
pub enum WriteBatchRecord<T> {
    Put(T, T),
    Del(T),
}

/// Which keys a compaction may drop.
#[derive(Debug)]
pub enum CompactionFilter {
    Prefix(Bytes),
}

/// The levels of an empty state.
pub open spec fn initial_levels(options: CompactionOptions) -> Seq<(usize, Seq<usize>)> {
    match options {
        CompactionOptions::Leveled(o) => Seq::new(
            o.max_levels as nat,
            |i: int| ((i + 1) as usize, Seq::empty()),
        ),
        CompactionOptions::Simple(o) => Seq::new(
            o.max_levels as nat,
            |i: int| ((i + 1) as usize, Seq::empty()),
        ),
        CompactionOptions::Tiered(_) => Seq::empty(),
        CompactionOptions::NoCompaction => seq![(1, Seq::empty())],
    }
}

/// Empty levels with the numbers from 1 on.
fn empty_levels(max_levels: usize) -> (r: Vec<(usize, Vec<usize>)>)
    ensures
        level_ids(r@) == Seq::new(
            max_levels as nat,
            |i: int| ((i + 1) as usize, Seq::<usize>::empty()),
        ),
{
    let mut levels: Vec<(usize, Vec<usize>)> = Vec::new();
    let mut i: usize = 0;
    while i < max_levels
        invariant
            i <= max_levels,
            levels@.len() == i,
            forall|j: int|
                0 <= j < i ==> (#[trigger] levels@[j]).0 == j + 1 && levels@[j].1@ == Seq::<
                    usize,
                >::empty(),
        decreases max_levels - i,
    {
        i = i + 1;
        levels.push((i, Vec::new()));
    }
    assert(level_ids(levels@) =~= Seq::new(
        max_levels as nat,
        |i: int| ((i + 1) as usize, Seq::<usize>::empty()),
    ));
    levels
}

impl LsmStorageState {
    /// The empty state.
    pub fn create(options: &LsmStorageOptions) -> (r: LsmStorageState)
        ensures
            r.wf(),
            r.memtable.versions() == Map::<KeyTs, Seq<u8>>::empty(),
            r.memtable.spec_id() == 0,
            r.memtable.log() is None,
            r.memtable.size() == 0,
            r.imm_memtables@ == Seq::<MemTable>::empty(),
            r.l0_sstables@ == Seq::<usize>::empty(),
            level_ids(r.levels@) == initial_levels(options.compaction_options),
            r.sstables@ == Map::<usize, SsTable>::empty(),
            r.versions() == Map::<KeyTs, Seq<u8>>::empty(),
    {
        broadcast use vstd::std_specs::hash::group_hash_axioms;

        let levels = match &options.compaction_options {
            CompactionOptions::Leveled(o) => empty_levels(o.max_levels),
            CompactionOptions::Simple(o) => empty_levels(o.max_levels),
            CompactionOptions::Tiered(_) => Vec::new(),
            CompactionOptions::NoCompaction => empty_levels(1),
        };
        assert(level_ids(levels@) =~= initial_levels(options.compaction_options));
        let r = LsmStorageState {
            memtable: MemTable::create(0),
            imm_memtables: Vec::new(),
            l0_sstables: Vec::new(),
            levels,
            sstables: HashMap::new(),
        };
        proof {
            let none = Map::<KeyTs, Seq<u8>>::empty();
            let maps = level_maps(r.sstables@, r.levels@);
            assert forall|i: int| 0 <= i < r.levels@.len() implies (#[trigger] r.levels@[i]).1@.len()
                == 0 by {
                assert(level_ids(r.levels@)[i].1 == r.levels@[i].1@);
            }
            assert forall|i: int| 0 <= i < maps.len() implies #[trigger] maps[i] == none by {
                assert(r.levels@[i].1@.len() == 0);
                assert(model::concat(table_runs(r.sstables@, r.levels@[i].1@)) =~= Seq::empty());
                assert(maps[i] =~= none);
            }
            assert(r.level_versions() =~= none) by {
                assert forall|k: KeyTs| !#[trigger] r.level_versions().contains_key(k) by {
                    model::lemma_merged_none(maps, k);
                }
            }
            assert forall|i: int| 0 <= i < r.levels@.len() implies level_ok(
                r.sstables@,
                (#[trigger] r.levels@[i]).1@,
            ) by {
                assert(model::concat(table_runs(r.sstables@, r.levels@[i].1@)) =~= Seq::empty());
            }
            assert(r.l0_versions() =~= none);
            lemma_merged_cons(none, Seq::empty());
            assert(r.memtables().map_values(|m: MemTable| m.versions()) =~= seq![none] + Seq::empty());
            assert(r.mem_versions() =~= none);
            assert(r.versions() =~= none);
        }
        r
    }
}

/// A collection in front of others decides first.
pub proof fn lemma_merged_cons(m: Versions, ms: Seq<Versions>)
    ensures
        model::merged(seq![m] + ms) == model::prefer(m, model::merged(ms)),
{
    assert((seq![m] + ms).skip(1) =~= ms);
}

/// The storage interface of the LSM tree.
pub struct LsmStorageInner {
    pub state: LsmStorageState,
    pub next_sst_id: usize,
    pub options: LsmStorageOptions,
    pub compaction_controller: CompactionController,
    pub manifest: Manifest,
    pub mvcc: LsmMvccInner,
    pub compaction_filters: Vec<CompactionFilter>,
}

impl LsmStorageInner {
    /// What is not part of the state of the tree, nor a counter or record of its changes, is as
    /// before.
    pub open spec fn same_setup(&self, before: LsmStorageInner) -> bool {
        &&& self.options == before.options
        &&& self.compaction_controller == before.compaction_controller
        &&& self.compaction_filters == before.compaction_filters
    }

    /// The ids of tables are told apart, and the next id is not among them.
    pub open spec fn tables_fresh(&self) -> bool {
        self.state.apart() && self.state.tables_below(self.next_sst_id)
    }

    /// The ids in use are told apart, and the next one is not among them.
    pub open spec fn ids_fresh(&self) -> bool {
        self.state.apart() && self.state.ids_below(self.next_sst_id)
    }

    /// No version is newer than the latest commit.
    pub open spec fn bounded(&self) -> bool {
        forall|k: KeyTs| #[trigger]
            self.state.versions().contains_key(k) ==> k.ts <= self.mvcc.latest()
    }

    /// What writes and compactions keep: the state is in order, the ids of its tables are apart,
    /// newer versions come before older ones and none after the latest commit, and stored lengths
    /// can hold the sizes of what is in tables.
    #[verifier::opaque]
    pub open spec fn settled(&self) -> bool {
        &&& self.state.wf()
        &&& self.tables_fresh()
        &&& self.bounded()
        &&& model::layered(self.state.layers())
        &&& tables_storable(self.state.sstables@)
        &&& self.options.block_size <= 0x1_0000
    }

    /// What flushes keep, too: no memtable has the id of another one or of a table.
    pub open spec fn intact(&self) -> bool {
        self.settled() && self.ids_fresh()
    }

    /// What a reader at some timestamp gets for a user key. There is nothing for the empty one.
    pub open spec fn reads_at(&self, uk: Seq<u8>, ts: u64) -> Option<Seq<u8>> {
        if uk.len() == 0 {
            None
        } else {
            model::lookup(self.state.versions(), uk, ts)
        }
    }

    /// What a reader at the latest commit gets for a user key.
    pub open spec fn reads(&self, uk: Seq<u8>) -> Option<Seq<u8>> {
        self.reads_at(uk, self.mvcc.latest())
    }

    /// Takes a fresh id.
    pub fn next_sst_id(&mut self) -> (r: usize)
        requires
            old(self).next_sst_id < usize::MAX,
        ensures
            r == old(self).next_sst_id,
            *final(self) == (LsmStorageInner {
                next_sst_id: (old(self).next_sst_id + 1) as usize,
                ..*old(self)
            }),
    {
        let id: usize = self.next_sst_id;
        self.next_sst_id = id + 1;
        id
    }

    pub fn mvcc(&self) -> (r: &LsmMvccInner)
        ensures
            *r == self.mvcc,
    {
        &self.mvcc
    }

    pub fn add_compaction_filter(&mut self, compaction_filter: CompactionFilter)
        ensures
            final(self).compaction_filters@ == old(self).compaction_filters@.push(
                compaction_filter,
            ),
            final(self).state == old(self).state,
            final(self).next_sst_id == old(self).next_sst_id,
            final(self).options == old(self).options,
            final(self).compaction_controller == old(self).compaction_controller,
            final(self).manifest == old(self).manifest,
            final(self).mvcc == old(self).mvcc,
    {
        self.compaction_filters.push(compaction_filter);
    }

    /// Get a key from the storage.
    pub fn get(&self, key: &[u8]) -> (r: Result<Option<Bytes>, LsmError>)
        requires
            self.state.wf(),
            self.state.countable(),
        ensures
            r is Ok,
            read::value_of(r->Ok_0) == self.reads(key@),
    {
        let read_ts = self.mvcc().latest_commit_ts();
        self.get_with_ts(key, read_ts)
    }

    /// Get a key from the storage, as it was at some timestamp.
    pub fn get_with_ts(&self, key: &[u8], read_ts: u64) -> (r: Result<Option<Bytes>, LsmError>)
        requires
            self.state.wf(),
            self.state.countable(),
        ensures
            r is Ok,
            read::value_of(r->Ok_0) == self.reads_at(key@, read_ts),
    {
        self.state.get_with_ts(key, read_ts)
    }

    /// A transaction that reads as of the latest commit.
    pub fn new_txn(&self) -> (r: Transaction)
        ensures
            r.wf(),
            r.read_ts == self.mvcc.latest(),
            !r.committed,
            r.local() == Map::<KeyTs, Seq<u8>>::empty(),
            self.options.serializable ==> (r.key_hashes matches Some(h) && h.0@ == Set::<
                u32,
            >::empty() && h.1@ == Set::<u32>::empty()),
            !self.options.serializable ==> r.key_hashes is None,
    {
        self.mvcc().new_txn(self.options.serializable)
    }

    /// Create an iterator over a range of keys.
    pub fn scan<'a>(&'a self, lower: Bound<&[u8]>, upper: Bound<&[u8]>) -> (r: Result<
        FusedIterator<LsmIterator<'a>>,
        LsmError,
    >)
        requires
            self.state.wf(),
            self.state.countable(),
        ensures
            r is Ok,
            r->Ok_0.wf(),
            iterators::never_fails(r->Ok_0),
            forall|i: int|
                0 <= i < r->Ok_0.remaining().len() ==> model::within(
                    (#[trigger] r->Ok_0.remaining()[i]).key.key,
                    model::bound(lower),
                    model::bound(upper),
                ) && r->Ok_0.remaining()[i].value.len() > 0,
            r->Ok_0.active() <= self.state.sources(),
            r->Ok_0.active() == self.state.scan_sources(model::bound(lower), model::bound(upper)),
            r->Ok_0.remaining() == model::sorted_entries(
                model::visible(
                    self.state.view_in(model::bound(lower), model::bound(upper)),
                    self.mvcc.latest(),
                ),
            ),
            self.state.keys_nonempty() ==> r->Ok_0.remaining() == model::sorted_entries(
                model::in_range(
                    model::visible(self.state.versions(), self.mvcc.latest()),
                    model::bound(lower),
                    model::bound(upper),
                ),
            ),
    {
        let read_ts = self.mvcc().latest_commit_ts();
        self.scan_with_ts(lower, upper, read_ts)
    }

    /// Create an iterator over a range of keys, as they were at some timestamp.
    pub fn scan_with_ts<'a>(&'a self, lower: Bound<&[u8]>, upper: Bound<&[u8]>, read_ts: u64) -> (r:
        Result<FusedIterator<LsmIterator<'a>>, LsmError>)
        requires
            self.state.wf(),
            self.state.countable(),
        ensures
            r is Ok,
            r->Ok_0.wf(),
            iterators::never_fails(r->Ok_0),
            forall|i: int|
                0 <= i < r->Ok_0.remaining().len() ==> model::within(
                    (#[trigger] r->Ok_0.remaining()[i]).key.key,
                    model::bound(lower),
                    model::bound(upper),
                ) && r->Ok_0.remaining()[i].value.len() > 0,
            r->Ok_0.active() <= self.state.sources(),
            r->Ok_0.active() == self.state.scan_sources(model::bound(lower), model::bound(upper)),
            r->Ok_0.remaining() == model::sorted_entries(
                model::visible(
                    self.state.view_in(model::bound(lower), model::bound(upper)),
                    read_ts,
                ),
            ),
            model::visible(
                self.state.view_in(model::bound(lower), model::bound(upper)),
                read_ts,
            ).dom().finite(),
            self.state.keys_nonempty() ==> r->Ok_0.remaining() == model::sorted_entries(
                model::in_range(
                    model::visible(self.state.versions(), read_ts),
                    model::bound(lower),
                    model::bound(upper),
                ),
            ),
    {
        self.state.scan_with_ts(lower, upper, read_ts)
    }
}

} // verus!
