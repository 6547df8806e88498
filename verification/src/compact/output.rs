//! What comes out of a compaction, told from the tables that go into it.
use vstd::prelude::*;
use crate::block;
use crate::compact::CompactionTask;
use crate::compact::TieredCompactionTask;
use crate::compact::laws;
use crate::compact::run;
use crate::iterators::run_iterator;
use crate::key::KeyTs;
use crate::lsm_storage;
use crate::lsm_storage::{LsmStorageInner, LsmStorageState};
use crate::mem_table;
use crate::mem_table::MemTable;
use crate::model;
use crate::model::{Entry, Versions};
use crate::table::SsTable;
use crate::table::builder;
use crate::table::builder::TableDraft;
use crate::table::laws as table_laws;

verus! {

/// One of some tables has an entry.
pub open spec fn in_tables(
    tables: Map<usize, SsTable>,
    ids: Seq<usize>,
    k: KeyTs,
    v: Seq<u8>,
) -> bool {
    exists|a: int, x: int|
        0 <= a < ids.len() && 0 <= x < tables[ids[a]].entries().len()
            && #[trigger] tables[ids[a]].entries()[x] == (Entry { key: k, value: v })
}

/// The first group of tables that has a key has it with some value.
pub open spec fn in_groups(
    tables: Map<usize, SsTable>,
    groups: Seq<Seq<usize>>,
    k: KeyTs,
    v: Seq<u8>,
) -> bool {
    exists|i: int|
        {
            &&& 0 <= i < groups.len()
            &&& #[trigger] in_tables(tables, groups[i], k, v)
            &&& forall|j: int, w: Seq<u8>|
                0 <= j < i ==> !#[trigger] in_tables(tables, groups[j], k, w)
        }
}

/// Each of some tables by itself.
pub open spec fn singles(ids: Seq<usize>) -> Seq<Seq<usize>> {
    Seq::new(ids.len(), |i: int| seq![ids[i]])
}

/// The tables that a task merges, in groups, the newest first: each table of L0, or a level, or a
/// tier.
pub open spec fn groups_of(task: CompactionTask) -> Seq<Seq<usize>> {
    match task {
        CompactionTask::ForceFullCompaction { l0_sstables, l1_sstables } => singles(
            l0_sstables@,
        ).push(l1_sstables@),
        CompactionTask::Simple(t) => if t.upper_level is None {
            singles(t.upper_level_sst_ids@).push(t.lower_level_sst_ids@)
        } else {
            seq![t.upper_level_sst_ids@, t.lower_level_sst_ids@]
        },
        CompactionTask::Tiered(t) => Seq::new(t.tiers@.len(), |i: int| t.tiers@[i].1@),
        CompactionTask::Leveled(_) => Seq::empty(),
    }
}

/// What a collection holds is what a group of tables has.
spec fn is_group(m: Versions, tables: Map<usize, SsTable>, ids: Seq<usize>) -> bool {
    forall|k: KeyTs, v: Seq<u8>|
        (m.contains_key(k) && m[k] == v) <==> #[trigger] in_tables(tables, ids, k, v)
}

proof fn lemma_level_group(tables: Map<usize, SsTable>, ids: Seq<usize>)
    requires
        lsm_storage::level_ok(tables, ids),
    ensures
        is_group(run::level_map(tables, ids), tables, ids),
{
    let runs = lsm_storage::table_runs(tables, ids);
    let s = model::concat(runs);
    let m = model::entry_map(s);
    assert forall|k: KeyTs, v: Seq<u8>| (m.contains_key(k) && m[k] == v) <==> #[trigger] in_tables(
        tables,
        ids,
        k,
        v,
    ) by {
        if m.contains_key(k) && m[k] == v {
            let y = model::lemma_entry_map_key(s, k);
            let (a, x) = model::lemma_concat_from(runs, y);
            assert(tables[ids[a]].entries()[x] == (Entry { key: k, value: v }));
        }
        if in_tables(tables, ids, k, v) {
            let (a, x) = choose|a: int, x: int|
                0 <= a < ids.len() && 0 <= x < tables[ids[a]].entries().len()
                    && #[trigger] tables[ids[a]].entries()[x] == (Entry { key: k, value: v });
            assert(runs[a] == tables[ids[a]].entries());
            let y = model::lemma_concat_has(runs, a, x);
            model::lemma_entry_map_index(s, y);
        }
    }
}

proof fn lemma_table_group(tables: Map<usize, SsTable>, id: usize)
    requires
        tables[id].wf(),
    ensures
        is_group(model::entry_map(tables[id].entries()), tables, seq![id]),
{
    let s = tables[id].entries();
    let ids = seq![id];
    let m = model::entry_map(s);
    assert forall|k: KeyTs, v: Seq<u8>| (m.contains_key(k) && m[k] == v) <==> #[trigger] in_tables(
        tables,
        ids,
        k,
        v,
    ) by {
        if m.contains_key(k) && m[k] == v {
            let x = model::lemma_entry_map_key(s, k);
            assert(tables[ids[0]].entries()[x] == (Entry { key: k, value: v }));
        }
        if in_tables(tables, ids, k, v) {
            let (a, x) = choose|a: int, x: int|
                0 <= a < ids.len() && 0 <= x < tables[ids[a]].entries().len()
                    && #[trigger] tables[ids[a]].entries()[x] == (Entry { key: k, value: v });
            model::lemma_entry_map_index(s, x);
        }
    }
}

/// Collections that are those of groups of tables, together.
proof fn lemma_groups(
    ms: Seq<Versions>,
    tables: Map<usize, SsTable>,
    groups: Seq<Seq<usize>>,
    k: KeyTs,
    v: Seq<u8>,
)
    requires
        ms.len() == groups.len(),
        forall|i: int| 0 <= i < ms.len() ==> #[trigger] is_group(ms[i], tables, groups[i]),
    ensures
        (model::merged(ms).contains_key(k) && model::merged(ms)[k] == v) <==> in_groups(
            tables,
            groups,
            k,
            v,
        ),
{
    let m = model::merged(ms);
    if m.contains_key(k) && m[k] == v {
        let i = model::lemma_merged_first(ms, k);
        assert(is_group(ms[i], tables, groups[i]));
        assert(in_tables(tables, groups[i], k, v));
        assert forall|j: int, w: Seq<u8>| 0 <= j < i implies !#[trigger] in_tables(
            tables,
            groups[j],
            k,
            w,
        ) by {
            assert(is_group(ms[j], tables, groups[j]));
            assert(!ms[j].contains_key(k));
        }
    }
    if in_groups(tables, groups, k, v) {
        let i = choose|i: int|
            {
                &&& 0 <= i < groups.len()
                &&& #[trigger] in_tables(tables, groups[i], k, v)
                &&& forall|j: int, w: Seq<u8>|
                    0 <= j < i ==> !#[trigger] in_tables(tables, groups[j], k, w)
            };
        assert(is_group(ms[i], tables, groups[i]));
        assert forall|j: int| 0 <= j < i implies !(#[trigger] ms[j]).contains_key(k) by {
            assert(is_group(ms[j], tables, groups[j]));
            if ms[j].contains_key(k) {
                assert(in_tables(tables, groups[j], k, ms[j][k]));
            }
        }
        model::lemma_merged_at(ms, k, i);
    }
}

proof fn lemma_singles(tables: Map<usize, SsTable>, ids: Seq<usize>)
    requires
        lsm_storage::tables_ok(tables, ids),
    ensures
        forall|i: int|
            0 <= i < ids.len() ==> #[trigger] is_group(
                lsm_storage::table_maps(tables, ids)[i],
                tables,
                singles(ids)[i],
            ),
{
    assert forall|i: int| 0 <= i < ids.len() implies #[trigger] is_group(
        lsm_storage::table_maps(tables, ids)[i],
        tables,
        singles(ids)[i],
    ) by {
        assert(tables.contains_key(ids[i]));
        lemma_table_group(tables, ids[i]);
    }
}

/// A task merges all that its tables have: a version is among what it merges, with some value, if and
/// only if the first of the groups of tables that has the version has it with that value.
pub proof fn lemma_task_merges_all(
    tables: Map<usize, SsTable>,
    task: CompactionTask,
    k: KeyTs,
    v: Seq<u8>,
)
    requires
        run::task_ok(tables, task),
    ensures
        (run::task_versions(tables, task).contains_key(k) && run::task_versions(tables, task)[k]
            == v) <==> in_groups(tables, groups_of(task), k, v),
{
    let m = run::task_versions(tables, task);
    let groups = groups_of(task);
    match task {
        CompactionTask::ForceFullCompaction { l0_sstables, l1_sstables } => {
            lemma_over_level(tables, l0_sstables@, l1_sstables@, k, v);
        },
        CompactionTask::Simple(t) => {
            let up = t.upper_level_sst_ids@;
            let low = t.lower_level_sst_ids@;
            match t.upper_level {
                None => {
                    lemma_over_level(tables, up, low, k, v);
                },
                Some(_) => {
                    let ms = seq![run::level_map(tables, up), run::level_map(tables, low)];
                    lemma_level_group(tables, up);
                    lemma_level_group(tables, low);
                    let one = seq![run::level_map(tables, up)];
                    assert(ms =~= one.push(run::level_map(tables, low)));
                    model::lemma_merged_push(one, run::level_map(tables, low));
                    assert(one.skip(1) =~= Seq::empty());
                    assert(model::merged(one.skip(1)) =~= Map::empty());
                    assert(model::merged(one) =~= run::level_map(tables, up));
                    lemma_groups(ms, tables, groups, k, v);
                },
            }
        },
        CompactionTask::Tiered(t) => {
            let ms = lsm_storage::level_maps(tables, t.tiers@);
            assert forall|i: int| 0 <= i < ms.len() implies #[trigger] is_group(
                ms[i],
                tables,
                groups[i],
            ) by {
                assert(lsm_storage::level_ok(tables, t.tiers@[i].1@));
                lemma_level_group(tables, t.tiers@[i].1@);
            }
            lemma_groups(ms, tables, groups, k, v);
        },
        CompactionTask::Leveled(_) => {},
    }
}

proof fn lemma_over_level(
    tables: Map<usize, SsTable>,
    up: Seq<usize>,
    low: Seq<usize>,
    k: KeyTs,
    v: Seq<u8>,
)
    requires
        lsm_storage::tables_ok(tables, up),
        lsm_storage::level_ok(tables, low),
    ensures
        ({
            let m = model::prefer(
                model::merged(lsm_storage::table_maps(tables, up)),
                run::level_map(tables, low),
            );
            (m.contains_key(k) && m[k] == v) <==> in_groups(tables, singles(up).push(low), k, v)
        }),
{
    let maps = lsm_storage::table_maps(tables, up);
    let ms = maps.push(run::level_map(tables, low));
    let groups = singles(up).push(low);
    lemma_singles(tables, up);
    lemma_level_group(tables, low);
    model::lemma_merged_push(maps, run::level_map(tables, low));
    assert forall|i: int| 0 <= i < ms.len() implies #[trigger] is_group(ms[i], tables, groups[i]) by {
        if i < up.len() {
            assert(is_group(maps[i], tables, singles(up)[i]));
        }
    }
    lemma_groups(ms, tables, groups, k, v);
}

/// No table lies below what a task merges.
pub open spec fn nothing_below(s: LsmStorageState, task: CompactionTask) -> bool {
    match task {
        CompactionTask::ForceFullCompaction { .. } => forall|i: int|
            1 <= i < s.levels@.len() ==> (#[trigger] s.levels@[i]).1@.len() == 0,
        CompactionTask::Simple(t) => t.is_lower_level_bottom_level && forall|i: int|
            t.lower_level <= i < s.levels@.len() ==> (#[trigger] s.levels@[i]).1@.len() == 0,
        CompactionTask::Tiered(t) => t.bottom_tier_included,
        CompactionTask::Leveled(_) => false,
    }
}

/// What a compaction writes: the entries of its tables, in the order of keys and each key once. Where
/// nothing lies below, it leaves out the marks of deletion that have no older value to hide, and
/// nothing else; elsewhere it leaves out nothing.
pub proof fn lemma_compaction_output(
    before: LsmStorageInner,
    after: LsmStorageInner,
    task: CompactionTask,
    ts: Vec<SsTable>,
    k: KeyTs,
    v: Seq<u8>,
)
    requires
        lsm_storage::tables_storable(before.state.sstables@),
        before.options.block_size <= 0x1_0000,
        run::task_ok(before.state.sstables@, task),
        run::is_compacted(before, after, task, Ok(ts)),
    ensures
        model::sorted(run::run_of(ts@)),
        run::run_of(ts@).contains(Entry { key: k, value: v }) <==> {
            let tables = before.state.sstables@;
            &&& in_groups(tables, groups_of(task), k, v)
            &&& nothing_below(before.state, task) ==> exists|u: u64, w: Seq<u8>|
                u <= k.ts && w.len() > 0 && #[trigger] in_groups(
                    tables,
                    groups_of(task),
                    KeyTs { key: k.key, ts: u },
                    w,
                )
        },
{
    let tables = before.state.sstables@;
    let groups = groups_of(task);
    let m = run::task_versions(tables, task);
    let bottom = run::at_bottom(before.state, task);
    let s = run::run_of(ts@);
    let kept = laws::kept_map(m, bottom);
    laws::lemma_task_output(before, task, ts@, after.next_sst_id);
    assert(bottom == nothing_below(before.state, task));
    lemma_task_merges_all(tables, task, k, v);
    let e = Entry { key: k, value: v };
    assert(s.contains(e) <==> kept.contains_key(k) && kept[k] == v) by {
        if s.contains(e) {
            let i = s.index_of(e);
            model::lemma_entry_map_index(s, i);
        }
        if kept.contains_key(k) && kept[k] == v {
            let i = model::lemma_entry_map_key(s, k);
            assert(s[i] == e);
        }
    }
    if bottom {
        assert(run_iterator::is_dead(m, k) <==> !(exists|u: u64, w: Seq<u8>|
            u <= k.ts && w.len() > 0 && #[trigger] in_groups(
                tables,
                groups,
                KeyTs { key: k.key, ts: u },
                w,
            ))) by {
            if !run_iterator::is_dead(m, k) {
                let u = choose|u: u64|
                    u <= k.ts && #[trigger] m.contains_key(KeyTs { key: k.key, ts: u }) && m[KeyTs {
                        key: k.key,
                        ts: u,
                    }].len() > 0;
                let q = KeyTs { key: k.key, ts: u };
                lemma_task_merges_all(tables, task, q, m[q]);
                assert(in_groups(tables, groups, KeyTs { key: k.key, ts: u }, m[q]));
            }
            if exists|u: u64, w: Seq<u8>|
                u <= k.ts && w.len() > 0 && #[trigger] in_groups(
                    tables,
                    groups,
                    KeyTs { key: k.key, ts: u },
                    w,
                ) {
                let (u, w) = choose|u: u64, w: Seq<u8>|
                    u <= k.ts && w.len() > 0 && #[trigger] in_groups(
                        tables,
                        groups,
                        KeyTs { key: k.key, ts: u },
                        w,
                    );
                lemma_task_merges_all(tables, task, KeyTs { key: k.key, ts: u }, w);
                assert(m.contains_key(KeyTs { key: k.key, ts: u }));
            }
        }
    }
}

/// A state has a version, with some value, if and only if the first place that has the version has
/// it with that value: the memtables from the latest on, the tables of L0 from the latest on, and
/// the levels from the first on.
#[verifier::rlimit(40)]
pub proof fn lemma_state_holds(s: LsmStorageState, k: KeyTs, v: Seq<u8>)
    requires
        s.wf(),
    ensures
        (s.versions().contains_key(k) && s.versions()[k] == v) <==> {
            ||| exists|i: int|
                {
                    &&& 0 <= i < s.memtables().len()
                    &&& (#[trigger] s.memtables()[i]).versions().contains_key(k)
                    &&& s.memtables()[i].versions()[k] == v
                    &&& forall|j: int|
                        0 <= j < i ==> !(#[trigger] s.memtables()[j]).versions().contains_key(k)
                }
            ||| (forall|j: int|
                0 <= j < s.memtables().len() ==> !(
                #[trigger] s.memtables()[j]).versions().contains_key(k)) && in_groups(
                s.sstables@,
                singles(s.l0_sstables@) + Seq::new(s.levels@.len(), |i: int| s.levels@[i].1@),
                k,
                v,
            )
        },
{
    let tables = s.sstables@;
    let ms = s.memtables().map_values(|m: MemTable| m.versions());
    let l0 = lsm_storage::table_maps(tables, s.l0_sstables@);
    let levels = lsm_storage::level_maps(tables, s.levels@);
    let groups = singles(s.l0_sstables@) + Seq::new(s.levels@.len(), |i: int| s.levels@[i].1@);
    let rest = l0 + levels;
    lemma_singles(tables, s.l0_sstables@);
    assert forall|i: int| 0 <= i < rest.len() implies #[trigger] is_group(
        rest[i],
        tables,
        groups[i],
    ) by {
        if i < l0.len() {
            assert(is_group(l0[i], tables, singles(s.l0_sstables@)[i]));
        } else {
            let j = i - l0.len();
            assert(lsm_storage::level_ok(tables, s.levels@[j].1@));
            lemma_level_group(tables, s.levels@[j].1@);
            assert(levels[j] == run::level_map(tables, s.levels@[j].1@));
        }
    }
    lemma_groups(rest, tables, groups, k, v);
    laws::lemma_versions(s);
    assert(s.layers() =~= ms + rest);
    model::lemma_merged_append(ms, rest);
    let m = model::merged(ms);
    if m.contains_key(k) {
        let i = model::lemma_merged_first(ms, k);
        assert(s.memtables()[i].versions().contains_key(k));
        assert forall|j: int| 0 <= j < i implies !(
        #[trigger] s.memtables()[j]).versions().contains_key(k) by {
            assert(!ms[j].contains_key(k));
        }
    }
    if exists|i: int|
        0 <= i < s.memtables().len() && (#[trigger] s.memtables()[i]).versions().contains_key(k) {
        if !m.contains_key(k) {
            let i = choose|i: int|
                0 <= i < s.memtables().len() && (#[trigger] s.memtables()[i]).versions().contains_key(
                    k,
                );
            assert(ms[i].contains_key(k));
            laws::lemma_merged_has(ms, k, i);
        }
    }
    assert forall|i: int|
        {
            &&& 0 <= i < s.memtables().len()
            &&& (#[trigger] s.memtables()[i]).versions().contains_key(k)
            &&& forall|j: int|
                0 <= j < i ==> !(#[trigger] s.memtables()[j]).versions().contains_key(k)
        } implies m.contains_key(k) && m[k] == s.memtables()[i].versions()[k] by {
        assert forall|j: int| 0 <= j < i implies !(#[trigger] ms[j]).contains_key(k) by {
            assert(!s.memtables()[j].versions().contains_key(k));
        }
        model::lemma_merged_at(ms, k, i);
    }
}

/// Tiers that follow each other were replaced by the output of a task that merged them.
pub open spec fn are_tiers_replaced(
    before: LsmStorageState,
    after: LsmStorageState,
    task: TieredCompactionTask,
    p: int,
    tier: usize,
    ts: Seq<SsTable>,
) -> bool {
    let n = task.tiers@.len() as int;
    &&& 0 <= p && p + n <= before.levels@.len()
    &&& forall|j: int|
        0 <= j < n ==> (#[trigger] task.tiers@[j]).1@ == before.levels@[p + j].1@
    &&& task.bottom_tier_included ==> p + n == before.levels@.len()
    &&& laws::same_memtables(before, after)
    &&& after.l0_sstables@ == before.l0_sstables@
    &&& after.levels@.len() == before.levels@.len() - n + 1
    &&& forall|i: int| 0 <= i < p ==> (#[trigger] after.levels@[i]).1@ == before.levels@[i].1@
    &&& after.levels@[p].0 == tier && after.levels@[p].1@.len() == ts.len()
    &&& forall|j: int|
        0 <= j < ts.len() ==> #[trigger] after.levels@[p].1@[j] == ts[j].id()
            && after.sstables@[ts[j].id()] == ts[j]
    &&& forall|i: int|
        p < i < after.levels@.len() ==> (#[trigger] after.levels@[i]).1@ == before.levels@[i - 1
            + n].1@
    &&& forall|j: int|
        0 <= j < before.l0_sstables@.len() ==> after.sstables@[#[trigger] before.l0_sstables@[j]]
            == before.sstables@[before.l0_sstables@[j]]
    &&& forall|i: int, j: int|
        0 <= i < before.levels@.len() && !(p <= i < p + n) && 0 <= j < before.levels@[i].1@.len()
            ==> after.sstables@[#[trigger] before.levels@[i].1@[j]]
            == before.sstables@[before.levels@[i].1@[j]]
}

/// Where tiers that follow each other are replaced by what comes out of a task that merges them,
/// readers at every timestamp get the same.
#[verifier::rlimit(40)]
pub proof fn lemma_read_after_tiers(
    before: LsmStorageInner,
    mid: LsmStorageInner,
    after: LsmStorageState,
    task: TieredCompactionTask,
    p: int,
    tier: usize,
    ts: Vec<SsTable>,
    uk: Seq<u8>,
    at: u64,
)
    requires
        before.settled(),
        run::task_ok(before.state.sstables@, CompactionTask::Tiered(task)),
        run::is_compacted(before, mid, CompactionTask::Tiered(task), Ok(ts)),
        are_tiers_replaced(before.state, after, task, p, tier, ts@),
    ensures
        model::lookup(after.versions(), uk, at) == model::lookup(before.state.versions(), uk, at),
{
    reveal(LsmStorageInner::settled);
    let a = before.state;
    let n = task.tiers@.len() as int;
    let t = CompactionTask::Tiered(task);
    let tables = a.sstables@;
    let bottom = task.bottom_tier_included;
    laws::lemma_task_output(before, t, ts@, mid.next_sst_id);
    let mems = a.memtables().map_values(|m: MemTable| m.versions());
    let am = lsm_storage::level_maps(tables, a.levels@);
    let bm = lsm_storage::level_maps(after.sstables@, after.levels@);
    let l0 = lsm_storage::table_maps(tables, a.l0_sstables@);
    let above = mems + l0 + am.take(p);
    let merged = am.subrange(p, p + n);
    let below = am.skip(p + n);
    let new = seq![bm[p]];
    assert(lsm_storage::table_maps(after.sstables@, after.l0_sstables@) =~= l0);
    assert forall|i: int| 0 <= i < p implies bm[i] == am[i] by {
        let ids = a.levels@[i].1@;
        assert(after.levels@[i].1@ == ids);
        assert(lsm_storage::table_runs(after.sstables@, ids) =~= lsm_storage::table_runs(
            tables,
            ids,
        ));
    }
    assert forall|i: int| p < i < bm.len() implies bm[i] == am[i - 1 + n] by {
        let ids = a.levels@[i - 1 + n].1@;
        assert(after.levels@[i].1@ == ids);
        assert(lsm_storage::table_runs(after.sstables@, ids) =~= lsm_storage::table_runs(
            tables,
            ids,
        ));
    }
    let ids = after.levels@[p].1@;
    let runs = lsm_storage::table_runs(after.sstables@, ids);
    assert forall|j: int| 0 <= j < ts@.len() implies runs[j] == ts@[j].entries() by {
        assert(ids[j] == ts@[j].id());
    }
    assert(runs =~= ts@.map_values(|t: SsTable| t.entries()));
    assert(bm[p] == model::entry_map(run::run_of(ts@)));
    let tm = lsm_storage::level_maps(tables, task.tiers@);
    assert forall|j: int| 0 <= j < n implies tm[j] == merged[j] by {
        assert(task.tiers@[j].1@ == a.levels@[p + j].1@);
    }
    assert(tm =~= merged);
    assert(after.memtables() =~= a.memtables());
    assert(a.layers() =~= above + (merged + below));
    assert(after.layers() =~= above + (new + below));
    laws::lemma_one(bm[p]);
    if bottom {
        assert(below =~= Seq::empty());
        assert(model::merged(below) =~= Map::empty());
    }
    laws::lemma_layers_kept(above, merged, new, below, bottom);
    laws::lemma_versions(a);
    laws::lemma_versions(after);
    laws::lemma_read_after_compaction(
        a.versions(),
        after.versions(),
        model::merged(merged),
        bottom,
        uk,
        at,
    );
}

/// The blocks of a table that were finished when it was cut are at least as large as the target, and
/// without the last of them they are not.
spec fn is_cut(d: TableDraft, target: usize) -> bool {
    &&& d.data.len() >= target
    &&& d.meta.len() > 0
    &&& d.meta[d.meta.len() - 1].offset < target
    &&& d.block.offsets.len() == 1
}

proof fn lemma_sweep_cuts(s: Seq<Entry>, flags: Seq<bool>, block_size: usize, target: usize)
    requires
        target > 0,
        forall|i: int| 0 <= i < s.len() ==> (#[trigger] s[i]).key.key.len() > 0,
    ensures
        ({
            let w = run::sweep(s, flags, block_size, target);
            &&& forall|i: int| 0 <= i < w.done.len() ==> is_cut(#[trigger] w.done[i], target)
            &&& w.open matches Some(d) ==> d.data.len() < target && d.wf() && d.block_size
                == block_size
        }),
    decreases s.len(),
{
    if s.len() > 0 {
        let t = s.drop_last();
        let e = s.last();
        assert(e == s[s.len() - 1]);
        assert forall|i: int| 0 <= i < t.len() implies (#[trigger] t[i]).key.key.len() > 0 by {
            assert(t[i] == s[i]);
        }
        lemma_sweep_cuts(t, flags, block_size, target);
        let v = run::sweep(t, flags, block_size, target);
        let w = run::sweep(s, flags, block_size, target);
        let begun = match v.open {
            Some(d) => d,
            None => TableDraft::empty(block_size),
        };
        reveal(TableDraft::added);
        let d = if flags[s.len() - 1] {
            begun.added(e.key, e.value)
        } else {
            begun
        };
        if flags[s.len() - 1] && !begun.block.accepts(e.key, e.value) {
            assert(begun.sealed().meta[begun.meta.len() as int].offset == begun.data.len());
            assert(d.block.offsets.len() == 1);
        }
        assert forall|i: int| 0 <= i < w.done.len() implies is_cut(
            #[trigger] w.done[i],
            target,
        ) by {
            if i < v.done.len() {
                assert(w.done[i] == v.done[i]);
            }
        }
    }
}

/// Where a compaction cuts its output: every table but the last goes on until its blocks have
/// reached the target size and a block was begun behind them with one entry, and no table goes on
/// for longer.
pub proof fn lemma_output_is_cut(
    before: LsmStorageInner,
    after: LsmStorageInner,
    task: CompactionTask,
    ts: Vec<SsTable>,
    j: int,
)
    requires
        before.options.target_sst_size > 0,
        run::task_ok(before.state.sstables@, task),
        run::is_compacted(before, after, task, Ok(ts)),
        0 <= j < ts@.len(),
    ensures
        ({
            let meta = ts@[j].layout().meta;
            let n = meta.len() as int;
            &&& j < ts@.len() - 1 ==> n >= 2 && meta[n - 1].offset
                >= before.options.target_sst_size
            &&& n >= 2 ==> meta[n - 2].offset < before.options.target_sst_size
        }),
{
    let tables = before.state.sstables@;
    let o = before.options;
    let s = run::task_run(tables, task);
    let flags = run::kept_flags(s, run::at_bottom(before.state, task));
    laws::lemma_task_finite(tables, task);
    model::lemma_sorted_entries(run::task_versions(tables, task));
    assert forall|i: int| 0 <= i < s.len() implies (#[trigger] s[i]).key.key.len() > 0 by {
        model::lemma_entry_map_index(s, i);
        run::lemma_task_keys(tables, task, s[i].key);
    }
    lemma_sweep_cuts(s, flags, o.block_size, o.target_sst_size);
    let w = run::sweep(s, flags, o.block_size, o.target_sst_size);
    let ds = run::task_drafts(before, task);
    let d = ds[j];
    assert(crate::lsm_storage::flush::is_built(
        ts@[j],
        ds[j],
        (before.next_sst_id + j) as usize,
    ));
    lemma_offsets_rise(s, flags, o.block_size, o.target_sst_size);
    assert(table_laws::in_file_order(d));
    if j < w.done.len() {
        assert(is_cut(w.done[j], o.target_sst_size));
    }
    if d.block.offsets.len() > 0 {
        assert(d.sealed().meta == d.meta.push(d.sealed().meta[d.meta.len() as int]));
    }
}

proof fn lemma_offsets_rise(s: Seq<Entry>, flags: Seq<bool>, block_size: usize, target: usize)
    ensures
        ({
            let w = run::sweep(s, flags, block_size, target);
            forall|i: int|
                0 <= i < w.drafts().len() ==> table_laws::in_file_order(#[trigger] w.drafts()[i])
        }),
    decreases s.len(),
{
    if s.len() > 0 {
        let t = s.drop_last();
        let e = s.last();
        lemma_offsets_rise(t, flags, block_size, target);
        let v = run::sweep(t, flags, block_size, target);
        let w = run::sweep(s, flags, block_size, target);
        let begun = match v.open {
            Some(d) => d,
            None => TableDraft::empty(block_size),
        };
        if v.open is Some {
            assert(v.drafts()[v.done.len() as int] == begun);
        }
        table_laws::lemma_file_order(begun, e.key, e.value);
        assert forall|i: int| 0 <= i < w.drafts().len() implies table_laws::in_file_order(
            #[trigger] w.drafts()[i],
        ) by {
            if i < v.done.len() {
                assert(w.drafts()[i] == v.done[i]);
                assert(v.drafts()[i] == v.done[i]);
            }
        }
    }
}

proof fn lemma_sweep_packs(s: Seq<Entry>, flags: Seq<bool>, block_size: usize, target: usize)
    requires
        model::sorted(s),
        mem_table::all_storable(s),
        block_size <= 0x1_0000,
    ensures
        ({
            let w = run::sweep(s, flags, block_size, target);
            forall|i: int|
                0 <= i < w.drafts().len() ==> table_laws::packs(#[trigger] w.drafts()[i])
                    && w.drafts()[i].sound() && w.drafts()[i].block_size == block_size
        }),
    decreases s.len(),
{
    run::lemma_sweep(s, flags, block_size, target);
    if s.len() > 0 {
        let t = s.drop_last();
        let e = s.last();
        assert(e == s[s.len() - 1]);
        assert(s =~= t + seq![e]);
        model::lemma_sorted_parts(t, seq![e]);
        assert forall|i: int| 0 <= i < t.len() implies block::storable(
            (#[trigger] t[i]).key,
            t[i].value,
        ) by {
            assert(t[i] == s[i]);
        }
        lemma_sweep_packs(t, flags, block_size, target);
        let v = run::sweep(t, flags, block_size, target);
        let w = run::sweep(s, flags, block_size, target);
        let begun = match v.open {
            Some(d) => d,
            None => TableDraft::empty(block_size),
        };
        if v.open is Some {
            assert(v.drafts()[v.done.len() as int] == begun);
        } else {
            builder::lemma_empty_sound(block_size);
        }
        assert(block::storable(s[s.len() - 1].key, s[s.len() - 1].value));
        table_laws::lemma_packs_added(begun, e.key, e.value);
        assert forall|i: int| 0 <= i < w.drafts().len() implies table_laws::packs(
            #[trigger] w.drafts()[i],
        ) && w.drafts()[i].sound() && w.drafts()[i].block_size == block_size by {
            if i < v.done.len() {
                assert(w.drafts()[i] == v.done[i]);
                assert(v.drafts()[i] == v.done[i]);
            }
        }
    }
}

/// The blocks of the tables that come out of a compaction are filled as far as the block size
/// allows.
pub proof fn lemma_output_is_filled(
    before: LsmStorageInner,
    after: LsmStorageInner,
    task: CompactionTask,
    ts: Vec<SsTable>,
    j: int,
)
    requires
        lsm_storage::tables_storable(before.state.sstables@),
        before.options.block_size <= 0x1_0000,
        run::task_ok(before.state.sstables@, task),
        run::is_compacted(before, after, task, Ok(ts)),
        0 <= j < ts@.len(),
    ensures
        table_laws::is_packed(ts@[j].layout(), before.options.block_size),
{
    let tables = before.state.sstables@;
    let o = before.options;
    let m = run::task_versions(tables, task);
    let s = run::task_run(tables, task);
    let flags = run::kept_flags(s, run::at_bottom(before.state, task));
    laws::lemma_task_finite(tables, task);
    model::lemma_sorted_entries(m);
    laws::lemma_task_storable(tables, task);
    assert forall|i: int| 0 <= i < s.len() implies block::storable(
        (#[trigger] s[i]).key,
        s[i].value,
    ) by {
        model::lemma_entry_map_index(s, i);
    }
    lemma_sweep_packs(s, flags, o.block_size, o.target_sst_size);
    let ds = run::task_drafts(before, task);
    let id = (before.next_sst_id + j) as usize;
    assert(crate::lsm_storage::flush::is_built(ts@[j], ds[j], id));
    assert(table_laws::packs(ds[j]));
    table_laws::lemma_built_packed(ts@[j], ds[j], id);
}

} // verus!
