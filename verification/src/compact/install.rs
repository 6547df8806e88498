//! Puts the output of a compaction in the place of its input.
use vstd::prelude::*;
use std::collections::HashMap;
use crate::compact::CompactionTask;
use crate::compact::laws;
use crate::compact::run;
use crate::compact::simple_leveled;
use crate::compact::simple_leveled::SimpleLeveledCompactionTask;
use crate::error::LsmError;
use crate::key::KeyTs;
use crate::lsm_storage;
use crate::lsm_storage::{LsmStorageInner, LsmStorageState};
use crate::model;
use crate::model::Versions;
use crate::table::SsTable;
use crate::table::builder::TableDraft;

verus! {

/// Tables after others were added under their ids.
pub open spec fn with_tables(tables: Map<usize, SsTable>, ts: Seq<SsTable>) -> Map<usize, SsTable>
    decreases ts.len(),
{
    if ts.len() == 0 {
        tables
    } else {
        with_tables(tables, ts.drop_last()).insert(ts.last().id(), ts.last())
    }
}

/// Tables after those with some ids were taken out.
pub open spec fn without_tables(tables: Map<usize, SsTable>, ids: Seq<usize>) -> Map<usize, SsTable>
    decreases ids.len(),
{
    if ids.len() == 0 {
        tables
    } else {
        without_tables(tables, ids.drop_last()).remove(ids.last())
    }
}

/// The ids of tables.
pub open spec fn ids_of(ts: Seq<SsTable>) -> Seq<usize> {
    ts.map_values(|t: SsTable| t.id())
}

fn table_ids(ts: &Vec<SsTable>) -> (r: Vec<usize>)
    ensures
        r@ == ids_of(ts@),
{
    let mut ids: Vec<usize> = Vec::new();
    let mut i: usize = 0;
    while i < ts.len()
        invariant
            i <= ts@.len(),
            ids@.len() == i,
            forall|j: int| 0 <= j < i ==> ids@[j] == ts@[j].id(),
        decreases ts@.len() - i,
    {
        ids.push(ts[i].sst_id());
        i = i + 1;
    }
    assert(ids@ =~= ids_of(ts@));
    ids
}

fn insert_tables(tables: &mut HashMap<usize, SsTable>, ts: Vec<SsTable>)
    ensures
        final(tables)@ == with_tables(old(tables)@, ts@),
{
    let ghost all = ts@;
    let n: usize = ts.len();
    let mut i: usize = 0;
    assert(all.take(0) =~= Seq::empty());
    for t in it: ts.into_iter()
        invariant
            it.seq() == all,
            i == it.index(),
            tables@ == with_tables(old(tables)@, all.take(i as int)),
            i <= all.len(),
            all.len() == n,
    {
        broadcast use vstd::std_specs::hash::group_hash_axioms;

        proof {
            assert(all.take(i + 1).drop_last() =~= all.take(i as int));
            assert(all.take(i + 1).last() == t);
        }
        let id: usize = t.sst_id();
        tables.insert(id, t);
        i = i + 1;
    }
    assert(all.take(i as int) =~= all);
}

fn remove_tables(tables: &mut HashMap<usize, SsTable>, ids: &Vec<usize>)
    ensures
        final(tables)@ == without_tables(old(tables)@, ids@),
{
    let mut i: usize = 0;
    assert(ids@.take(0) =~= Seq::empty());
    while i < ids.len()
        invariant
            i <= ids@.len(),
            tables@ == without_tables(old(tables)@, ids@.take(i as int)),
        decreases ids@.len() - i,
    {
        broadcast use vstd::std_specs::hash::group_hash_axioms;

        proof {
            assert(ids@.take(i + 1).drop_last() =~= ids@.take(i as int));
            assert(ids@.take(i + 1).last() == ids@[i as int]);
        }
        tables.remove(&ids[i]);
        i = i + 1;
    }
    assert(ids@.take(i as int) =~= ids@);
}

/// The output of a full compaction is the first level, and its input is gone.
pub open spec fn is_full_installed(
    before: LsmStorageInner,
    after: LsmStorageInner,
    l0: Seq<usize>,
    l1: Seq<usize>,
    ts: Seq<SsTable>,
) -> bool {
    &&& after == LsmStorageInner { state: after.state, ..before }
    &&& after.state.memtable == before.state.memtable
    &&& after.state.imm_memtables == before.state.imm_memtables
    &&& after.state.l0_sstables@ == lsm_storage::left_out(before.state.l0_sstables@, l0 + l1)
    &&& lsm_storage::level_ids(after.state.levels@) == lsm_storage::level_ids(
        before.state.levels@,
    ).update(0, (1, ids_of(ts)))
    &&& after.state.sstables@ == with_tables(without_tables(before.state.sstables@, l0 + l1), ts)
}

/// The output of a task of the simple leveled policy is in its place, and its input is gone.
pub open spec fn is_installed(
    before: LsmStorageInner,
    after: LsmStorageInner,
    task: SimpleLeveledCompactionTask,
    ts: Seq<SsTable>,
    removed: Seq<usize>,
) -> bool {
    &&& after == LsmStorageInner { state: after.state, ..before }
    &&& simple_leveled::is_applied(
        before.state,
        LsmStorageState { sstables: before.state.sstables, ..after.state },
        task,
        ids_of(ts),
        removed,
    )
    &&& after.state.sstables@ == without_tables(with_tables(before.state.sstables@, ts), removed)
}

impl LsmStorageInner {
    /// The task that merges L0 and the first level.
    pub fn full_compaction_task(&self) -> (r: CompactionTask)
        requires
            self.state.levels@.len() > 0,
        ensures
            r matches CompactionTask::ForceFullCompaction { l0_sstables, l1_sstables }
                && l0_sstables@ == self.state.l0_sstables@ && l1_sstables@
                == self.state.levels@[0].1@,
    {
        CompactionTask::ForceFullCompaction {
            l0_sstables: lsm_storage::copy_ids(&self.state.l0_sstables),
            l1_sstables: lsm_storage::copy_ids(&self.state.levels[0].1),
        }
    }

    /// Puts the output of a full compaction in the place of its input. Gives the ids of the tables
    /// that are gone.
    pub fn install_full_compaction(
        &mut self,
        l0_sstables: &Vec<usize>,
        l1_sstables: &Vec<usize>,
        new_ssts: Vec<SsTable>,
    ) -> (r: Vec<usize>)
        requires
            old(self).state.levels@.len() > 0,
        ensures
            is_full_installed(
                *old(self),
                *final(self),
                l0_sstables@,
                l1_sstables@,
                new_ssts@,
            ),
            r@ == l0_sstables@ + l1_sstables@,
    {
        let mut ssts_to_compact = lsm_storage::copy_ids(l0_sstables);
        let mut l1 = lsm_storage::copy_ids(l1_sstables);
        ssts_to_compact.append(&mut l1);
        let new_sst_ids = table_ids(&new_ssts);
        self.state.l0_sstables = lsm_storage::without_ids(
            &self.state.l0_sstables,
            &ssts_to_compact,
        );
        remove_tables(&mut self.state.sstables, &ssts_to_compact);
        insert_tables(&mut self.state.sstables, new_ssts);
        self.state.levels.set(0, (1, new_sst_ids));
        assert(lsm_storage::level_ids(self.state.levels@) =~= lsm_storage::level_ids(
            old(self).state.levels@,
        ).update(0, (1, ids_of(new_ssts@))));
        ssts_to_compact
    }

    /// Puts the output of a compaction in the place of its input. Gives the ids of the tables that
    /// are gone.
    pub fn install_compaction(&mut self, task: &CompactionTask, output_sst: Vec<SsTable>) -> (r: Vec<
        usize,
    >)
        requires
            old(self).compaction_controller is Simple,
            task is Simple,
            simple_leveled::applies(old(self).state.levels@.len(), task->Simple_0),
        ensures
            is_installed(*old(self), *final(self), task->Simple_0, output_sst@, r@),
    {
        let output = table_ids(&output_sst);
        insert_tables(&mut self.state.sstables, output_sst);
        let removed_ssts = self.compaction_controller.apply_compaction_result(
            &mut self.state,
            task,
            output.as_slice(),
        );
        let ghost mid = self.state;
        remove_tables(&mut self.state.sstables, &removed_ssts);
        proof {
            assert(mid == LsmStorageState { sstables: mid.sstables, ..self.state });
        }
        removed_ssts
    }
}

/// The versions in L0 and in the first level.
pub open spec fn first_two_levels(s: LsmStorageState) -> Versions {
    model::prefer(
        model::merged(lsm_storage::table_maps(s.sstables@, s.l0_sstables@)),
        run::level_map(s.sstables@, s.levels@[0].1@),
    )
}

/// The drafts of the tables into which a full compaction merges L0 and the first level.
pub open spec fn full_drafts(i: LsmStorageInner) -> Seq<TableDraft> {
    run::kept_drafts(
        model::sorted_entries(first_two_levels(i.state)),
        run::nothing_from(i.state.levels@, 1),
        i.options,
    )
}

/// Ids that were apart still are, all are those of tables, and the tables that were merged are gone.
pub open spec fn keeps_ids(
    before: LsmStorageInner,
    after: LsmStorageInner,
    removed: Seq<usize>,
) -> bool {
    before.tables_fresh() ==> {
        &&& after.tables_fresh()
        &&& after.state.ids_known()
        &&& forall|id: usize| #[trigger] removed.contains(id) ==> after.state.is_gone(id)
        &&& before.ids_fresh() ==> after.ids_fresh()
    }
}

/// Readers at every timestamp get the same.
pub open spec fn keeps_reads(before: LsmStorageInner, after: LsmStorageInner) -> bool {
    forall|uk: Seq<u8>, ts: u64| #[trigger] after.reads_at(uk, ts) == before.reads_at(uk, ts)
}

/// A full compaction was carried out.
#[verifier::opaque]
pub open spec fn is_full_compaction(
    before: LsmStorageInner,
    after: LsmStorageInner,
    task: CompactionTask,
    ts: Seq<SsTable>,
    removed: Seq<usize>,
) -> bool {
    &&& task matches CompactionTask::ForceFullCompaction { l0_sstables, l1_sstables }
        && l0_sstables@ == before.state.l0_sstables@ && l1_sstables@ == before.state.levels@[0].1@
        && removed == l0_sstables@ + l1_sstables@ && is_full_installed(
        LsmStorageInner { next_sst_id: after.next_sst_id, ..before },
        after,
        l0_sstables@,
        l1_sstables@,
        ts,
    )
    &&& run::are_built(ts, full_drafts(before), before.next_sst_id)
    &&& after.next_sst_id == before.next_sst_id + ts.len()
    &&& before.settled() ==> laws::is_replaced(
        before.state.versions(),
        after.state.versions(),
        first_two_levels(before.state),
        run::nothing_from(before.state.levels@, 1),
    )
}

/// A compaction of the simple leveled policy was carried out.
#[verifier::opaque]
pub open spec fn is_simple_compaction(
    before: LsmStorageInner,
    after: LsmStorageInner,
    task: SimpleLeveledCompactionTask,
    ts: Seq<SsTable>,
    removed: Seq<usize>,
) -> bool {
    &&& is_installed(
        LsmStorageInner { next_sst_id: after.next_sst_id, ..before },
        after,
        task,
        ts,
        removed,
    )
    &&& run::are_built(
        ts,
        run::task_drafts(before, CompactionTask::Simple(task)),
        before.next_sst_id,
    )
    &&& after.next_sst_id == before.next_sst_id + ts.len()
    &&& before.settled() ==> laws::is_replaced(
        before.state.versions(),
        after.state.versions(),
        run::task_versions(before.state.sstables@, CompactionTask::Simple(task)),
        run::at_bottom(before.state, CompactionTask::Simple(task)),
    )
}

/// Ids may have been taken, and nothing else has changed.
pub open spec fn only_ids_taken(before: LsmStorageInner, after: LsmStorageInner) -> bool {
    &&& after == LsmStorageInner { next_sst_id: after.next_sst_id, ..before }
    &&& after.next_sst_id >= before.next_sst_id
}

/// An engine stays settled where only ids were taken.
proof fn lemma_only_ids_taken(before: LsmStorageInner, after: LsmStorageInner)
    requires
        only_ids_taken(before, after),
    ensures
        before.settled() ==> after.settled() && keeps_reads(before, after),
        before.ids_fresh() ==> after.ids_fresh(),
{
    reveal(LsmStorageInner::settled);
}

/// The outcome of a compaction of the simple leveled policy: a task that is due, and why its tables
/// cannot be built, or the state after it.
pub open spec fn is_simple_outcome(
    before: LsmStorageInner,
    after: LsmStorageInner,
    task: SimpleLeveledCompactionTask,
    r: Result<Vec<usize>, LsmError>,
) -> bool {
    &&& simple_leveled::is_due(
        before.compaction_controller->Simple_0.options(),
        before.state,
        task,
    )
    &&& match run::build_error(
        run::task_drafts(before, CompactionTask::Simple(task)),
        before.next_sst_id,
    ) {
        Some(e) => r == Err::<Vec<usize>, LsmError>(e) && only_ids_taken(before, after),
        None => r is Ok && exists|ts: Seq<SsTable>| #[trigger]
            is_simple_compaction(before, after, task, ts, r->Ok_0@),
    }
}

/// After the input of a compaction was replaced, all ids are still those of tables, and those of the
/// input are gone.
proof fn lemma_gone(
    a: LsmStorageState,
    b: LsmStorageState,
    ids: Seq<usize>,
    ts: Seq<SsTable>,
)
    requires
        laws::tables_swapped(a.sstables@, b.sstables@, ids, ts),
        forall|x: int|
            0 <= x < b.l0_sstables@.len() ==> a.sstables@.contains_key(
                #[trigger] b.l0_sstables@[x],
            ) && !ids.contains(b.l0_sstables@[x]),
        forall|i: int, x: int|
            0 <= i < b.levels@.len() && 0 <= x < b.levels@[i].1@.len() ==> (a.sstables@.contains_key(
                #[trigger] b.levels@[i].1@[x],
            ) && !ids.contains(b.levels@[i].1@[x])) || ids_of(ts).contains(b.levels@[i].1@[x]),
    ensures
        b.ids_known(),
        forall|id: usize| #[trigger] ids.contains(id) ==> b.is_gone(id),
{
    assert forall|i: int, x: int|
        0 <= i < b.levels@.len() && 0 <= x < b.levels@[i].1@.len() implies b.sstables@.contains_key(
        #[trigger] b.levels@[i].1@[x],
    ) by {
        let id = b.levels@[i].1@[x];
        if ids_of(ts).contains(id) {
            let j = ids_of(ts).index_of(id);
            assert(ts[j].id() == id);
        }
    }
    assert forall|id: usize| #[trigger] ids.contains(id) implies b.is_gone(id) by {
        if b.l0_sstables@.contains(id) {
            let x = b.l0_sstables@.index_of(id);
            assert(b.sstables@.contains_key(b.l0_sstables@[x]));
        }
        assert forall|i: int| 0 <= i < b.levels@.len() implies !(
        #[trigger] b.levels@[i]).1@.contains(id) by {
            if b.levels@[i].1@.contains(id) {
                let x = b.levels@[i].1@.index_of(id);
                assert(b.sstables@.contains_key(b.levels@[i].1@[x]));
            }
        }
    }
}

/// A compaction into the first level keeps ids apart.
proof fn lemma_first_ids(
    before: LsmStorageInner,
    after: LsmStorageInner,
    ts: Seq<SsTable>,
)
    requires
        before.state.wf(),
        before.tables_fresh(),
        before.state.levels@.len() > 0,
        laws::tables_swapped(
            before.state.sstables@,
            after.state.sstables@,
            before.state.l0_sstables@ + before.state.levels@[0].1@,
            ts,
        ),
        laws::ids_from(ts, before.next_sst_id),
        before.next_sst_id + ts.len() == after.next_sst_id,
        laws::same_memtables(before.state, after.state),
        after.state.l0_sstables@.len() == 0,
        lsm_storage::level_ids(after.state.levels@) == lsm_storage::level_ids(
            before.state.levels@,
        ).update(0, (1, ids_of(ts))),
    ensures
        keeps_ids(before, after, before.state.l0_sstables@ + before.state.levels@[0].1@),
{
    let a = before.state;
    let b = after.state;
    let up = a.l0_sstables@;
    let low = a.levels@[0].1@;
    let ids = up + low;
    let none = Seq::<usize>::empty();
    let x = lsm_storage::level_ids(a.levels@);
    let y = lsm_storage::level_ids(b.levels@);
    assert(a.levels@.len() == x.len() && b.levels@.len() == y.len());
    assert(b.levels@[0].1@ == y[0].1);
    assert forall|i: int| 0 < i < b.levels@.len() implies (#[trigger] b.levels@[i]).1@
        == a.levels@[i].1@ by {
        assert(y[i].1 == b.levels@[i].1@);
        assert(x[i].1 == a.levels@[i].1@);
    }
    assert(none + up =~= up);
    assert(b.l0_sstables@ =~= none);
    laws::lemma_apart_first(a, b, none, up, ts, before.next_sst_id);
    laws::lemma_ids_below(a, b, ids, ts, before.next_sst_id, after.next_sst_id);
    assert forall|i: int, q: int|
        0 <= i < b.levels@.len() && 0 <= q < b.levels@[i].1@.len() implies (a.sstables@.contains_key(
        #[trigger] b.levels@[i].1@[q],
    ) && !ids.contains(b.levels@[i].1@[q])) || ids_of(ts).contains(b.levels@[i].1@[q]) by {
        let id = b.levels@[i].1@[q];
        if i > 0 {
            assert(lsm_storage::level_ok(a.sstables@, a.levels@[i].1@));
            assert(a.sstables@.contains_key(a.levels@[i].1@[q]));
            if ids.contains(id) {
                let j = ids.index_of(id);
                if j < up.len() {
                    assert(a.l0_sstables@[j] != a.levels@[i].1@[q]);
                } else {
                    assert(a.levels@[0].1@[j - up.len()] != a.levels@[i].1@[q]);
                }
            }
        }
    }
    lemma_gone(a, b, ids, ts);
}

/// A compaction into the next level keeps ids apart.
proof fn lemma_next_ids(
    before: LsmStorageInner,
    after: LsmStorageInner,
    n: int,
    ts: Seq<SsTable>,
)
    requires
        before.state.wf(),
        before.tables_fresh(),
        0 <= n < before.state.levels@.len() - 1,
        laws::tables_swapped(
            before.state.sstables@,
            after.state.sstables@,
            before.state.levels@[n].1@ + before.state.levels@[n + 1].1@,
            ts,
        ),
        laws::ids_from(ts, before.next_sst_id),
        before.next_sst_id + ts.len() == after.next_sst_id,
        laws::same_memtables(before.state, after.state),
        after.state.l0_sstables@ == before.state.l0_sstables@,
        lsm_storage::level_ids(after.state.levels@) == lsm_storage::level_ids(
            before.state.levels@,
        ).update(n, ((n + 1) as usize, Seq::empty())).update(
            n + 1,
            ((n + 2) as usize, ids_of(ts)),
        ),
    ensures
        keeps_ids(
            before,
            after,
            before.state.levels@[n].1@ + before.state.levels@[n + 1].1@,
        ),
{
    let a = before.state;
    let b = after.state;
    let up = a.levels@[n].1@;
    let low = a.levels@[n + 1].1@;
    let ids = up + low;
    let x = lsm_storage::level_ids(a.levels@);
    let y = lsm_storage::level_ids(b.levels@);
    assert(a.levels@.len() == x.len() && b.levels@.len() == y.len());
    assert(b.levels@[n].1@ == y[n].1);
    assert(b.levels@[n + 1].1@ == y[n + 1].1);
    assert forall|i: int| 0 <= i < b.levels@.len() && i != n && i != n + 1 implies (
    #[trigger] b.levels@[i]).1@ == a.levels@[i].1@ by {
        assert(y[i].1 == b.levels@[i].1@);
        assert(x[i].1 == a.levels@[i].1@);
    }
    laws::lemma_apart_next(a, b, n, ts, before.next_sst_id);
    laws::lemma_ids_below(a, b, ids, ts, before.next_sst_id, after.next_sst_id);
    assert forall|p: int| 0 <= p < b.l0_sstables@.len() implies a.sstables@.contains_key(
        #[trigger] b.l0_sstables@[p],
    ) && !ids.contains(b.l0_sstables@[p]) by {
        if ids.contains(a.l0_sstables@[p]) {
            let j = ids.index_of(a.l0_sstables@[p]);
            if j < up.len() {
                assert(a.l0_sstables@[p] != a.levels@[n].1@[j]);
            } else {
                assert(a.l0_sstables@[p] != a.levels@[n + 1].1@[j - up.len()]);
            }
        }
    }
    assert forall|i: int, q: int|
        0 <= i < b.levels@.len() && 0 <= q < b.levels@[i].1@.len() implies (a.sstables@.contains_key(
        #[trigger] b.levels@[i].1@[q],
    ) && !ids.contains(b.levels@[i].1@[q])) || ids_of(ts).contains(b.levels@[i].1@[q]) by {
        let id = b.levels@[i].1@[q];
        if i != n && i != n + 1 {
            assert(lsm_storage::level_ok(a.sstables@, a.levels@[i].1@));
            assert(a.sstables@.contains_key(a.levels@[i].1@[q]));
            if ids.contains(id) {
                let j = ids.index_of(id);
                if j < up.len() {
                    assert(a.levels@[n].1@[j] != a.levels@[i].1@[q]);
                } else {
                    assert(a.levels@[n + 1].1@[j - up.len()] != a.levels@[i].1@[q]);
                }
            }
        }
    }
    lemma_gone(a, b, ids, ts);
}

/// What is replaced by what a compaction keeps of it leaves readers what they get, and no version
/// newer than the latest commit.
proof fn lemma_replaced(
    before: LsmStorageInner,
    after: LsmStorageInner,
    merged: Versions,
    bottom: bool,
)
    requires
        laws::is_replaced(before.state.versions(), after.state.versions(), merged, bottom),
        after.mvcc == before.mvcc,
        before.bounded(),
    ensures
        keeps_reads(before, after),
        after.bounded(),
{
    assert forall|uk: Seq<u8>, ts: u64| #[trigger] after.reads_at(uk, ts) == before.reads_at(
        uk,
        ts,
    ) by {
        laws::lemma_read_after_compaction(
            before.state.versions(),
            after.state.versions(),
            merged,
            bottom,
            uk,
            ts,
        );
    }
    assert forall|k: KeyTs| #[trigger] after.state.versions().contains_key(k) implies k.ts
        <= after.mvcc.latest() by {
        assert(before.state.versions().contains_key(k));
    }
}

/// A full compaction keeps ids apart and, of an engine that is settled, all reads.
proof fn lemma_full(
    before: LsmStorageInner,
    after: LsmStorageInner,
    task: CompactionTask,
    ts: Seq<SsTable>,
    removed: Seq<usize>,
)
    requires
        before.state.wf(),
        task matches CompactionTask::ForceFullCompaction { l0_sstables, l1_sstables }
            && l0_sstables@ == before.state.l0_sstables@ && l1_sstables@
            == before.state.levels@[0].1@ && removed == l0_sstables@ + l1_sstables@
            && is_full_installed(
            LsmStorageInner { next_sst_id: after.next_sst_id, ..before },
            after,
            l0_sstables@,
            l1_sstables@,
            ts,
        ),
        before.state.levels@.len() > 0,
        run::task_ok(before.state.sstables@, task),
        run::are_built(ts, run::task_drafts(before, task), before.next_sst_id),
        after.next_sst_id == before.next_sst_id + ts.len(),
    ensures
        is_full_compaction(before, after, task, ts, removed),
        keeps_ids(before, after, removed),
        before.settled() ==> after.settled() && keeps_reads(before, after),
{
    reveal(is_full_compaction);
    reveal(LsmStorageInner::settled);
    let a = before.state;
    let b = after.state;
    let upper = a.l0_sstables@;
    let l1 = a.levels@[0].1@;
    let none = Seq::<usize>::empty();
    let first = before.next_sst_id;
    let next = after.next_sst_id;
    let bottom = run::nothing_from(a.levels@, 1);
    assert(full_drafts(before) == run::task_drafts(before, task));
    if before.tables_fresh() {
        laws::lemma_built_ids(ts, full_drafts(before), first);
        lemma_input_ids(a, upper, l1, first);
        laws::lemma_swapped_full(a.sstables@, upper + l1, ts, first);
        assert(none + upper =~= upper);
        assert forall|i: int| 0 <= i < upper.len() implies (upper + l1).contains(
            #[trigger] upper[i],
        ) by {
            assert((upper + l1)[i] == upper[i]);
        }
        laws::lemma_left_out(none, upper, upper + l1);
        lemma_first_ids(before, after, ts);
        if before.settled() {
            laws::lemma_task_output(before, task, ts, next);
            laws::lemma_into_first_level(a, b, none, upper, ts, first, next, bottom);
            laws::lemma_swapped_storable(a.sstables@, b.sstables@, upper + l1, ts, first);
            lemma_replaced(before, after, first_two_levels(a), bottom);
        }
    }
}

/// What a full compaction leaves in the lists of tables.
proof fn lemma_full_lists(before: LsmStorageInner, after: LsmStorageInner, ts: Seq<SsTable>)
    requires
        before.state.levels@.len() > 0,
        is_full_installed(
            LsmStorageInner { next_sst_id: after.next_sst_id, ..before },
            after,
            before.state.l0_sstables@,
            before.state.levels@[0].1@,
            ts,
        ),
    ensures
        after.state.l0_sstables@.len() == 0,
        after.state.levels@.len() == before.state.levels@.len(),
        forall|i: int|
            0 < i < before.state.levels@.len() ==> (#[trigger] after.state.levels@[i]).1@
                == before.state.levels@[i].1@,
{
    let l0 = before.state.l0_sstables@;
    let all = l0 + before.state.levels@[0].1@;
    let left = after.state.l0_sstables@;
    if left.len() > 0 {
        let id = left[0];
        assert(left.contains(id));
        lsm_storage::lemma_left_out_has(l0, all, id);
        let j = l0.index_of(id);
        assert(all[j] == id);
    }
    let a = lsm_storage::level_ids(before.state.levels@);
    let b = lsm_storage::level_ids(after.state.levels@);
    assert(a.len() == before.state.levels@.len() && b.len() == after.state.levels@.len());
    assert forall|i: int| 0 < i < before.state.levels@.len() implies (
    #[trigger] after.state.levels@[i]).1@ == before.state.levels@[i].1@ by {
        assert(b[i] == a[i]);
    }
}

/// The ids of tables that are there are below the next one.
proof fn lemma_input_ids(a: LsmStorageState, up: Seq<usize>, low: Seq<usize>, first: usize)
    requires
        lsm_storage::tables_ok(a.sstables@, up),
        lsm_storage::tables_ok(a.sstables@, low),
        a.tables_below(first),
    ensures
        forall|id: usize| #[trigger] (up + low).contains(id) ==> id < first,
{
    assert forall|id: usize| #[trigger] (up + low).contains(id) implies id < first by {
        let j = (up + low).index_of(id);
        if j < up.len() {
            assert(a.sstables@.contains_key(up[j]));
        } else {
            assert(a.sstables@.contains_key(low[j - up.len()]));
        }
    }
}

/// The level that a task of the simple leveled policy merges into the next.
proof fn lemma_due_level(
    o: simple_leveled::SimpleLeveledCompactionOptions,
    a: LsmStorageState,
    task: SimpleLeveledCompactionTask,
) -> (n: int)
    requires
        a.numbered(),
        simple_leveled::is_due(o, a, task),
        !simple_leveled::l0_due(o, a),
    ensures
        0 <= n < a.levels@.len() - 1,
        task.upper_level == Some((n + 1) as usize),
        n + 2 <= usize::MAX,
        task.lower_level == n + 2,
        task.upper_level_sst_ids@ == a.levels@[n].1@,
        task.lower_level_sst_ids@ == a.levels@[n + 1].1@,
{
    let n = choose|i: int|
        {
            &&& 0 <= i < a.levels@.len() - 1
            &&& #[trigger] simple_leveled::level_due(o, a, i)
            &&& forall|j: int| 0 <= j < i ==> !#[trigger] simple_leveled::level_due(o, a, j)
            &&& task.upper_level == Some(a.levels@[i].0)
            &&& task.upper_level_sst_ids@ == a.levels@[i].1@
            &&& task.lower_level == a.levels@[i + 1].0
            &&& task.lower_level_sst_ids@ == a.levels@[i + 1].1@
            &&& task.is_lower_level_bottom_level == (a.levels@.len() == a.levels@[i + 1].0)
        };
    assert(a.levels@[n].0 == n + 1 && a.levels@[n + 1].0 == n + 2);
    n
}

/// The task of the simple leveled policy can be carried out.
proof fn lemma_due_ok(i: LsmStorageInner, task: SimpleLeveledCompactionTask)
    requires
        i.state.wf(),
        i.state.levels@.len() > 0,
        i.state.numbered(),
        i.state.l0_sstables@.len() < usize::MAX,
        simple_leveled::is_due(i.compaction_controller->Simple_0.options(), i.state, task),
    ensures
        run::task_ok(i.state.sstables@, CompactionTask::Simple(task)),
        simple_leveled::applies(i.state.levels@.len(), task),
        !simple_leveled::nothing_due(i.compaction_controller->Simple_0.options(), i.state),
{
    let a = i.state;
    let o = i.compaction_controller->Simple_0.options();
    if simple_leveled::l0_due(o, a) {
        assert(lsm_storage::level_ok(a.sstables@, a.levels@[0].1@));
    } else {
        let n = lemma_due_level(o, a, task);
        assert(lsm_storage::level_ok(a.sstables@, a.levels@[n].1@));
        assert(lsm_storage::level_ok(a.sstables@, a.levels@[n + 1].1@));
    }
}

/// A compaction of the simple leveled policy keeps ids apart and, of an engine that is settled, all
/// reads.
proof fn lemma_simple(
    before: LsmStorageInner,
    after: LsmStorageInner,
    task: SimpleLeveledCompactionTask,
    ts: Seq<SsTable>,
    removed: Seq<usize>,
)
    requires
        before.state.wf(),
        before.state.levels@.len() > 0,
        before.state.numbered(),
        simple_leveled::is_due(
            before.compaction_controller->Simple_0.options(),
            before.state,
            task,
        ),
        is_installed(
            LsmStorageInner { next_sst_id: after.next_sst_id, ..before },
            after,
            task,
            ts,
            removed,
        ),
        run::task_ok(before.state.sstables@, CompactionTask::Simple(task)),
        run::are_built(
            ts,
            run::task_drafts(before, CompactionTask::Simple(task)),
            before.next_sst_id,
        ),
        after.next_sst_id == before.next_sst_id + ts.len(),
    ensures
        is_simple_compaction(before, after, task, ts, removed),
        keeps_ids(before, after, removed),
        before.settled() ==> after.settled() && keeps_reads(before, after),
{
    reveal(is_simple_compaction);
    reveal(LsmStorageInner::settled);
    let a = before.state;
    let b = after.state;
    let o = before.compaction_controller->Simple_0.options();
    let first = before.next_sst_id;
    let up = task.upper_level_sst_ids@;
    let low = task.lower_level_sst_ids@;
    if before.tables_fresh() {
        laws::lemma_built_ids(
            ts,
            run::task_drafts(before, CompactionTask::Simple(task)),
            first,
        );
        lemma_input_ids(a, up, low, first);
        laws::lemma_swapped(a.sstables@, up + low, ts, first);
        if simple_leveled::l0_due(o, a) {
            lemma_simple_l0(before, after, task, ts, removed);
        } else {
            let n = lemma_due_level(o, a, task);
            lemma_simple_level(before, after, task, ts, removed, n);
        }
    }
}

/// What both forms of a compaction of the simple leveled policy share.
spec fn is_swapped(
    before: LsmStorageInner,
    after: LsmStorageInner,
    task: SimpleLeveledCompactionTask,
    ts: Seq<SsTable>,
    removed: Seq<usize>,
) -> bool {
    &&& before.state.wf()
    &&& before.tables_fresh()
    &&& before.state.levels@.len() > 0
    &&& is_installed(
        LsmStorageInner { next_sst_id: after.next_sst_id, ..before },
        after,
        task,
        ts,
        removed,
    )
    &&& run::task_ok(before.state.sstables@, CompactionTask::Simple(task))
    &&& run::are_built(
        ts,
        run::task_drafts(before, CompactionTask::Simple(task)),
        before.next_sst_id,
    )
    &&& laws::ids_from(ts, before.next_sst_id)
    &&& after.next_sst_id == before.next_sst_id + ts.len()
    &&& laws::tables_swapped(
        before.state.sstables@,
        after.state.sstables@,
        task.upper_level_sst_ids@ + task.lower_level_sst_ids@,
        ts,
    )
}

proof fn lemma_simple_l0(
    before: LsmStorageInner,
    after: LsmStorageInner,
    task: SimpleLeveledCompactionTask,
    ts: Seq<SsTable>,
    removed: Seq<usize>,
)
    requires
        is_swapped(before, after, task, ts, removed),
        task.upper_level is None,
        task.lower_level == 1,
        task.upper_level_sst_ids@ == before.state.l0_sstables@,
        task.lower_level_sst_ids@ == before.state.levels@[0].1@,
    ensures
        keeps_ids(before, after, removed),
        before.settled() ==> after.settled() && keeps_reads(before, after) && laws::is_replaced(
            before.state.versions(),
            after.state.versions(),
            run::task_versions(before.state.sstables@, CompactionTask::Simple(task)),
            run::at_bottom(before.state, CompactionTask::Simple(task)),
        ),
{
    reveal(LsmStorageInner::settled);
    let a = before.state;
    let b = after.state;
    let up = task.upper_level_sst_ids@;
    let low = task.lower_level_sst_ids@;
    let first = before.next_sst_id;
    let next = after.next_sst_id;
    let none = Seq::<usize>::empty();
    let t = CompactionTask::Simple(task);
    let bottom = run::at_bottom(a, t);
    assert(none + up =~= up);
    laws::lemma_left_out(none, up, up);
    lemma_first_ids(before, after, ts);
    if before.settled() {
        laws::lemma_task_output(before, t, ts, next);
        laws::lemma_into_first_level(a, b, none, up, ts, first, next, bottom);
        laws::lemma_swapped_storable(a.sstables@, b.sstables@, up + low, ts, first);
        lemma_replaced(before, after, run::task_versions(a.sstables@, t), bottom);
    }
}

proof fn lemma_simple_level(
    before: LsmStorageInner,
    after: LsmStorageInner,
    task: SimpleLeveledCompactionTask,
    ts: Seq<SsTable>,
    removed: Seq<usize>,
    n: int,
)
    requires
        is_swapped(before, after, task, ts, removed),
        0 <= n < before.state.levels@.len() - 1,
        n + 2 <= usize::MAX,
        task.upper_level == Some((n + 1) as usize),
        task.lower_level == n + 2,
        task.upper_level_sst_ids@ == before.state.levels@[n].1@,
        task.lower_level_sst_ids@ == before.state.levels@[n + 1].1@,
    ensures
        keeps_ids(before, after, removed),
        before.settled() ==> after.settled() && keeps_reads(before, after) && laws::is_replaced(
            before.state.versions(),
            after.state.versions(),
            run::task_versions(before.state.sstables@, CompactionTask::Simple(task)),
            run::at_bottom(before.state, CompactionTask::Simple(task)),
        ),
{
    reveal(LsmStorageInner::settled);
    let a = before.state;
    let b = after.state;
    let up = task.upper_level_sst_ids@;
    let low = task.lower_level_sst_ids@;
    let first = before.next_sst_id;
    let next = after.next_sst_id;
    let t = CompactionTask::Simple(task);
    let bottom = run::at_bottom(a, t);
    lemma_next_ids(before, after, n, ts);
    if before.settled() {
        laws::lemma_task_output(before, t, ts, next);
        laws::lemma_into_next_level(a, b, n, ts, first, next, bottom);
        laws::lemma_swapped_storable(a.sstables@, b.sstables@, up + low, ts, first);
        lemma_replaced(before, after, run::task_versions(a.sstables@, t), bottom);
    }
}

impl LsmStorageInner {
    /// Merges L0 and the first level. Gives the ids of the tables that are gone.
    pub fn force_full_compaction(&mut self) -> (r: Result<Vec<usize>, LsmError>)
        requires
            old(self).state.wf(),
            old(self).state.levels@.len() > 0,
            old(self).state.l0_sstables@.len() < usize::MAX,
        ensures
            match run::build_error(full_drafts(*old(self)), old(self).next_sst_id) {
                Some(e) => r == Err::<Vec<usize>, LsmError>(e),
                None => r is Ok,
            },
            r is Err ==> only_ids_taken(*old(self), *final(self)),
            r is Ok ==> exists|task: CompactionTask, ts: Seq<SsTable>| #[trigger]
                is_full_compaction(*old(self), *final(self), task, ts, r->Ok_0@),
            r is Ok ==> keeps_ids(*old(self), *final(self), r->Ok_0@),
            old(self).settled() ==> final(self).settled() && keeps_reads(
                *old(self),
                *final(self),
            ),
            old(self).ids_fresh() ==> final(self).ids_fresh(),
            laws::same_memtables(old(self).state, final(self).state),
            final(self).mvcc == old(self).mvcc,
            r is Ok ==> {
                &&& r->Ok_0@ == old(self).state.l0_sstables@ + old(self).state.levels@[0].1@
                &&& final(self).state.l0_sstables@.len() == 0
                &&& final(self).state.levels@.len() == old(self).state.levels@.len()
                &&& forall|i: int|
                    0 < i < old(self).state.levels@.len() ==> (
                    #[trigger] final(self).state.levels@[i]).1@ == old(self).state.levels@[i].1@
            },
    {
        let task = self.full_compaction_task();
        assert(lsm_storage::level_ok(self.state.sstables@, self.state.levels@[0].1@));
        assert(full_drafts(*self) == run::task_drafts(*self, task));
        let new_ssts = match self.compact(&task) {
            Err(e) => {
                proof {
                    lemma_only_ids_taken(*old(self), *self);
                }
                return Err(e);
            },
            Ok(x) => x,
        };
        let ghost ts = new_ssts@;
        match &task {
            CompactionTask::ForceFullCompaction { l0_sstables, l1_sstables } => {
                let removed = self.install_full_compaction(l0_sstables, l1_sstables, new_ssts);
                proof {
                    lemma_full(*old(self), *self, task, ts, removed@);
                    lemma_full_lists(*old(self), *self, ts);
                }
                let r: Result<Vec<usize>, LsmError> = Ok(removed);
                assert(is_full_compaction(*old(self), *self, task, ts, r->Ok_0@));
                r
            },
            _ => {
                assert(false);
                Ok(Vec::new())
            },
        }
    }

    /// Carries out the compaction that is due, if any. Gives the ids of the tables that are gone.
    pub fn trigger_compaction(&mut self) -> (r: Result<Vec<usize>, LsmError>)
        requires
            old(self).compaction_controller is Simple,
            old(self).state.wf(),
            old(self).state.numbered(),
            old(self).state.levels@.len() > 0,
            old(self).state.l0_sstables@.len() < usize::MAX,
        ensures
            simple_leveled::nothing_due(
                old(self).compaction_controller->Simple_0.options(),
                old(self).state,
            ) ==> r is Ok && r->Ok_0@ == Seq::<usize>::empty() && *final(self) == *old(self),
            !simple_leveled::nothing_due(
                old(self).compaction_controller->Simple_0.options(),
                old(self).state,
            ) ==> exists|task: SimpleLeveledCompactionTask| #[trigger]
                is_simple_outcome(*old(self), *final(self), task, r),
            r is Ok ==> keeps_ids(*old(self), *final(self), r->Ok_0@),
            old(self).settled() ==> final(self).settled() && keeps_reads(
                *old(self),
                *final(self),
            ),
            old(self).ids_fresh() ==> final(self).ids_fresh(),
            laws::same_memtables(old(self).state, final(self).state),
            final(self).mvcc == old(self).mvcc,
            r is Ok && old(self).state.l0_sstables@.len()
                >= old(self).compaction_controller->Simple_0.options().level0_file_num_compaction_trigger
                ==> {
                &&& final(self).state.l0_sstables@.len() == 0
                &&& r->Ok_0@ == old(self).state.l0_sstables@ + old(self).state.levels@[0].1@
                &&& forall|i: int|
                    0 < i < old(self).state.levels@.len() ==> (
                    #[trigger] final(self).state.levels@[i]).1@ == old(self).state.levels@[i].1@
            },
            old(self).state.l0_sstables@.len()
                < old(self).compaction_controller->Simple_0.options().level0_file_num_compaction_trigger
                ==> final(self).state.l0_sstables@ == old(self).state.l0_sstables@,
    {
        let compaction_task = match self.compaction_controller.generate_compaction_task(
            &self.state,
        ) {
            None => {
                proof {
                    lemma_ids_known(self.state);
                }
                return Ok(Vec::new());
            },
            Some(t) => t,
        };
        let ghost task = compaction_task->Simple_0;
        proof {
            lemma_due_ok(*self, task);
        }
        let output_sst = match self.compact(&compaction_task) {
            Err(e) => {
                proof {
                    lemma_only_ids_taken(*old(self), *self);
                }
                let r: Result<Vec<usize>, LsmError> = Err(e);
                assert(is_simple_outcome(*old(self), *self, task, r));
                return r;
            },
            Ok(x) => x,
        };
        let ghost ts = output_sst@;
        let removed = self.install_compaction(&compaction_task, output_sst);
        proof {
            lemma_simple(*old(self), *self, task, ts, removed@);
            let b = LsmStorageState { sstables: old(self).state.sstables, ..self.state };
            let n = simple_leveled::lemma_what_is_due(
                self.compaction_controller->Simple_0.options(),
                old(self).state,
                task,
            );
            simple_leveled::lemma_what_is_applied(old(self).state, b, task, ids_of(ts), removed@);
            if task.upper_level is None {
                if b.l0_sstables@.len() > 0 {
                    assert(b.l0_sstables@.contains(b.l0_sstables@[0]));
                }
                assert forall|i: int| 0 < i < old(self).state.levels@.len() implies (
                #[trigger] self.state.levels@[i]).1@ == old(self).state.levels@[i].1@ by {
                    assert(b.levels@[i].1@ == old(self).state.levels@[i].1@);
                }
            }
        }
        let r: Result<Vec<usize>, LsmError> = Ok(removed);
        assert(is_simple_compaction(*old(self), *self, task, ts, r->Ok_0@));
        assert(is_simple_outcome(*old(self), *self, task, r));
        r
    }
}

proof fn lemma_ids_known(s: LsmStorageState)
    requires
        s.wf(),
    ensures
        s.ids_known(),
{
    assert forall|i: int, a: int|
        0 <= i < s.levels@.len() && 0 <= a < s.levels@[i].1@.len() implies s.sstables@.contains_key(
        #[trigger] s.levels@[i].1@[a],
    ) by {
        assert(lsm_storage::level_ok(s.sstables@, s.levels@[i].1@));
    }
}

} // verus!
