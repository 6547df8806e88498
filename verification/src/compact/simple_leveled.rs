//! Simple leveled compaction: L0 by the number of its tables, the other levels by the ratio of the
//! number of tables to that of the level above.
use vstd::prelude::*;
use crate::lsm_storage;
use crate::lsm_storage::LsmStorageState;

verus! {

#[derive(Debug, Clone)]
pub struct SimpleLeveledCompactionOptions {
    pub size_ratio_percent: usize,
    pub level0_file_num_compaction_trigger: usize,
    pub max_levels: usize,
}

#[derive(Debug)]
pub struct SimpleLeveledCompactionTask {
    /// If `upper_level` is `None`, then it is L0 compaction.
    pub upper_level: Option<usize>,
    pub upper_level_sst_ids: Vec<usize>,
    pub lower_level: usize,
    pub lower_level_sst_ids: Vec<usize>,
    pub is_lower_level_bottom_level: bool,
}

pub struct SimpleLeveledCompactionController {
    options: SimpleLeveledCompactionOptions,
}

/// L0 has enough tables for a compaction.
pub open spec fn l0_due(o: SimpleLeveledCompactionOptions, s: LsmStorageState) -> bool {
    s.l0_sstables@.len() >= o.level0_file_num_compaction_trigger
}

/// There are tables in the upper level, and too few in the lower for them: in percent of the upper,
/// rounded down, less than the ratio.
pub open spec fn ratio_due(o: SimpleLeveledCompactionOptions, upper: int, lower: int) -> bool {
    upper > 0 && lower * 100 / upper < o.size_ratio_percent
}

/// The level at index `i` is to be merged into the one below.
pub open spec fn level_due(o: SimpleLeveledCompactionOptions, s: LsmStorageState, i: int) -> bool {
    ratio_due(o, s.levels@[i].1@.len() as int, s.levels@[i + 1].1@.len() as int)
}

/// No compaction is due.
pub open spec fn nothing_due(o: SimpleLeveledCompactionOptions, s: LsmStorageState) -> bool {
    &&& !l0_due(o, s)
    &&& forall|i: int| 0 <= i < s.levels@.len() - 1 ==> !#[trigger] level_due(o, s, i)
}

/// The task merges L0 into the first level, where L0 has enough tables. Otherwise it merges the
/// first level that is due into the next.
pub open spec fn is_due(
    o: SimpleLeveledCompactionOptions,
    s: LsmStorageState,
    task: SimpleLeveledCompactionTask,
) -> bool {
    if l0_due(o, s) {
        &&& task.upper_level is None
        &&& task.upper_level_sst_ids@ == s.l0_sstables@
        &&& task.lower_level == 1
        &&& task.lower_level_sst_ids@ == s.levels@[0].1@
        &&& task.is_lower_level_bottom_level == (s.levels@.len() == 1)
    } else {
        exists|i: int|
            {
                &&& 0 <= i < s.levels@.len() - 1
                &&& #[trigger] level_due(o, s, i)
                &&& forall|j: int| 0 <= j < i ==> !#[trigger] level_due(o, s, j)
                &&& task.upper_level == Some(s.levels@[i].0)
                &&& task.upper_level_sst_ids@ == s.levels@[i].1@
                &&& task.lower_level == s.levels@[i + 1].0
                &&& task.lower_level_sst_ids@ == s.levels@[i + 1].1@
                &&& task.is_lower_level_bottom_level == (s.levels@.len()
                    == s.levels@[i + 1].0)
            }
    }
}

/// The levels of the task are there.
pub open spec fn applies(levels: nat, task: SimpleLeveledCompactionTask) -> bool {
    match task.upper_level {
        None => levels > 0,
        Some(u) => 1 <= u <= levels && 1 <= task.lower_level <= levels,
    }
}

/// The state after a compaction: the output stands in the lower level, the upper level is empty,
/// and L0 has lost what was merged. Memtables and the tables themselves are as before.
pub open spec fn is_applied(
    before: LsmStorageState,
    after: LsmStorageState,
    task: SimpleLeveledCompactionTask,
    output: Seq<usize>,
    removed: Seq<usize>,
) -> bool {
    &&& after.memtable == before.memtable
    &&& after.imm_memtables@ == before.imm_memtables@
    &&& after.sstables@ == before.sstables@
    &&& removed == task.upper_level_sst_ids@ + task.lower_level_sst_ids@
    &&& match task.upper_level {
        None => {
            &&& after.l0_sstables@ == lsm_storage::left_out(
                before.l0_sstables@,
                task.upper_level_sst_ids@,
            )
            &&& lsm_storage::level_ids(after.levels@) == lsm_storage::level_ids(
                before.levels@,
            ).update(0, (1, output))
        },
        Some(u) => {
            &&& after.l0_sstables@ == before.l0_sstables@
            &&& lsm_storage::level_ids(after.levels@) == lsm_storage::level_ids(
                before.levels@,
            ).update(u - 1, (u, Seq::empty())).update(
                task.lower_level - 1,
                (task.lower_level, output),
            )
        },
    }
}

/// When a compaction is due: L0 has at least as many tables as the trigger, or a level has tables
/// and the next one, in percent of them and rounded down, fewer than the ratio.
pub proof fn lemma_when_due(o: SimpleLeveledCompactionOptions, s: LsmStorageState)
    ensures
        nothing_due(o, s) <==> s.l0_sstables@.len() < o.level0_file_num_compaction_trigger
            && forall|i: int|
            #![trigger s.levels@[i]]
            0 <= i < s.levels@.len() - 1 && s.levels@[i].1@.len() > 0
                ==> s.levels@[i + 1].1@.len() as int * 100 / s.levels@[i].1@.len() as int
                >= o.size_ratio_percent,
{
    if nothing_due(o, s) {
        assert forall|i: int|
            #![trigger s.levels@[i]]
            0 <= i < s.levels@.len() - 1 && s.levels@[i].1@.len() > 0 implies s.levels@[i
            + 1].1@.len() as int * 100 / s.levels@[i].1@.len() as int >= o.size_ratio_percent by {
            assert(!level_due(o, s, i));
        }
    } else if s.l0_sstables@.len() < o.level0_file_num_compaction_trigger {
        let i = choose|i: int| 0 <= i < s.levels@.len() - 1 && #[trigger] level_due(o, s, i);
        assert(s.levels@[i].1@.len() > 0);
    }
}

/// What a task that is due merges: L0 into the first level if and only if L0 has at least as many
/// tables as the trigger, and otherwise the first level of which the next one has too few tables.
pub proof fn lemma_what_is_due(
    o: SimpleLeveledCompactionOptions,
    s: LsmStorageState,
    task: SimpleLeveledCompactionTask,
) -> (n: int)
    requires
        is_due(o, s, task),
    ensures
        task.upper_level is None <==> s.l0_sstables@.len() >= o.level0_file_num_compaction_trigger,
        task.upper_level is None ==> {
            &&& task.upper_level_sst_ids@ == s.l0_sstables@
            &&& task.lower_level == 1
            &&& task.lower_level_sst_ids@ == s.levels@[0].1@
            &&& task.is_lower_level_bottom_level <==> s.levels@.len() == 1
        },
        task.upper_level matches Some(u) ==> {
            &&& 0 <= n < s.levels@.len() - 1
            &&& s.levels@[n].1@.len() > 0
            &&& o.size_ratio_percent > s.levels@[n + 1].1@.len() as int * 100
                / s.levels@[n].1@.len() as int
            &&& forall|j: int|
                #![trigger s.levels@[j]]
                0 <= j < n && s.levels@[j].1@.len() > 0 ==> s.levels@[j + 1].1@.len() as int * 100
                    / s.levels@[j].1@.len() as int >= o.size_ratio_percent
            &&& u == s.levels@[n].0
            &&& task.upper_level_sst_ids@ == s.levels@[n].1@
            &&& task.lower_level == s.levels@[n + 1].0
            &&& task.lower_level_sst_ids@ == s.levels@[n + 1].1@
            &&& task.is_lower_level_bottom_level <==> s.levels@.len() == s.levels@[n + 1].0
        },
{
    if s.l0_sstables@.len() >= o.level0_file_num_compaction_trigger {
        0
    } else {
        let i = choose|i: int|
            {
                &&& 0 <= i < s.levels@.len() - 1
                &&& #[trigger] level_due(o, s, i)
                &&& forall|j: int| 0 <= j < i ==> !#[trigger] level_due(o, s, j)
                &&& task.upper_level == Some(s.levels@[i].0)
                &&& task.upper_level_sst_ids@ == s.levels@[i].1@
                &&& task.lower_level == s.levels@[i + 1].0
                &&& task.lower_level_sst_ids@ == s.levels@[i + 1].1@
                &&& task.is_lower_level_bottom_level == (s.levels@.len() == s.levels@[i + 1].0)
            };
        assert forall|j: int|
            #![trigger s.levels@[j]]
            0 <= j < i && s.levels@[j].1@.len() > 0 implies s.levels@[j + 1].1@.len() as int * 100
            / s.levels@[j].1@.len() as int >= o.size_ratio_percent by {
            assert(!level_due(o, s, j));
        }
        i
    }
}

/// What a compaction changes: the output stands in the lower level and the upper level is empty, all
/// other levels stay, L0 loses the tables of the upper level if that was L0 and no others, and the
/// tables of both levels are to be removed.
pub proof fn lemma_what_is_applied(
    before: LsmStorageState,
    after: LsmStorageState,
    task: SimpleLeveledCompactionTask,
    output: Seq<usize>,
    removed: Seq<usize>,
)
    requires
        applies(before.levels@.len(), task),
        is_applied(before, after, task, output, removed),
    ensures
        after.levels@.len() == before.levels@.len(),
        after.memtable == before.memtable,
        after.imm_memtables@ == before.imm_memtables@,
        after.sstables@ == before.sstables@,
        forall|id: usize| #[trigger]
            removed.contains(id) <==> task.upper_level_sst_ids@.contains(id)
                || task.lower_level_sst_ids@.contains(id),
        task.upper_level is None ==> {
            &&& after.levels@[0].0 == 1 && after.levels@[0].1@ == output
            &&& forall|i: int|
                0 < i < before.levels@.len() ==> (#[trigger] after.levels@[i]).0
                    == before.levels@[i].0 && after.levels@[i].1@ == before.levels@[i].1@
            &&& forall|id: usize| #[trigger]
                after.l0_sstables@.contains(id) <==> before.l0_sstables@.contains(id)
                    && !task.upper_level_sst_ids@.contains(id)
        },
        task.upper_level matches Some(u) ==> {
            &&& after.levels@[task.lower_level - 1].0 == task.lower_level
            &&& after.levels@[task.lower_level - 1].1@ == output
            &&& u != task.lower_level ==> after.levels@[u - 1].0 == u && after.levels@[u
                - 1].1@.len() == 0
            &&& forall|i: int|
                0 <= i < before.levels@.len() && i != u - 1 && i != task.lower_level - 1 ==> (
                #[trigger] after.levels@[i]).0 == before.levels@[i].0 && after.levels@[i].1@
                    == before.levels@[i].1@
            &&& after.l0_sstables@ == before.l0_sstables@
        },
{
    let a = lsm_storage::level_ids(before.levels@);
    let b = lsm_storage::level_ids(after.levels@);
    assert(a.len() == before.levels@.len() && b.len() == after.levels@.len());
    assert forall|i: int| 0 <= i < b.len() implies (#[trigger] after.levels@[i]).0 == b[i].0
        && after.levels@[i].1@ == b[i].1 by {}
    assert forall|i: int| 0 <= i < a.len() implies (#[trigger] before.levels@[i]).0 == a[i].0
        && before.levels@[i].1@ == a[i].1 by {}
    let up = task.upper_level_sst_ids@;
    let low = task.lower_level_sst_ids@;
    assert forall|id: usize| #[trigger] removed.contains(id) <==> up.contains(id) || low.contains(
        id,
    ) by {
        if up.contains(id) {
            let j = up.index_of(id);
            assert(removed[j] == id);
        }
        if low.contains(id) {
            let j = low.index_of(id);
            assert(removed[up.len() + j] == id);
        }
        if removed.contains(id) {
            let j = removed.index_of(id);
            if j < up.len() {
                assert(up[j] == id);
            } else {
                assert(low[j - up.len()] == id);
            }
        }
    }
    if task.upper_level is None {
        assert forall|id: usize| #[trigger] after.l0_sstables@.contains(id)
            <==> before.l0_sstables@.contains(id) && !up.contains(id) by {
            lsm_storage::lemma_left_out_has(before.l0_sstables@, up, id);
        }
    }
}

impl SimpleLeveledCompactionController {
    pub closed spec fn options(&self) -> SimpleLeveledCompactionOptions {
        self.options
    }

    pub fn new(options: SimpleLeveledCompactionOptions) -> (r: SimpleLeveledCompactionController)
        ensures
            r.options() == options,
    {
        SimpleLeveledCompactionController { options }
    }

    /// Generates a compaction task.
    ///
    /// Returns `None` if no compaction needs to be scheduled. The order of SSTs in the compaction
    /// task id vector matters.
    pub fn generate_compaction_task(&self, snapshot: &LsmStorageState) -> (r: Option<
        SimpleLeveledCompactionTask,
    >)
        requires
            snapshot.levels@.len() > 0,
        ensures
            match r {
                None => nothing_due(self.options(), *snapshot),
                Some(task) => is_due(self.options(), *snapshot, task),
            },
            (r matches Some(task) && task.upper_level is None) <==> snapshot.l0_sstables@.len()
                >= self.options().level0_file_num_compaction_trigger,
            r is None <==> snapshot.l0_sstables@.len()
                < self.options().level0_file_num_compaction_trigger && forall|i: int|
                #![trigger snapshot.levels@[i]]
                0 <= i < snapshot.levels@.len() - 1 && snapshot.levels@[i].1@.len() > 0
                    ==> snapshot.levels@[i + 1].1@.len() as int * 100
                    / snapshot.levels@[i].1@.len() as int >= self.options().size_ratio_percent,
    {
        proof {
            lemma_when_due(self.options(), *snapshot);
        }
        let max_level: usize = snapshot.levels.len();
        if snapshot.l0_sstables.len() >= self.options.level0_file_num_compaction_trigger {
            return Some(
                SimpleLeveledCompactionTask {
                    upper_level: None,
                    upper_level_sst_ids: lsm_storage::copy_ids(&snapshot.l0_sstables),
                    lower_level: 1,
                    lower_level_sst_ids: lsm_storage::copy_ids(&snapshot.levels[0].1),
                    is_lower_level_bottom_level: max_level == 1,
                },
            );
        }
        let mut i: usize = 0;
        while i < max_level - 1
            invariant
                i <= max_level - 1,
                max_level == snapshot.levels@.len(),
                max_level > 0,
                !l0_due(self.options(), *snapshot),
                forall|j: int| 0 <= j < i ==> !#[trigger] level_due(self.options(), *snapshot, j),
            decreases max_level - i,
        {
            let upper = &snapshot.levels[i];
            let lower = &snapshot.levels[i + 1];
            if self.compaction_required(upper.1.len(), lower.1.len()) {
                assert(level_due(self.options(), *snapshot, i as int));
                return Some(
                    SimpleLeveledCompactionTask {
                        upper_level: Some(upper.0),
                        upper_level_sst_ids: lsm_storage::copy_ids(&upper.1),
                        lower_level: lower.0,
                        lower_level_sst_ids: lsm_storage::copy_ids(&lower.1),
                        is_lower_level_bottom_level: max_level == lower.0,
                    },
                );
            }
            i = i + 1;
        }
        None
    }

    /// Returns true when (lower file count / upper file count) * 100 is below the configured
    /// threshold.
    pub fn compaction_required(&self, upper_num_files: usize, lower_num_files: usize) -> (r: bool)
        ensures
            r == ratio_due(self.options(), upper_num_files as int, lower_num_files as int),
            upper_num_files == 0 ==> !r,
            upper_num_files > 0 ==> (r <==> self.options().size_ratio_percent
                > lower_num_files as int * 100 / upper_num_files as int),
    {
        if upper_num_files == 0 {
            return false;
        }
        let ratio: u128 = (lower_num_files as u128 * 100) / upper_num_files as u128;
        ratio < self.options.size_ratio_percent as u128
    }

    /// Apply the compaction result.
    ///
    /// The compactor will call this function with the compaction task and the list of SST ids
    /// generated. It only changes `l0_sstables` and `levels` without changing memtables and
    /// `sstables` hash map. An L0 SST that was flushed in the meantime stays.
    pub fn apply_compaction_result(
        &self,
        snapshot: &mut LsmStorageState,
        task: &SimpleLeveledCompactionTask,
        output: &[usize],
    ) -> (r: Vec<usize>)
        requires
            applies(old(snapshot).levels@.len(), *task),
        ensures
            is_applied(*old(snapshot), *final(snapshot), *task, output@, r@),
    {
        let mut removed_ssts = lsm_storage::copy_ids(&task.upper_level_sst_ids);
        let mut lower_ids = lsm_storage::copy_ids(&task.lower_level_sst_ids);
        removed_ssts.append(&mut lower_ids);
        let ids = vstd::slice::slice_to_vec(output);
        match task.upper_level {
            None => {
                snapshot.l0_sstables = lsm_storage::without_ids(
                    &snapshot.l0_sstables,
                    &task.upper_level_sst_ids,
                );
                snapshot.levels.set(0, (1, ids));
            },
            Some(upper_level) => {
                snapshot.levels.set(upper_level - 1, (upper_level, Vec::new()));
                snapshot.levels.set(task.lower_level - 1, (task.lower_level, ids));
            },
        }
        proof {
            let a = lsm_storage::level_ids(snapshot.levels@);
            let b = lsm_storage::level_ids(old(snapshot).levels@);
            match task.upper_level {
                None => {
                    assert(a =~= b.update(0, (1, output@)));
                },
                Some(u) => {
                    assert(a =~= b.update(u - 1, (u, Seq::empty())).update(
                        task.lower_level - 1,
                        (task.lower_level, output@),
                    ));
                },
            }
        }
        removed_ssts
    }
}

} // verus!
