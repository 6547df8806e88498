//! Compaction: which tables are merged, and what becomes of them.
pub mod install;
pub mod laws;
pub mod output;
pub mod run;
pub mod simple_leveled;

use vstd::prelude::*;
use crate::lsm_storage::LsmStorageState;
pub use crate::compact::simple_leveled::{
    SimpleLeveledCompactionController, SimpleLeveledCompactionOptions, SimpleLeveledCompactionTask,
};

verus! {

#[derive(Debug, Clone)]
pub struct LeveledCompactionOptions {
    pub max_levels: usize,
}

#[derive(Debug)]
pub struct LeveledCompactionTask {
    pub is_lower_level_bottom_level: bool,
}

#[derive(Debug, Clone)]
pub struct TieredCompactionOptions {
    pub num_tiers: usize,
}

#[derive(Debug)]
pub struct TieredCompactionTask {
    /// The tiers to merge, the newest first.
    pub tiers: Vec<(usize, Vec<usize>)>,
    pub bottom_tier_included: bool,
}

#[derive(Debug)]
pub enum CompactionTask {
    Leveled(LeveledCompactionTask),
    Tiered(TieredCompactionTask),
    Simple(SimpleLeveledCompactionTask),
    ForceFullCompaction { l0_sstables: Vec<usize>, l1_sstables: Vec<usize> },
}

impl CompactionTask {
    pub open spec fn to_bottom(&self) -> bool {
        match self {
            CompactionTask::ForceFullCompaction { .. } => true,
            CompactionTask::Leveled(task) => task.is_lower_level_bottom_level,
            CompactionTask::Simple(task) => task.is_lower_level_bottom_level,
            CompactionTask::Tiered(task) => task.bottom_tier_included,
        }
    }

    /// Nothing is below what the task merges.
    pub fn compact_to_bottom_level(&self) -> (r: bool)
        ensures
            r == self.to_bottom(),
    {
        match self {
            CompactionTask::ForceFullCompaction { .. } => true,
            CompactionTask::Leveled(task) => task.is_lower_level_bottom_level,
            CompactionTask::Simple(task) => task.is_lower_level_bottom_level,
            CompactionTask::Tiered(task) => task.bottom_tier_included,
        }
    }
}

/// A full compaction goes to the bottom, and any other task if it says so.
pub proof fn lemma_to_bottom(task: CompactionTask)
    ensures
        task is ForceFullCompaction ==> task.to_bottom(),
        task matches CompactionTask::Simple(t) ==> (task.to_bottom()
            <==> t.is_lower_level_bottom_level),
        task matches CompactionTask::Tiered(t) ==> (task.to_bottom() <==> t.bottom_tier_included),
        task matches CompactionTask::Leveled(t) ==> (task.to_bottom()
            <==> t.is_lower_level_bottom_level),
{
}

pub enum CompactionController {
    Leveled(LeveledCompactionOptions),
    Tiered(TieredCompactionOptions),
    Simple(SimpleLeveledCompactionController),
    NoCompaction,
}

#[derive(Debug, Clone)]
pub enum CompactionOptions {
    /// Leveled compaction with partial compaction + dynamic level support (= RocksDB's Leveled
    /// Compaction)
    Leveled(LeveledCompactionOptions),
    /// Tiered compaction (= RocksDB's universal compaction)
    Tiered(TieredCompactionOptions),
    /// Simple leveled compaction
    Simple(SimpleLeveledCompactionOptions),
    /// In no compaction mode, always flush to L0
    NoCompaction,
}

/// A controller follows some options.
pub open spec fn controls(options: CompactionOptions, c: CompactionController) -> bool {
    match (options, c) {
        (CompactionOptions::Leveled(o), CompactionController::Leveled(p)) => p == o,
        (CompactionOptions::Tiered(o), CompactionController::Tiered(p)) => p == o,
        (CompactionOptions::Simple(o), CompactionController::Simple(c)) => c.options() == o,
        (CompactionOptions::NoCompaction, CompactionController::NoCompaction) => true,
        _ => false,
    }
}

/// A controller for the simple leveled policy has the limits of its options, and the kind of a
/// controller is that of its options.
pub proof fn lemma_controls(options: CompactionOptions, c: CompactionController)
    requires
        controls(options, c),
    ensures
        options matches CompactionOptions::Simple(o) ==> c is Simple
            && c->Simple_0.options().size_ratio_percent == o.size_ratio_percent
            && c->Simple_0.options().level0_file_num_compaction_trigger
            == o.level0_file_num_compaction_trigger && c->Simple_0.options().max_levels
            == o.max_levels,
        options is Tiered <==> c is Tiered,
        options is Leveled <==> c is Leveled,
        options is NoCompaction <==> c is NoCompaction,
        c.to_l0() <==> !(options is Tiered),
{
}

impl CompactionController {
    /// The controller for some options.
    pub fn for_options(options: &CompactionOptions) -> (r: CompactionController)
        ensures
            controls(*options, r),
    {
        match options {
            CompactionOptions::Leveled(o) => CompactionController::Leveled(
                LeveledCompactionOptions { max_levels: o.max_levels },
            ),
            CompactionOptions::Tiered(o) => CompactionController::Tiered(
                TieredCompactionOptions { num_tiers: o.num_tiers },
            ),
            CompactionOptions::Simple(o) => CompactionController::Simple(
                SimpleLeveledCompactionController::new(
                    SimpleLeveledCompactionOptions {
                        size_ratio_percent: o.size_ratio_percent,
                        level0_file_num_compaction_trigger: o.level0_file_num_compaction_trigger,
                        max_levels: o.max_levels,
                    },
                ),
            ),
            CompactionOptions::NoCompaction => CompactionController::NoCompaction,
        }
    }

    /// The compaction to do next, if any is due. Only the simple leveled policy has one.
    pub fn generate_compaction_task(&self, snapshot: &LsmStorageState) -> (r: Option<CompactionTask>)
        requires
            self is Simple,
            snapshot.levels@.len() > 0,
        ensures
            match r {
                None => simple_leveled::nothing_due(self->Simple_0.options(), *snapshot),
                Some(t) => t matches CompactionTask::Simple(task) && simple_leveled::is_due(
                    self->Simple_0.options(),
                    *snapshot,
                    task,
                ),
            },
    {
        match self {
            CompactionController::Simple(ctrl) => match ctrl.generate_compaction_task(snapshot) {
                None => None,
                Some(task) => Some(CompactionTask::Simple(task)),
            },
            _ => None,
        }
    }

    /// Puts the output of a compaction in the place of its input. Gives the tables that are no
    /// longer in use.
    pub fn apply_compaction_result(
        &self,
        snapshot: &mut LsmStorageState,
        task: &CompactionTask,
        output: &[usize],
    ) -> (r: Vec<usize>)
        requires
            self is Simple,
            task is Simple,
            simple_leveled::applies(old(snapshot).levels@.len(), task->Simple_0),
        ensures
            simple_leveled::is_applied(
                *old(snapshot),
                *final(snapshot),
                task->Simple_0,
                output@,
                r@,
            ),
    {
        match (self, task) {
            (CompactionController::Simple(ctrl), CompactionTask::Simple(task)) => {
                ctrl.apply_compaction_result(snapshot, task, output)
            },
            _ => Vec::new(),
        }
    }

    pub open spec fn to_l0(&self) -> bool {
        !(self is Tiered)
    }

    /// Tells whether memtables are flushed to L0.
    pub fn flush_to_l0(&self) -> (r: bool)
        ensures
            r == self.to_l0(),
    {
        match self {
            CompactionController::Tiered(_) => false,
            _ => true,
        }
    }
}

} // verus!
