//! Compaction: what to compact, which tables go into it, and the state that comes out.

pub mod decisions;
pub mod laws;
pub mod leveled;
pub mod output;
pub mod results;
pub mod simple_leveled;
pub mod tiered;

use vstd::pervasive::unreached;
use vstd::prelude::*;

use crate::compact::leveled::{compacted, replayed, task_fits, task_is_live, LevelTaskView};
use crate::compact::simple_leveled::{simple_compacted, simple_task_fits, simple_task_from};
use crate::compact::tiered::{
    tiered_task, tiered_task_fits, tiers_after, unused_after, TieredTaskView,
};
use crate::lsm_storage::{LsmStorageState, StateView};

pub use leveled::{LeveledCompactionController, LeveledCompactionOptions, LeveledCompactionTask};
pub use simple_leveled::{
    SimpleLeveledCompactionController, SimpleLeveledCompactionOptions, SimpleLeveledCompactionTask,
};
pub use tiered::{TieredCompactionController, TieredCompactionOptions, TieredCompactionTask};

verus! {

/// One step of compaction.
#[derive(Debug)]
pub enum CompactionTask {
    Leveled(LeveledCompactionTask),
    Tiered(TieredCompactionTask),
    Simple(SimpleLeveledCompactionTask),
    ForceFullCompaction { l0_sstables: Vec<usize>, l1_sstables: Vec<usize> },
}

/// What a `CompactionTask` stands for.
#[verifier::ext_equal]
pub enum CompactionTaskView {
    Leveled(LevelTaskView),
    Tiered(TieredTaskView),
    Simple(LevelTaskView),
    ForceFullCompaction { l0_sstables: Seq<usize>, l1_sstables: Seq<usize> },
}

impl View for CompactionTask {
    type V = CompactionTaskView;

    open spec fn view(&self) -> CompactionTaskView {
        match self {
            CompactionTask::Leveled(task) => CompactionTaskView::Leveled(task@),
            CompactionTask::Tiered(task) => CompactionTaskView::Tiered(task@),
            CompactionTask::Simple(task) => CompactionTaskView::Simple(task@),
            CompactionTask::ForceFullCompaction { l0_sstables, l1_sstables } =>
                CompactionTaskView::ForceFullCompaction {
                l0_sstables: l0_sstables@,
                l1_sstables: l1_sstables@,
            },
        }
    }
}

/// The tables that a compaction reads, as sorted runs. Where two runs hold the same key, the
/// entry of the earlier run counts.
#[verifier::ext_equal]
pub enum InputView {
    /// The runs are merged with each other.
    Merged(Seq<Seq<usize>>),
    /// The upper runs are merged with each other, and the result with the lower run.
    Onto { upper: Seq<Seq<usize>>, lower: Seq<usize> },
}

/// See `InputView`.
#[derive(Debug)]
pub enum CompactionInput {
    Merged(Vec<Vec<usize>>),
    Onto { upper: Vec<Vec<usize>>, lower: Vec<usize> },
}

/// The table ids of each run.
pub open spec fn runs_view(runs: Seq<Vec<usize>>) -> Seq<Seq<usize>> {
    runs.map_values(|run: Vec<usize>| run@)
}

impl View for CompactionInput {
    type V = InputView;

    open spec fn view(&self) -> InputView {
        match self {
            CompactionInput::Merged(runs) => InputView::Merged(runs_view(runs@)),
            CompactionInput::Onto { upper, lower } => InputView::Onto {
                upper: runs_view(upper@),
                lower: lower@,
            },
        }
    }
}

/// Each table of the list as a run of its own.
pub open spec fn singleton_runs(ids: Seq<usize>) -> Seq<Seq<usize>> {
    ids.map_values(|id: usize| seq![id])
}

/// The tables that a task reads: L0 tables each as a run, a level or a tier as one run.
pub open spec fn task_input(task: CompactionTaskView) -> InputView {
    match task {
        CompactionTaskView::Tiered(task) => InputView::Merged(
            task.tiers.map_values(|tier: (usize, Seq<usize>)| tier.1),
        ),
        CompactionTaskView::Simple(task) | CompactionTaskView::Leveled(task) => InputView::Onto {
            upper: match task.upper_level {
                Some(_) => seq![task.upper_level_sst_ids],
                None => singleton_runs(task.upper_level_sst_ids),
            },
            lower: task.lower_level_sst_ids,
        },
        CompactionTaskView::ForceFullCompaction { l0_sstables, l1_sstables } => InputView::Onto {
            upper: singleton_runs(l0_sstables),
            lower: l1_sstables,
        },
    }
}

/// Each table of the list as a run of its own.
fn split_runs(ids: &Vec<usize>) -> (runs: Vec<Vec<usize>>)
    ensures
        runs_view(runs@) == singleton_runs(ids@),
{
    let mut runs: Vec<Vec<usize>> = Vec::new();
    let mut i: usize = 0;
    while i < ids.len()
        invariant
            i <= ids@.len(),
            runs@.len() == i,
            forall|k: int| 0 <= k < i ==> (#[trigger] runs@[k])@ == seq![ids@[k]],
        decreases ids@.len() - i,
    {
        let mut run: Vec<usize> = Vec::new();
        run.push(ids[i]);
        assert(run@ =~= seq![ids@[i as int]]);
        runs.push(run);
        i += 1;
    }
    assert(runs_view(runs@) =~= singleton_runs(ids@));
    runs
}

impl CompactionTask {
    /// The output of the task is the last level or tier, so that it need not keep deletions.
    pub open spec fn reaches_bottom(task: CompactionTaskView) -> bool {
        match task {
            CompactionTaskView::ForceFullCompaction { .. } => true,
            CompactionTaskView::Leveled(task) => task.is_lower_level_bottom_level,
            CompactionTaskView::Simple(task) => task.is_lower_level_bottom_level,
            CompactionTaskView::Tiered(task) => task.bottom_tier_included,
        }
    }

    /// Whether the output of the task is the last level or tier.
    pub fn compact_to_bottom_level(&self) -> (bottom: bool)
        ensures
            bottom == CompactionTask::reaches_bottom(self@),
    {
        match self {
            CompactionTask::ForceFullCompaction { .. } => true,
            CompactionTask::Leveled(task) => task.is_lower_level_bottom_level,
            CompactionTask::Simple(task) => task.is_lower_level_bottom_level,
            CompactionTask::Tiered(task) => task.bottom_tier_included,
        }
    }

    /// The tables that the task reads. Leveled tasks are not carried out.
    pub fn input(&self) -> (input: CompactionInput)
        requires
            !(self is Leveled),
        ensures
            input@ == task_input(self@),
    {
        match self {
            CompactionTask::Tiered(task) => {
                let mut runs: Vec<Vec<usize>> = Vec::new();
                let mut i: usize = 0;
                while i < task.tiers.len()
                    invariant
                        i <= task.tiers@.len(),
                        runs@.len() == i,
                        forall|k: int| 0 <= k < i ==> (#[trigger] runs@[k])@ == task.tiers@[k].1@,
                    decreases task.tiers@.len() - i,
                {
                    runs.push(task.tiers[i].1.clone());
                    i += 1;
                }
                assert(runs_view(runs@) =~= task@.tiers.map_values(
                    |tier: (usize, Seq<usize>)| tier.1,
                ));
                CompactionInput::Merged(runs)
            },
            CompactionTask::Simple(task) => {
                let upper = match task.upper_level {
                    Some(_) => {
                        let mut runs: Vec<Vec<usize>> = Vec::new();
                        runs.push(task.upper_level_sst_ids.clone());
                        assert(runs_view(runs@) =~= seq![task@.upper_level_sst_ids]);
                        runs
                    },
                    None => split_runs(&task.upper_level_sst_ids),
                };
                CompactionInput::Onto { upper, lower: task.lower_level_sst_ids.clone() }
            },
            CompactionTask::ForceFullCompaction { l0_sstables, l1_sstables } =>
                CompactionInput::Onto {
                upper: split_runs(l0_sstables),
                lower: l1_sstables.clone(),
            },
            CompactionTask::Leveled(_) => unreached(),
        }
    }
}

/// The compaction strategy of a storage engine.
pub enum CompactionController {
    Leveled(LeveledCompactionController),
    Tiered(TieredCompactionController),
    Simple(SimpleLeveledCompactionController),
    NoCompaction,
}

impl CompactionController {
    /// The strategy of the options. For tiered compaction, a merge by size ratio may take no more
    /// tiers than have to be there.
    pub fn from_options(options: &CompactionOptions) -> (controller: Self)
        requires
            options matches CompactionOptions::Tiered(o) ==> o.min_merge_width <= o.num_tiers,
        ensures
            controller.is_for(*options),
    {
        match options {
            CompactionOptions::Leveled(o) => CompactionController::Leveled(
                LeveledCompactionController::new(*o),
            ),
            CompactionOptions::Tiered(o) => CompactionController::Tiered(
                TieredCompactionController::new(*o),
            ),
            CompactionOptions::Simple(o) => CompactionController::Simple(
                SimpleLeveledCompactionController::new(*o),
            ),
            CompactionOptions::NoCompaction => CompactionController::NoCompaction,
        }
    }

    /// There is a strategy, and it can judge the state.
    pub open spec fn can_generate(&self, v: StateView) -> bool {
        match self {
            CompactionController::Leveled(ctrl) => ctrl.can_generate(v),
            CompactionController::Tiered(ctrl) => ctrl.can_generate(v),
            CompactionController::Simple(ctrl) => ctrl.can_generate(v),
            CompactionController::NoCompaction => false,
        }
    }

    /// `task` is what to compact next.
    pub open spec fn generates(&self, v: StateView, task: Option<CompactionTaskView>) -> bool {
        match self {
            CompactionController::Leveled(ctrl) => match task {
                Some(CompactionTaskView::Leveled(task)) => ctrl.generates(v, Some(task)),
                None => ctrl.generates(v, None),
                _ => false,
            },
            CompactionController::Tiered(ctrl) => match tiered_task(v.levels, ctrl.options()) {
                Some(expected) => task == Some(CompactionTaskView::Tiered(expected)),
                None => task is None,
            },
            CompactionController::Simple(ctrl) => match simple_task_from(v, ctrl.options(), 0) {
                Some(expected) => task == Some(CompactionTaskView::Simple(expected)),
                None => task is None,
            },
            CompactionController::NoCompaction => false,
        }
    }

    /// The task is one of this strategy's and fits the state.
    pub open spec fn can_apply(
        &self,
        v: StateView,
        task: CompactionTaskView,
        output: Seq<usize>,
        in_recovery: bool,
    ) -> bool {
        match (self, task) {
            (CompactionController::Leveled(_), CompactionTaskView::Leveled(task)) => task_fits(
                v,
                task,
            ) && (in_recovery || task_is_live(v, task)),
            (CompactionController::Simple(_), CompactionTaskView::Simple(task)) => simple_task_fits(
                v,
                task,
            ),
            (CompactionController::Tiered(_), CompactionTaskView::Tiered(task)) => output.len() > 0
                && tiered_task_fits(v.levels, task),
            _ => false,
        }
    }

    /// Whether there is a strategy, and it can judge the state.
    pub fn can_generate_task(&self, snapshot: &LsmStorageState) -> (can: bool)
        ensures
            can == self.can_generate(snapshot@),
    {
        match self {
            CompactionController::Leveled(ctrl) => ctrl.can_generate_task(snapshot),
            CompactionController::Tiered(ctrl) => ctrl.can_generate_task(snapshot),
            CompactionController::Simple(ctrl) => ctrl.can_generate_task(snapshot),
            CompactionController::NoCompaction => false,
        }
    }

    /// Whether the task is one of this strategy's and fits the state.
    pub fn can_apply_result(
        &self,
        snapshot: &LsmStorageState,
        task: &CompactionTask,
        output: &[usize],
        in_recovery: bool,
    ) -> (can: bool)
        ensures
            can == self.can_apply(snapshot@, task@, output@, in_recovery),
    {
        match (self, task) {
            (CompactionController::Leveled(ctrl), CompactionTask::Leveled(task)) => {
                ctrl.can_apply_result(snapshot, task, in_recovery)
            },
            (CompactionController::Simple(ctrl), CompactionTask::Simple(task)) => {
                ctrl.can_apply_result(snapshot, task)
            },
            (CompactionController::Tiered(ctrl), CompactionTask::Tiered(task)) => {
                ctrl.can_apply_result(snapshot, task, output)
            },
            _ => false,
        }
    }

    /// Which tables to compact next, if any.
    pub fn generate_compaction_task(&self, snapshot: &LsmStorageState) -> (task: Option<
        CompactionTask,
    >)
        requires
            self.can_generate(snapshot@),
        ensures
            self.generates(
                snapshot@,
                match task {
                    Some(task) => Some(task@),
                    None => None,
                },
            ),
    {
        match self {
            CompactionController::Leveled(ctrl) => match ctrl.generate_compaction_task(snapshot) {
                Some(task) => Some(CompactionTask::Leveled(task)),
                None => None,
            },
            CompactionController::Simple(ctrl) => match ctrl.generate_compaction_task(snapshot) {
                Some(task) => Some(CompactionTask::Simple(task)),
                None => None,
            },
            CompactionController::Tiered(ctrl) => match ctrl.generate_compaction_task(snapshot) {
                Some(task) => Some(CompactionTask::Tiered(task)),
                None => None,
            },
            CompactionController::NoCompaction => unreached(),
        }
    }

    /// The state after a compaction, and the tables that are no longer used.
    pub fn apply_compaction_result(
        &self,
        snapshot: &LsmStorageState,
        task: &CompactionTask,
        output: &[usize],
        in_recovery: bool,
    ) -> (result: (LsmStorageState, Vec<usize>))
        requires
            self.can_apply(snapshot@, task@, output@, in_recovery),
        ensures
            result.0@ == state_after(snapshot@, task@, output@, in_recovery),
            result.1@ == unused_tables(snapshot@, task@),
    {
        match (self, task) {
            (CompactionController::Leveled(ctrl), CompactionTask::Leveled(task)) => {
                ctrl.apply_compaction_result(snapshot, task, output, in_recovery)
            },
            (CompactionController::Simple(ctrl), CompactionTask::Simple(task)) => {
                ctrl.apply_compaction_result(snapshot, task, output)
            },
            (CompactionController::Tiered(ctrl), CompactionTask::Tiered(task)) => {
                ctrl.apply_compaction_result(snapshot, task, output)
            },
            _ => unreached(),
        }
    }

    /// Whether a flushed memtable becomes an L0 table, and not a tier of its own.
    pub fn flush_to_l0(&self) -> (to_l0: bool)
        ensures
            to_l0 == !(self is Tiered),
    {
        matches!(self, Self::Leveled(_) | Self::Simple(_) | Self::NoCompaction)
    }
}

/// The state after a compaction by one of the strategies.
pub open spec fn state_after(
    v: StateView,
    task: CompactionTaskView,
    output: Seq<usize>,
    in_recovery: bool,
) -> StateView {
    match task {
        CompactionTaskView::Leveled(task) => if in_recovery {
            replayed(v, task, output)
        } else {
            compacted(v, task, output)
        },
        CompactionTaskView::Simple(task) => simple_compacted(v, task, output),
        CompactionTaskView::Tiered(task) => StateView {
            levels: tiers_after(v.levels, task, output),
            ..v
        },
        CompactionTaskView::ForceFullCompaction { .. } => v,
    }
}

/// The tables that a compaction by one of the strategies leaves unused.
pub open spec fn unused_tables(v: StateView, task: CompactionTaskView) -> Seq<usize> {
    match task {
        CompactionTaskView::Leveled(task) | CompactionTaskView::Simple(task) => {
            task.upper_level_sst_ids + task.lower_level_sst_ids
        },
        CompactionTaskView::Tiered(task) => unused_after(v.levels, task),
        CompactionTaskView::ForceFullCompaction { .. } => Seq::empty(),
    }
}

/// A compaction changes only which tables the levels list: the memtables and the tables stay.
pub proof fn lemma_apply_keeps_tables(
    v: StateView,
    task: CompactionTaskView,
    output: Seq<usize>,
    in_recovery: bool,
)
    ensures
        state_after(v, task, output, in_recovery).memtable == v.memtable,
        state_after(v, task, output, in_recovery).imm_memtables == v.imm_memtables,
        state_after(v, task, output, in_recovery).sstables == v.sstables,
{
}

/// Which compaction strategy an engine has.
#[derive(Debug, Clone, Copy)]
pub enum CompactionOptions {
    /// Leveled compaction with partial compaction + dynamic level support (= RocksDB's Leveled
    /// Compaction)
    Leveled(LeveledCompactionOptions),
    /// Tiered compaction (= RocksDB's universal compaction)
    Tiered(TieredCompactionOptions),
    /// Simple leveled compaction
    Simple(SimpleLeveledCompactionOptions),
    /// In no compaction mode, always flush to L0
    NoCompaction,
}

} // verus!
