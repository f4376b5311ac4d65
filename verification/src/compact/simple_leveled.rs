//! Simple leveled compaction: a level goes into the next one as a whole once the next one has too
//! few tables beside it.

use vstd::prelude::*;

use super::leveled::LevelTaskView;
use crate::double::{double_le, double_of, rounded, Double};
use crate::ids::{append_ids, contains_ids, equal_ids, remove_ids, without};
use crate::lsm_storage::{LsmStorageState, StateView};

verus! {

/// How simple leveled compaction is set up.
#[derive(Clone, Copy, Debug)]
pub struct SimpleLeveledCompactionOptions {
    pub size_ratio_percent: usize,
    pub level0_file_num_compaction_trigger: usize,
    pub max_levels: usize,
}

/// One step of simple leveled compaction.
#[derive(Debug)]
pub struct SimpleLeveledCompactionTask {
    // if upper_level is `None`, then it is L0 compaction
    pub upper_level: Option<usize>,
    pub upper_level_sst_ids: Vec<usize>,
    pub lower_level: usize,
    pub lower_level_sst_ids: Vec<usize>,
    pub is_lower_level_bottom_level: bool,
}

impl View for SimpleLeveledCompactionTask {
    type V = LevelTaskView;

    open spec fn view(&self) -> LevelTaskView {
        LevelTaskView {
            upper_level: self.upper_level,
            upper_level_sst_ids: self.upper_level_sst_ids@,
            lower_level: self.lower_level,
            lower_level_sst_ids: self.lower_level_sst_ids@,
            is_lower_level_bottom_level: self.is_lower_level_bottom_level,
        }
    }
}

/// What an optional task stands for.
pub open spec fn task_view(task: Option<SimpleLeveledCompactionTask>) -> Option<LevelTaskView> {
    match task {
        Some(task) => Some(task@),
        None => None,
    }
}

/// Decides on simple leveled compaction.
pub struct SimpleLeveledCompactionController {
    options: SimpleLeveledCompactionOptions,
}

/// The table ids of a level, where level 0 is L0.
pub open spec fn run_ids(v: StateView, level: int) -> Seq<usize> {
    if level == 0 {
        v.l0_sstables
    } else {
        v.level_ids(level)
    }
}

/// `lower / upper < percent / 100.0`, in double precision: over nothing the ratio is infinite or
/// not a number.
pub open spec fn ratio_below(lower: nat, upper: nat, percent: nat) -> bool {
    if upper == 0 || percent == 0 {
        false
    } else if lower == 0 {
        true
    } else {
        !double_le(
            rounded(double_of(percent), 100),
            rounded(double_of(lower), double_of(upper)),
        )
    }
}

/// The level is to be compacted into the next one.
pub open spec fn level_is_due(v: StateView, o: SimpleLeveledCompactionOptions, level: int) -> bool {
    &&& level == 0 ==> v.l0_sstables.len() >= o.level0_file_num_compaction_trigger
    &&& ratio_below(
        run_ids(v, level + 1).len(),
        run_ids(v, level).len(),
        o.size_ratio_percent as nat,
    )
}

/// The task that merges a level into the next one.
pub open spec fn whole_level_task(
    v: StateView,
    o: SimpleLeveledCompactionOptions,
    level: int,
) -> LevelTaskView {
    LevelTaskView {
        upper_level: if level == 0 {
            None
        } else {
            Some(level as usize)
        },
        upper_level_sst_ids: run_ids(v, level),
        lower_level: (level + 1) as usize,
        lower_level_sst_ids: run_ids(v, level + 1),
        is_lower_level_bottom_level: level + 1 == o.max_levels,
    }
}

/// The task for the first level from `level` on that is to be compacted.
pub open spec fn simple_task_from(
    v: StateView,
    o: SimpleLeveledCompactionOptions,
    level: int,
) -> Option<LevelTaskView>
    decreases o.max_levels - level,
{
    if level >= o.max_levels {
        None
    } else if level_is_due(v, o, level) {
        Some(whole_level_task(v, o, level))
    } else {
        simple_task_from(v, o, level + 1)
    }
}

/// The state after a compaction: the upper tables are gone, and the output is the lower level.
pub open spec fn simple_compacted(
    v: StateView,
    task: LevelTaskView,
    output: Seq<usize>,
) -> StateView {
    let upper_gone = match task.upper_level {
        Some(level) => v.with_level_ids(level as int, Seq::empty()),
        None => StateView {
            l0_sstables: without(v.l0_sstables, task.upper_level_sst_ids),
            ..v
        },
    };
    upper_gone.with_level_ids(task.lower_level as int, output)
}

/// The task takes whole levels of the state.
pub open spec fn simple_task_fits(v: StateView, task: LevelTaskView) -> bool {
    &&& 1 <= task.lower_level <= v.levels.len()
    &&& task.lower_level_sst_ids == v.level_ids(task.lower_level as int)
    &&& match task.upper_level {
        Some(level) => {
            &&& 1 <= level <= v.levels.len()
            &&& level != task.lower_level
            &&& task.upper_level_sst_ids == v.level_ids(level as int)
        },
        None => forall|i: int|
            0 <= i < task.upper_level_sst_ids.len() ==> v.l0_sstables.contains(
                #[trigger] task.upper_level_sst_ids[i],
            ),
    }
}

impl SimpleLeveledCompactionController {
    pub closed spec fn options(&self) -> SimpleLeveledCompactionOptions {
        self.options
    }

    /// The state has the levels of the options.
    pub open spec fn can_generate(&self, v: StateView) -> bool {
        v.levels.len() == self.options().max_levels
    }

    /// Whether the state has the levels of the options.
    pub fn can_generate_task(&self, snapshot: &LsmStorageState) -> (can: bool)
        ensures
            can == self.can_generate(snapshot@),
    {
        snapshot.levels.len() == self.options.max_levels
    }

    /// The strategy with the given options.
    pub fn new(options: SimpleLeveledCompactionOptions) -> (controller: Self)
        ensures
            controller.options() == options,
    {
        SimpleLeveledCompactionController { options }
    }

    /// Whether the lower level has too few tables beside the upper one.
    fn is_ratio_below(&self, lower: usize, upper: usize) -> (below: bool)
        ensures
            below == ratio_below(
                lower as nat,
                upper as nat,
                self.options().size_ratio_percent as nat,
            ),
    {
        let percent = self.options.size_ratio_percent;
        if upper == 0 || percent == 0 {
            false
        } else if lower == 0 {
            true
        } else {
            let limit = Double::quotient(Double::whole(percent as u64), 100);
            let ratio = Double::quotient(Double::whole(lower as u64), Double::whole(upper as u64));
            !limit.is_le(&ratio)
        }
    }

    /// Which level to merge into the next one, if any.
    pub fn generate_compaction_task(&self, snapshot: &LsmStorageState) -> (task: Option<
        SimpleLeveledCompactionTask,
    >)
        requires
            self.can_generate(snapshot@),
        ensures
            task_view(task) == simple_task_from(snapshot@, self.options(), 0),
    {
        let ghost v = snapshot@;
        let mut level: usize = 0;
        while level < self.options.max_levels
            invariant
                v == snapshot@,
                v.levels.len() == self.options().max_levels,
                level <= self.options().max_levels,
                simple_task_from(v, self.options(), 0) == simple_task_from(
                    v,
                    self.options(),
                    level as int,
                ),
            decreases self.options().max_levels - level,
        {
            let upper = if level == 0 {
                &snapshot.l0_sstables
            } else {
                snapshot.level(level)
            };
            let lower = snapshot.level(level + 1);
            if (level > 0 || upper.len() >= self.options.level0_file_num_compaction_trigger)
                && self.is_ratio_below(lower.len(), upper.len()) {
                return Some(
                    SimpleLeveledCompactionTask {
                        upper_level: if level == 0 {
                            None
                        } else {
                            Some(level)
                        },
                        upper_level_sst_ids: upper.clone(),
                        lower_level: level + 1,
                        lower_level_sst_ids: lower.clone(),
                        is_lower_level_bottom_level: level + 1 == self.options.max_levels,
                    },
                );
            }
            level += 1;
        }
        None
    }

    /// Whether the task takes whole levels of the state.
    pub fn can_apply_result(
        &self,
        snapshot: &LsmStorageState,
        task: &SimpleLeveledCompactionTask,
    ) -> (can: bool)
        ensures
            can == simple_task_fits(snapshot@, task@),
    {
        let n: usize = snapshot.levels.len();
        assert(n == snapshot@.levels.len());
        if task.lower_level < 1 || task.lower_level > n {
            return false;
        }
        if !equal_ids(&task.lower_level_sst_ids, snapshot.level(task.lower_level)) {
            return false;
        }
        match task.upper_level {
            Some(level) => {
                1 <= level && level <= n && level != task.lower_level && equal_ids(
                    &task.upper_level_sst_ids,
                    snapshot.level(level),
                )
            },
            None => {
                let contained = contains_ids(&snapshot.l0_sstables, &task.upper_level_sst_ids);
                assert(snapshot@.l0_sstables == snapshot.l0_sstables@);
                assert(task@.upper_level_sst_ids == task.upper_level_sst_ids@);
                contained
            },
        }
    }

    /// The state after a compaction, and the tables that are no longer used.
    pub fn apply_compaction_result(
        &self,
        snapshot: &LsmStorageState,
        task: &SimpleLeveledCompactionTask,
        output: &[usize],
    ) -> (result: (LsmStorageState, Vec<usize>))
        requires
            simple_task_fits(snapshot@, task@),
        ensures
            result.0@ == simple_compacted(snapshot@, task@, output@),
            result.1@ == task@.upper_level_sst_ids + task@.lower_level_sst_ids,
    {
        let mut snapshot = snapshot.clone();
        let mut unused_sst_ids: Vec<usize> = task.upper_level_sst_ids.clone();
        append_ids(&mut unused_sst_ids, task.lower_level_sst_ids.as_slice());
        match task.upper_level {
            Some(upper_level) => {
                snapshot.set_level_ids(upper_level, Vec::new());
            },
            None => {
                snapshot.l0_sstables = remove_ids(
                    &snapshot.l0_sstables,
                    &task.upper_level_sst_ids,
                );
            },
        }
        snapshot.set_level_ids(task.lower_level, vstd::slice::slice_to_vec(output));
        (snapshot, unused_sst_ids)
    }
}

} // verus!
