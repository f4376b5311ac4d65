//! What becomes of the lists of tables in a compaction, which tables it reads, and that the tasks
//! of a strategy can be carried out.

use vstd::prelude::*;

use super::laws::{
    lemma_base_level_bounds, lemma_leveled_task_is_live, lemma_lower_part_is_live,
    lemma_output_replaces_overlapping, lemma_overlap_in_order, lemma_simple_task_fits,
    lemma_tiered_task_fits, lemma_upper_range_in_order, lemma_without_middle, names_what_overlaps,
    takes_all_overlapping,
};
use super::leveled::{
    ends_before, greatest_last_key, is_chosen_level, is_oldest, key_max, key_min, least_first_key,
    lemma_key_range_covers, level_size, overlap_end, overlap_start, overlapping, replaced_range,
    starts_up_to, task_fits, task_is_live, upper_range, without_upper, LevelTaskView,
    LeveledCompactionController,
};
use super::simple_leveled::simple_task_from;
use super::tiered::{tier_ids, tier_position, tiered_task, tiered_task_fits, TieredTaskView};
use super::{
    state_after, task_input, unused_tables, CompactionController, CompactionOptions,
    CompactionTask, CompactionTaskView, InputView,
};
use crate::compact::decisions::{held, lemma_held, lemma_tables_in, tables_in};
use crate::ids::without;
use crate::key::{
    key_le, key_lt, lemma_key_le_transitive, lemma_key_lt_irreflexive, lemma_key_lt_total,
    lemma_key_lt_transitive, KeyView,
};
use crate::lsm_storage::StateView;
use crate::search::{lemma_prefix_len, lemma_prefix_len_is, prefix_len};

verus! {

/// The tables of some tiers are those of each of them, one after the other.
pub proof fn lemma_tier_ids_are_flat(tiers: Seq<(usize, Seq<usize>)>)
    ensures
        tier_ids(tiers) == tiers.map_values(|tier: (usize, Seq<usize>)| tier.1).flatten(),
    decreases tiers.len(),
{
    let runs = tiers.map_values(|tier: (usize, Seq<usize>)| tier.1);
    runs.lemma_flatten_and_flatten_alt_are_equivalent();
    if tiers.len() > 0 {
        let front = tiers.drop_last();
        let before = front.map_values(|tier: (usize, Seq<usize>)| tier.1);
        lemma_tier_ids_are_flat(front);
        before.lemma_flatten_and_flatten_alt_are_equivalent();
        assert(runs.drop_last() =~= before);
    }
}

proof fn lemma_tier_position_is(tiers: Seq<(usize, Seq<usize>)>, number: usize, pos: int)
    requires
        0 <= pos < tiers.len(),
        tiers[pos].0 == number,
        forall|i: int| 0 <= i < pos ==> (#[trigger] tiers[i]).0 != number,
    ensures
        tier_position(tiers, number) == pos,
    decreases tiers.len(),
{
    if pos > 0 {
        let rest = tiers.drop_first();
        assert(tiers[0].0 != number);
        assert forall|i: int| 0 <= i < pos - 1 implies (#[trigger] rest[i]).0 != number by {
            assert(rest[i] == tiers[i + 1]);
        }
        lemma_tier_position_is(rest, number, pos - 1);
    }
}

/// A tiered compaction puts one tier, numbered after its first table, in the place of the tiers of
/// its task, wherever newer tiers were flushed to in front of them, and changes nothing else. The
/// tables of these tiers are no longer used. Tiers that are not at the end are found by the number
/// of the first one.
pub proof fn lemma_tiered_result(
    v: StateView,
    task: TieredTaskView,
    output: Seq<usize>,
    in_recovery: bool,
    pos: int,
)
    requires
        output.len() > 0,
        0 <= pos,
        pos + task.tiers.len() <= v.levels.len(),
        v.levels.subrange(pos, pos + task.tiers.len()) == task.tiers,
        task.bottom_tier_included ==> pos + task.tiers.len() == v.levels.len(),
        !task.bottom_tier_included ==> task.tiers.len() > 0 && forall|i: int|
            0 <= i < pos ==> (#[trigger] v.levels[i]).0 != task.tiers[0].0,
    ensures
        state_after(v, CompactionTaskView::Tiered(task), output, in_recovery) == (StateView {
            levels: v.levels.take(pos) + seq![(output[0], output)] + v.levels.skip(
                pos + task.tiers.len(),
            ),
            ..v
        }),
        unused_tables(v, CompactionTaskView::Tiered(task)) == task.tiers.map_values(
            |tier: (usize, Seq<usize>)| tier.1,
        ).flatten(),
        tiered_task_fits(v.levels, task),
{
    let k = task.tiers.len() as int;
    let after = state_after(v, CompactionTaskView::Tiered(task), output, in_recovery);
    lemma_tier_ids_are_flat(task.tiers);
    if task.bottom_tier_included {
        assert(v.levels.skip(v.levels.len() - k) =~= task.tiers);
    } else {
        assert(v.levels[pos] == task.tiers[0]);
        lemma_tier_position_is(v.levels, task.tiers[0].0, pos);
    }
    assert(after.levels =~= v.levels.take(pos) + seq![(output[0], output)] + v.levels.skip(pos + k));
}

/// A simple leveled compaction leaves the output in the lower level and nothing in the upper one.
/// From L0 it takes the tables of its task, and those that were flushed since stay, in their
/// order. Nothing else changes. The tables of the task are no longer used.
pub proof fn lemma_simple_result(
    v: StateView,
    task: LevelTaskView,
    output: Seq<usize>,
    in_recovery: bool,
)
    requires
        1 <= task.lower_level <= v.levels.len(),
        task.upper_level matches Some(level) ==> 1 <= level <= v.levels.len() && level
            != task.lower_level,
    ensures
        ({
            let after = state_after(v, CompactionTaskView::Simple(task), output, in_recovery);
            &&& after.memtable == v.memtable
            &&& after.imm_memtables == v.imm_memtables
            &&& after.sstables == v.sstables
            &&& after.l0_sstables == (if task.upper_level is Some {
                v.l0_sstables
            } else {
                v.l0_sstables.filter(|id: usize| !task.upper_level_sst_ids.contains(id))
            })
            &&& after.levels.len() == v.levels.len()
            &&& forall|level: int|
                1 <= level <= v.levels.len() ==> (#[trigger] after.levels[level - 1]) == (
                    v.levels[level - 1].0,
                    if level == task.lower_level {
                        output
                    } else if task.upper_level is Some && level == task.upper_level->Some_0 {
                        Seq::empty()
                    } else {
                        v.levels[level - 1].1
                    },
                )
            &&& unused_tables(v, CompactionTaskView::Simple(task)) == task.upper_level_sst_ids
                + task.lower_level_sst_ids
        }),
{
}

/// Where the tables of its task are those that the upper tables overlap, a leveled compaction puts
/// its output where the lower tables stood in their level, takes the upper tables off their level
/// or off the end of L0, and changes nothing else.
pub proof fn lemma_leveled_result(v: StateView, task: LevelTaskView, output: Seq<usize>)
    requires
        task_fits(v, task),
        task_is_live(v, task),
        names_what_overlaps(v, task),
        takes_all_overlapping(v, task),
        task.upper_level matches Some(upper) ==> v.level_ids(upper as int).no_duplicates(),
    ensures
        ({
            let after = state_after(v, CompactionTaskView::Leveled(task), output, false);
            let lower = v.levels[task.lower_level - 1].1;
            &&& after.memtable == v.memtable
            &&& after.imm_memtables == v.imm_memtables
            &&& after.sstables == v.sstables
            &&& after.l0_sstables == (if task.upper_level is Some {
                v.l0_sstables
            } else {
                v.l0_sstables.take(v.l0_sstables.len() - task.upper_level_sst_ids.len())
            })
            &&& after.levels.len() == v.levels.len()
            &&& exists|start: int, end: int|
                0 <= start <= end <= lower.len() && #[trigger] lower.subrange(start, end)
                    == task.lower_level_sst_ids && after.levels[task.lower_level - 1].1
                    == lower.take(start) + output + lower.skip(end)
            &&& forall|level: int|
                1 <= level <= v.levels.len() ==> (#[trigger] after.levels[level - 1]).0
                    == v.levels[level - 1].0 && (level != task.lower_level
                    ==> after.levels[level - 1].1 == (if task.upper_level is Some && level
                    == task.upper_level->Some_0 {
                    v.levels[level - 1].1.filter(
                        |id: usize| !task.upper_level_sst_ids.contains(id),
                    )
                } else {
                    v.levels[level - 1].1
                }))
            &&& unused_tables(v, CompactionTaskView::Leveled(task)) == task.upper_level_sst_ids
                + task.lower_level_sst_ids
        }),
{
    let w = task.lower_level as int;
    let lower = v.level_ids(w);
    let (first, last) = upper_range(v, task);
    lemma_upper_range_in_order(v, task);
    lemma_output_replaces_overlapping(v, task);
    let (start, end) = (overlap_start(v, w, first), overlap_end(v, w, last));
    assert(lower.subrange(start, end) == task.lower_level_sst_ids);
    if task.upper_level is Some {
        let u = task.upper_level->Some_0 as int;
        let ids = v.level_ids(u);
        lemma_overlap_in_order(v, u, first, last);
        let (a, b) = (overlap_start(v, u, first), overlap_end(v, u, last));
        lemma_without_middle(ids, a, b);
        assert(ids.take(a) + Seq::<usize>::empty() + ids.skip(b) =~= ids.take(a) + ids.skip(b));
        assert(without(ids, task.upper_level_sst_ids) == ids.filter(
            |id: usize| !task.upper_level_sst_ids.contains(id),
        ));
    }
}

/// A leveled compaction that is replayed goes by the ids of its tables: they leave their levels or
/// the end of L0, and its output comes last in the lower level.
pub proof fn lemma_leveled_replay_result(v: StateView, task: LevelTaskView, output: Seq<usize>)
    requires
        1 <= task.lower_level <= v.levels.len(),
        task.upper_level matches Some(level) ==> 1 <= level <= v.levels.len() && level
            != task.lower_level,
    ensures
        ({
            let after = state_after(v, CompactionTaskView::Leveled(task), output, true);
            &&& after.memtable == v.memtable
            &&& after.imm_memtables == v.imm_memtables
            &&& after.sstables == v.sstables
            &&& after.l0_sstables == (if task.upper_level is Some {
                v.l0_sstables
            } else {
                v.l0_sstables.take(v.l0_sstables.len() - task.upper_level_sst_ids.len())
            })
            &&& after.levels.len() == v.levels.len()
            &&& forall|level: int|
                1 <= level <= v.levels.len() ==> (#[trigger] after.levels[level - 1]) == (
                    v.levels[level - 1].0,
                    if level == task.lower_level {
                        v.levels[level - 1].1.filter(
                            |id: usize| !task.lower_level_sst_ids.contains(id),
                        ) + output
                    } else if task.upper_level is Some && level == task.upper_level->Some_0 {
                        v.levels[level - 1].1.filter(
                            |id: usize| !task.upper_level_sst_ids.contains(id),
                        )
                    } else {
                        v.levels[level - 1].1
                    },
                )
        }),
{
}

/// Each L0 table is read as a run of its own, a level or a tier as one run, with the latest first.
pub proof fn lemma_task_input(task: CompactionTaskView)
    ensures
        match task {
            CompactionTaskView::Tiered(task) => task_input(CompactionTaskView::Tiered(task)) matches
                InputView::Merged(runs) && runs.len() == task.tiers.len() && forall|i: int|
                0 <= i < runs.len() ==> #[trigger] runs[i] == task.tiers[i].1,
            CompactionTaskView::Simple(t) | CompactionTaskView::Leveled(t) => task_input(
                task,
            ) matches InputView::Onto { upper, lower } && lower == t.lower_level_sst_ids
                && if t.upper_level is Some {
                upper.len() == 1 && upper[0] == t.upper_level_sst_ids
            } else {
                upper.len() == t.upper_level_sst_ids.len() && forall|i: int|
                    0 <= i < upper.len() ==> #[trigger] upper[i] == seq![t.upper_level_sst_ids[i]]
            },
            CompactionTaskView::ForceFullCompaction { l0_sstables, l1_sstables } => task_input(
                task,
            ) matches InputView::Onto { upper, lower } && lower == l1_sstables && upper.len()
                == l0_sstables.len() && forall|i: int|
                0 <= i < upper.len() ==> #[trigger] upper[i] == seq![l0_sstables[i]],
        },
        CompactionTask::reaches_bottom(task) == (match task {
            CompactionTaskView::Tiered(task) => task.bottom_tier_included,
            CompactionTaskView::Simple(task) => task.is_lower_level_bottom_level,
            CompactionTaskView::Leveled(task) => task.is_lower_level_bottom_level,
            CompactionTaskView::ForceFullCompaction { .. } => true,
        }),
{
}

/// Each strategy gives tasks of its own kind: what is compacted next is what it decides on.
pub proof fn lemma_strategy_decides(
    controller: CompactionController,
    v: StateView,
    task: Option<CompactionTaskView>,
)
    requires
        controller.generates(v, task),
    ensures
        match controller {
            CompactionController::Leveled(ctrl) => match task {
                Some(task) => task is Leveled && ctrl.generates(v, Some(task->Leveled_0)),
                None => ctrl.generates(v, None),
            },
            CompactionController::Tiered(ctrl) => match task {
                Some(task) => task is Tiered && tiered_task(v.levels, ctrl.options()) == Some(
                    task->Tiered_0,
                ),
                None => tiered_task(v.levels, ctrl.options()) is None,
            },
            CompactionController::Simple(ctrl) => match task {
                Some(task) => task is Simple && simple_task_from(v, ctrl.options(), 0) == Some(
                    task->Simple_0,
                ),
                None => simple_task_from(v, ctrl.options(), 0) is None,
            },
            CompactionController::NoCompaction => false,
        },
{
}

/// A strategy can judge every state that has its levels: for leveled compaction, with sorted
/// levels of a size that can be counted, and the L0 tables where these are due; for tiered
/// compaction, with no more tables than double precision counts and a bottom tier where the tiers
/// are enough.
pub proof fn lemma_can_generate(controller: CompactionController, v: StateView)
    ensures
        controller.can_generate(v) == (match controller {
            CompactionController::Leveled(ctrl) => {
                let o = ctrl.options();
                &&& v.levels.len() == o.max_levels
                &&& o.max_levels > 0
                &&& o.level_size_multiplier > 0
                &&& o.base_level_size_mb * 1024 * 1024 <= usize::MAX
                &&& v.levels_sorted()
                &&& forall|level: int|
                    1 <= level <= v.levels.len() ==> #[trigger] held(v, level) <= usize::MAX
                &&& v.l0_sstables.len() >= o.level0_file_num_compaction_trigger
                    ==> v.l0_sstables.len() > 0 && v.holds(v.l0_sstables)
            },
            CompactionController::Tiered(ctrl) => {
                let o = ctrl.options();
                &&& o.min_merge_width <= o.num_tiers
                &&& v.levels.len() >= o.num_tiers ==> v.levels.len() > 0
                &&& tables_in(v.levels) <= 0x20_0000_0000_0000
            },
            CompactionController::Simple(ctrl) => v.levels.len() == ctrl.options().max_levels,
            CompactionController::NoCompaction => false,
        }),
{
    match controller {
        CompactionController::Leveled(ctrl) => {
            assert forall|level: int| #[trigger] held(v, level) == level_size(v, level) by {
                lemma_held(v.sstables, v.levels[level - 1].1);
            }
            assert forall|level: int| #[trigger] level_size(v, level) == held(v, level) by {
                lemma_held(v.sstables, v.levels[level - 1].1);
            }
        },
        CompactionController::Tiered(ctrl) => {
            lemma_tables_in(v.levels);
        },
        _ => {},
    }
}

/// The later state is the earlier one with more tables flushed: in front of the L0 tables or, with
/// tiered compaction, in front of the tiers, each with a number that no other tier has.
pub open spec fn is_flushed_since(
    controller: CompactionController,
    v: StateView,
    later: StateView,
    count: nat,
) -> bool {
    &&& forall|id: usize| #[trigger]
        v.sstables.contains_key(id) ==> later.sstables.contains_key(id) && later.sstables[id]
            == v.sstables[id]
    &&& if controller is Tiered {
        &&& later.levels.len() == v.levels.len() + count
        &&& later.levels.skip(count as int) == v.levels
        &&& forall|i: int, j: int|
            0 <= i < count <= j < later.levels.len() ==> (#[trigger] later.levels[i]).0 != (
            #[trigger] later.levels[j]).0
    } else {
        &&& later.levels == v.levels
        &&& later.l0_sstables.len() == v.l0_sstables.len() + count
        &&& later.l0_sstables.skip(count as int) == v.l0_sstables
    }
}

proof fn lemma_same_key_range(a: StateView, b: StateView, ids: Seq<usize>)
    requires
        ids.len() > 0,
        forall|i: int|
            0 <= i < ids.len() ==> a.sstables[#[trigger] ids[i]] == b.sstables[ids[i]],
    ensures
        least_first_key(a.sstables, ids) == least_first_key(b.sstables, ids),
        greatest_last_key(a.sstables, ids) == greatest_last_key(b.sstables, ids),
    decreases ids.len(),
{
    assert(ids[ids.len() - 1] == ids.last());
    if ids.len() > 1 {
        let front = ids.drop_last();
        assert forall|i: int| 0 <= i < front.len() implies a.sstables[#[trigger] front[i]]
            == b.sstables[front[i]] by {
            assert(front[i] == ids[i]);
        }
        lemma_same_key_range(a, b, front);
    }
}

proof fn lemma_same_overlap(
    a: StateView,
    b: StateView,
    level: int,
    first: KeyView,
    last: KeyView,
)
    requires
        a.level_ids(level) == b.level_ids(level),
        forall|i: int|
            0 <= i < a.level_ids(level).len() ==> a.sstables[#[trigger] a.level_ids(level)[i]]
                == b.sstables[a.level_ids(level)[i]],
    ensures
        overlapping(a, level, first, last) == overlapping(b, level, first, last),
{
    let ids = a.level_ids(level);
    let (ends_a, ends_b) = (ends_before(a.sstables, first), ends_before(b.sstables, first));
    let (starts_a, starts_b) = (starts_up_to(a.sstables, last), starts_up_to(b.sstables, last));
    lemma_prefix_len(ids, ends_a);
    lemma_prefix_len(ids, starts_a);
    assert forall|i: int| 0 <= i < ids.len() implies ends_a(#[trigger] ids[i]) == ends_b(ids[i])
        && starts_a(ids[i]) == starts_b(ids[i]) by {
        assert(a.sstables[ids[i]] == b.sstables[ids[i]]);
    }
    lemma_prefix_len_is(ids, ends_b, prefix_len(ids, ends_a));
    lemma_prefix_len_is(ids, starts_b, prefix_len(ids, starts_a));
}

/// A leveled task stays live when more tables are flushed.
proof fn lemma_leveled_stays_live(
    controller: LeveledCompactionController,
    v: StateView,
    later: StateView,
    task: LevelTaskView,
)
    requires
        controller.can_generate(v),
        controller.generates(v, Some(task)),
        forall|id: usize| #[trigger]
            v.sstables.contains_key(id) ==> later.sstables.contains_key(id) && later.sstables[id]
                == v.sstables[id],
        later.levels == v.levels,
        later.l0_sstables.len() >= v.l0_sstables.len(),
    ensures
        task_fits(later, task),
        task_is_live(later, task),
{
    lemma_leveled_task_is_live(controller, v, task);
    let upper = task.upper_level_sst_ids;
    let w = task.lower_level as int;
    let (first, last) = upper_range(v, task);
    lemma_upper_range_in_order(v, task);
    assert forall|i: int| 0 <= i < upper.len() implies v.sstables[#[trigger] upper[i]]
        == later.sstables[upper[i]] && later.sstables.contains_key(upper[i]) by {
        assert(v.sstables.contains_key(upper[i]));
    }
    assert forall|level: int| 1 <= level <= later.levels.len() implies later.is_sorted_run(
        #[trigger] later.level_ids(level),
    ) by {
        let ids = v.level_ids(level);
        assert(v.is_sorted_run(ids));
        assert forall|i: int| 0 <= i < ids.len() implies v.sstables[#[trigger] ids[i]]
            == later.sstables[ids[i]] && later.sstables.contains_key(ids[i]) by {
            assert(v.sstables.contains_key(ids[i]));
        }
    }
    if task.upper_level is None {
        lemma_same_key_range(v, later, upper);
    }
    assert(upper_range(later, task) == (first, last));
    let ids = v.level_ids(w);
    assert(v.is_sorted_run(ids));
    assert forall|i: int| 0 <= i < ids.len() implies v.sstables[#[trigger] v.level_ids(w)[i]]
        == later.sstables[v.level_ids(w)[i]] by {
        assert(v.sstables.contains_key(ids[i]));
    }
    lemma_same_overlap(v, later, w, first, last);
    lemma_base_level_bounds(v, controller.options(), v.levels.len() as int);
    assert(task.lower_level_sst_ids == overlapping(v, w, first, last) && (
    task.upper_level matches Some(level) ==> level != w)) by {
        if !controller.l0_is_due(v) {
            let level = choose|level: int|
                #[trigger] is_chosen_level(v, controller.options(), level)
                    && controller.is_level_task(v, level, task);
            let id = task.upper_level_sst_ids[0];
            assert(is_oldest(v.level_ids(level), id));
        }
    }
    assert(later.is_sorted_run(later.level_ids(w)));
    if task.upper_level is Some {
        assert(later.is_sorted_run(later.level_ids(task.upper_level->Some_0 as int)));
    }
    lemma_lower_part_is_live(later, task, w, first, last);
}

/// A task that was generated for a state can be carried out on it, and also once more tables have
/// been flushed. For tiered compaction there is to be an output, and a merge by size ratio takes
/// at least one tier.
pub proof fn lemma_generated_can_be_applied(
    controller: CompactionController,
    v: StateView,
    later: StateView,
    count: nat,
    task: CompactionTaskView,
    output: Seq<usize>,
)
    requires
        controller.can_generate(v),
        controller.generates(v, Some(task)),
        is_flushed_since(controller, v, later, count),
        controller matches CompactionController::Tiered(ctrl) ==> output.len() > 0
            && ctrl.options().min_merge_width > 0,
    ensures
        controller.can_apply(later, task, output, true),
        controller.can_apply(later, task, output, false),
{
    match controller {
        CompactionController::Leveled(ctrl) => {
            lemma_leveled_stays_live(ctrl, v, later, task->Leveled_0);
        },
        CompactionController::Simple(ctrl) => {
            let t = task->Simple_0;
            lemma_simple_task_fits(v, ctrl.options(), 0, t);
            if t.upper_level is None {
                assert forall|i: int| 0 <= i < t.upper_level_sst_ids.len() implies later
                    .l0_sstables.contains(#[trigger] t.upper_level_sst_ids[i]) by {
                    assert(later.l0_sstables[count + i] == later.l0_sstables.skip(count as int)[i]);
                }
            }
        },
        CompactionController::Tiered(ctrl) => {
            let t = task->Tiered_0;
            lemma_tiered_task_fits(v.levels, ctrl.options());
            if !t.bottom_tier_included {
                let number = t.tiers[0].0;
                assert(t.tiers[0] == v.levels[0]);
                assert(later.levels[count as int] == later.levels.skip(count as int)[0]);
                assert forall|i: int| 0 <= i < count implies (#[trigger] later.levels[i]).0
                    != number by {
                    assert(later.levels[count as int].0 == number);
                }
                lemma_tier_position_is(later.levels, number, count as int);
            }
        },
        CompactionController::NoCompaction => {},
    }
}

/// The strategy of some options has these options.
pub proof fn lemma_strategy_has_options(
    controller: CompactionController,
    options: CompactionOptions,
)
    requires
        controller.is_for(options),
    ensures
        match options {
            CompactionOptions::Leveled(o) => controller is Leveled
                && controller->Leveled_0.options() == o,
            CompactionOptions::Tiered(o) => controller is Tiered && controller->Tiered_0.options()
                == o,
            CompactionOptions::Simple(o) => controller is Simple && controller->Simple_0.options()
                == o,
            CompactionOptions::NoCompaction => controller is NoCompaction,
        },
{
}

proof fn lemma_tier_position_of_none(tiers: Seq<(usize, Seq<usize>)>, number: usize)
    ensures
        0 <= tier_position(tiers, number) <= tiers.len(),
        forall|i: int|
            0 <= i < tier_position(tiers, number) ==> (#[trigger] tiers[i]).0 != number,
        tier_position(tiers, number) < tiers.len() ==> tiers[tier_position(tiers, number)].0
            == number,
    decreases tiers.len(),
{
    if tiers.len() > 0 && tiers[0].0 != number {
        let rest = tiers.drop_first();
        lemma_tier_position_of_none(rest, number);
        assert forall|i: int| 0 <= i < tier_position(tiers, number) implies (
        #[trigger] tiers[i]).0 != number by {
            if i > 0 {
                assert(rest[i - 1] == tiers[i]);
            }
        }
    }
}

/// Which tasks can be carried out. One of another strategy cannot. A simple leveled task is to
/// take its levels as they are now, and of L0 only tables that are still there. A tiered task is
/// to have an output, and as many tiers as it takes are to be there, at the end or from the first
/// tier with its number on. The levels of a leveled task are to be there and, of L0, at least as
/// many tables as it takes; unless it is replayed, its tables are to be there too, and its levels
/// sorted.
pub proof fn lemma_can_apply(
    controller: CompactionController,
    v: StateView,
    task: CompactionTaskView,
    output: Seq<usize>,
    in_recovery: bool,
)
    ensures
        match (controller, task) {
            (CompactionController::Simple(_), CompactionTaskView::Simple(t)) => controller.can_apply(
                v,
                task,
                output,
                in_recovery,
            ) == {
                &&& 1 <= t.lower_level <= v.levels.len()
                &&& t.lower_level_sst_ids == v.levels[t.lower_level - 1].1
                &&& if t.upper_level is Some {
                    let upper = t.upper_level->Some_0;
                    &&& 1 <= upper <= v.levels.len()
                    &&& upper != t.lower_level
                    &&& t.upper_level_sst_ids == v.levels[upper - 1].1
                } else {
                    forall|i: int|
                        0 <= i < t.upper_level_sst_ids.len() ==> v.l0_sstables.contains(
                            #[trigger] t.upper_level_sst_ids[i],
                        )
                }
            },
            (CompactionController::Tiered(_), CompactionTaskView::Tiered(t)) => controller.can_apply(
                v,
                task,
                output,
                in_recovery,
            ) == {
                &&& output.len() > 0
                &&& if t.bottom_tier_included {
                    t.tiers.len() <= v.levels.len()
                } else {
                    t.tiers.len() > 0 && exists|pos: int|
                        0 <= pos <= v.levels.len() - t.tiers.len() && (#[trigger] v.levels[pos]).0
                            == t.tiers[0].0 && forall|i: int|
                            0 <= i < pos ==> (#[trigger] v.levels[i]).0 != t.tiers[0].0
                }
            },
            (CompactionController::Leveled(_), CompactionTaskView::Leveled(t)) => {
                let fits = 1 <= t.lower_level <= v.levels.len() && if t.upper_level is Some {
                    1 <= t.upper_level->Some_0 <= v.levels.len()
                } else {
                    t.upper_level_sst_ids.len() <= v.l0_sstables.len()
                };
                &&& in_recovery ==> controller.can_apply(v, task, output, in_recovery) == fits
                &&& !in_recovery && controller.can_apply(v, task, output, in_recovery) ==> {
                    &&& fits
                    &&& v.holds(t.upper_level_sst_ids)
                    &&& t.upper_level_sst_ids.len() > 0
                    &&& v.is_sorted_run(v.levels[t.lower_level - 1].1)
                    &&& t.upper_level is Some ==> t.upper_level_sst_ids.len() == 1
                        && v.is_sorted_run(v.levels[t.upper_level->Some_0 - 1].1)
                }
            },
            _ => !controller.can_apply(v, task, output, in_recovery),
        },
{
    match (controller, task) {
        (CompactionController::Tiered(_), CompactionTaskView::Tiered(t)) => {
            if !t.bottom_tier_included && t.tiers.len() > 0 {
                let number = t.tiers[0].0;
                let found = tier_position(v.levels, number);
                lemma_tier_position_of_none(v.levels, number);
                if found + t.tiers.len() <= v.levels.len() {
                    assert(v.levels[found].0 == number);
                }
                if exists|pos: int|
                    0 <= pos <= v.levels.len() - t.tiers.len() && (#[trigger] v.levels[pos]).0
                        == number && forall|i: int|
                        0 <= i < pos ==> (#[trigger] v.levels[i]).0 != number {
                    let pos = choose|pos: int|
                        0 <= pos <= v.levels.len() - t.tiers.len() && (#[trigger] v.levels[pos]).0
                            == number && forall|i: int|
                            0 <= i < pos ==> (#[trigger] v.levels[i]).0 != number;
                    lemma_tier_position_is(v.levels, number, pos);
                }
            }
        },
        _ => {},
    }
}

/// What a tiered compaction does whichever tiers its task names: with the bottom tier it takes as
/// many tiers from the end as the task names, and their tables are no longer used; without it, as
/// many from the first one with the number of the first named one on, and the tables that the task
/// names are no longer used.
pub proof fn lemma_tiered_result_by_number(
    v: StateView,
    task: TieredTaskView,
    output: Seq<usize>,
    in_recovery: bool,
    pos: int,
)
    requires
        output.len() > 0,
        0 <= pos <= v.levels.len() - task.tiers.len(),
        task.bottom_tier_included ==> pos + task.tiers.len() == v.levels.len(),
        !task.bottom_tier_included ==> {
            &&& task.tiers.len() > 0
            &&& v.levels[pos].0 == task.tiers[0].0
            &&& forall|i: int| 0 <= i < pos ==> (#[trigger] v.levels[i]).0 != task.tiers[0].0
        },
    ensures
        ({
            let after = state_after(v, CompactionTaskView::Tiered(task), output, in_recovery);
            let unused = unused_tables(v, CompactionTaskView::Tiered(task));
            let ids = |tier: (usize, Seq<usize>)| tier.1;
            &&& after.levels == v.levels.take(pos) + seq![(output[0], output)] + v.levels.skip(
                pos + task.tiers.len(),
            )
            &&& after.l0_sstables == v.l0_sstables
            &&& after.sstables == v.sstables
            &&& task.bottom_tier_included ==> unused == v.levels.skip(pos).map_values(ids).flatten()
            &&& !task.bottom_tier_included ==> unused == task.tiers.map_values(ids).flatten()
        }),
{
    let k = task.tiers.len() as int;
    let after = state_after(v, CompactionTaskView::Tiered(task), output, in_recovery);
    lemma_tier_ids_are_flat(task.tiers);
    lemma_tier_ids_are_flat(v.levels.skip(pos));
    if !task.bottom_tier_included {
        lemma_tier_position_is(v.levels, task.tiers[0].0, pos);
    }
    assert(after.levels =~= v.levels.take(pos) + seq![(output[0], output)] + v.levels.skip(
        pos + k,
    ));
}

/// The keys `first` and `last` are the ends of what the tables cover.
pub open spec fn are_ends(v: StateView, ids: Seq<usize>, first: KeyView, last: KeyView) -> bool {
    &&& forall|i: int|
        0 <= i < ids.len() ==> !key_lt(v.sstables[#[trigger] ids[i]].first_key, first) && !key_lt(
            last,
            v.sstables[ids[i]].last_key,
        )
    &&& exists|i: int| 0 <= i < ids.len() && v.sstables[#[trigger] ids[i]].first_key == first
    &&& exists|i: int| 0 <= i < ids.len() && v.sstables[#[trigger] ids[i]].last_key == last
}

/// What a live leveled compaction does to the levels, whichever tables its task names. In the lower
/// level the output stands in place of the tables from the first one that does not end before what
/// the task covers up to the last one that does not start behind it, where what it covers is cut to
/// the tables of the lower level that it names. From the upper level goes all that reaches into the
/// range of the upper table, and from L0 as many tables as the task names, from the end.
pub proof fn lemma_leveled_result_by_keys(
    v: StateView,
    task: LevelTaskView,
    output: Seq<usize>,
    first: KeyView,
    last: KeyView,
)
    requires
        task_fits(v, task),
        task_is_live(v, task),
        task.upper_level matches Some(level) ==> level != task.lower_level,
        are_ends(v, task.upper_level_sst_ids, first, last),
    ensures
        ({
            let after = state_after(v, CompactionTaskView::Leveled(task), output, false);
            let ids = v.levels[task.lower_level - 1].1;
            let named = task.lower_level_sst_ids;
            let ends = |id: usize|
                key_lt(v.sstables[id].last_key, first) || named.len() > 0 && key_lt(
                    v.sstables[id].last_key,
                    v.sstables[named[0]].first_key,
                );
            let starts = |id: usize|
                key_lt(last, v.sstables[id].first_key) || named.len() > 0 && key_lt(
                    v.sstables[named.last()].last_key,
                    v.sstables[id].first_key,
                );
            &&& exists|start: int, end: int|
                splits(ids, ends, start) && splits(ids, |id: usize| !starts(id), end)
                    && after.levels[task.lower_level - 1].1 == #[trigger] ids.take(start) + output
                    + #[trigger] ids.skip(end)
            &&& task.upper_level matches Some(level) ==> {
                let upper = v.levels[level - 1].1;
                exists|start: int, end: int|
                    splits(upper, |id: usize| key_lt(v.sstables[id].last_key, first), start)
                        && splits(
                        upper,
                        |id: usize| !key_lt(last, v.sstables[id].first_key),
                        end,
                    ) && after.levels[level - 1].1 == #[trigger] upper.take(start)
                        + #[trigger] upper.skip(end)
            }
            &&& after.l0_sstables == (if task.upper_level is Some {
                v.l0_sstables
            } else {
                v.l0_sstables.take(v.l0_sstables.len() - task.upper_level_sst_ids.len())
            })
            &&& after.levels.len() == v.levels.len()
            &&& forall|level: int|
                1 <= level <= v.levels.len() && level != task.lower_level && task.upper_level
                    != Some(level as usize) ==> #[trigger] after.levels[level - 1]
                    == v.levels[level - 1]
        }),
{
    let upper = task.upper_level_sst_ids;
    let named = task.lower_level_sst_ids;
    let lower = task.lower_level as int;
    let gone = without_upper(v, task);
    let after = state_after(v, CompactionTaskView::Leveled(task), output, false);
    let ids = v.levels[lower - 1].1;
    lemma_key_range_covers(v.sstables, upper);
    lemma_ends_are_unique(
        v,
        upper,
        first,
        last,
        least_first_key(v.sstables, upper),
        greatest_last_key(v.sstables, upper),
    );
    assert(upper_range(v, task) == (first, last)) by {
        if task.upper_level is Some {
            lemma_ends_are_unique(
                v,
                upper,
                first,
                last,
                v.sstables[upper[0]].first_key,
                v.sstables[upper[0]].last_key,
            );
        }
    }
    assert(gone.level_ids(lower) == ids);
    assert(gone.sstables == v.sstables);
    let (from, to) = replaced_range(v, task);
    let ends = |id: usize|
        key_lt(v.sstables[id].last_key, first) || named.len() > 0 && key_lt(
            v.sstables[id].last_key,
            v.sstables[named[0]].first_key,
        );
    let starts = |id: usize|
        key_lt(last, v.sstables[id].first_key) || named.len() > 0 && key_lt(
            v.sstables[named.last()].last_key,
            v.sstables[id].first_key,
        );
    lemma_key_order_is_total();
    let start = overlap_start(gone, lower, from);
    let end = overlap_end(gone, lower, to);
    assert(v.is_sorted_run(v.level_ids(lower)));
    lemma_run_splits(v, ids, from, to);
    assert forall|id: usize| #[trigger] ends_before(v.sstables, from)(id) == ends(id) by {
        if named.len() > 0 {
            lemma_beside_max(v.sstables[id].last_key, first, v.sstables[named[0]].first_key);
        }
    }
    assert forall|id: usize| #[trigger] starts_up_to(v.sstables, to)(id) == !starts(id) by {
        if named.len() > 0 {
            lemma_beside_min(v.sstables[id].first_key, last, v.sstables[named.last()].last_key);
        }
    }
    assert(ends_before(v.sstables, from) =~= ends);
    assert(starts_up_to(v.sstables, to) =~= |id: usize| !starts(id));
    assert(after.levels[lower - 1].1 == ids.take(start) + output + ids.skip(end));
    if let Some(level) = task.upper_level {
        let run = v.levels[level - 1].1;
        assert(v.is_sorted_run(v.level_ids(level as int)));
        lemma_run_splits(v, run, first, last);
        let s = overlap_start(v, level as int, first);
        let e = overlap_end(v, level as int, last);
        assert(ends_before(v.sstables, first) =~= |id: usize|
            key_lt(v.sstables[id].last_key, first));
        assert(starts_up_to(v.sstables, last) =~= |id: usize|
            !key_lt(last, v.sstables[id].first_key));
        assert(after.levels[level - 1].1 =~= run.take(s) + run.skip(e));
    }
}

/// The first `n` items, and only they, have the property.
pub open spec fn splits(ids: Seq<usize>, p: spec_fn(usize) -> bool, n: int) -> bool {
    &&& 0 <= n <= ids.len()
    &&& forall|i: int| 0 <= i < ids.len() ==> p(#[trigger] ids[i]) == (i < n)
}

proof fn lemma_run_splits(v: StateView, ids: Seq<usize>, first: KeyView, last: KeyView)
    requires
        v.is_sorted_run(ids),
    ensures
        ({
            let ends = ends_before(v.sstables, first);
            let starts = starts_up_to(v.sstables, last);
            &&& splits(ids, ends, prefix_len(ids, ends) as int)
            &&& splits(ids, starts, prefix_len(ids, starts) as int)
        }),
{
    let ends = ends_before(v.sstables, first);
    let starts = starts_up_to(v.sstables, last);
    lemma_prefix_len(ids, ends);
    lemma_prefix_len(ids, starts);
    let (n, m) = (prefix_len(ids, ends) as int, prefix_len(ids, starts) as int);
    lemma_key_order_is_total();
    assert forall|i: int| 0 <= i < ids.len() implies ends(#[trigger] ids[i]) == (i < n) by {
        if i > n && ends(ids[i]) {
            let (a, b) = (v.sstables[ids[n]].last_key, v.sstables[ids[i]].last_key);
            assert(key_le(a, b));
            if a != b {
                lemma_key_lt_transitive(a, b, first);
            }
        }
    }
    assert forall|i: int| 0 <= i < ids.len() implies starts(#[trigger] ids[i]) == (i < m) by {
        if i > m && starts(ids[i]) {
            let (a, b) = (v.sstables[ids[m]].first_key, v.sstables[ids[i]].first_key);
            assert(key_le(a, b));
            lemma_key_le_transitive(a, b, last);
        }
    }
}

proof fn lemma_key_order_is_total()
    ensures
        forall|a: KeyView, b: KeyView| #[trigger] key_le(a, b) == !key_lt(b, a),
        forall|a: KeyView, b: KeyView| #[trigger] key_lt(a, b) == !key_le(b, a),
{
    assert forall|a: KeyView, b: KeyView| #[trigger] key_le(a, b) == !key_lt(b, a) by {
        lemma_key_lt_total(a, b);
        lemma_key_lt_irreflexive(a);
        if key_lt(a, b) && key_lt(b, a) {
            lemma_key_lt_transitive(a, b, a);
        }
    }
    assert forall|a: KeyView, b: KeyView| #[trigger] key_lt(a, b) == !key_le(b, a) by {
        lemma_key_lt_total(a, b);
        lemma_key_lt_irreflexive(a);
        if key_lt(a, b) && key_lt(b, a) {
            lemma_key_lt_transitive(a, b, a);
        }
    }
}

proof fn lemma_beside_max(key: KeyView, a: KeyView, b: KeyView)
    ensures
        key_lt(key, key_max(a, b)) == (key_lt(key, a) || key_lt(key, b)),
{
    lemma_key_lt_total(a, b);
    if key_lt(a, b) && key_lt(key, a) {
        lemma_key_lt_transitive(key, a, b);
    }
    if key_lt(b, a) && key_lt(key, b) {
        lemma_key_lt_transitive(key, b, a);
    }
}

proof fn lemma_beside_min(key: KeyView, a: KeyView, b: KeyView)
    ensures
        key_le(key, key_min(a, b)) == !(key_lt(a, key) || key_lt(b, key)),
{
    lemma_key_order_is_total();
    lemma_key_lt_total(a, b);
    if key_lt(a, b) && key_lt(b, key) {
        lemma_key_lt_transitive(a, b, key);
    }
    if key_lt(b, a) && key_lt(a, key) {
        lemma_key_lt_transitive(b, a, key);
    }
}

proof fn lemma_ends_are_unique(
    v: StateView,
    ids: Seq<usize>,
    first: KeyView,
    last: KeyView,
    least: KeyView,
    greatest: KeyView,
)
    requires
        are_ends(v, ids, first, last),
        forall|i: int|
            0 <= i < ids.len() ==> key_le(least, v.sstables[#[trigger] ids[i]].first_key),
        forall|i: int|
            0 <= i < ids.len() ==> key_le(v.sstables[#[trigger] ids[i]].last_key, greatest),
        exists|i: int| 0 <= i < ids.len() && v.sstables[#[trigger] ids[i]].first_key == least,
        exists|i: int| 0 <= i < ids.len() && v.sstables[#[trigger] ids[i]].last_key == greatest,
    ensures
        first == least,
        last == greatest,
{
    lemma_key_order_is_total();
    lemma_key_lt_total(first, least);
    lemma_key_lt_total(last, greatest);
}

} // verus!
