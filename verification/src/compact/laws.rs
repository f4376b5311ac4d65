//! What holds of the compaction strategies as a whole: each state has at most one task, and the
//! task of a state can be applied to it.

use vstd::prelude::*;

use super::leveled::{
    base_level, base_level_from, compacted, compacted_before, ends_before, exceeds_target,
    greatest_last_key, is_chosen_level, is_oldest, key_max, key_min, least_first_key,
    lemma_key_range_covers, level_size, overlap_end, overlap_start, overlapping, priority_lt,
    replaced_range, replayed, starts_up_to, target_size, task_fits, task_is_live, upper_range,
    without_upper, LevelTaskView, LeveledCompactionController, LeveledCompactionOptions,
};
use super::simple_leveled::{
    level_is_due, simple_task_fits, simple_task_from, whole_level_task,
    SimpleLeveledCompactionOptions,
};
use super::tiered::{
    first_too_large, tier_position, tiered_task, tiered_task_fits, TieredCompactionOptions,
};
use crate::double::{double_of, lemma_double_le_total, rounded};
use crate::ids::{spliced, without};
use crate::key::{
    key_le, key_lt, lemma_key_le_transitive, lemma_key_lt_irreflexive, lemma_key_lt_total,
    lemma_key_lt_transitive, KeyView,
};
use crate::lsm_storage::recovery::lemma_filter_none;
use crate::lsm_storage::StateView;
use crate::search::{lemma_prefix_len, lemma_prefix_len_is};

verus! {

proof fn lemma_priority_lt_asymmetric(size_a: nat, target_a: nat, size_b: nat, target_b: nat)
    ensures
        !(priority_lt(size_a, target_a, size_b, target_b) && priority_lt(
            size_b,
            target_b,
            size_a,
            target_a,
        )),
{
    if target_a != 0 && target_b != 0 {
        lemma_double_le_total(
            rounded(double_of(size_a), double_of(target_a)),
            rounded(double_of(size_b), double_of(target_b)),
        );
    }
}

/// At most one level is chosen for compaction.
pub proof fn lemma_chosen_level_is_unique(
    v: StateView,
    o: LeveledCompactionOptions,
    a: int,
    b: int,
)
    requires
        is_chosen_level(v, o, a),
        is_chosen_level(v, o, b),
    ensures
        a == b,
{
    if a != b {
        assert(compacted_before(v, o, a, b));
        assert(compacted_before(v, o, b, a));
        lemma_priority_lt_asymmetric(
            level_size(v, a),
            target_size(v, o, a),
            level_size(v, b),
            target_size(v, o, b),
        );
    }
}

/// A state has at most one leveled task, or none: which one is generated is determined.
pub proof fn lemma_leveled_task_is_determined(
    controller: LeveledCompactionController,
    v: StateView,
    a: Option<LevelTaskView>,
    b: Option<LevelTaskView>,
)
    requires
        controller.generates(v, a),
        controller.generates(v, b),
    ensures
        a == b,
{
    let o = controller.options();
    if !controller.l0_is_due(v) {
        if a is Some && b is Some {
            let (task_a, task_b) = (a->Some_0, b->Some_0);
            let i = choose|level: int|
                #[trigger] is_chosen_level(v, o, level) && controller.is_level_task(
                    v,
                    level,
                    task_a,
                );
            let j = choose|level: int|
                #[trigger] is_chosen_level(v, o, level) && controller.is_level_task(
                    v,
                    level,
                    task_b,
                );
            lemma_chosen_level_is_unique(v, o, i, j);
            let ids = v.level_ids(i);
            let x = task_a.upper_level_sst_ids[0];
            let y = task_b.upper_level_sst_ids[0];
            assert(is_oldest(ids, x) && is_oldest(ids, y));
            let k = choose|k: int| 0 <= k < ids.len() && ids[k] == x;
            let l = choose|l: int| 0 <= l < ids.len() && ids[l] == y;
            assert(ids[k] == x && ids[l] == y);
        } else if a is Some {
            let i = choose|level: int|
                #[trigger] is_chosen_level(v, o, level) && controller.is_level_task(
                    v,
                    level,
                    a->Some_0,
                );
            assert(exceeds_target(v, o, i));
        } else if b is Some {
            let i = choose|level: int|
                #[trigger] is_chosen_level(v, o, level) && controller.is_level_task(
                    v,
                    level,
                    b->Some_0,
                );
            assert(exceeds_target(v, o, i));
        }
    }
}

pub(crate) proof fn lemma_key_le_total(a: KeyView, b: KeyView)
    ensures
        key_le(a, b) || key_le(b, a),
        !key_lt(a, b) <==> key_le(b, a),
{
    lemma_key_lt_total(a, b);
    lemma_key_lt_irreflexive(a);
    if key_lt(a, b) && key_lt(b, a) {
        lemma_key_lt_transitive(a, b, a);
    }
}

/// In a sorted level the tables that overlap a range of keys form a range of positions.
pub(crate) proof fn lemma_overlap_in_order(v: StateView, level: int, first: KeyView, last: KeyView)
    requires
        v.is_sorted_run(v.level_ids(level)),
        key_le(first, last),
    ensures
        0 <= overlap_start(v, level, first) <= overlap_end(v, level, last)
            <= v.level_ids(level).len(),
{
    let ids = v.level_ids(level);
    let ends = ends_before(v.sstables, first);
    let starts = starts_up_to(v.sstables, last);
    lemma_prefix_len(ids, ends);
    lemma_prefix_len(ids, starts);
    let start = overlap_start(v, level, first);
    let end = overlap_end(v, level, last);
    if end < start {
        let table = v.sstables[ids[end]];
        assert(ends(ids[end]));
        lemma_key_le_transitive(table.first_key, table.last_key, first);
        lemma_key_le_transitive(table.first_key, first, last);
    }
}

/// Cutting a range of keys to that of the tables that overlap it leaves a range of keys.
proof fn lemma_cut_range(v: StateView, level: int, first: KeyView, last: KeyView)
    requires
        v.is_sorted_run(v.level_ids(level)),
        key_le(first, last),
        overlapping(v, level, first, last).len() > 0,
    ensures
        ({
            let lower = overlapping(v, level, first, last);
            &&& v.sstables.contains_key(lower.first())
            &&& v.sstables.contains_key(lower.last())
            &&& key_le(
                key_max(first, v.sstables[lower.first()].first_key),
                key_min(last, v.sstables[lower.last()].last_key),
            )
        }),
{
    let ids = v.level_ids(level);
    let ends = ends_before(v.sstables, first);
    let starts = starts_up_to(v.sstables, last);
    lemma_overlap_in_order(v, level, first, last);
    lemma_prefix_len(ids, ends);
    lemma_prefix_len(ids, starts);
    let start = overlap_start(v, level, first);
    let end = overlap_end(v, level, last);
    let lower = overlapping(v, level, first, last);
    assert(lower.first() == ids[start]);
    assert(lower.last() == ids[end - 1]);
    let head = v.sstables[ids[start]];
    let tail = v.sstables[ids[end - 1]];
    assert(!ends(ids[start]));
    assert(starts(ids[start]));
    lemma_key_le_total(head.last_key, first);
    if start < end - 1 {
        assert(key_le(head.last_key, tail.last_key));
    }
    lemma_key_le_total(tail.last_key, tail.last_key);
    lemma_key_le_transitive(first, head.last_key, tail.last_key);
    lemma_key_le_transitive(head.first_key, head.last_key, tail.last_key);
}

/// A leveled task that is generated for a state can be applied to it.
pub proof fn lemma_leveled_task_is_live(
    controller: LeveledCompactionController,
    v: StateView,
    task: LevelTaskView,
)
    requires
        controller.can_generate(v),
        controller.generates(v, Some(task)),
    ensures
        task_fits(v, task),
        task_is_live(v, task),
{
    let o = controller.options();
    lemma_base_level_bounds(v, o, v.levels.len() as int);
    if controller.l0_is_due(v) {
        let base = base_level(v, o);
        let (first, last) = (
            least_first_key(v.sstables, v.l0_sstables),
            greatest_last_key(v.sstables, v.l0_sstables),
        );
        lemma_key_range_covers(v.sstables, v.l0_sstables);
        let table = v.sstables[v.l0_sstables[0]];
        lemma_key_le_transitive(first, table.first_key, table.last_key);
        lemma_key_le_transitive(first, table.last_key, last);
        assert(v.is_sorted_run(v.level_ids(base)));
        lemma_lower_part_is_live(v, task, base, first, last);
    } else {
        let level = choose|level: int|
            #[trigger] is_chosen_level(v, o, level) && controller.is_level_task(v, level, task);
        let ids = v.level_ids(level);
        let id = task.upper_level_sst_ids[0];
        assert(is_oldest(ids, id));
        let k = choose|k: int| 0 <= k < ids.len() && ids[k] == id;
        assert(v.is_sorted_run(v.level_ids(level)));
        assert(v.is_sorted_run(v.level_ids(level + 1)));
        assert(ids[k] == id);
        let table = v.sstables[id];
        lemma_lower_part_is_live(v, task, level + 1, table.first_key, table.last_key);
    }
}

pub(crate) proof fn lemma_lower_part_is_live(
    v: StateView,
    task: LevelTaskView,
    level: int,
    first: KeyView,
    last: KeyView,
)
    requires
        v.is_sorted_run(v.level_ids(level)),
        task.lower_level == level,
        1 <= level <= v.levels.len(),
        task.upper_level matches Some(upper) ==> upper != level && 1 <= upper <= v.levels.len(),
        upper_range(v, task) == (first, last),
        key_le(first, last),
        task.lower_level_sst_ids == overlapping(v, level, first, last),
    ensures
        task.lower_level_sst_ids.len() > 0 ==> {
            &&& v.sstables.contains_key(task.lower_level_sst_ids.first())
            &&& v.sstables.contains_key(task.lower_level_sst_ids.last())
        },
        overlap_start(without_upper(v, task), level, replaced_range(v, task).0) <= overlap_end(
            without_upper(v, task),
            level,
            replaced_range(v, task).1,
        ),
{
    let after = without_upper(v, task);
    assert(after.level_ids(level) == v.level_ids(level));
    assert(after.is_sorted_run(after.level_ids(level)));
    if task.lower_level_sst_ids.len() > 0 {
        lemma_cut_range(v, level, first, last);
    }
    let (from, to) = replaced_range(v, task);
    lemma_overlap_in_order(after, level, from, to);
}

pub(crate) proof fn lemma_base_level_bounds(v: StateView, o: LeveledCompactionOptions, level: int)
    requires
        1 <= level,
    ensures
        1 <= base_level_from(v, o, level) <= level,
    decreases level,
{
    if level > 1 && !(target_size(v, o, level) <= o.base_size()) {
        lemma_base_level_bounds(v, o, level - 1);
    }
}

/// A simple leveled task that is generated for a state can be applied to it, and it takes a level
/// into the next one, or all of L0 into the first.
pub proof fn lemma_simple_task_fits(
    v: StateView,
    o: SimpleLeveledCompactionOptions,
    from: int,
    task: LevelTaskView,
)
    requires
        v.levels.len() == o.max_levels,
        0 <= from,
        simple_task_from(v, o, from) == Some(task),
    ensures
        simple_task_fits(v, task),
        match task.upper_level {
            Some(level) => task.lower_level == level + 1,
            None => task.lower_level == 1 && task.upper_level_sst_ids == v.l0_sstables,
        },
    decreases o.max_levels - from,
{
    if level_is_due(v, o, from) {
        assert(task == whole_level_task(v, o, from));
        if from == 0 {
            assert forall|i: int|
                0 <= i < task.upper_level_sst_ids.len() implies v.l0_sstables.contains(
                #[trigger] task.upper_level_sst_ids[i],
            ) by {
                assert(v.l0_sstables[i] == task.upper_level_sst_ids[i]);
            }
        }
    } else {
        lemma_simple_task_fits(v, o, from + 1, task);
    }
}

proof fn lemma_first_too_large(tiers: Seq<(usize, Seq<usize>)>, o: TieredCompactionOptions, i: int)
    ensures
        first_too_large(tiers, o, i) matches Some(k) ==> i <= k < tiers.len(),
    decreases tiers.len() - i,
{
    if i < tiers.len() {
        lemma_first_too_large(tiers, o, i + 1);
    }
}

/// A tiered task that is generated for a state can be applied to it, if a merge by size ratio takes
/// at least one tier. One that does not include the bottom tier takes the first tiers.
pub proof fn lemma_tiered_task_fits(
    tiers: Seq<(usize, Seq<usize>)>,
    o: TieredCompactionOptions,
)
    requires
        o.min_merge_width > 0,
        tiered_task(tiers, o) is Some,
    ensures
        ({
            let task = tiered_task(tiers, o)->Some_0;
            &&& tiered_task_fits(tiers, task)
            &&& !task.bottom_tier_included ==> {
                &&& task.tiers.len() > 0
                &&& tier_position(tiers, task.tiers[0].0) == 0
                &&& task.tiers == tiers.take(task.tiers.len() as int)
            }
        }),
{
    lemma_first_too_large(tiers, o, o.min_merge_width as int);
}

pub(crate) proof fn lemma_without_middle(ids: Seq<usize>, start: int, end: int)
    requires
        0 <= start <= end <= ids.len(),
        ids.no_duplicates(),
    ensures
        without(ids, ids.subrange(start, end)) == ids.take(start) + ids.skip(end),
{
    let gone = ids.subrange(start, end);
    let kept = |id: usize| !gone.contains(id);
    let (head, tail) = (ids.take(start), ids.skip(end));
    assert(ids =~= head + gone + tail);
    assert forall|i: int| 0 <= i < head.len() implies kept(#[trigger] head[i]) by {
        if gone.contains(head[i]) {
            let k = choose|k: int| 0 <= k < gone.len() && gone[k] == head[i];
            assert(ids[i] == ids[start + k]);
        }
    }
    assert forall|i: int| 0 <= i < tail.len() implies kept(#[trigger] tail[i]) by {
        if gone.contains(tail[i]) {
            let k = choose|k: int| 0 <= k < gone.len() && gone[k] == tail[i];
            assert(ids[end + i] == ids[start + k]);
        }
    }
    assert forall|i: int| 0 <= i < gone.len() implies !kept(#[trigger] gone[i]) by {
        assert(gone.contains(gone[i]));
    }
    Seq::filter_distributes_over_add(head + gone, tail, kept);
    Seq::filter_distributes_over_add(head, gone, kept);
    crate::lsm_storage::invariants::lemma_filter_all(head, kept);
    crate::lsm_storage::invariants::lemma_filter_all(tail, kept);
    lemma_filter_none(gone, kept);
    assert(head + Seq::<usize>::empty() + tail =~= head + tail);
}

/// The task names exactly the tables that overlap its keys: in the upper level, unless that is L0,
/// and in the lower one.
pub open spec fn names_what_overlaps(v: StateView, task: LevelTaskView) -> bool {
    &&& task.upper_level matches Some(upper) ==> {
        &&& upper != task.lower_level
        &&& task.upper_level_sst_ids == overlapping(
            v,
            upper as int,
            upper_range(v, task).0,
            upper_range(v, task).1,
        )
    }
    &&& task.lower_level_sst_ids == overlapping(
        without_upper(v, task),
        task.lower_level as int,
        replaced_range(v, task).0,
        replaced_range(v, task).1,
    )
}

/// The lower tables of the task are all those that overlap the keys of its upper tables.
pub open spec fn takes_all_overlapping(v: StateView, task: LevelTaskView) -> bool {
    task.lower_level_sst_ids == overlapping(
        v,
        task.lower_level as int,
        upper_range(v, task).0,
        upper_range(v, task).1,
    )
}

/// The tables of the list are there and sorted, and no two of their key ranges meet.
pub open spec fn is_disjoint_run(v: StateView, ids: Seq<usize>) -> bool {
    &&& v.is_sorted_run(ids)
    &&& forall|i: int, j: int|
        0 <= i < j < ids.len() ==> key_lt(
            v.sstables[#[trigger] ids[i]].last_key,
            v.sstables[#[trigger] ids[j]].first_key,
        )
}

/// Where the key ranges of a level do not meet, a table of it overlaps no other.
proof fn lemma_table_overlaps_itself(v: StateView, level: int, k: int)
    requires
        is_disjoint_run(v, v.level_ids(level)),
        0 <= k < v.level_ids(level).len(),
    ensures
        ({
            let ids = v.level_ids(level);
            let table = v.sstables[ids[k]];
            overlapping(v, level, table.first_key, table.last_key) == seq![ids[k]]
        }),
{
    let ids = v.level_ids(level);
    let table = v.sstables[ids[k]];
    let ends = ends_before(v.sstables, table.first_key);
    let starts = starts_up_to(v.sstables, table.last_key);
    assert forall|i: int| 0 <= i < k implies ends(#[trigger] ids[i]) by {}
    lemma_key_le_total(table.last_key, table.first_key);
    lemma_prefix_len_is(ids, ends, k as nat);
    assert forall|i: int| 0 <= i < k + 1 implies starts(#[trigger] ids[i]) by {
        if i < k {
            let other = v.sstables[ids[i]];
            lemma_key_le_transitive(other.first_key, table.first_key, table.last_key);
        }
    }
    if k + 1 < ids.len() {
        lemma_key_le_total(table.last_key, v.sstables[ids[k + 1]].first_key);
    }
    lemma_prefix_len_is(ids, starts, (k + 1) as nat);
    assert(overlapping(v, level, table.first_key, table.last_key) =~= seq![ids[k]]);
}

/// Cutting a range of keys to that of the tables that overlap it leaves these tables.
proof fn lemma_cut_range_overlaps_same(v: StateView, level: int, first: KeyView, last: KeyView)
    requires
        v.is_sorted_run(v.level_ids(level)),
        key_le(first, last),
        overlapping(v, level, first, last).len() > 0,
    ensures
        ({
            let lower = overlapping(v, level, first, last);
            let from = key_max(first, v.sstables[lower.first()].first_key);
            let to = key_min(last, v.sstables[lower.last()].last_key);
            &&& overlap_start(v, level, from) == overlap_start(v, level, first)
            &&& overlap_end(v, level, to) == overlap_end(v, level, last)
        }),
{
    let ids = v.level_ids(level);
    let tables = v.sstables;
    lemma_overlap_in_order(v, level, first, last);
    let start = overlap_start(v, level, first);
    let end = overlap_end(v, level, last);
    let (ends, starts) = (ends_before(tables, first), starts_up_to(tables, last));
    lemma_prefix_len(ids, ends);
    lemma_prefix_len(ids, starts);
    let lower = overlapping(v, level, first, last);
    let (head, tail) = (tables[ids[start]], tables[ids[end - 1]]);
    assert(lower.first() == ids[start] && lower.last() == ids[end - 1]);
    let from = key_max(first, head.first_key);
    let to = key_min(last, tail.last_key);
    let cut_ends = ends_before(tables, from);
    let cut_starts = starts_up_to(tables, to);
    lemma_key_le_total(first, head.first_key);
    lemma_key_le_total(tail.last_key, last);
    assert forall|i: int| 0 <= i < start implies cut_ends(#[trigger] ids[i]) by {
        assert(ends(ids[i]));
        if from != first {
            lemma_key_lt_transitive(tables[ids[i]].last_key, first, from);
        }
    }
    assert(!ends(ids[start]));
    lemma_key_le_total(head.last_key, head.first_key);
    lemma_prefix_len_is(ids, cut_ends, start as nat);
    assert forall|i: int| 0 <= i < end implies cut_starts(#[trigger] ids[i]) by {
        assert(starts(ids[i]));
        let table = tables[ids[i]];
        if i < end - 1 {
            assert(key_le(table.last_key, tail.last_key));
        }
        lemma_key_le_transitive(table.first_key, table.last_key, tail.last_key);
    }
    if end < ids.len() {
        assert(!starts(ids[end]));
        if cut_starts(ids[end]) {
            lemma_key_le_transitive(tables[ids[end]].first_key, to, last);
        }
    }
    lemma_prefix_len_is(ids, cut_starts, end as nat);
}

/// Where the lower tables of a task are all those that overlap its upper tables, its output goes
/// where these tables are.
pub(crate) proof fn lemma_output_replaces_overlapping(v: StateView, task: LevelTaskView)
    requires
        task_fits(v, task),
        takes_all_overlapping(v, task),
        task.upper_level matches Some(upper) ==> upper != task.lower_level,
        v.is_sorted_run(v.level_ids(task.lower_level as int)),
        key_le(upper_range(v, task).0, upper_range(v, task).1),
    ensures
        ({
            let lower = task.lower_level as int;
            let gone = without_upper(v, task);
            let start = overlap_start(v, lower, upper_range(v, task).0);
            let end = overlap_end(v, lower, upper_range(v, task).1);
            &&& gone.level_ids(lower) == v.level_ids(lower)
            &&& overlap_start(gone, lower, replaced_range(v, task).0) == start
            &&& overlap_end(gone, lower, replaced_range(v, task).1) == end
            &&& 0 <= start <= end <= v.level_ids(lower).len()
        }),
{
    let lower = task.lower_level as int;
    let (first, last) = upper_range(v, task);
    lemma_overlap_in_order(v, lower, first, last);
    assert(without_upper(v, task).level_ids(lower) == v.level_ids(lower));
    if task.lower_level_sst_ids.len() > 0 {
        lemma_cut_range_overlaps_same(v, lower, first, last);
    }
}

/// The keys of the upper tables of a live task are a range.
pub(crate) proof fn lemma_upper_range_in_order(v: StateView, task: LevelTaskView)
    requires
        task_is_live(v, task),
    ensures
        key_le(upper_range(v, task).0, upper_range(v, task).1),
{
    let upper = task.upper_level_sst_ids;
    let table = v.sstables[upper[0]];
    assert(v.sstables.contains_key(upper[0]));
    if task.upper_level is None {
        let (first, last) = upper_range(v, task);
        lemma_key_range_covers(v.sstables, upper);
        lemma_key_le_transitive(first, table.first_key, table.last_key);
        lemma_key_le_transitive(first, table.last_key, last);
    }
}

/// A leveled task that is generated for a state names exactly the tables that overlap its keys, if
/// the key ranges of each level do not meet.
pub proof fn lemma_generated_names_what_overlaps(
    controller: LeveledCompactionController,
    v: StateView,
    task: LevelTaskView,
)
    requires
        controller.can_generate(v),
        controller.generates(v, Some(task)),
        forall|level: int|
            1 <= level <= v.levels.len() ==> is_disjoint_run(v, #[trigger] v.level_ids(level)),
    ensures
        names_what_overlaps(v, task),
        takes_all_overlapping(v, task),
{
    let o = controller.options();
    let lower = task.lower_level as int;
    lemma_base_level_bounds(v, o, v.levels.len() as int);
    let (first, last) = upper_range(v, task);
    if controller.l0_is_due(v) {
        lemma_key_range_covers(v.sstables, v.l0_sstables);
        let table = v.sstables[v.l0_sstables[0]];
        lemma_key_le_transitive(first, table.first_key, table.last_key);
        lemma_key_le_transitive(first, table.last_key, last);
    } else {
        let level = choose|level: int|
            #[trigger] is_chosen_level(v, o, level) && controller.is_level_task(v, level, task);
        let ids = v.level_ids(level);
        let id = task.upper_level_sst_ids[0];
        assert(is_oldest(ids, id));
        let k = choose|k: int| 0 <= k < ids.len() && ids[k] == id;
        assert(is_disjoint_run(v, v.level_ids(level)));
        lemma_table_overlaps_itself(v, level, k);
    }
    assert(is_disjoint_run(v, v.level_ids(lower)));
    let gone = without_upper(v, task);
    assert(gone.level_ids(lower) == v.level_ids(lower));
    if task.lower_level_sst_ids.len() > 0 {
        lemma_cut_range_overlaps_same(v, lower, first, last);
    }
}

/// A leveled compaction that is replayed lists the same tables in each level as the compaction
/// itself did, in the same order but for the lower level, as long as the task names exactly the
/// tables that overlap its keys and no level lists a table twice.
pub proof fn lemma_replay_lists_same_tables(
    v: StateView,
    task: LevelTaskView,
    output: Seq<usize>,
    level: int,
)
    requires
        task_fits(v, task),
        task_is_live(v, task),
        names_what_overlaps(v, task),
        task.upper_level matches Some(upper) ==> v.level_ids(upper as int).no_duplicates(),
        v.level_ids(task.lower_level as int).no_duplicates(),
        1 <= level <= v.levels.len(),
    ensures
        replayed(v, task, output).l0_sstables == compacted(v, task, output).l0_sstables,
        level != task.lower_level ==> replayed(v, task, output).level_ids(level) == compacted(
            v,
            task,
            output,
        ).level_ids(level),
        replayed(v, task, output).level_ids(level).to_multiset() == compacted(
            v,
            task,
            output,
        ).level_ids(level).to_multiset(),
{
    let lower = task.lower_level as int;
    let gone = without_upper(v, task);
    let ids = v.level_ids(lower);
    assert(gone.level_ids(lower) == ids);
    let (from, to) = replaced_range(v, task);
    let start = overlap_start(gone, lower, from);
    let end = overlap_end(gone, lower, to);
    lemma_prefix_len(ids, ends_before(v.sstables, from));
    lemma_prefix_len(ids, starts_up_to(v.sstables, to));
    lemma_without_middle(ids, start, end);
    if task.upper_level is Some {
        let upper = task.upper_level->Some_0 as int;
        let (first, last) = upper_range(v, task);
        let upper_ids = v.level_ids(upper);
        assert(v.sstables.contains_key(task.upper_level_sst_ids[0]));
        lemma_overlap_in_order(v, upper, first, last);
        let (a, b) = (overlap_start(v, upper, first), overlap_end(v, upper, last));
        lemma_without_middle(upper_ids, a, b);
        assert(spliced(upper_ids, a, b, Seq::empty()) =~= upper_ids.take(a) + upper_ids.skip(b));
    }
    let live = spliced(ids, start, end, output);
    let again = without(ids, task.lower_level_sst_ids) + output;
    let (head, tail) = (ids.take(start), ids.skip(end));
    vstd::seq_lib::lemma_multiset_commutative(head + output, tail);
    vstd::seq_lib::lemma_multiset_commutative(head, output);
    vstd::seq_lib::lemma_multiset_commutative(head + tail, output);
    vstd::seq_lib::lemma_multiset_commutative(head, tail);
    assert(live.to_multiset() =~= again.to_multiset());
}

} // verus!
