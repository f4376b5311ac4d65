//! What a compaction writes: tables that stand for those that it reads.

use vstd::prelude::*;

use super::contents::{
    deletes, lemma_full_compaction_keeps_values, lemma_newest_of_concatenation,
    lemma_simple_compaction_keeps_values, lemma_tiered_compaction_keeps_values, newest, stands_for,
    Contents,
};
use super::invariants::{
    are_fresh, ids_after, lemma_rest_lies_outside, levels_stand, tiers_start,
};
use super::leveled_contents::{
    behind, lemma_leveled_compaction_keeps_values, lemma_newest_is_held, lemma_nothing_in_between,
    levels_between, shares_timestamp, takes_from_above,
};
use super::merging::{
    entry_at, lemma_joined_represents, lemma_kept_entries, lemma_merge_all_represents,
    lemma_merge_represents, merge_all, represents,
};
use super::replacement::{are_sound, is_sound, lie_within, ranges_are_disjoint};
use super::{ids_of, StateView};
use crate::compact::laws::{
    is_disjoint_run, lemma_overlap_in_order, lemma_upper_range_in_order, names_what_overlaps,
    takes_all_overlapping,
};
use crate::compact::leveled::{
    compacted, lemma_key_range_covers, overlap_end, overlap_start, task_fits, task_is_live,
    task_span, upper_range, LevelTaskView,
};
use crate::compact::output::{joined, kept, lemma_split_keeps_entries, split_run, split_tables};
use crate::compact::simple_leveled::simple_compacted;
use crate::compact::tiered::{
    tier_ids, tiered_task_fits, tiers_after, unused_after, TieredTaskView,
};
use crate::compact::{singleton_runs, task_input, CompactionTask, CompactionTaskView, InputView};
use crate::iterators::two_merge_iterator::merge;
use crate::iterators::{is_sorted, EntryView};
use crate::key::{
    bytes_le, key_le, key_lt, lemma_key_le_transitive, lemma_key_lt_irreflexive,
    lemma_key_lt_total, KeyView,
};
use crate::table::{BoundView, TableView};

verus! {

/// The entries of each table.
pub type Entries = spec_fn(usize) -> Seq<EntryView>;

/// All keys.
pub open spec fn all_keys() -> (BoundView, BoundView) {
    (BoundView::Unbounded, BoundView::Unbounded)
}

/// The entries of some tables, one table after the other.
pub open spec fn run_entries(entries_of: Entries, run: Seq<usize>) -> Seq<EntryView> {
    joined(run.map_values(entries_of))
}

/// Each table of the run lists what it holds in sorted entries of one timestamp within the bounds,
/// and so does the run as a whole.
pub open spec fn is_listed_run(
    contents: Contents,
    ts: u64,
    bounds: (BoundView, BoundView),
    entries_of: Entries,
    run: Seq<usize>,
) -> bool {
    &&& forall|i: int|
        0 <= i < run.len() ==> represents(
            contents,
            seq![#[trigger] run[i]],
            ts,
            bounds,
            entries_of(run[i]),
        )
    &&& is_sorted(run_entries(entries_of, run))
}

/// What a run lists stands for its tables.
pub(crate) proof fn lemma_run_represents(
    contents: Contents,
    ts: u64,
    bounds: (BoundView, BoundView),
    entries_of: Entries,
    run: Seq<usize>,
)
    requires
        is_listed_run(contents, ts, bounds, entries_of, run),
    ensures
        represents(contents, run, ts, bounds, run_entries(entries_of, run)),
{
    let parts = run.map_values(entries_of);
    assert forall|i: int| 0 <= i < parts.len() implies represents(
        contents,
        seq![run[i]],
        ts,
        bounds,
        #[trigger] parts[i],
    ) by {
        assert(parts[i] == entries_of(run[i]));
    }
    lemma_joined_represents(contents, run, ts, bounds, parts);
}

/// What some runs list, merged with the earlier ones first, stands for their tables.
pub(crate) proof fn lemma_runs_represent(
    contents: Contents,
    ts: u64,
    bounds: (BoundView, BoundView),
    entries_of: Entries,
    runs: Seq<Seq<usize>>,
)
    requires
        forall|i: int|
            0 <= i < runs.len() ==> is_listed_run(
                contents,
                ts,
                bounds,
                entries_of,
                #[trigger] runs[i],
            ),
    ensures
        represents(
            contents,
            joined(runs),
            ts,
            bounds,
            merge_all(runs.map_values(|run: Seq<usize>| run_entries(entries_of, run))),
        ),
{
    let entries = runs.map_values(|run: Seq<usize>| run_entries(entries_of, run));
    assert forall|i: int| 0 <= i < entries.len() implies represents(
        contents,
        runs[i],
        ts,
        bounds,
        #[trigger] entries[i],
    ) by {
        assert(is_listed_run(contents, ts, bounds, entries_of, runs[i]));
        lemma_run_represents(contents, ts, bounds, entries_of, runs[i]);
    }
    lemma_merge_all_represents(contents, runs, ts, bounds, entries);
}

impl InputView {
    /// The tables that are read, the latest first.
    pub open spec fn ids(self) -> Seq<usize> {
        match self {
            InputView::Merged(runs) => joined(runs),
            InputView::Onto { upper, lower } => joined(upper) + lower,
        }
    }

    /// The entries of the tables that are read, merged.
    pub open spec fn merged(self, entries_of: Entries) -> Seq<EntryView> {
        match self {
            InputView::Merged(runs) => merge_all(
                runs.map_values(|run: Seq<usize>| run_entries(entries_of, run)),
            ),
            InputView::Onto { upper, lower } => merge(
                merge_all(upper.map_values(|run: Seq<usize>| run_entries(entries_of, run))),
                run_entries(entries_of, lower),
            ),
        }
    }

    /// Each run lists what its tables hold.
    pub open spec fn is_listed(self, contents: Contents, ts: u64, entries_of: Entries) -> bool {
        match self {
            InputView::Merged(runs) => forall|i: int|
                0 <= i < runs.len() ==> is_listed_run(
                    contents,
                    ts,
                    all_keys(),
                    entries_of,
                    #[trigger] runs[i],
                ),
            InputView::Onto { upper, lower } => {
                &&& forall|i: int|
                    0 <= i < upper.len() ==> is_listed_run(
                        contents,
                        ts,
                        all_keys(),
                        entries_of,
                        #[trigger] upper[i],
                    )
                &&& is_listed_run(contents, ts, all_keys(), entries_of, lower)
            },
        }
    }
}

/// The merged entries that a compaction reads are what the latest of its tables hold.
pub proof fn lemma_merged_input_is_newest(
    contents: Contents,
    input: InputView,
    ts: u64,
    entries_of: Entries,
)
    requires
        input.is_listed(contents, ts, entries_of),
    ensures
        represents(contents, input.ids(), ts, all_keys(), input.merged(entries_of)),
{
    match input {
        InputView::Merged(runs) => {
            lemma_runs_represent(contents, ts, all_keys(), entries_of, runs);
        },
        InputView::Onto { upper, lower } => {
            lemma_runs_represent(contents, ts, all_keys(), entries_of, upper);
            lemma_run_represents(contents, ts, all_keys(), entries_of, lower);
            lemma_merge_represents(
                contents,
                joined(upper),
                lower,
                ts,
                all_keys(),
                merge_all(upper.map_values(|run: Seq<usize>| run_entries(entries_of, run))),
                run_entries(entries_of, lower),
            );
        },
    }
}

/// Each table holds what its part lists, and its range goes from the first to the last key of the
/// part.
pub open spec fn tables_hold(
    contents: Contents,
    ts: u64,
    tables: Seq<TableView>,
    parts: Seq<Seq<EntryView>>,
) -> bool {
    &&& tables.len() == parts.len()
    &&& forall|i: int|
        0 <= i < parts.len() ==> {
            &&& represents(contents, seq![tables[i].id], ts, all_keys(), #[trigger] parts[i])
            &&& tables[i].first_key == parts[i].first().0
            &&& tables[i].last_key == parts[i].last().0
        }
}

/// The parts into which a compaction divides the entries that it keeps.
pub open spec fn output_parts(
    input: InputView,
    entries_of: Entries,
    is_bottom_level: bool,
    target_sst_size: usize,
    sizes: Seq<usize>,
) -> Seq<Seq<EntryView>> {
    split_tables(split_run(is_bottom_level, target_sst_size, input.merged(entries_of), sizes))
}

/// Where an entry of a part is among all of them, and that the entries of later parts come later.
proof fn lemma_parts_are_apart(parts: Seq<Seq<EntryView>>)
    requires
        is_sorted(joined(parts)),
    ensures
        forall|i: int, a: int|
            0 <= i < parts.len() && 0 <= a < parts[i].len() ==> joined(parts).contains(
                #[trigger] parts[i][a],
            ),
        forall|i: int| 0 <= i < parts.len() ==> is_sorted(#[trigger] parts[i]),
        forall|i: int, a: int, j: int, b: int|
            0 <= i < j < parts.len() && 0 <= a < parts[i].len() && 0 <= b < parts[j].len()
                ==> key_lt((#[trigger] parts[i][a]).0, (#[trigger] parts[j][b]).0),
    decreases parts.len(),
{
    if parts.len() > 0 {
        let front = parts.drop_last();
        let last = parts.last();
        let (head, all) = (joined(front), joined(parts));
        let n = parts.len() - 1;
        assert(all == head + last);
        assert(is_sorted(head)) by {
            assert forall|i: int, j: int| 0 <= i < j < head.len() implies key_lt(
                (#[trigger] head[i]).0,
                (#[trigger] head[j]).0,
            ) by {
                assert(head[i] == all[i] && head[j] == all[j]);
            }
        }
        lemma_parts_are_apart(front);
        assert forall|i: int, a: int|
            0 <= i < parts.len() && 0 <= a < parts[i].len() implies all.contains(
            #[trigger] parts[i][a],
        ) by {
            if i < n {
                assert(parts[i][a] == front[i][a]);
                let k = choose|k: int| 0 <= k < head.len() && head[k] == front[i][a];
                assert(all[k] == parts[i][a]);
            } else {
                assert(all[head.len() + a] == parts[i][a]);
            }
        }
        assert forall|i: int| 0 <= i < parts.len() implies is_sorted(#[trigger] parts[i]) by {
            if i < n {
                assert(parts[i] == front[i]);
            } else {
                assert forall|a: int, b: int| 0 <= a < b < last.len() implies key_lt(
                    (#[trigger] last[a]).0,
                    (#[trigger] last[b]).0,
                ) by {
                    assert(last[a] == all[head.len() + a] && last[b] == all[head.len() + b]);
                }
            }
        }
        assert forall|i: int, a: int, j: int, b: int|
            0 <= i < j < parts.len() && 0 <= a < parts[i].len() && 0 <= b
                < parts[j].len() implies key_lt(
            (#[trigger] parts[i][a]).0,
            (#[trigger] parts[j][b]).0,
        ) by {
            assert(parts[i][a] == front[i][a]);
            if j < n {
                assert(parts[j][b] == front[j][b]);
            } else {
                let k = choose|k: int| 0 <= k < head.len() && head[k] == front[i][a];
                assert(all[k] == parts[i][a] && all[head.len() + b] == parts[j][b]);
            }
        }
    }
}

/// A table that holds the entries of a part holds only keys of its range.
proof fn lemma_part_is_sound(
    contents: Contents,
    ts: u64,
    table: TableView,
    part: Seq<EntryView>,
)
    requires
        represents(contents, seq![table.id], ts, all_keys(), part),
        part.len() > 0,
        table.first_key == part.first().0,
        table.last_key == part.last().0,
    ensures
        is_sound(contents, table),
{
    assert(part.contains(part[0]) && part.contains(part[part.len() - 1]));
    if part.len() > 1 {
        assert(key_lt(part[0].0, part[part.len() - 1].0));
    }
    assert forall|key: Seq<u8>| #[trigger] contents(table.id).contains_key(key) implies bytes_le(
        table.first_key.key,
        key,
    ) && bytes_le(key, table.last_key.key) by {
        let e = entry_at(key, ts, contents(table.id)[key]);
        assert(newest(contents, seq![table.id], key) == Some(contents(table.id)[key]));
        assert(part.contains(e));
        let k = choose|k: int| 0 <= k < part.len() && part[k] == e;
        if k > 0 {
            assert(key_lt(part[0].0, part[k].0));
        }
        if k < part.len() - 1 {
            assert(key_lt(part[k].0, part[part.len() - 1].0));
        }
    }
}

/// A compaction merges the entries of its tables, the latest first, leaves out deletions at the
/// bottom level and divides the rest among new tables, whatever sizes are reported. These tables
/// stand for those that it read, as long as at the bottom level nothing older holds a key that they
/// delete. They hold only keys of their ranges, and the ranges lie apart.
pub proof fn lemma_output_stands_for_input(
    contents: Contents,
    input: InputView,
    ts: u64,
    entries_of: Entries,
    is_bottom_level: bool,
    target_sst_size: usize,
    sizes: Seq<usize>,
    tables: Seq<TableView>,
    older: Seq<usize>,
    key: Seq<u8>,
)
    requires
        input.is_listed(contents, ts, entries_of),
        tables_hold(
            contents,
            ts,
            tables,
            output_parts(input, entries_of, is_bottom_level, target_sst_size, sizes),
        ),
        is_bottom_level && deletes(contents, input.ids(), key) ==> newest(
            contents,
            older,
            key,
        ) is None,
    ensures
        stands_for(contents, input.ids(), ids_of(tables), older, key),
        are_sound(contents, tables),
        ranges_are_disjoint(tables),
{
    let merged = input.merged(entries_of);
    let parts = output_parts(input, entries_of, is_bottom_level, target_sst_size, sizes);
    let all = joined(parts);
    let ids = ids_of(tables);
    lemma_merged_input_is_newest(contents, input, ts, entries_of);
    lemma_split_keeps_entries(is_bottom_level, target_sst_size, merged, sizes);
    lemma_kept_entries(is_bottom_level, merged);
    assert(all == kept(is_bottom_level, merged));
    lemma_parts_are_apart(parts);
    assert forall|i: int| 0 <= i < parts.len() implies represents(
        contents,
        seq![ids[i]],
        ts,
        all_keys(),
        #[trigger] parts[i],
    ) by {
        assert(ids[i] == tables[i].id);
    }
    lemma_joined_represents(contents, ids, ts, all_keys(), parts);
    assert forall|value: Seq<u8>|
        (newest(contents, ids, key) == Some(value)) == (#[trigger] newest_is(
            contents,
            input.ids(),
            key,
            value,
        ) && !(is_bottom_level && value.len() == 0)) by {
        let e = entry_at(key, ts, value);
        assert(all.contains(e) == (newest(contents, ids, key) == Some(value)));
        assert(merged.contains(e) == (newest(contents, input.ids(), key) == Some(value)));
    }
    if newest(contents, ids, key) is Some {
        assert(newest_is(contents, input.ids(), key, newest(contents, ids, key)->Some_0));
    } else if newest(contents, input.ids(), key) is Some {
        assert(newest_is(contents, input.ids(), key, newest(contents, input.ids(), key)->Some_0));
    }
    assert forall|i: int| 0 <= i < tables.len() implies is_sound(contents, #[trigger] tables[i]) by {
        assert(parts[i].len() > 0);
        lemma_part_is_sound(contents, ts, tables[i], parts[i]);
    }
    assert forall|i: int, j: int| 0 <= i < j < tables.len() implies key_lt(
        (#[trigger] tables[i]).last_key,
        (#[trigger] tables[j]).first_key,
    ) by {
        assert(parts[i].len() > 0 && parts[j].len() > 0);
        assert(key_lt(parts[i][parts[i].len() - 1].0, parts[j][0].0));
    }
    assert forall|i: int, j: int| 0 <= i < j < tables.len() implies key_le(
        (#[trigger] tables[i]).first_key,
        (#[trigger] tables[j]).first_key,
    ) && key_le(tables[i].last_key, tables[j].last_key) by {
        assert(is_sound(contents, tables[i]) && is_sound(contents, tables[j]));
        lemma_key_le_transitive(tables[i].first_key, tables[i].last_key, tables[j].first_key);
        lemma_key_le_transitive(tables[i].last_key, tables[j].first_key, tables[j].last_key);
    }
}

/// The latest of the tables that holds the key holds this value.
spec fn newest_is(contents: Contents, ids: Seq<usize>, key: Seq<u8>, value: Seq<u8>) -> bool {
    newest(contents, ids, key) == Some(value)
}

pub(crate) proof fn lemma_joined_singletons(ids: Seq<usize>)
    ensures
        joined(singleton_runs(ids)) == ids,
    decreases ids.len(),
{
    let runs = singleton_runs(ids);
    if ids.len() > 0 {
        assert(runs.drop_last() =~= singleton_runs(ids.drop_last()));
        lemma_joined_singletons(ids.drop_last());
        assert(joined(runs) =~= ids);
    }
}

proof fn lemma_joined_tiers(tiers: Seq<(usize, Seq<usize>)>)
    ensures
        joined(tiers.map_values(|tier: (usize, Seq<usize>)| tier.1)) == tier_ids(tiers),
    decreases tiers.len(),
{
    let runs = tiers.map_values(|tier: (usize, Seq<usize>)| tier.1);
    if tiers.len() > 0 {
        assert(runs.drop_last() =~= tiers.drop_last().map_values(
            |tier: (usize, Seq<usize>)| tier.1,
        ));
        lemma_joined_tiers(tiers.drop_last());
    }
}

/// A task reads the tables that it names, the latest first: those that the compaction replaces.
pub proof fn lemma_task_reads_its_tables(task: CompactionTaskView)
    ensures
        task_input(task).ids() == (match task {
            CompactionTaskView::Tiered(task) => tier_ids(task.tiers),
            CompactionTaskView::Simple(task) => task.upper_level_sst_ids + task.lower_level_sst_ids,
            CompactionTaskView::Leveled(task) => task.upper_level_sst_ids
                + task.lower_level_sst_ids,
            CompactionTaskView::ForceFullCompaction { l0_sstables, l1_sstables } => l0_sstables
                + l1_sstables,
        }),
{
    match task {
        CompactionTaskView::Tiered(task) => {
            lemma_joined_tiers(task.tiers);
        },
        CompactionTaskView::Simple(task) | CompactionTaskView::Leveled(task) => {
            let upper = task.upper_level_sst_ids;
            lemma_joined_singletons(upper);
            assert(seq![upper].drop_last() =~= Seq::empty());
            assert(joined(seq![upper].drop_last()) =~= Seq::empty());
            assert(joined(seq![upper]) =~= upper);
        },
        CompactionTaskView::ForceFullCompaction { l0_sstables, l1_sstables } => {
            lemma_joined_singletons(l0_sstables);
        },
    }
}

/// The task reads tables that list what they hold, and its output are new tables that hold what it
/// keeps of the merged entries, divided by the sizes that are reported.
pub open spec fn is_output(
    contents: Contents,
    ts: u64,
    task: CompactionTaskView,
    entries_of: Entries,
    target_sst_size: usize,
    sizes: Seq<usize>,
    tables: Seq<TableView>,
) -> bool {
    &&& task_input(task).is_listed(contents, ts, entries_of)
    &&& tables_hold(
        contents,
        ts,
        tables,
        output_parts(
            task_input(task),
            entries_of,
            CompactionTask::reaches_bottom(task),
            target_sst_size,
            sizes,
        ),
    )
}

/// A full compaction changes no value, unless it drops a deletion of a key that a level below the
/// first one holds.
pub proof fn lemma_full_compaction_changes_no_value(
    v: StateView,
    contents: Contents,
    ts: u64,
    l0: Seq<usize>,
    entries_of: Entries,
    target_sst_size: usize,
    sizes: Seq<usize>,
    tables: Seq<TableView>,
    next: int,
    key: Seq<u8>,
)
    requires
        v.is_readable(contents),
        v.is_consistent(next),
        v.levels.len() > 0,
        l0.len() <= v.l0_sstables.len(),
        l0 == v.l0_sstables.skip(v.l0_sstables.len() - l0.len()),
        are_fresh(v, ids_of(tables), next),
        is_output(
            contents,
            ts,
            (CompactionTaskView::ForceFullCompaction {
                l0_sstables: l0,
                l1_sstables: v.level_ids(1),
            }),
            entries_of,
            target_sst_size,
            sizes,
            tables,
        ),
        deletes(contents, l0 + v.level_ids(1), key) ==> newest(
            contents,
            tier_ids(v.levels.skip(1)),
            key,
        ) is None,
    ensures
        v.fully_compacted(l0, v.level_ids(1), tables).is_readable(contents),
        v.fully_compacted(l0, v.level_ids(1), tables).value_of(contents, key) == v.value_of(
            contents,
            key,
        ),
{
    let task = CompactionTaskView::ForceFullCompaction {
        l0_sstables: l0,
        l1_sstables: v.level_ids(1),
    };
    lemma_task_reads_its_tables(task);
    lemma_output_stands_for_input(
        contents,
        task_input(task),
        ts,
        entries_of,
        true,
        target_sst_size,
        sizes,
        tables,
        tier_ids(v.levels.skip(1)),
        key,
    );
    lemma_full_compaction_keeps_values(v, contents, l0, tables, next, key);
}

/// A tiered compaction changes no value.
pub proof fn lemma_tiered_compaction_changes_no_value(
    v: StateView,
    contents: Contents,
    ts: u64,
    task: TieredTaskView,
    entries_of: Entries,
    target_sst_size: usize,
    sizes: Seq<usize>,
    tables: Seq<TableView>,
    next: int,
    key: Seq<u8>,
)
    requires
        v.is_readable(contents),
        v.is_consistent(next),
        tables.len() > 0,
        tiered_task_fits(v.levels, task),
        v.levels.subrange(tiers_start(v, task), tiers_start(v, task) + task.tiers.len())
            == task.tiers,
        are_fresh(v, ids_of(tables), next),
        is_output(
            contents,
            ts,
            CompactionTaskView::Tiered(task),
            entries_of,
            target_sst_size,
            sizes,
            tables,
        ),
    ensures
        ({
            let after = (StateView {
                levels: tiers_after(v.levels, task, ids_of(tables)),
                ..v
            }).replaced(unused_after(v.levels, task), tables);
            &&& after.is_readable(contents)
            &&& after.value_of(contents, key) == v.value_of(contents, key)
        }),
{
    let pos = tiers_start(v, task);
    let older = tier_ids(v.levels.skip(pos + task.tiers.len()));
    if task.bottom_tier_included {
        assert(v.levels.skip(pos) =~= v.levels.subrange(pos, pos + task.tiers.len()));
        assert(v.levels.skip(pos + task.tiers.len()) =~= Seq::empty());
        assert(older =~= Seq::empty());
    }
    lemma_task_reads_its_tables(CompactionTaskView::Tiered(task));
    lemma_output_stands_for_input(
        contents,
        task_input(CompactionTaskView::Tiered(task)),
        ts,
        entries_of,
        task.bottom_tier_included,
        target_sst_size,
        sizes,
        tables,
        older,
        key,
    );
    lemma_tiered_compaction_keeps_values(v, contents, task, tables, next, key);
}

/// A simple leveled compaction changes no value, as long as a task that is said to reach the bottom
/// does.
pub proof fn lemma_simple_compaction_changes_no_value(
    v: StateView,
    contents: Contents,
    ts: u64,
    task: LevelTaskView,
    entries_of: Entries,
    target_sst_size: usize,
    sizes: Seq<usize>,
    tables: Seq<TableView>,
    next: int,
    key: Seq<u8>,
)
    requires
        v.is_readable(contents),
        v.is_consistent(next),
        levels_stand(v, task),
        task.is_lower_level_bottom_level ==> task.lower_level == v.levels.len(),
        are_fresh(v, ids_of(tables), next),
        is_output(
            contents,
            ts,
            CompactionTaskView::Simple(task),
            entries_of,
            target_sst_size,
            sizes,
            tables,
        ),
    ensures
        ({
            let after = simple_compacted(v, task, ids_of(tables)).replaced(
                task.upper_level_sst_ids + task.lower_level_sst_ids,
                tables,
            );
            &&& after.is_readable(contents)
            &&& after.value_of(contents, key) == v.value_of(contents, key)
        }),
{
    if task.is_lower_level_bottom_level {
        assert(v.levels.skip(task.lower_level as int) =~= Seq::empty());
        assert(ids_after(v, task) =~= Seq::empty());
    }
    lemma_task_reads_its_tables(CompactionTaskView::Simple(task));
    lemma_output_stands_for_input(
        contents,
        task_input(CompactionTaskView::Simple(task)),
        ts,
        entries_of,
        task.is_lower_level_bottom_level,
        target_sst_size,
        sizes,
        tables,
        ids_after(v, task),
        key,
    );
    lemma_simple_compaction_keeps_values(v, contents, task, tables, next, key);
}

/// The keys of a leveled task lie around the range of each of its tables.
proof fn lemma_span_covers(v: StateView, task: LevelTaskView, i: int)
    requires
        task_fits(v, task),
        task_is_live(v, task),
        takes_all_overlapping(v, task),
        0 <= i < (task.upper_level_sst_ids + task.lower_level_sst_ids).len(),
    ensures
        ({
            let id = (task.upper_level_sst_ids + task.lower_level_sst_ids)[i];
            &&& v.sstables.contains_key(id)
            &&& key_le(task_span(v, task).0, v.sstables[id].first_key)
            &&& key_le(v.sstables[id].last_key, task_span(v, task).1)
        }),
{
    let (upper, lower) = (task.upper_level_sst_ids, task.lower_level_sst_ids);
    let (first, last) = upper_range(v, task);
    let span = task_span(v, task);
    let table = v.sstables[(upper + lower)[i]];
    let w = task.lower_level as int;
    let ids = v.level_ids(w);
    lemma_upper_range_in_order(v, task);
    lemma_overlap_in_order(v, w, first, last);
    let (start, end) = (overlap_start(v, w, first), overlap_end(v, w, last));
    if lower.len() > 0 {
        assert(lower.first() == ids[start] && lower.last() == ids[end - 1]);
        lemma_key_lt_total(v.sstables[ids[start]].first_key, first);
        lemma_key_lt_total(last, v.sstables[ids[end - 1]].last_key);
    }
    if i < upper.len() {
        assert((upper + lower)[i] == upper[i]);
        assert(v.sstables.contains_key(upper[i]));
        if task.upper_level is None {
            lemma_key_range_covers(v.sstables, upper);
        }
        lemma_key_le_transitive(span.0, first, table.first_key);
        lemma_key_le_transitive(table.last_key, last, span.1);
    } else {
        let k = start + i - upper.len();
        assert((upper + lower)[i] == ids[k]);
        assert(v.sstables.contains_key(ids[k]));
        if start < k {
            assert(key_le(v.sstables[ids[start]].first_key, v.sstables[ids[k]].first_key));
        }
        if k < end - 1 {
            assert(key_le(v.sstables[ids[k]].last_key, v.sstables[ids[end - 1]].last_key));
        }
        lemma_key_le_transitive(span.0, v.sstables[ids[start]].first_key, table.first_key);
        lemma_key_le_transitive(table.last_key, v.sstables[ids[end - 1]].last_key, span.1);
    }
}

/// A key that a table of a leveled task holds lies between the keys of the task.
proof fn lemma_held_key_in_span(
    v: StateView,
    contents: Contents,
    ts: u64,
    task: LevelTaskView,
    key: Seq<u8>,
)
    requires
        v.is_readable(contents),
        task_fits(v, task),
        task_is_live(v, task),
        takes_all_overlapping(v, task),
        shares_timestamp(v, ts),
        newest(
            contents,
            task.upper_level_sst_ids + task.lower_level_sst_ids,
            key,
        ) is Some,
    ensures
        key_le(task_span(v, task).0, KeyView { key, ts }),
        key_le(KeyView { key, ts }, task_span(v, task).1),
{
    let gone = task.upper_level_sst_ids + task.lower_level_sst_ids;
    lemma_newest_is_held(contents, gone, key);
    let i = choose|i: int| 0 <= i < gone.len() && contents(#[trigger] gone[i]).contains_key(key);
    lemma_span_covers(v, task, i);
    let table = v.sstables[gone[i]];
    let at = KeyView { key, ts };
    assert(key_le(table.first_key, at) && key_le(at, table.last_key));
    lemma_key_le_transitive(task_span(v, task).0, table.first_key, at);
    lemma_key_le_transitive(at, table.last_key, task_span(v, task).1);
}

/// The output of a leveled task lies between the keys of the task.
proof fn lemma_output_lies_within(
    v: StateView,
    contents: Contents,
    ts: u64,
    task: LevelTaskView,
    entries_of: Entries,
    target_sst_size: usize,
    sizes: Seq<usize>,
    tables: Seq<TableView>,
)
    requires
        v.is_readable(contents),
        task_fits(v, task),
        task_is_live(v, task),
        takes_all_overlapping(v, task),
        shares_timestamp(v, ts),
        is_output(
            contents,
            ts,
            CompactionTaskView::Leveled(task),
            entries_of,
            target_sst_size,
            sizes,
            tables,
        ),
    ensures
        lie_within(tables, task_span(v, task)),
{
    let is_bottom_level = task.is_lower_level_bottom_level;
    let input = task_input(CompactionTaskView::Leveled(task));
    let merged = input.merged(entries_of);
    let parts = output_parts(input, entries_of, is_bottom_level, target_sst_size, sizes);
    let span = task_span(v, task);
    lemma_task_reads_its_tables(CompactionTaskView::Leveled(task));
    lemma_merged_input_is_newest(contents, input, ts, entries_of);
    lemma_split_keeps_entries(is_bottom_level, target_sst_size, merged, sizes);
    lemma_kept_entries(is_bottom_level, merged);
    lemma_parts_are_apart(parts);
    assert forall|i: int| 0 <= i < tables.len() implies key_le(
        span.0,
        (#[trigger] tables[i]).first_key,
    ) && key_le(tables[i].last_key, span.1) by {
        let part = parts[i];
        assert(part.len() > 0);
        let (a, b) = (part[0], part[part.len() - 1]);
        assert(joined(parts).contains(parts[i][0]));
        assert(joined(parts).contains(parts[i][part.len() - 1]));
        assert(merged.contains(a) && merged.contains(b));
        assert(a == entry_at(a.0.key, ts, a.1) && b == entry_at(b.0.key, ts, b.1));
        lemma_held_key_in_span(v, contents, ts, task, a.0.key);
        lemma_held_key_in_span(v, contents, ts, task, b.0.key);
    }
}

/// No table behind those that a leveled task takes holds a key that one of them holds, unless one
/// of a level below.
proof fn lemma_nothing_behind(
    v: StateView,
    contents: Contents,
    ts: u64,
    task: LevelTaskView,
    key: Seq<u8>,
)
    requires
        v.is_readable(contents),
        task_fits(v, task),
        task_is_live(v, task),
        takes_all_overlapping(v, task),
        shares_timestamp(v, ts),
        is_disjoint_run(v, v.level_ids(task.lower_level as int)),
        newest(
            contents,
            task.upper_level_sst_ids + task.lower_level_sst_ids,
            key,
        ) is Some,
        newest(contents, tier_ids(v.levels.skip(task.lower_level as int)), key) is None,
    ensures
        newest(contents, behind(v, task), key) is None,
{
    let w = task.lower_level as int;
    let ids = v.level_ids(w);
    let (first, last) = upper_range(v, task);
    lemma_upper_range_in_order(v, task);
    lemma_overlap_in_order(v, w, first, last);
    lemma_rest_lies_outside(v, task);
    lemma_held_key_in_span(v, contents, ts, task, key);
    let end = overlap_end(v, w, last);
    let rest = ids.skip(end);
    let at = KeyView { key, ts };
    lemma_newest_of_concatenation(contents, rest, tier_ids(v.levels.skip(w)), key);
    lemma_newest_is_held(contents, rest, key);
    if newest(contents, rest, key) is Some {
        let i = choose|i: int|
            0 <= i < rest.len() && contents(#[trigger] rest[i]).contains_key(key);
        assert(rest[i] == ids[end + i]);
        assert(v.sstables.contains_key(ids[end + i]));
        let table = v.sstables[ids[end + i]];
        lemma_key_le_transitive(at, task_span(v, task).1, table.first_key);
        assert(key_le(table.first_key, at));
        lemma_key_lt_total(at, table.first_key);
        lemma_key_lt_irreflexive(at);
    }
}

/// A leveled compaction changes no value, as long as the levels between its two levels do not hold
/// a key of its upper tables, and a task that is said to reach the bottom drops no deletion of a
/// key that a level below holds.
pub proof fn lemma_leveled_compaction_changes_no_value(
    v: StateView,
    contents: Contents,
    ts: u64,
    task: LevelTaskView,
    entries_of: Entries,
    target_sst_size: usize,
    sizes: Seq<usize>,
    tables: Seq<TableView>,
    next: int,
    key: Seq<u8>,
)
    requires
        v.is_readable(contents),
        v.is_consistent(next),
        task_fits(v, task),
        task_is_live(v, task),
        names_what_overlaps(v, task),
        takes_all_overlapping(v, task),
        takes_from_above(v, task),
        shares_timestamp(v, ts),
        forall|level: int|
            1 <= level <= v.levels.len() ==> is_disjoint_run(v, #[trigger] v.level_ids(level)),
        are_fresh(v, ids_of(tables), next),
        is_output(
            contents,
            ts,
            CompactionTaskView::Leveled(task),
            entries_of,
            target_sst_size,
            sizes,
            tables,
        ),
        newest(contents, task.upper_level_sst_ids, key) is Some ==> newest(
            contents,
            tier_ids(levels_between(v, task)),
            key,
        ) is None,
        task.is_lower_level_bottom_level && deletes(
            contents,
            task.upper_level_sst_ids + task.lower_level_sst_ids,
            key,
        ) ==> newest(contents, tier_ids(v.levels.skip(task.lower_level as int)), key) is None,
    ensures
        ({
            let after = compacted(v, task, ids_of(tables)).replaced(
                task.upper_level_sst_ids + task.lower_level_sst_ids,
                tables,
            );
            &&& after.is_readable(contents)
            &&& after.value_of(contents, key) == v.value_of(contents, key)
        }),
{
    let input = task_input(CompactionTaskView::Leveled(task));
    lemma_task_reads_its_tables(CompactionTaskView::Leveled(task));
    assert(is_disjoint_run(v, v.level_ids(task.lower_level as int)));
    if task.is_lower_level_bottom_level && deletes(contents, input.ids(), key) {
        lemma_nothing_behind(v, contents, ts, task, key);
    }
    if newest(contents, task.upper_level_sst_ids, key) is Some {
        lemma_nothing_in_between(v, contents, task, key, ts);
    }
    lemma_output_lies_within(v, contents, ts, task, entries_of, target_sst_size, sizes, tables);
    lemma_output_stands_for_input(
        contents,
        input,
        ts,
        entries_of,
        task.is_lower_level_bottom_level,
        target_sst_size,
        sizes,
        tables,
        behind(v, task),
        key,
    );
    lemma_leveled_compaction_keeps_values(v, contents, task, tables, next, key);
}

} // verus!
