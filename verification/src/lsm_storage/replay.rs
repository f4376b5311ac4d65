//! What recovery brings back: the lists of tables that the engine had when it wrote the records.

use vstd::prelude::*;

use super::recovery::{
    first_keys_ascend, lemma_level_ids_are_table_ids, lemma_next_id, lemma_sorted_ascends,
    lemma_sorted_keeps_tables, next_id, sorted_by_first_key,
};
use super::replacement::lemma_new_table;
use super::{ids_of, with_tables, StateView};
use crate::compact::laws::{is_disjoint_run, lemma_replay_lists_same_tables, names_what_overlaps};
use crate::compact::leveled::{compacted, replayed, task_fits, LevelTaskView};
use crate::compact::{
    state_after, unused_tables, CompactionController, CompactionTaskView,
};
use crate::ids::without;
use crate::key::{key_le, key_lt, lemma_key_le_transitive, lemma_key_lt_irreflexive};
use crate::manifest::RecordView;
use crate::table::TableView;

verus! {

/// The two states list the same L0 tables and the same tables in each level, in the same order but,
/// with leveled compaction, for the order within a level.
pub open spec fn list_alike(controller: CompactionController, a: StateView, b: StateView) -> bool {
    &&& a.l0_sstables == b.l0_sstables
    &&& a.levels.len() == b.levels.len()
    &&& forall|i: int|
        0 <= i < a.levels.len() ==> (#[trigger] a.levels[i]).0 == b.levels[i].0
            && a.levels[i].1.to_multiset() == b.levels[i].1.to_multiset()
    &&& !(controller is Leveled) ==> a.levels == b.levels
}

/// A leveled task names exactly the tables that overlap its keys, and its levels list no table
/// twice.
pub open spec fn is_exact(v: StateView, task: CompactionTaskView) -> bool {
    task matches CompactionTaskView::Leveled(task) ==> {
        &&& names_what_overlaps(v, task)
        &&& task.upper_level matches Some(upper) ==> v.level_ids(upper as int).no_duplicates()
        &&& v.level_ids(task.lower_level as int).no_duplicates()
    }
}

proof fn lemma_count_of_filter(ids: Seq<usize>, p: spec_fn(usize) -> bool, id: usize)
    ensures
        ids.filter(p).to_multiset().count(id) == (if p(id) {
            ids.to_multiset().count(id)
        } else {
            0
        }),
    decreases ids.len(),
{
    broadcast use vstd::seq_lib::group_to_multiset_ensures;

    reveal(Seq::filter);
    if ids.len() > 0 {
        let front = ids.drop_last();
        lemma_count_of_filter(front, p, id);
        assert(ids =~= front.push(ids.last()));
    }
}

proof fn lemma_without_is_alike(a: Seq<usize>, b: Seq<usize>, gone: Seq<usize>)
    requires
        a.to_multiset() == b.to_multiset(),
    ensures
        without(a, gone).to_multiset() == without(b, gone).to_multiset(),
{
    let p = |id: usize| !gone.contains(id);
    assert forall|id: usize| without(a, gone).to_multiset().count(id) == without(
        b,
        gone,
    ).to_multiset().count(id) by {
        lemma_count_of_filter(a, p, id);
        lemma_count_of_filter(b, p, id);
    }
    assert(without(a, gone).to_multiset() =~= without(b, gone).to_multiset());
}

/// Replaying a leveled compaction on lists that are alike gives lists that are alike.
proof fn lemma_leveled_replays_alike(
    a: StateView,
    b: StateView,
    task: LevelTaskView,
    output: Seq<usize>,
    level: int,
)
    requires
        task_fits(a, task),
        a.l0_sstables == b.l0_sstables,
        a.levels.len() == b.levels.len(),
        forall|i: int|
            0 <= i < a.levels.len() ==> (#[trigger] a.levels[i]).0 == b.levels[i].0
                && a.levels[i].1.to_multiset() == b.levels[i].1.to_multiset(),
        1 <= level <= a.levels.len(),
    ensures
        replayed(a, task, output).level_ids(level).to_multiset() == replayed(
            b,
            task,
            output,
        ).level_ids(level).to_multiset(),
        replayed(a, task, output).levels[level - 1].0 == a.levels[level - 1].0,
        replayed(b, task, output).levels[level - 1].0 == a.levels[level - 1].0,
{
    let lower = task.lower_level as int;
    assert(a.levels[level - 1].0 == b.levels[level - 1].0);
    let (ids_a, ids_b) = (a.level_ids(level), b.level_ids(level));
    let upper_here = task.upper_level is Some && task.upper_level->Some_0 == level;
    lemma_without_is_alike(ids_a, ids_b, task.upper_level_sst_ids);
    let (up_a, up_b) = if upper_here {
        (
            without(ids_a, task.upper_level_sst_ids),
            without(ids_b, task.upper_level_sst_ids),
        )
    } else {
        (ids_a, ids_b)
    };
    if level == lower {
        lemma_without_is_alike(up_a, up_b, task.lower_level_sst_ids);
        let (low_a, low_b) = (
            without(up_a, task.lower_level_sst_ids),
            without(up_b, task.lower_level_sst_ids),
        );
        vstd::seq_lib::lemma_multiset_commutative(low_a, output);
        vstd::seq_lib::lemma_multiset_commutative(low_b, output);
        assert(replayed(a, task, output).level_ids(level) == low_a + output);
        assert(replayed(b, task, output).level_ids(level) == low_b + output);
    } else {
        assert(replayed(a, task, output).level_ids(level) == up_a);
        assert(replayed(b, task, output).level_ids(level) == up_b);
    }
}

/// Replaying the record of a compaction lists the tables as the compaction itself did: where a live
/// state and a recovered one list the same tables, they still do after the compaction by whichever
/// strategy, and the record can be replayed.
pub proof fn lemma_compaction_is_replayed(
    controller: CompactionController,
    live: StateView,
    recovered: StateView,
    task: CompactionTaskView,
    tables: Seq<TableView>,
)
    requires
        list_alike(controller, live, recovered),
        controller.can_apply(live, task, ids_of(tables), false),
        is_exact(live, task),
    ensures
        controller.can_replay_record(recovered, RecordView::Compaction(task, ids_of(tables))),
        list_alike(
            controller,
            state_after(live, task, ids_of(tables), false).replaced(
                unused_tables(live, task),
                tables,
            ),
            controller.after_record(recovered, RecordView::Compaction(task, ids_of(tables))),
        ),
{
    let output = ids_of(tables);
    let record = RecordView::Compaction(task, output);
    let after = state_after(live, task, output, false).replaced(unused_tables(live, task), tables);
    let again = controller.after_record(recovered, record);
    match task {
        CompactionTaskView::Leveled(task) => {
            assert forall|i: int| 0 <= i < after.levels.len() implies (#[trigger] after.levels[i]).0
                == again.levels[i].0 && after.levels[i].1.to_multiset()
                == again.levels[i].1.to_multiset() by {
                lemma_leveled_replays_alike(live, recovered, task, output, i + 1);
                lemma_replay_lists_same_tables(live, task, output, i + 1);
                assert(after.levels[i].1 == compacted(live, task, output).level_ids(i + 1));
                assert(again.levels[i].1 == replayed(recovered, task, output).level_ids(i + 1));
            }
            if live.levels.len() > 0 {
                lemma_replay_lists_same_tables(live, task, output, 1);
            }
        },
        _ => {},
    }
}

/// A change to the lists of tables that is recorded in the manifest.
#[verifier::ext_equal]
pub enum ChangeView {
    Flush(TableView),
    Compaction(CompactionTaskView, Seq<TableView>),
}

impl ChangeView {
    /// The record of the change.
    pub open spec fn record(self) -> RecordView {
        match self {
            ChangeView::Flush(table) => RecordView::Flush(table.id),
            ChangeView::Compaction(task, tables) => RecordView::Compaction(task, ids_of(tables)),
        }
    }

    /// The change can be made.
    pub open spec fn is_possible(self, controller: CompactionController, v: StateView) -> bool {
        match self {
            ChangeView::Flush(_) => true,
            ChangeView::Compaction(task, tables) => controller.can_apply(
                v,
                task,
                ids_of(tables),
                false,
            ) && is_exact(v, task),
        }
    }

    /// The state after the change.
    pub open spec fn made(self, controller: CompactionController, v: StateView) -> StateView {
        match self {
            ChangeView::Flush(table) => v.flushed(!(controller is Tiered), table),
            ChangeView::Compaction(task, tables) => state_after(
                v,
                task,
                ids_of(tables),
                false,
            ).replaced(unused_tables(v, task), tables),
        }
    }
}

/// The records of some changes.
pub open spec fn records_of(changes: Seq<ChangeView>) -> Seq<RecordView> {
    changes.map_values(|change: ChangeView| change.record())
}

/// Replaying the records of a run of flushes and compactions, whatever else was done between them
/// that leaves the lists of tables alone, lists the tables as the live engine does at the end.
/// Every record can be replayed.
pub proof fn lemma_run_is_replayed(
    controller: CompactionController,
    live: Seq<StateView>,
    changes: Seq<ChangeView>,
    start: StateView,
)
    requires
        live.len() == changes.len() + 1,
        list_alike(controller, live[0], start),
        forall|i: int|
            0 <= i < changes.len() ==> (#[trigger] changes[i]).is_possible(controller, live[i]),
        forall|i: int, j: int|
            0 <= i < changes.len() && j == i + 1 ==> (#[trigger] live[j]).l0_sstables == (
            #[trigger] changes[i]).made(controller, live[i]).l0_sstables && live[j].levels
                == changes[i].made(controller, live[i]).levels,
    ensures
        controller.can_replay(start, records_of(changes)),
        list_alike(
            controller,
            live.last(),
            controller.after_records(start, records_of(changes)),
        ),
    decreases changes.len(),
{
    let records = records_of(changes);
    let n = changes.len() as int;
    if n > 0 {
        let (front, before) = (changes.drop_last(), live.drop_last());
        assert forall|i: int| 0 <= i < front.len() implies (#[trigger] front[i]).is_possible(
            controller,
            before[i],
        ) by {
            assert(changes[i].is_possible(controller, live[i]));
        }
        assert forall|i: int, j: int| 0 <= i < front.len() && j == i + 1 implies (
        #[trigger] before[j]).l0_sstables == (#[trigger] front[i]).made(
            controller,
            before[i],
        ).l0_sstables && before[j].levels == front[i].made(controller, before[i]).levels by {
            assert(front[i] == changes[i] && before[j] == live[j]);
        }
        lemma_run_is_replayed(controller, before, front, start);
        assert(records.drop_last() =~= records_of(front));
        let recovered = controller.after_records(start, records_of(front));
        let last = live[n - 1];
        assert(before.last() == last);
        assert(changes[n - 1].is_possible(controller, last));
        let made = changes[n - 1].made(controller, last);
        assert(live[n].l0_sstables == made.l0_sstables && live[n].levels == made.levels);
        let after = controller.after_record(recovered, records.last());
        match changes[n - 1] {
            ChangeView::Flush(table) => {
                if controller is Tiered {
                    assert(made.levels =~= after.levels);
                } else {
                    assert(made.l0_sstables =~= after.l0_sstables);
                }
            },
            ChangeView::Compaction(task, tables) => {
                lemma_compaction_is_replayed(controller, last, recovered, task, tables);
            },
        }
        assert(list_alike(controller, made, after));
        assert forall|i: int| 0 <= i < records.len() implies controller.can_replay_record(
            controller.after_records(start, records.take(i)),
            #[trigger] records[i],
        ) by {
            if i < n - 1 {
                assert(records.take(i) =~= records_of(front).take(i));
                assert(records[i] == records_of(front)[i]);
            } else {
                assert(records.take(i) =~= records_of(front));
            }
        }
        assert forall|i: int| 0 <= i < live.last().levels.len() implies (
        #[trigger] live.last().levels[i]).0 == after.levels[i].0
            && live.last().levels[i].1.to_multiset() == after.levels[i].1.to_multiset() by {
            assert(made.levels[i].0 == after.levels[i].0);
        }
    }
}

/// Of two lists of the same tables, one with first keys that go up and one with first keys that do
/// not go down, the order is the same.
proof fn lemma_order_is_unique(tables: Map<usize, TableView>, a: Seq<usize>, b: Seq<usize>)
    requires
        a.to_multiset() == b.to_multiset(),
        forall|i: int, j: int|
            0 <= i < j < a.len() ==> key_lt(
                tables[#[trigger] a[i]].first_key,
                tables[#[trigger] a[j]].first_key,
            ),
        first_keys_ascend(tables, b),
    ensures
        a == b,
    decreases a.len(),
{
    broadcast use vstd::seq_lib::group_to_multiset_ensures;

    assert(a.len() == a.to_multiset().len() && b.len() == b.to_multiset().len());
    if a.len() == 0 {
        assert(a =~= b);
    } else {
        let n = a.len() - 1;
        let (x, y) = (a[n], b[n]);
        assert(b.contains(x)) by {
            assert(a.contains(x));
            assert(a.to_multiset().count(x) > 0);
        }
        assert(a.contains(y)) by {
            assert(b.contains(y));
            assert(b.to_multiset().count(y) > 0);
        }
        let i = choose|i: int| 0 <= i < a.len() && a[i] == y;
        let j = choose|j: int| 0 <= j < b.len() && b[j] == x;
        if i != n {
            assert(key_lt(tables[a[i]].first_key, tables[a[n]].first_key));
            if j != n {
                assert(key_le(tables[b[j]].first_key, tables[b[n]].first_key));
                lemma_key_le_transitive(
                    tables[y].first_key,
                    tables[x].first_key,
                    tables[y].first_key,
                );
            }
            lemma_key_lt_irreflexive(tables[y].first_key);
        }
        assert(x == y);
        let (fa, fb) = (a.drop_last(), b.drop_last());
        assert(a =~= fa.push(x) && b =~= fb.push(x));
        assert(fa.to_multiset() =~= a.to_multiset().remove(x));
        assert(fb.to_multiset() =~= b.to_multiset().remove(x));
        assert forall|i: int, j: int| 0 <= i < j < fa.len() implies key_lt(
            tables[#[trigger] fa[i]].first_key,
            tables[#[trigger] fa[j]].first_key,
        ) by {
            assert(fa[i] == a[i] && fa[j] == a[j]);
        }
        assert forall|i: int, j: int| 0 <= i < j < fb.len() implies key_le(
            tables[#[trigger] fb[i]].first_key,
            tables[#[trigger] fb[j]].first_key,
        ) by {
            assert(fb[i] == b[i] && fb[j] == b[j]);
        }
        lemma_order_is_unique(tables, fa, fb);
    }
}

/// Sorting a level that lists the tables of a disjoint run in any order gives the run.
proof fn lemma_sorting_restores_run(
    live: StateView,
    map: Map<usize, TableView>,
    run: Seq<usize>,
    ids: Seq<usize>,
)
    requires
        is_disjoint_run(live, run),
        run.to_multiset() == ids.to_multiset(),
        forall|i: int|
            0 <= i < run.len() ==> map[#[trigger] run[i]].first_key
                == live.sstables[run[i]].first_key,
    ensures
        sorted_by_first_key(map, ids) == run,
{
    lemma_sorted_ascends(map, ids);
    lemma_sorted_keeps_tables(map, ids);
    assert forall|i: int, j: int| 0 <= i < j < run.len() implies key_lt(
        map[#[trigger] run[i]].first_key,
        map[#[trigger] run[j]].first_key,
    ) by {
        let (a, b) = (live.sstables[run[i]], live.sstables[run[j]]);
        lemma_key_le_transitive(a.first_key, a.last_key, b.first_key);
    }
    lemma_order_is_unique(map, run, sorted_by_first_key(map, ids));
}

/// Opening the tables that a recovered state names brings back the lists of the live engine, in
/// their order, and the tables themselves. With leveled compaction the tables of each level are to
/// lie apart. The new memtable has a number above those of all tables, and there are no others.
pub proof fn lemma_open_restores_lists(
    controller: CompactionController,
    live: StateView,
    recovered: StateView,
    tables: Seq<TableView>,
)
    requires
        list_alike(controller, live, recovered),
        controller is Leveled ==> forall|level: int|
            1 <= level <= live.levels.len() ==> is_disjoint_run(
                live,
                #[trigger] live.level_ids(level),
            ),
        recovered.table_ids().no_duplicates(),
        ids_of(tables) == recovered.table_ids(),
        forall|i: int|
            0 <= i < tables.len() ==> #[trigger] tables[i] == live.sstables[tables[i].id],
        recovered.imm_memtables.len() == 0,
        next_id(recovered.table_ids()) <= usize::MAX,
    ensures
        ({
            let opened = recovered.opened(tables, controller is Leveled);
            &&& opened.l0_sstables == live.l0_sstables
            &&& opened.levels == live.levels
            &&& forall|i: int|
                0 <= i < tables.len() ==> opened.sstables.contains_key((#[trigger] tables[i]).id)
                    && opened.sstables[tables[i].id] == tables[i]
            &&& forall|i: int| 0 <= i < tables.len() ==> (#[trigger] tables[i]).id < opened.memtable
            &&& opened.imm_memtables.len() == 0
        }),
{
    let map = with_tables(recovered.sstables, tables);
    let opened = recovered.opened(tables, controller is Leveled);
    let ids = recovered.table_ids();
    lemma_next_id(ids);
    assert forall|i: int| 0 <= i < tables.len() implies map.contains_key((#[trigger] tables[i]).id)
        && map[tables[i].id] == tables[i] && tables[i].id < opened.memtable by {
        lemma_new_table(recovered.sstables, tables, i);
        assert(ids[i] == tables[i].id);
    }
    if controller is Leveled {
        assert forall|k: int| 0 <= k < live.levels.len() implies #[trigger] opened.levels[k]
            == live.levels[k] by {
            let run = live.level_ids(k + 1);
            let listed = recovered.level_ids(k + 1);
            assert(live.levels[k].0 == recovered.levels[k].0);
            assert(is_disjoint_run(live, live.level_ids(k + 1)));
            assert forall|i: int| 0 <= i < run.len() implies map[#[trigger] run[i]].first_key
                == live.sstables[run[i]].first_key by {
                broadcast use vstd::seq_lib::group_to_multiset_ensures;

                let id = run[i];
                assert(run.contains(id));
                assert(run.to_multiset().count(id) > 0);
                assert(listed.contains(id));
                let j = choose|j: int| 0 <= j < listed.len() && listed[j] == id;
                lemma_level_ids_are_table_ids(recovered);
                assert(recovered.table_ids().contains(recovered.level_ids(k + 1)[j]));
                let t = choose|t: int| 0 <= t < ids.len() && ids[t] == id;
                assert(ids_of(tables)[t] == tables[t].id);
                assert(map[tables[t].id] == tables[t]);
            }
            lemma_sorting_restores_run(live, map, run, listed);
        }
        assert(opened.levels =~= live.levels);
    }
}

} // verus!
