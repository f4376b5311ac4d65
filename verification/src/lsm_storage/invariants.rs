//! What every operation on the storage state keeps.

use vstd::prelude::*;

use super::read::LookupView;
use super::recovery::{
    first_keys_ascend, lemma_level_ids_are_table_ids, lemma_next_id, lemma_sorted_ascends,
    lemma_sorted_keeps_tables, next_id, sorted_by_first_key, sorted_levels,
};
use super::replacement::{
    lemma_disjoint_is_sorted, lemma_level_survives, lemma_output_is_run, lemma_run_survives,
    lie_within, ranges_are_disjoint,
};
use super::{ids_of, initial_state, with_tables, StateView};
use crate::compact::laws::{
    is_disjoint_run, lemma_output_replaces_overlapping, lemma_overlap_in_order,
    lemma_upper_range_in_order, names_what_overlaps, takes_all_overlapping,
};
use crate::compact::leveled::{
    compacted, ends_before, overlap_end, overlap_start, replaced_range, starts_up_to, task_fits,
    task_is_live, task_span, upper_range, without_upper, LevelTaskView,
};
use crate::compact::simple_leveled::{simple_compacted, simple_task_fits};
use crate::compact::tiered::{
    tier_ids, tier_position, tiered_task_fits, tiers_after, unused_after, TieredTaskView,
};
use crate::compact::{CompactionController, CompactionOptions};
use crate::ids::{spliced, without};
use crate::key::{key_le, key_lt, lemma_key_le_transitive, lemma_key_lt_total};
use crate::manifest::RecordView;
use crate::search::lemma_prefix_len;
use crate::table::TableView;

verus! {

impl StateView {
    /// The numbers of all memtables and tables, in the order in which a key is looked up in them.
    pub open spec fn recency(self) -> Seq<usize> {
        seq![self.memtable] + self.imm_memtables + self.table_ids()
    }

    /// No number is used twice, all of them lie below the next one, and there is a table for each
    /// id in L0 and the levels and for no other.
    pub open spec fn is_consistent(self, next: int) -> bool {
        &&& self.recency().no_duplicates()
        &&& forall|i: int| 0 <= i < self.recency().len() ==> #[trigger] self.recency()[i] < next
        &&& forall|id: usize| #[trigger]
            self.sstables.contains_key(id) == self.table_ids().contains(id)
    }
}

/// The tables of some tiers and of some more are those of the former, then those of the latter.
pub proof fn lemma_tier_ids_of_concatenation(
    a: Seq<(usize, Seq<usize>)>,
    b: Seq<(usize, Seq<usize>)>,
)
    ensures
        tier_ids(a + b) == tier_ids(a) + tier_ids(b),
    decreases b.len(),
{
    if b.len() == 0 {
        assert(a + b =~= a);
        assert(tier_ids(a) + tier_ids(b) =~= tier_ids(a));
    } else {
        lemma_tier_ids_of_concatenation(a, b.drop_last());
        assert((a + b).drop_last() =~= a + b.drop_last());
        assert((a + b).last() == b.last());
        assert(tier_ids(a + b) =~= tier_ids(a) + tier_ids(b));
    }
}

pub(crate) proof fn lemma_tier_ids_of_one(tier: (usize, Seq<usize>))
    ensures
        tier_ids(seq![tier]) == tier.1,
{
    reveal_with_fuel(tier_ids, 2);
    assert(tier_ids(seq![tier]) =~= tier.1);
}

/// Freezing puts the new memtable in front of everything else.
pub proof fn lemma_freeze_prepends(v: StateView, id: usize)
    ensures
        v.frozen(id).recency() == seq![id] + v.recency(),
{
    assert(v.frozen(id).recency() =~= seq![id] + v.recency());
}

/// Flushing the earliest memtable leaves the order of lookups as it is, provided that with tiered
/// compaction there are no L0 tables.
pub proof fn lemma_flush_keeps_recency(v: StateView, to_l0: bool, table: TableView)
    requires
        v.imm_memtables.len() > 0,
        table.id == v.imm_memtables.last(),
        to_l0 || v.l0_sstables.len() == 0,
    ensures
        v.flushed(to_l0, table).recency() == v.recency(),
{
    let after = v.flushed(to_l0, table);
    assert(v.imm_memtables =~= v.imm_memtables.drop_last() + seq![table.id]);
    if to_l0 {
        assert(after.recency() =~= v.recency());
    } else {
        let tier = (table.id, seq![table.id]);
        lemma_tier_ids_of_concatenation(seq![tier], v.levels);
        lemma_tier_ids_of_one(tier);
        assert(after.recency() =~= v.recency());
    }
}

/// A key is looked up in the memtables and the L0 tables in the order of `recency`.
pub proof fn lemma_lookup_follows_recency(v: StateView, key: Seq<u8>, step: int)
    requires
        v.holds(v.l0_sstables),
        0 <= step <= v.imm_memtables.len() + v.l0_sstables.len(),
    ensures
        match v.lookup(key, step) {
            LookupView::Memtable(id) => id == v.recency()[step],
            LookupView::Table { table, .. } => table.id == v.recency()[step],
            LookupView::Run(_) => false,
        },
{
    if step > v.imm_memtables.len() {
        let i = step - 1 - v.imm_memtables.len();
        assert(v.l0_sstables[i] == v.recency()[step]);
    }
}

/// An empty engine is consistent.
pub proof fn lemma_initial_is_consistent(options: CompactionOptions)
    ensures
        initial_state(options).is_consistent(1),
{
    let v = initial_state(options);
    lemma_no_tables(v.levels);
    assert(v.table_ids() =~= Seq::empty());
    assert(v.recency() =~= seq![0usize]);
}

proof fn lemma_no_tables(levels: Seq<(usize, Seq<usize>)>)
    requires
        forall|i: int| 0 <= i < levels.len() ==> (#[trigger] levels[i]).1 == Seq::<usize>::empty(),
    ensures
        tier_ids(levels) == Seq::<usize>::empty(),
    decreases levels.len(),
{
    if levels.len() > 0 {
        let front = levels.drop_last();
        assert forall|i: int| 0 <= i < front.len() implies (#[trigger] front[i]).1 == Seq::<
            usize,
        >::empty() by {
            assert(front[i] == levels[i]);
        }
        lemma_no_tables(front);
        assert(levels.last().1 == Seq::<usize>::empty());
        assert(tier_ids(levels) =~= Seq::empty());
    }
}

/// Freezing the current memtable keeps the state consistent, as long as the numbers last.
pub proof fn lemma_freeze_keeps_consistent(v: StateView, next: usize)
    requires
        v.is_consistent(next as int),
    ensures
        v.frozen(next).is_consistent(next + 1),
{
    lemma_freeze_prepends(v, next);
    let before = v.recency();
    let after = v.frozen(next).recency();
    assert forall|i: int, j: int| 0 <= i < after.len() && 0 <= j < after.len() && i
        != j implies after[i] != after[j] by {
        if i > 0 {
            assert(after[i] == before[i - 1]);
        }
        if j > 0 {
            assert(after[j] == before[j - 1]);
        }
    }
    assert forall|i: int| 0 <= i < after.len() implies #[trigger] after[i] < next + 1 by {
        if i > 0 {
            assert(after[i] == before[i - 1]);
        }
    }
}

/// Flushing the earliest memtable keeps the state consistent, provided that with tiered compaction
/// there are no L0 tables.
pub proof fn lemma_flush_keeps_consistent(v: StateView, to_l0: bool, table: TableView, next: int)
    requires
        v.is_consistent(next),
        v.imm_memtables.len() > 0,
        table.id == v.imm_memtables.last(),
        to_l0 || v.l0_sstables.len() == 0,
    ensures
        v.flushed(to_l0, table).is_consistent(next),
{
    lemma_flush_keeps_recency(v, to_l0, table);
    let after = v.flushed(to_l0, table);
    if !to_l0 {
        let tier = (table.id, seq![table.id]);
        lemma_tier_ids_of_concatenation(seq![tier], v.levels);
        lemma_tier_ids_of_one(tier);
    }
    assert(after.table_ids() =~= seq![table.id] + v.table_ids());
    assert forall|id: usize| #[trigger] after.sstables.contains_key(id)
        == after.table_ids().contains(id) by {
        if v.table_ids().contains(id) {
            let k = choose|k: int| 0 <= k < v.table_ids().len() && v.table_ids()[k] == id;
            assert(after.table_ids()[k + 1] == id);
        }
        if id == table.id {
            assert(after.table_ids()[0] == id);
        }
        if after.table_ids().contains(id) {
            let k = choose|k: int| 0 <= k < after.table_ids().len() && after.table_ids()[k] == id;
            if k > 0 {
                assert(v.table_ids()[k - 1] == id);
            }
        }
        assert(v.sstables.contains_key(id) == v.table_ids().contains(id));
    }
}

/// Replaying the record of a flush lists the tables as the flush itself did.
pub proof fn lemma_flush_is_replayed(
    controller: CompactionController,
    live: StateView,
    recovered: StateView,
    table: TableView,
)
    requires
        live.l0_sstables == recovered.l0_sstables,
        live.levels == recovered.levels,
    ensures
        ({
            let flushed = live.flushed(!(controller is Tiered), table);
            let replayed = controller.after_record(recovered, RecordView::Flush(table.id));
            flushed.l0_sstables == replayed.l0_sstables && flushed.levels == replayed.levels
        }),
{
}

proof fn lemma_replace_middle(
    before: Seq<usize>,
    a: Seq<usize>,
    gone: Seq<usize>,
    b: Seq<usize>,
    output: Seq<usize>,
    next: int,
)
    requires
        (before + (a + gone + b)).no_duplicates(),
        forall|i: int|
            0 <= i < (before + (a + gone + b)).len() ==> #[trigger] (before + (a + gone + b))[i]
                < next,
        output.no_duplicates(),
        forall|i: int| 0 <= i < output.len() ==> #[trigger] output[i] < next,
        forall|i: int|
            0 <= i < output.len() ==> !(before + (a + gone + b)).contains(#[trigger] output[i]),
    ensures
        (before + (a + output + b)).no_duplicates(),
        forall|i: int|
            0 <= i < (before + (a + output + b)).len() ==> #[trigger] (before + (a + output + b))[i]
                < next,
        forall|id: usize| #[trigger]
            (a + output + b).contains(id) == ((a + gone + b).contains(id) && !gone.contains(id)
                || output.contains(id)),
{
    let all = before + (a + gone + b);
    let after = before + (a + output + b);
    let start = before.len() + a.len();
    let shift = gone.len() - output.len();
    // Where an element outside the output comes from.
    let from = |i: int|
        if i < start {
            i
        } else {
            i + shift
        };
    let is_new = |i: int| start <= i < start + output.len();
    assert forall|i: int| 0 <= i < after.len() && !is_new(i) implies after[i]
        == all[#[trigger] from(i)] && 0 <= from(i) < all.len() by {}
    assert forall|i: int| 0 <= i < after.len() && is_new(i) implies after[i]
        == output[#[trigger] (i - start)] by {}
    assert forall|i: int, j: int| 0 <= i < after.len() && 0 <= j < after.len() && i
        != j implies after[i] != after[j] by {
        if is_new(i) && is_new(j) {
            assert(output[i - start] != output[j - start]);
        } else if is_new(i) {
            assert(after[j] == all[from(j)]);
            assert(!all.contains(output[i - start]));
        } else if is_new(j) {
            assert(after[i] == all[from(i)]);
            assert(!all.contains(output[j - start]));
        } else {
            assert(after[i] == all[from(i)]);
            assert(after[j] == all[from(j)]);
        }
    }
    assert forall|i: int| 0 <= i < after.len() implies #[trigger] after[i] < next by {
        if is_new(i) {
            assert(after[i] == output[i - start]);
        } else {
            assert(after[i] == all[from(i)]);
        }
    }
    let old_part = a + gone + b;
    let new_part = a + output + b;
    assert forall|id: usize| #[trigger] new_part.contains(id) == (old_part.contains(id)
        && !gone.contains(id) || output.contains(id)) by {
        if new_part.contains(id) {
            let k = choose|k: int| 0 <= k < new_part.len() && new_part[k] == id;
            if k < a.len() {
                assert(old_part[k] == id);
                lemma_not_gone(before, a, gone, b, k);
            } else if k < a.len() + output.len() {
                assert(output[k - a.len()] == id);
            } else {
                let old_k = k + shift;
                assert(old_part[old_k] == id);
                lemma_not_gone(before, a, gone, b, old_k);
            }
        }
        if old_part.contains(id) && !gone.contains(id) {
            let k = choose|k: int| 0 <= k < old_part.len() && old_part[k] == id;
            if k < a.len() {
                assert(new_part[k] == id);
            } else if k < a.len() + gone.len() {
                assert(gone[k - a.len()] == id);
            } else {
                assert(new_part[k - shift] == id);
            }
        }
        if output.contains(id) {
            let k = choose|k: int| 0 <= k < output.len() && output[k] == id;
            assert(new_part[a.len() + k] == id);
        }
    }
}

proof fn lemma_not_gone(
    before: Seq<usize>,
    a: Seq<usize>,
    gone: Seq<usize>,
    b: Seq<usize>,
    k: int,
)
    requires
        (before + (a + gone + b)).no_duplicates(),
        0 <= k < (a + gone + b).len(),
        !(a.len() <= k < a.len() + gone.len()),
    ensures
        !gone.contains((a + gone + b)[k]),
{
    let all = before + (a + gone + b);
    if gone.contains((a + gone + b)[k]) {
        let g = choose|g: int| 0 <= g < gone.len() && gone[g] == (a + gone + b)[k];
        assert(all[before.len() + k] == all[before.len() + a.len() + g]);
    }
}

proof fn lemma_with_tables_keys(map: Map<usize, TableView>, tables: Seq<TableView>, id: usize)
    ensures
        with_tables(map, tables).contains_key(id) == (map.contains_key(id) || ids_of(
            tables,
        ).contains(id)),
    decreases tables.len(),
{
    if tables.len() > 0 {
        let front = tables.drop_last();
        lemma_with_tables_keys(map, front, id);
        if ids_of(front).contains(id) {
            let k = choose|k: int| 0 <= k < front.len() && ids_of(front)[k] == id;
            assert(ids_of(tables)[k] == id);
        }
        if id == tables.last().id {
            assert(ids_of(tables)[tables.len() - 1] == id);
        }
        if ids_of(tables).contains(id) {
            let k = choose|k: int| 0 <= k < tables.len() && ids_of(tables)[k] == id;
            if k < front.len() {
                assert(ids_of(front)[k] == id);
            }
        }
    }
}

/// The ids of the new tables are distinct, below the next number and not in use.
pub open spec fn are_fresh(v: StateView, output: Seq<usize>, next: int) -> bool {
    &&& output.no_duplicates()
    &&& forall|i: int| 0 <= i < output.len() ==> #[trigger] output[i] < next
    &&& forall|i: int| 0 <= i < output.len() ==> !v.recency().contains(#[trigger] output[i])
}

/// A state in which a run of tables is replaced by new ones, in the lists and in the map, is
/// consistent.
proof fn lemma_replacing_keeps_consistent(
    v: StateView,
    after: StateView,
    a: Seq<usize>,
    gone: Seq<usize>,
    b: Seq<usize>,
    tables: Seq<TableView>,
    next: int,
)
    requires
        v.is_consistent(next),
        v.table_ids() == a + gone + b,
        are_fresh(v, ids_of(tables), next),
        after.memtable == v.memtable,
        after.imm_memtables == v.imm_memtables,
        after.table_ids() == a + ids_of(tables) + b,
        after.sstables == v.replaced(gone, tables).sstables,
    ensures
        after.is_consistent(next),
{
    let before = seq![v.memtable] + v.imm_memtables;
    let output = ids_of(tables);
    lemma_replace_middle(before, a, gone, b, output, next);
    assert forall|id: usize| #[trigger] after.sstables.contains_key(id)
        == after.table_ids().contains(id) by {
        lemma_with_tables_keys(v.sstables.remove_keys(gone.to_set()), tables, id);
        assert(v.sstables.contains_key(id) == v.table_ids().contains(id));
        assert(after.table_ids().contains(id) == (a + output + b).contains(id));
    }
}

/// A full compaction keeps the state consistent: it takes the earliest L0 tables and all of the
/// first level, and gives new tables in their place.
pub proof fn lemma_full_compaction_keeps_consistent(
    v: StateView,
    l0: Seq<usize>,
    tables: Seq<TableView>,
    next: int,
)
    requires
        v.is_consistent(next),
        v.levels.len() > 0,
        l0.len() <= v.l0_sstables.len(),
        l0 == v.l0_sstables.skip(v.l0_sstables.len() - l0.len()),
        are_fresh(v, ids_of(tables), next),
    ensures
        v.fully_compacted(l0, v.level_ids(1), tables).is_consistent(next),
{
    let after = v.fully_compacted(l0, v.level_ids(1), tables);
    let rest = v.levels.skip(1);
    let newer = v.l0_sstables.take(v.l0_sstables.len() - l0.len());
    let first = (v.levels[0].0, ids_of(tables));
    assert(v.levels =~= seq![v.levels[0]] + rest);
    assert(after.levels =~= seq![first] + rest);
    lemma_tier_ids_of_concatenation(seq![v.levels[0]], rest);
    lemma_tier_ids_of_concatenation(seq![first], rest);
    lemma_tier_ids_of_one(v.levels[0]);
    lemma_tier_ids_of_one(first);
    assert(v.l0_sstables =~= newer + l0);
    assert(v.table_ids() =~= newer + (l0 + v.level_ids(1)) + tier_ids(rest));
    assert(after.table_ids() =~= newer + ids_of(tables) + tier_ids(rest));
    lemma_replacing_keeps_consistent(
        v,
        after,
        newer,
        l0 + v.level_ids(1),
        tier_ids(rest),
        tables,
        next,
    );
}

/// Where in the state the tiers of a task begin.
pub open spec fn tiers_start(v: StateView, task: TieredTaskView) -> int {
    if task.bottom_tier_included {
        v.levels.len() - task.tiers.len()
    } else {
        tier_position(v.levels, task.tiers[0].0)
    }
}

/// The tiers of the task stand in the state where it has its first tier, unless the task takes off
/// the last tiers.
pub open spec fn tiers_stand(v: StateView, task: TieredTaskView) -> bool {
    &&& tiered_task_fits(v.levels, task)
    &&& !task.bottom_tier_included ==> {
        let pos = tiers_start(v, task);
        v.levels.subrange(pos, pos + task.tiers.len()) == task.tiers
    }
}

/// A tiered compaction replaces the tables of its tiers by its output.
pub(crate) proof fn lemma_tiered_replaces_run(
    v: StateView,
    task: TieredTaskView,
    output: Seq<usize>,
)
    requires
        output.len() > 0,
        tiers_stand(v, task),
    ensures
        ({
            let pos = tiers_start(v, task);
            let a = v.l0_sstables + tier_ids(v.levels.take(pos));
            let b = tier_ids(v.levels.skip(pos + task.tiers.len()));
            let after = StateView { levels: tiers_after(v.levels, task, output), ..v };
            &&& v.table_ids() == a + unused_after(v.levels, task) + b
            &&& after.table_ids() == a + output + b
        }),
{
    let merged = (output[0], output);
    let n = v.levels.len() as int;
    let k = task.tiers.len() as int;
    let after = StateView { levels: tiers_after(v.levels, task, output), ..v };
    let pos = tiers_start(v, task);
    if !task.bottom_tier_included {
        lemma_tier_position(v.levels, task.tiers[0].0);
    }
    let head = v.levels.take(pos);
    let middle = v.levels.subrange(pos, pos + k);
    let tail = v.levels.skip(pos + k);
    assert(v.levels =~= head + middle + tail);
    assert(after.levels =~= head + seq![merged] + tail);
    if task.bottom_tier_included {
        assert(v.levels.skip(n - k) =~= middle);
    }
    lemma_tier_ids_of_concatenation(head + middle, tail);
    lemma_tier_ids_of_concatenation(head, middle);
    lemma_tier_ids_of_concatenation(head + seq![merged], tail);
    lemma_tier_ids_of_concatenation(head, seq![merged]);
    lemma_tier_ids_of_one(merged);
    let a = v.l0_sstables + tier_ids(head);
    assert(v.table_ids() =~= a + tier_ids(middle) + tier_ids(tail));
    assert(after.table_ids() =~= a + output + tier_ids(tail));
}

/// A tiered compaction keeps the state consistent, as long as the tiers of its task stand in it.
pub proof fn lemma_tiered_compaction_keeps_consistent(
    v: StateView,
    task: TieredTaskView,
    tables: Seq<TableView>,
    next: int,
)
    requires
        v.is_consistent(next),
        tables.len() > 0,
        tiers_stand(v, task),
        are_fresh(v, ids_of(tables), next),
    ensures
        (StateView { levels: tiers_after(v.levels, task, ids_of(tables)), ..v }).replaced(
            unused_after(v.levels, task),
            tables,
        ).is_consistent(next),
{
    let gone = unused_after(v.levels, task);
    let after = (StateView { levels: tiers_after(v.levels, task, ids_of(tables)), ..v }).replaced(
        gone,
        tables,
    );
    let pos = tiers_start(v, task);
    let a = v.l0_sstables + tier_ids(v.levels.take(pos));
    let b = tier_ids(v.levels.skip(pos + task.tiers.len()));
    lemma_tiered_replaces_run(v, task, ids_of(tables));
    lemma_replacing_keeps_consistent(v, after, a, gone, b, tables, next);
}

pub(crate) proof fn lemma_tier_position(tiers: Seq<(usize, Seq<usize>)>, number: usize)
    ensures
        0 <= tier_position(tiers, number) <= tiers.len(),
    decreases tiers.len(),
{
    if tiers.len() > 0 && tiers[0].0 != number {
        lemma_tier_position(tiers.drop_first(), number);
    }
}

/// The task merges a level into the next one, or the earliest L0 tables into the first level.
pub open spec fn levels_stand(v: StateView, task: LevelTaskView) -> bool {
    &&& simple_task_fits(v, task)
    &&& match task.upper_level {
        Some(level) => task.lower_level == level + 1,
        None => {
            &&& task.lower_level == 1
            &&& task.upper_level_sst_ids.len() <= v.l0_sstables.len()
            &&& task.upper_level_sst_ids == v.l0_sstables.skip(
                v.l0_sstables.len() - task.upper_level_sst_ids.len(),
            )
        },
    }
}

/// The tables that are looked at before those of the task.
pub open spec fn ids_before(v: StateView, task: LevelTaskView) -> Seq<usize> {
    match task.upper_level {
        Some(level) => v.l0_sstables + tier_ids(v.levels.take(level - 1)),
        None => v.l0_sstables.take(v.l0_sstables.len() - task.upper_level_sst_ids.len()),
    }
}

/// The tables that are looked at after those of the task.
pub open spec fn ids_after(v: StateView, task: LevelTaskView) -> Seq<usize> {
    tier_ids(v.levels.skip(task.lower_level as int))
}

/// A simple leveled compaction replaces the tables of its levels by its output.
pub(crate) proof fn lemma_simple_replaces_run(
    v: StateView,
    task: LevelTaskView,
    output: Seq<usize>,
)
    requires
        v.recency().no_duplicates(),
        levels_stand(v, task),
    ensures
        v.table_ids() == ids_before(v, task) + (task.upper_level_sst_ids
            + task.lower_level_sst_ids) + ids_after(v, task),
        simple_compacted(v, task, output).table_ids() == ids_before(v, task) + output + ids_after(
            v,
            task,
        ),
{
    match task.upper_level {
        Some(level) => lemma_simple_levels(v, task, level as int, output),
        None => lemma_simple_l0(v, task, output),
    }
}

proof fn lemma_two_levels(
    head: Seq<(usize, Seq<usize>)>,
    upper: (usize, Seq<usize>),
    lower: (usize, Seq<usize>),
    tail: Seq<(usize, Seq<usize>)>,
)
    ensures
        tier_ids(head + (seq![upper] + seq![lower]) + tail) == tier_ids(head) + (upper.1 + lower.1)
            + tier_ids(tail),
{
    lemma_tier_ids_of_concatenation(head + (seq![upper] + seq![lower]), tail);
    lemma_tier_ids_of_concatenation(head, seq![upper] + seq![lower]);
    lemma_tier_ids_of_concatenation(seq![upper], seq![lower]);
    lemma_tier_ids_of_one(upper);
    lemma_tier_ids_of_one(lower);
}

proof fn lemma_simple_levels(v: StateView, task: LevelTaskView, level: int, output: Seq<usize>)
    requires
        levels_stand(v, task),
        task.upper_level is Some,
        task.upper_level->Some_0 == level,
    ensures
        v.table_ids() == ids_before(v, task) + (task.upper_level_sst_ids
            + task.lower_level_sst_ids) + ids_after(v, task),
        simple_compacted(v, task, output).table_ids() == ids_before(v, task) + output + ids_after(
            v,
            task,
        ),
{
    let gone = task.upper_level_sst_ids + task.lower_level_sst_ids;
    let after = simple_compacted(v, task, output);
    let i = level - 1;
    let head = v.levels.take(i);
    let tail = v.levels.skip(i + 2);
    let (upper, lower) = (v.levels[i], v.levels[i + 1]);
    let emptied = (upper.0, Seq::<usize>::empty());
    let filled = (lower.0, output);
    assert(v.levels =~= head + (seq![upper] + seq![lower]) + tail);
    assert(after.levels =~= head + (seq![emptied] + seq![filled]) + tail);
    lemma_two_levels(head, upper, lower, tail);
    lemma_two_levels(head, emptied, filled, tail);
    let a = v.l0_sstables + tier_ids(head);
    assert(v.table_ids() =~= a + gone + tier_ids(tail));
    assert(Seq::<usize>::empty() + output =~= output);
    assert(after.table_ids() =~= a + output + tier_ids(tail));
}

proof fn lemma_simple_l0(v: StateView, task: LevelTaskView, output: Seq<usize>)
    requires
        v.recency().no_duplicates(),
        levels_stand(v, task),
        task.upper_level is None,
    ensures
        v.table_ids() == ids_before(v, task) + (task.upper_level_sst_ids
            + task.lower_level_sst_ids) + ids_after(v, task),
        simple_compacted(v, task, output).table_ids() == ids_before(v, task) + output + ids_after(
            v,
            task,
        ),
{
    let gone = task.upper_level_sst_ids + task.lower_level_sst_ids;
    let after = simple_compacted(v, task, output);
    let rest = v.levels.skip(1);
    let upper = task.upper_level_sst_ids;
    let newer = v.l0_sstables.take(v.l0_sstables.len() - upper.len());
    let first = (v.levels[0].0, output);
    assert(v.levels =~= seq![v.levels[0]] + rest);
    assert(after.levels =~= seq![first] + rest);
    lemma_tier_ids_of_concatenation(seq![v.levels[0]], rest);
    lemma_tier_ids_of_concatenation(seq![first], rest);
    lemma_tier_ids_of_one(v.levels[0]);
    lemma_tier_ids_of_one(first);
    assert(v.l0_sstables =~= newer + upper);
    assert(v.table_ids() =~= newer + gone + tier_ids(rest));
    lemma_without_suffix(v, newer, upper);
    assert(after.table_ids() =~= newer + output + tier_ids(rest));
}

/// A simple leveled compaction keeps the state consistent, if it merges a level into the next one,
/// or the earliest L0 tables into the first level.
pub proof fn lemma_simple_compaction_keeps_consistent(
    v: StateView,
    task: LevelTaskView,
    tables: Seq<TableView>,
    next: int,
)
    requires
        v.is_consistent(next),
        levels_stand(v, task),
        are_fresh(v, ids_of(tables), next),
    ensures
        simple_compacted(v, task, ids_of(tables)).replaced(
            task.upper_level_sst_ids + task.lower_level_sst_ids,
            tables,
        ).is_consistent(next),
{
    let gone = task.upper_level_sst_ids + task.lower_level_sst_ids;
    let after = simple_compacted(v, task, ids_of(tables)).replaced(gone, tables);
    lemma_simple_replaces_run(v, task, ids_of(tables));
    lemma_replacing_keeps_consistent(
        v,
        after,
        ids_before(v, task),
        gone,
        ids_after(v, task),
        tables,
        next,
    );
}

/// Taking the last tables of L0 out by id leaves the others.
pub(crate) proof fn lemma_without_suffix(v: StateView, newer: Seq<usize>, older: Seq<usize>)
    requires
        v.recency().no_duplicates(),
        v.l0_sstables == newer + older,
    ensures
        without(v.l0_sstables, older) == newer,
{
    let kept = |id: usize| !older.contains(id);
    let start = 1 + v.imm_memtables.len();
    let all = v.recency();
    assert forall|i: int| 0 <= i < v.l0_sstables.len() implies all[start + i]
        == #[trigger] v.l0_sstables[i] by {}
    assert forall|i: int| 0 <= i < newer.len() implies kept(#[trigger] newer[i]) by {
        if older.contains(newer[i]) {
            let k = choose|k: int| 0 <= k < older.len() && older[k] == newer[i];
            assert(v.l0_sstables[i] == newer[i]);
            assert(v.l0_sstables[newer.len() + k] == older[k]);
            assert(all[start + i] == all[start + newer.len() + k]);
        }
    }
    assert forall|i: int| 0 <= i < older.len() implies !kept(#[trigger] older[i]) by {
        assert(older.contains(older[i]));
    }
    Seq::filter_distributes_over_add(newer, older, kept);
    lemma_filter_all(newer, kept);
    super::recovery::lemma_filter_none(older, kept);
    assert(newer + Seq::<usize>::empty() =~= newer);
}

pub(crate) proof fn lemma_filter_all(ids: Seq<usize>, p: spec_fn(usize) -> bool)
    requires
        forall|i: int| 0 <= i < ids.len() ==> p(#[trigger] ids[i]),
    ensures
        ids.filter(p) == ids,
    decreases ids.len(),
{
    reveal(Seq::filter);
    if ids.len() > 0 {
        let front = ids.drop_last();
        assert(p(ids[ids.len() - 1]));
        assert forall|i: int| 0 <= i < front.len() implies p(#[trigger] front[i]) by {
            assert(front[i] == ids[i]);
        }
        lemma_filter_all(front, p);
        assert(front.push(ids.last()) =~= ids);
    }
}

proof fn lemma_sorted_levels_keep_tables(
    tables: Map<usize, TableView>,
    levels: Seq<(usize, Seq<usize>)>,
)
    ensures
        tier_ids(sorted_levels(tables, levels)).to_multiset() == tier_ids(levels).to_multiset(),
    decreases levels.len(),
{
    if levels.len() > 0 {
        let front = levels.drop_last();
        let sorted = sorted_levels(tables, levels);
        lemma_sorted_levels_keep_tables(tables, front);
        lemma_sorted_keeps_tables(tables, levels.last().1);
        assert(sorted.drop_last() =~= sorted_levels(tables, front));
        assert(sorted.last().1 == sorted_by_first_key(tables, levels.last().1));
        vstd::seq_lib::lemma_multiset_commutative(
            tier_ids(sorted.drop_last()),
            sorted.last().1,
        );
        vstd::seq_lib::lemma_multiset_commutative(tier_ids(front), levels.last().1);
    } else {
        assert(sorted_levels(tables, levels) =~= levels);
    }
}

/// An engine is consistent once it is open, if no table was listed twice.
pub proof fn lemma_open_is_consistent(v: StateView, tables: Seq<TableView>, leveled: bool)
    requires
        ids_of(tables) == v.table_ids(),
        v.table_ids().no_duplicates(),
        next_id(v.table_ids()) < usize::MAX,
        v.imm_memtables.len() == 0,
        v.sstables == Map::<usize, TableView>::empty(),
    ensures
        v.opened(tables, leveled).is_consistent(next_id(v.table_ids()) + 1),
{
    broadcast use vstd::seq_lib::group_to_multiset_ensures;

    let after = v.opened(tables, leveled);
    let ids = v.table_ids();
    let new_ids = after.table_ids();
    let next = next_id(ids);
    lemma_next_id(ids);
    if leveled {
        lemma_sorted_levels_keep_tables(after.sstables, v.levels);
    }
    vstd::seq_lib::lemma_multiset_commutative(v.l0_sstables, tier_ids(v.levels));
    vstd::seq_lib::lemma_multiset_commutative(v.l0_sstables, tier_ids(after.levels));
    assert(new_ids.to_multiset() == ids.to_multiset());
    ids.lemma_multiset_has_no_duplicates();
    new_ids.lemma_multiset_has_no_duplicates_conv();
    assert forall|id: usize| #[trigger] new_ids.contains(id) == ids.contains(id) by {
        assert(ids.contains(id) == (ids.to_multiset().count(id) > 0));
        assert(new_ids.contains(id) == (new_ids.to_multiset().count(id) > 0));
    }
    assert(after.recency() =~= seq![after.memtable] + new_ids);
    assert forall|i: int| 0 <= i < new_ids.len() implies #[trigger] new_ids[i] < next by {
        assert(new_ids.contains(new_ids[i]));
        let k = choose|k: int| 0 <= k < ids.len() && ids[k] == new_ids[i];
        assert(ids[k] < next);
    }
    let all = after.recency();
    assert forall|i: int| 0 <= i < all.len() implies #[trigger] all[i] < next + 1 by {
        if i > 0 {
            assert(all[i] == new_ids[i - 1]);
        }
    }
    assert forall|i: int, j: int| 0 <= i < all.len() && 0 <= j < all.len() && i != j implies all[i]
        != all[j] by {
        if i > 0 {
            assert(all[i] == new_ids[i - 1]);
        }
        if j > 0 {
            assert(all[j] == new_ids[j - 1]);
        }
    }
    assert forall|id: usize| #[trigger] after.sstables.contains_key(id)
        == after.table_ids().contains(id) by {
        lemma_with_tables_keys(v.sstables, tables, id);
    }
}

/// With leveled compaction, the first keys of each level ascend once the engine is open.
pub proof fn lemma_open_sorts_levels(v: StateView, tables: Seq<TableView>, level: int)
    requires
        1 <= level <= v.levels.len(),
    ensures
        first_keys_ascend(
            v.opened(tables, true).sstables,
            v.opened(tables, true).level_ids(level),
        ),
{
    lemma_sorted_ascends(v.opened(tables, true).sstables, v.level_ids(level));
}

proof fn lemma_multiset_of_three(a: Seq<usize>, b: Seq<usize>, c: Seq<usize>, id: usize)
    ensures
        (a + b + c).to_multiset().count(id) == a.to_multiset().count(id) + b.to_multiset().count(id)
            + c.to_multiset().count(id),
{
    vstd::seq_lib::lemma_multiset_commutative(a + b, c);
    vstd::seq_lib::lemma_multiset_commutative(a, b);
}

/// How often an id is listed, once a level lists other tables.
proof fn lemma_count_after_update(
    levels: Seq<(usize, Seq<usize>)>,
    i: int,
    ids: Seq<usize>,
    id: usize,
)
    requires
        0 <= i < levels.len(),
    ensures
        tier_ids(levels.update(i, (levels[i].0, ids))).to_multiset().count(id)
            + levels[i].1.to_multiset().count(id) == tier_ids(levels).to_multiset().count(id)
            + ids.to_multiset().count(id),
{
    let (head, tail) = (levels.take(i), levels.skip(i + 1));
    let level = (levels[i].0, ids);
    assert(levels =~= head + seq![levels[i]] + tail);
    assert(levels.update(i, level) =~= head + seq![level] + tail);
    lemma_tier_ids_of_concatenation(head + seq![levels[i]], tail);
    lemma_tier_ids_of_concatenation(head, seq![levels[i]]);
    lemma_tier_ids_of_concatenation(head + seq![level], tail);
    lemma_tier_ids_of_concatenation(head, seq![level]);
    lemma_tier_ids_of_one(levels[i]);
    lemma_tier_ids_of_one(level);
    lemma_multiset_of_three(tier_ids(head), levels[i].1, tier_ids(tail), id);
    lemma_multiset_of_three(tier_ids(head), ids, tier_ids(tail), id);
}

/// How often an id is listed, once a part of the list is replaced.
proof fn lemma_count_after_splice(
    ids: Seq<usize>,
    start: int,
    end: int,
    middle: Seq<usize>,
    id: usize,
)
    requires
        0 <= start <= end <= ids.len(),
    ensures
        spliced(ids, start, end, middle).to_multiset().count(id) + ids.subrange(
            start,
            end,
        ).to_multiset().count(id) == ids.to_multiset().count(id) + middle.to_multiset().count(id),
{
    let gone = ids.subrange(start, end);
    assert(ids =~= ids.take(start) + gone + ids.skip(end));
    lemma_multiset_of_three(ids.take(start), gone, ids.skip(end), id);
    lemma_multiset_of_three(ids.take(start), middle, ids.skip(end), id);
}

/// How often an id is listed, once a leveled compaction has been carried out.
proof fn lemma_count_after_leveled(
    v: StateView,
    task: LevelTaskView,
    output: Seq<usize>,
    id: usize,
)
    requires
        task_fits(v, task),
        task_is_live(v, task),
        names_what_overlaps(v, task),
        task.upper_level is None ==> task.upper_level_sst_ids == v.l0_sstables.skip(
            v.l0_sstables.len() - task.upper_level_sst_ids.len(),
        ),
    ensures
        compacted(v, task, output).table_ids().to_multiset().count(id) + (task.upper_level_sst_ids
            + task.lower_level_sst_ids).to_multiset().count(id) == v.table_ids().to_multiset().count(
            id,
        ) + output.to_multiset().count(id),
{
    let upper = task.upper_level_sst_ids;
    let lower = task.lower_level as int;
    let gone = without_upper(v, task);
    let after = compacted(v, task, output);
    let (from, to) = replaced_range(v, task);
    let ids = gone.level_ids(lower);
    let start = overlap_start(gone, lower, from);
    let end = overlap_end(gone, lower, to);
    lemma_prefix_len(ids, ends_before(gone.sstables, from));
    lemma_prefix_len(ids, starts_up_to(gone.sstables, to));
    lemma_count_after_splice(ids, start, end, output, id);
    lemma_count_after_update(gone.levels, lower - 1, spliced(ids, start, end, output), id);
    vstd::seq_lib::lemma_multiset_commutative(v.l0_sstables, tier_ids(v.levels));
    vstd::seq_lib::lemma_multiset_commutative(after.l0_sstables, tier_ids(after.levels));
    vstd::seq_lib::lemma_multiset_commutative(upper, task.lower_level_sst_ids);
    match task.upper_level {
        Some(level) => {
            let level = level as int;
            let (first, last) = upper_range(v, task);
            assert(v.sstables.contains_key(upper[0]));
            lemma_overlap_in_order(v, level, first, last);
            let (a, b) = (overlap_start(v, level, first), overlap_end(v, level, last));
            lemma_count_after_splice(v.level_ids(level), a, b, Seq::empty(), id);
            lemma_count_after_update(
                v.levels,
                level - 1,
                spliced(v.level_ids(level), a, b, Seq::empty()),
                id,
            );
            assert(Seq::<usize>::empty().to_multiset().count(id) == 0) by {
                broadcast use vstd::seq_lib::group_to_multiset_ensures;

            }
        },
        None => {
            let newer = v.l0_sstables.take(v.l0_sstables.len() - upper.len());
            assert(v.l0_sstables =~= newer + upper);
            vstd::seq_lib::lemma_multiset_commutative(newer, upper);
        },
    }
}

/// A leveled compaction keeps the state consistent, as long as its task names exactly the tables
/// that overlap its keys, and of L0 the earliest.
pub proof fn lemma_leveled_compaction_keeps_consistent(
    v: StateView,
    task: LevelTaskView,
    tables: Seq<TableView>,
    next: int,
)
    requires
        v.is_consistent(next),
        task_fits(v, task),
        task_is_live(v, task),
        names_what_overlaps(v, task),
        task.upper_level is None ==> task.upper_level_sst_ids == v.l0_sstables.skip(
            v.l0_sstables.len() - task.upper_level_sst_ids.len(),
        ),
        are_fresh(v, ids_of(tables), next),
    ensures
        compacted(v, task, ids_of(tables)).replaced(
            task.upper_level_sst_ids + task.lower_level_sst_ids,
            tables,
        ).is_consistent(next),
{
    broadcast use vstd::seq_lib::group_to_multiset_ensures;

    let output = ids_of(tables);
    let gone = task.upper_level_sst_ids + task.lower_level_sst_ids;
    let after = compacted(v, task, output).replaced(gone, tables);
    let before = seq![v.memtable] + v.imm_memtables;
    let (old_ids, new_ids) = (v.table_ids(), after.table_ids());
    let (old_all, new_all) = (v.recency(), after.recency());
    old_all.lemma_multiset_has_no_duplicates();
    output.lemma_multiset_has_no_duplicates();
    vstd::seq_lib::lemma_multiset_commutative(before, old_ids);
    vstd::seq_lib::lemma_multiset_commutative(before, new_ids);
    assert forall|id: usize|
        {
            let listed = old_all.to_multiset().count(id);
            &&& listed <= 1
            &&& output.to_multiset().count(id) <= 1
            &&& output.to_multiset().count(id) > 0 ==> listed == 0
            &&& #[trigger] new_all.to_multiset().count(id) + gone.to_multiset().count(id) == listed
                + output.to_multiset().count(id)
            &&& new_ids.to_multiset().count(id) + gone.to_multiset().count(id)
                == old_ids.to_multiset().count(id) + output.to_multiset().count(id)
        } by {
        lemma_count_after_leveled(v, task, output, id);
        assert(old_all.to_multiset().contains(id) ==> old_all.to_multiset().count(id) == 1);
        assert(output.to_multiset().contains(id) ==> output.to_multiset().count(id) == 1);
        if output.to_multiset().count(id) > 0 {
            assert(output.contains(id));
            let k = choose|k: int| 0 <= k < output.len() && output[k] == id;
            assert(!old_all.contains(output[k]));
        }
    }
    assert forall|id: usize| new_all.to_multiset().contains(id) implies new_all.to_multiset().count(
        id,
    ) == 1 by {
        assert(new_all.to_multiset().count(id) <= 1);
    }
    new_all.lemma_multiset_has_no_duplicates_conv();
    assert forall|i: int| 0 <= i < new_all.len() implies #[trigger] new_all[i] < next by {
        let id = new_all[i];
        assert(new_all.contains(id));
        assert(new_all.to_multiset().count(id) > 0);
        if old_all.to_multiset().count(id) > 0 {
            let k = choose|k: int| 0 <= k < old_all.len() && old_all[k] == id;
            assert(old_all[k] < next);
        } else {
            let k = choose|k: int| 0 <= k < output.len() && output[k] == id;
            assert(output[k] < next);
        }
    }
    assert forall|id: usize| #[trigger] after.sstables.contains_key(id)
        == after.table_ids().contains(id) by {
        lemma_with_tables_keys(v.sstables.remove_keys(gone.to_set()), tables, id);
        assert(v.sstables.contains_key(id) == old_ids.contains(id));
        assert(new_all.to_multiset().count(id) >= 0);
        // With nothing put in their place, the tables that are gone are gone from the lists.
        lemma_count_after_leveled(v, task, Seq::empty(), id);
        assert(gone.to_multiset().count(id) <= old_ids.to_multiset().count(id));
        assert(old_all.to_multiset().count(id) >= old_ids.to_multiset().count(id));
        assert(old_ids.contains(id) == (old_ids.to_multiset().count(id) > 0));
        assert(new_ids.contains(id) == (new_ids.to_multiset().count(id) > 0));
        assert(gone.contains(id) == (gone.to_multiset().count(id) > 0));
        assert(output.contains(id) == (output.to_multiset().count(id) > 0));
        assert(gone.to_set().contains(id) == gone.contains(id));
    }
}

/// What is left of a disjoint run is one.
proof fn lemma_rest_of_run_is_disjoint(v: StateView, ids: Seq<usize>, start: int, end: int)
    requires
        is_disjoint_run(v, ids),
        0 <= start <= end <= ids.len(),
    ensures
        is_disjoint_run(v, ids.take(start) + ids.skip(end)),
{
    let rest = ids.take(start) + ids.skip(end);
    let at = |i: int|
        if i < start {
            i
        } else {
            i - start + end
        };
    assert forall|i: int| 0 <= i < rest.len() implies #[trigger] rest[i] == ids[at(i)] by {}
    assert forall|i: int, j: int| 0 <= i < j < rest.len() implies key_lt(
        v.sstables[#[trigger] rest[i]].last_key,
        v.sstables[#[trigger] rest[j]].first_key,
    ) by {
        assert(rest[i] == ids[at(i)] && rest[j] == ids[at(j)]);
    }
    assert forall|i: int| 0 <= i < rest.len() implies {
        &&& v.sstables.contains_key(#[trigger] rest[i])
        &&& v.sstables[rest[i]].id == rest[i]
        &&& key_le(v.sstables[rest[i]].first_key, v.sstables[rest[i]].last_key)
    } by {
        assert(rest[i] == ids[at(i)]);
        assert(v.sstables.contains_key(ids[at(i)]));
    }
    lemma_disjoint_is_sorted(v, rest);
}

/// The lower tables of a task that stay where they are lie outside of the keys of the task.
pub(crate) proof fn lemma_rest_lies_outside(v: StateView, task: LevelTaskView)
    requires
        takes_all_overlapping(v, task),
        is_disjoint_run(v, v.level_ids(task.lower_level as int)),
        key_le(upper_range(v, task).0, upper_range(v, task).1),
    ensures
        ({
            let lower = task.lower_level as int;
            let ids = v.level_ids(lower);
            let start = overlap_start(v, lower, upper_range(v, task).0);
            let end = overlap_end(v, lower, upper_range(v, task).1);
            let span = task_span(v, task);
            &&& forall|i: int|
                0 <= i < start ==> key_lt(v.sstables[#[trigger] ids[i]].last_key, span.0)
            &&& forall|i: int|
                end <= i < ids.len() ==> key_lt(span.1, v.sstables[#[trigger] ids[i]].first_key)
        }),
{
    let lower = task.lower_level as int;
    let ids = v.level_ids(lower);
    let (first, last) = upper_range(v, task);
    let start = overlap_start(v, lower, first);
    let end = overlap_end(v, lower, last);
    let span = task_span(v, task);
    let (ends, starts) = (ends_before(v.sstables, first), starts_up_to(v.sstables, last));
    lemma_overlap_in_order(v, lower, first, last);
    lemma_prefix_len(ids, ends);
    lemma_prefix_len(ids, starts);
    if start < end {
        assert(task.lower_level_sst_ids.first() == ids[start]);
        assert(task.lower_level_sst_ids.last() == ids[end - 1]);
    }
    assert forall|i: int| 0 <= i < start implies key_lt(
        v.sstables[#[trigger] ids[i]].last_key,
        span.0,
    ) by {
        assert(ends(ids[i]));
        if start < end {
            assert(key_lt(v.sstables[ids[i]].last_key, v.sstables[ids[start]].first_key));
        }
    }
    assert forall|i: int| end <= i < ids.len() implies key_lt(
        span.1,
        v.sstables[#[trigger] ids[i]].first_key,
    ) by {
        assert(!starts(ids[end]));
        lemma_key_lt_total(v.sstables[ids[end]].first_key, last);
        if end < i {
            assert(key_le(v.sstables[ids[end]].first_key, v.sstables[ids[i]].first_key));
        }
        lemma_key_le_transitive(
            last,
            v.sstables[ids[end]].first_key,
            v.sstables[ids[i]].first_key,
        );
        if start < end {
            assert(key_lt(v.sstables[ids[end - 1]].last_key, v.sstables[ids[i]].first_key));
        }
    }
}

/// The lower level of a leveled task after the compaction.
proof fn lemma_leveled_lower_stays_disjoint(
    v: StateView,
    task: LevelTaskView,
    tables: Seq<TableView>,
    next: int,
)
    requires
        v.is_consistent(next),
        task_fits(v, task),
        task_is_live(v, task),
        names_what_overlaps(v, task),
        takes_all_overlapping(v, task),
        task.upper_level is None ==> task.upper_level_sst_ids == v.l0_sstables.skip(
            v.l0_sstables.len() - task.upper_level_sst_ids.len(),
        ),
        is_disjoint_run(v, v.level_ids(task.lower_level as int)),
        are_fresh(v, ids_of(tables), next),
        ranges_are_disjoint(tables),
        lie_within(tables, task_span(v, task)),
    ensures
        ({
            let after = compacted(v, task, ids_of(tables)).replaced(
                task.upper_level_sst_ids + task.lower_level_sst_ids,
                tables,
            );
            is_disjoint_run(after, after.level_ids(task.lower_level as int))
        }),
{
    let gone = task.upper_level_sst_ids + task.lower_level_sst_ids;
    let out = ids_of(tables);
    let after = compacted(v, task, out).replaced(gone, tables);
    let lower = task.lower_level as int;
    let ids = v.level_ids(lower);
    let span = task_span(v, task);
    lemma_upper_range_in_order(v, task);
    lemma_output_replaces_overlapping(v, task);
    lemma_rest_lies_outside(v, task);
    lemma_leveled_compaction_keeps_consistent(v, task, tables, next);
    let start = overlap_start(v, lower, upper_range(v, task).0);
    let end = overlap_end(v, lower, upper_range(v, task).1);
    let (head, tail) = (ids.take(start), ids.skip(end));
    let new = after.level_ids(lower);
    assert(new =~= head + out + tail);
    let kept = head + tail;
    lemma_level_ids_are_table_ids(v);
    lemma_level_ids_are_table_ids(after);
    assert forall|i: int| 0 <= i < kept.len() implies v.table_ids().contains(#[trigger] kept[i])
        && after.table_ids().contains(kept[i]) by {
        let (old_at, new_at) = if i < start {
            (i, i)
        } else {
            (i - start + end, i + out.len())
        };
        assert(kept[i] == v.level_ids(lower)[old_at]);
        assert(kept[i] == after.level_ids(lower)[new_at]);
    }
    lemma_rest_of_run_is_disjoint(v, ids, start, end);
    lemma_run_survives(v, after, gone, tables, next, kept);
    lemma_output_is_run(v, after, gone, tables);
    assert forall|i: int| 0 <= i < new.len() implies {
        &&& after.sstables.contains_key(#[trigger] new[i])
        &&& after.sstables[new[i]].id == new[i]
        &&& key_le(after.sstables[new[i]].first_key, after.sstables[new[i]].last_key)
        &&& i < start ==> new[i] == kept[i] && key_lt(after.sstables[new[i]].last_key, span.0)
        &&& start <= i < start + out.len() ==> after.sstables[new[i]] == tables[i - start]
        &&& start + out.len() <= i ==> new[i] == kept[i - out.len()] && key_lt(
            span.1,
            after.sstables[new[i]].first_key,
        )
    } by {
        if i < start {
            assert(new[i] == kept[i] && kept[i] == ids[i]);
        } else if i < start + out.len() {
            assert(new[i] == tables[i - start].id);
        } else {
            let k = i - out.len();
            assert(new[i] == kept[k] && kept[k] == ids[k - start + end]);
        }
    }
    assert forall|i: int, j: int| 0 <= i < j < new.len() implies key_lt(
        after.sstables[#[trigger] new[i]].last_key,
        after.sstables[#[trigger] new[j]].first_key,
    ) by {
        let (a, b) = (after.sstables[new[i]], after.sstables[new[j]]);
        let n = out.len();
        if i < start {
            if j < start {
                assert(new[i] == kept[i] && new[j] == kept[j]);
            } else if j < start + n {
                lemma_key_le_transitive(a.last_key, span.0, tables[j - start].first_key);
            } else {
                assert(new[i] == kept[i] && new[j] == kept[j - n]);
            }
        } else if i < start + n {
            if j < start + n {
                assert(a == tables[i - start] && b == tables[j - start]);
            } else {
                lemma_key_le_transitive(tables[i - start].last_key, span.1, b.first_key);
            }
        } else {
            assert(new[i] == kept[i - n] && new[j] == kept[j - n]);
        }
    }
    lemma_disjoint_is_sorted(after, new);
}

/// A leveled compaction keeps the tables of each level sorted and their key ranges apart, as long
/// as its task takes all tables of the lower level that overlap the upper ones, and the new tables
/// lie apart and between the keys of those that they replace.
pub proof fn lemma_leveled_compaction_keeps_disjoint(
    v: StateView,
    task: LevelTaskView,
    tables: Seq<TableView>,
    next: int,
    level: int,
)
    requires
        v.is_consistent(next),
        task_fits(v, task),
        task_is_live(v, task),
        names_what_overlaps(v, task),
        takes_all_overlapping(v, task),
        task.upper_level is None ==> task.upper_level_sst_ids == v.l0_sstables.skip(
            v.l0_sstables.len() - task.upper_level_sst_ids.len(),
        ),
        forall|other: int|
            1 <= other <= v.levels.len() ==> is_disjoint_run(v, #[trigger] v.level_ids(other)),
        are_fresh(v, ids_of(tables), next),
        ranges_are_disjoint(tables),
        lie_within(tables, task_span(v, task)),
        1 <= level <= v.levels.len(),
    ensures
        ({
            let after = compacted(v, task, ids_of(tables)).replaced(
                task.upper_level_sst_ids + task.lower_level_sst_ids,
                tables,
            );
            is_disjoint_run(after, after.level_ids(level))
        }),
{
    let gone = task.upper_level_sst_ids + task.lower_level_sst_ids;
    let after = compacted(v, task, ids_of(tables)).replaced(gone, tables);
    assert(is_disjoint_run(v, v.level_ids(level)));
    assert(is_disjoint_run(v, v.level_ids(task.lower_level as int)));
    lemma_leveled_compaction_keeps_consistent(v, task, tables, next);
    if level == task.lower_level {
        lemma_leveled_lower_stays_disjoint(v, task, tables, next);
    } else if task.upper_level is Some && task.upper_level->Some_0 == level {
        let ids = v.level_ids(level);
        let (first, last) = upper_range(v, task);
        lemma_upper_range_in_order(v, task);
        lemma_overlap_in_order(v, level, first, last);
        let (start, end) = (overlap_start(v, level, first), overlap_end(v, level, last));
        let kept = ids.take(start) + ids.skip(end);
        assert(after.level_ids(level) =~= kept);
        lemma_rest_of_run_is_disjoint(v, ids, start, end);
        lemma_level_ids_are_table_ids(v);
        lemma_level_ids_are_table_ids(after);
        assert forall|i: int| 0 <= i < kept.len() implies v.table_ids().contains(
            #[trigger] kept[i],
        ) && after.table_ids().contains(kept[i]) by {
            let at = if i < start {
                i
            } else {
                i - start + end
            };
            assert(kept[i] == v.level_ids(level)[at]);
            assert(kept[i] == after.level_ids(level)[i]);
        }
        lemma_run_survives(v, after, gone, tables, next, kept);
    } else {
        assert(after.level_ids(level) == v.level_ids(level));
        lemma_level_survives(v, after, gone, tables, next, level, level);
    }
}

} // verus!
