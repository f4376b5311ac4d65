//! What each operation of the storage engine makes of its state, list by list and table by table.

use vstd::prelude::*;

use super::inner::InnerView;
use super::read::{
    lemma_range_is_what_overlaps, lemma_sorted_run_is_searchable, reaches_into,
};
use super::recovery::{
    lemma_sorted_ascends, lemma_sorted_is_stable, lemma_sorted_keeps_tables, next_id,
    sorted_by_first_key, starts_at,
};
use super::replacement::{lemma_new_table, lemma_old_table};
use super::{ids_of, initial_state, with_tables, StateView};
use crate::compact::results::lemma_tier_ids_are_flat;
use crate::compact::{CompactionController, CompactionOptions, CompactionTaskView};
use crate::key::{
    bytes_le, bytes_lt, key_le, key_lt, lemma_key_lt_irreflexive, lemma_key_lt_total, KeyView,
};
use crate::manifest::RecordView;
use crate::table::{above_lower, below_upper, BoundView, TableView};

verus! {

/// An empty engine has an empty memtable numbered 0, no tables, and as many empty levels as its
/// strategy has, numbered from 1: none for tiered compaction, and one without compaction.
pub proof fn lemma_initial_state(options: CompactionOptions)
    ensures
        ({
            let v = initial_state(options);
            let count = match options {
                CompactionOptions::Leveled(o) => o.max_levels as int,
                CompactionOptions::Simple(o) => o.max_levels as int,
                CompactionOptions::Tiered(_) => 0,
                CompactionOptions::NoCompaction => 1,
            };
            &&& v.memtable == 0
            &&& v.imm_memtables.len() == 0
            &&& v.l0_sstables.len() == 0
            &&& v.sstables == Map::<usize, TableView>::empty()
            &&& v.levels.len() == count
            &&& forall|i: int|
                0 <= i < count ==> (#[trigger] v.levels[i]).0 == i + 1 && v.levels[i].1.len() == 0
        }),
{
}

/// Freezing makes the current memtable the latest of the immutable ones, and the next number that
/// of the new one. The number after that comes next, starting over after the greatest one. Nothing
/// else changes.
pub proof fn lemma_freeze(v: InnerView)
    ensures
        ({
            let after = v.after_freeze();
            let (old_imm, new_imm) = (v.state.imm_memtables, after.state.imm_memtables);
            &&& after.state.memtable == v.next_sst_id
            &&& new_imm.len() == old_imm.len() + 1
            &&& new_imm[0] == v.state.memtable
            &&& new_imm.skip(1) == old_imm
            &&& after.state.l0_sstables == v.state.l0_sstables
            &&& after.state.levels == v.state.levels
            &&& after.state.sstables == v.state.sstables
            &&& v.next_sst_id < usize::MAX ==> after.next_sst_id == v.next_sst_id + 1
            &&& v.next_sst_id == usize::MAX ==> after.next_sst_id == 0
            &&& after.options == v.options
            &&& after.compaction_controller == v.compaction_controller
            &&& after.compaction_filters == v.compaction_filters
        }),
{
    assert(v.after_freeze().state.imm_memtables.skip(1) =~= v.state.imm_memtables);
}

/// Flushing takes the earliest immutable memtable off the list and lists its table as the latest
/// of L0 or, with tiered compaction, as a tier of its own in front of the others, and files it.
/// Nothing else changes. Replaying its record lists it at the same place.
pub proof fn lemma_flush(v: StateView, controller: CompactionController, table: TableView)
    requires
        v.imm_memtables.len() > 0,
    ensures
        ({
            let after = v.flushed(!(controller is Tiered), table);
            let again = controller.after_record(v, RecordView::Flush(table.id));
            &&& after.memtable == v.memtable
            &&& after.imm_memtables == v.imm_memtables.take(v.imm_memtables.len() - 1)
            &&& after.sstables == v.sstables.insert(table.id, table)
            &&& after.l0_sstables == again.l0_sstables
            &&& after.levels == again.levels
            &&& again.memtable == v.memtable
            &&& again.imm_memtables == v.imm_memtables
            &&& again.sstables == v.sstables
            &&& if controller is Tiered {
                &&& after.l0_sstables == v.l0_sstables
                &&& after.levels.len() == v.levels.len() + 1
                &&& after.levels[0] == (table.id, seq![table.id])
                &&& after.levels.skip(1) == v.levels
            } else {
                &&& after.levels == v.levels
                &&& after.l0_sstables.len() == v.l0_sstables.len() + 1
                &&& after.l0_sstables[0] == table.id
                &&& after.l0_sstables.skip(1) == v.l0_sstables
            }
        }),
{
    let after = v.flushed(!(controller is Tiered), table);
    assert(after.imm_memtables =~= v.imm_memtables.take(v.imm_memtables.len() - 1));
    assert(controller is Tiered ==> after.levels.skip(1) =~= v.levels);
    assert(!(controller is Tiered) ==> after.l0_sstables.skip(1) =~= v.l0_sstables);
}

/// Replacing tables takes out exactly those that are gone and files exactly the new ones, each
/// under its id. All others stay as they are, and so do the lists.
pub proof fn lemma_replace(v: StateView, gone: Seq<usize>, tables: Seq<TableView>, id: usize)
    requires
        ids_of(tables).no_duplicates(),
    ensures
        ({
            let after = v.replaced(gone, tables);
            &&& after.memtable == v.memtable
            &&& after.imm_memtables == v.imm_memtables
            &&& after.l0_sstables == v.l0_sstables
            &&& after.levels == v.levels
            &&& after.sstables.contains_key(id) == (v.sstables.contains_key(id) && !gone.contains(
                id,
            ) || exists|i: int| 0 <= i < tables.len() && (#[trigger] tables[i]).id == id)
            &&& forall|i: int|
                0 <= i < tables.len() ==> after.sstables[(#[trigger] tables[i]).id] == tables[i]
            &&& v.sstables.contains_key(id) && !gone.contains(id) && (forall|i: int|
                0 <= i < tables.len() ==> (#[trigger] tables[i]).id != id) ==> after.sstables[id]
                == v.sstables[id]
        }),
{
    let map = v.sstables.remove_keys(gone.to_set());
    assert forall|i: int| 0 <= i < tables.len() implies with_tables(map, tables).contains_key(
        (#[trigger] tables[i]).id,
    ) && with_tables(map, tables)[tables[i].id] == tables[i] by {
        lemma_new_table(map, tables, i);
    }
    if ids_of(tables).contains(id) {
        let i = choose|i: int| 0 <= i < tables.len() && ids_of(tables)[i] == id;
        assert(tables[i].id == id);
    } else {
        assert forall|i: int| 0 <= i < tables.len() implies (#[trigger] tables[i]).id != id by {
            assert(ids_of(tables)[i] == tables[i].id);
        }
        lemma_old_table(map, tables, id);
    }
    assert(gone.to_set().contains(id) == gone.contains(id));
}

/// Tables can be replaced exactly if those that go are there and none is named twice, and none of
/// the new ones has the id of another new one or of one that stays.
pub proof fn lemma_can_replace(v: StateView, gone: Seq<usize>, tables: Seq<TableView>)
    ensures
        v.can_replace(gone, tables) == {
            &&& forall|i: int, j: int| 0 <= i < j < gone.len() ==> gone[i] != gone[j]
            &&& forall|i: int| 0 <= i < gone.len() ==> v.sstables.contains_key(#[trigger] gone[i])
            &&& forall|i: int, j: int|
                0 <= i < j < tables.len() ==> (#[trigger] tables[i]).id != (
                #[trigger] tables[j]).id
            &&& forall|i: int|
                0 <= i < tables.len() ==> gone.contains((#[trigger] tables[i]).id)
                    || !v.sstables.contains_key(tables[i].id)
        },
{
    let ids = ids_of(tables);
    assert forall|i: int| 0 <= i < tables.len() implies (#[trigger] tables[i]).id == ids[i] by {}
    if forall|i: int, j: int|
        0 <= i < j < tables.len() ==> (#[trigger] tables[i]).id != (#[trigger] tables[j]).id {
        assert forall|i: int, j: int|
            0 <= i < ids.len() && 0 <= j < ids.len() && i != j implies ids[i] != ids[j] by {
            assert(ids[i] == tables[i].id && ids[j] == tables[j].id);
        }
    }
    if ids.no_duplicates() {
        assert forall|i: int, j: int| 0 <= i < j < tables.len() implies (#[trigger] tables[i]).id
            != (#[trigger] tables[j]).id by {
            assert(ids[i] != ids[j]);
        }
    }
}

/// After a full compaction the first level lists the new tables, L0 those that were flushed since
/// the task was made, and the other levels what they did.
pub proof fn lemma_full_compaction(
    v: StateView,
    l0: Seq<usize>,
    l1: Seq<usize>,
    tables: Seq<TableView>,
)
    requires
        v.levels.len() > 0,
        l0.len() <= v.l0_sstables.len(),
    ensures
        ({
            let after = v.fully_compacted(l0, l1, tables);
            &&& after.memtable == v.memtable
            &&& after.imm_memtables == v.imm_memtables
            &&& after.l0_sstables == v.l0_sstables.take(v.l0_sstables.len() - l0.len())
            &&& after.levels.len() == v.levels.len()
            &&& after.levels[0].0 == v.levels[0].0
            &&& after.levels[0].1.len() == tables.len()
            &&& forall|i: int|
                0 <= i < tables.len() ==> after.levels[0].1[i] == (#[trigger] tables[i]).id
            &&& after.levels.skip(1) == v.levels.skip(1)
            &&& after.sstables == v.replaced(l0 + l1, tables).sstables
        }),
{
    let after = v.fully_compacted(l0, l1, tables);
    assert(after.levels.skip(1) =~= v.levels.skip(1));
}

/// The ids of the tables are those of L0, then those of each level.
pub proof fn lemma_table_ids(v: StateView)
    ensures
        v.table_ids() == v.l0_sstables + v.levels.map_values(
            |level: (usize, Seq<usize>)| level.1,
        ).flatten(),
{
    lemma_tier_ids_are_flat(v.levels);
}

/// An opened engine lists the tables that the recovered one listed, but that with leveled
/// compaction each level is sorted; every table that was opened is filed, and the memtable has the
/// least number above those of all tables.
pub proof fn lemma_open(v: StateView, tables: Seq<TableView>, leveled: bool)
    requires
        ids_of(tables).no_duplicates(),
        next_id(v.table_ids()) <= usize::MAX,
    ensures
        ({
            let after = v.opened(tables, leveled);
            let ids = v.table_ids();
            &&& after.imm_memtables == v.imm_memtables
            &&& after.l0_sstables == v.l0_sstables
            &&& !leveled ==> after.levels == v.levels
            &&& after.levels.len() == v.levels.len()
            &&& forall|i: int| 0 <= i < v.levels.len() ==> (#[trigger] after.levels[i]).0
                == v.levels[i].0
            &&& forall|i: int|
                0 <= i < tables.len() ==> after.sstables.contains_key((#[trigger] tables[i]).id)
                    && after.sstables[tables[i].id] == tables[i]
            &&& forall|i: int| 0 <= i < ids.len() ==> #[trigger] ids[i] < after.memtable
            &&& after.memtable == 0 || ids.contains((after.memtable - 1) as usize)
        }),
{
    let ids = v.table_ids();
    super::recovery::lemma_next_id(ids);
    assert forall|i: int| 0 <= i < tables.len() implies with_tables(
        v.sstables,
        tables,
    ).contains_key((#[trigger] tables[i]).id) && with_tables(v.sstables, tables)[tables[i].id]
        == tables[i] by {
        lemma_new_table(v.sstables, tables, i);
    }
    if next_id(ids) != 0 {
        let i = choose|i: int| 0 <= i < ids.len() && (#[trigger] ids[i]) + 1 == next_id(ids);
        assert(ids.contains(ids[i]));
    }
}

/// The byte string lies within the bounds of a range.
pub open spec fn lies_between(key: Seq<u8>, lower: BoundView, upper: BoundView) -> bool {
    &&& match lower {
        BoundView::Included(bound) => !bytes_lt(key, bound),
        BoundView::Excluded(bound) => bytes_lt(bound, key),
        BoundView::Unbounded => true,
    }
    &&& match upper {
        BoundView::Included(bound) => !bytes_lt(bound, key),
        BoundView::Excluded(bound) => bytes_lt(key, bound),
        BoundView::Unbounded => true,
    }
}

/// A scan reads all memtables, the latest first, and of L0 and of each level exactly those tables,
/// in their order, whose last key is not below the lower bound and whose first key is not above
/// the upper one.
pub proof fn lemma_scan_plan(v: StateView, lower: BoundView, upper: BoundView, key: Seq<u8>)
    requires
        v.holds(v.l0_sstables),
        v.levels_sorted(),
        lies_between(key, lower, upper),
    ensures
        ({
            let plan = v.scan_plan(lower, upper);
            let reaches = |id: usize|
                lies_between(v.sstables[id].last_key.key, lower, BoundView::Unbounded)
                    && lies_between(v.sstables[id].first_key.key, BoundView::Unbounded, upper);
            let table = |id: usize| v.sstables[id];
            &&& v.can_scan(lower, upper)
            &&& plan.memtables == seq![v.memtable] + v.imm_memtables
            &&& plan.l0 == v.l0_sstables.filter(reaches).map_values(table)
            &&& plan.levels.len() == v.levels.len()
            &&& forall|i: int|
                0 <= i < v.levels.len() ==> #[trigger] plan.levels[i] == v.levels[i].1.filter(
                    reaches,
                ).map_values(table)
        }),
{
    let plan = v.scan_plan(lower, upper);
    let reaches = |id: usize|
        lies_between(v.sstables[id].last_key.key, lower, BoundView::Unbounded) && lies_between(
            v.sstables[id].first_key.key,
            BoundView::Unbounded,
            upper,
        );
    let table = |id: usize| v.sstables[id];
    lemma_bounds(key, lower, upper);
    assert forall|id: usize| #[trigger] reaches(id) == reaches_into(v.sstables, lower, upper)(
        id,
    ) by {
        lemma_bounds(v.sstables[id].last_key.key, lower, BoundView::Unbounded);
        lemma_bounds(v.sstables[id].first_key.key, BoundView::Unbounded, upper);
    }
    assert(reaches =~= reaches_into(v.sstables, lower, upper));
    super::read::lemma_can_scan(v, lower, upper, key);
    assert(plan.l0 =~= v.l0_sstables.filter(reaches).map_values(table));
    assert forall|i: int| 0 <= i < v.levels.len() implies #[trigger] plan.levels[i]
        == v.levels[i].1.filter(reaches).map_values(table) by {
        let ids = v.level_ids(i + 1);
        assert(v.is_sorted_run(ids));
        lemma_sorted_run_is_searchable(v, ids, lower, upper, key);
        lemma_range_is_what_overlaps(v, ids, lower, upper);
        assert(plan.levels[i] =~= ids.filter(reaches).map_values(table));
    }
}

/// A byte string is not below a lower bound and not above an upper one exactly if it lies between.
pub proof fn lemma_bounds(key: Seq<u8>, lower: BoundView, upper: BoundView)
    ensures
        (above_lower(key, lower) && below_upper(key, upper)) == lies_between(key, lower, upper),
        above_lower(key, lower) == lies_between(key, lower, BoundView::Unbounded),
        below_upper(key, upper) == lies_between(key, BoundView::Unbounded, upper),
{
    if let BoundView::Included(bound) = lower {
        lemma_not_lt_is_le(key, bound);
    }
    if let BoundView::Included(bound) = upper {
        lemma_not_lt_is_le(bound, key);
    }
}

proof fn lemma_not_lt_is_le(a: Seq<u8>, b: Seq<u8>)
    ensures
        bytes_le(b, a) == !bytes_lt(a, b),
{
    crate::key::lemma_bytes_lt_total(a, b);
    crate::key::lemma_bytes_lt_irreflexive(a);
    if bytes_lt(a, b) && bytes_lt(b, a) {
        crate::key::lemma_bytes_lt_transitive(a, b, a);
    }
}

/// Tables are there if each is filed under its own id and its first key is not behind its last
/// one, and they are sorted if neither their first nor their last keys go down.
pub proof fn lemma_sorted_run(v: StateView, ids: Seq<usize>)
    ensures
        v.holds(ids) == (forall|i: int|
            0 <= i < ids.len() ==> v.sstables.contains_key(#[trigger] ids[i])
                && v.sstables[ids[i]].id == ids[i] && !key_lt(
                v.sstables[ids[i]].last_key,
                v.sstables[ids[i]].first_key,
            )),
        v.is_sorted_run(ids) == (v.holds(ids) && forall|i: int, j: int|
            0 <= i < j < ids.len() ==> !key_lt(
                v.sstables[#[trigger] ids[j]].first_key,
                v.sstables[#[trigger] ids[i]].first_key,
            ) && !key_lt(v.sstables[ids[j]].last_key, v.sstables[ids[i]].last_key)),
        v.levels_sorted() == (forall|i: int|
            0 <= i < v.levels.len() ==> v.is_sorted_run((#[trigger] v.levels[i]).1)),
{
    assert forall|a: KeyView, b: KeyView| #[trigger] key_le(a, b) == !key_lt(b, a) by {
        lemma_key_lt_total(a, b);
        lemma_key_lt_irreflexive(a);
    }
    assert forall|a: KeyView, b: KeyView| #[trigger] key_lt(b, a) == !key_le(a, b) by {
        lemma_key_lt_total(a, b);
        lemma_key_lt_irreflexive(a);
    }
    if v.levels_sorted() {
        assert forall|i: int| 0 <= i < v.levels.len() implies v.is_sorted_run(
            (#[trigger] v.levels[i]).1,
        ) by {
            assert(v.is_sorted_run(v.level_ids(i + 1)));
        }
    }
    if forall|i: int| 0 <= i < v.levels.len() ==> v.is_sorted_run((#[trigger] v.levels[i]).1) {
        assert forall|level: int| 1 <= level <= v.levels.len() implies v.is_sorted_run(
            #[trigger] v.level_ids(level),
        ) by {
            assert(v.is_sorted_run(v.levels[level - 1].1));
        }
    }
}

/// The key range of a table reaches into a range exactly if its last key is not below the lower
/// bound and its first key not above the upper one.
pub proof fn lemma_table_overlaps(table: TableView, lower: BoundView, upper: BoundView)
    ensures
        table.overlaps(lower, upper) == (lies_between(
            table.last_key.key,
            lower,
            BoundView::Unbounded,
        ) && lies_between(table.first_key.key, BoundView::Unbounded, upper)),
{
    lemma_bounds(table.last_key.key, lower, BoundView::Unbounded);
    lemma_bounds(table.first_key.key, BoundView::Unbounded, upper);
}

/// With leveled compaction, opening sorts each level: it lists the same tables, their first keys
/// do not go down, and tables with the same first key stay in their order.
pub proof fn lemma_open_sorts(v: StateView, tables: Seq<TableView>, i: int, key: KeyView)
    requires
        0 <= i < v.levels.len(),
    ensures
        ({
            let after = v.opened(tables, true);
            let (old_ids, new_ids) = (v.levels[i].1, after.levels[i].1);
            let starts = |id: usize| after.sstables[id].first_key == key;
            &&& new_ids.to_multiset() == old_ids.to_multiset()
            &&& forall|a: int, b: int|
                0 <= a < b < new_ids.len() ==> !key_lt(
                    after.sstables[#[trigger] new_ids[b]].first_key,
                    after.sstables[#[trigger] new_ids[a]].first_key,
                )
            &&& new_ids.filter(starts) == old_ids.filter(starts)
        }),
{
    let after = v.opened(tables, true);
    let map = with_tables(v.sstables, tables);
    let ids = v.levels[i].1;
    lemma_sorted_ascends(map, ids);
    lemma_sorted_keeps_tables(map, ids);
    lemma_sorted_is_stable(map, ids, key);
    let starts = |id: usize| after.sstables[id].first_key == key;
    assert(starts =~= starts_at(map, key));
    let new_ids = after.levels[i].1;
    assert(new_ids == sorted_by_first_key(map, ids));
    assert forall|a: int, b: int| 0 <= a < b < new_ids.len() implies !key_lt(
        after.sstables[#[trigger] new_ids[b]].first_key,
        after.sstables[#[trigger] new_ids[a]].first_key,
    ) by {
        let (x, y) = (map[new_ids[a]].first_key, map[new_ids[b]].first_key);
        assert(key_le(x, y));
        lemma_key_lt_total(x, y);
        lemma_key_lt_irreflexive(x);
    }
}

/// Every record of a flush can be replayed, none of a new memtable can, and one of a compaction can
/// exactly if the compaction can be carried out on the recovered state.
pub proof fn lemma_can_replay(
    controller: CompactionController,
    v: StateView,
    task: CompactionTaskView,
    output: Seq<usize>,
    id: usize,
)
    ensures
        controller.can_replay_record(v, RecordView::Flush(id)),
        !controller.can_replay_record(v, RecordView::NewMemtable(id)),
        controller.can_replay_record(v, RecordView::Compaction(task, output))
            == controller.can_apply(v, task, output, true),
{
}

} // verus!
