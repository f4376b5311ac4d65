//! What holds of the calls themselves: each law speaks of what an operation was called with and of
//! what it returned or left behind.

use std::sync::Arc;

use bytes::Bytes;
use vstd::prelude::*;

use crate::block::builder::{lemma_added_entry, lemma_refused_only_where_full, BlockBuilder};
use crate::block::{lemma_decode_of_encode, lemma_entry_layout, Block};
use crate::codec::{be_value, bytes_view};
use crate::compact::decisions::{
    are_targets, is_over, is_short, lemma_l0_goes_down_as_a_whole,
    lemma_level_gives_its_oldest_table, lemma_simple_task, lemma_tiered_task, outweighs, tables_in,
};
use crate::compact::leveled::{LeveledCompactionController, LeveledCompactionTask};
use crate::compact::output::{EntryAction, TableSplitter};
use crate::compact::results::{
    lemma_simple_result, lemma_strategy_decides, lemma_strategy_has_options, lemma_task_input,
    lemma_tiered_result,
};
use crate::compact::simple_leveled::{
    SimpleLeveledCompactionController, SimpleLeveledCompactionTask,
};
use crate::compact::tiered::{TieredCompactionController, TieredCompactionTask};
use crate::compact::{
    lemma_apply_keeps_tables, CompactionController, CompactionInput, CompactionOptions,
    CompactionTask,
};
use crate::hash::farm_hash;
use crate::iterators::StorageIterator;
use crate::key::{
    bytes_lt, lemma_bytes_lt_irreflexive, lemma_bytes_lt_is_lexicographic, lemma_bytes_lt_total,
    lemma_bytes_lt_transitive, lemma_key_order, KeySlice, KeyVec,
};
use crate::lsm_storage::inner::{CloseStep, LsmStorageInner};
use crate::lsm_storage::invariants::lemma_flush_is_replayed;
use crate::lsm_storage::lookups::lemma_get_action;
use crate::lsm_storage::operations::{
    lemma_flush, lemma_freeze, lemma_full_compaction, lemma_initial_state, lemma_open,
    lemma_replace, lemma_scan_plan, lemma_table_ids, lemma_table_overlaps, lies_between,
};
use crate::lsm_storage::read::{
    found_value, lemma_range_is_what_overlaps, reaches_into, GetAction, Lookup, ScanPlan,
};
use crate::lsm_storage::recovery::{find_next_id, lemma_next_id, next_id, records_view};
use crate::lsm_storage::replay::{
    is_exact, lemma_compaction_is_replayed, lemma_run_is_replayed, list_alike, records_of,
    ChangeView,
};
use crate::lsm_storage::scanning::lemma_skips_only_the_bound;
use crate::lsm_storage::{
    ids_of, tables_view, LsmStorageOptions, LsmStorageState, StateView,
};
use crate::manifest::{framed_all, lemma_records_are_recovered, ManifestRecord, RecoverStep};
use crate::mvcc::watermark::{
    is_contiguous, lemma_active_count_is_distinct, lemma_can_leave, lemma_front_is_lowest,
    lemma_join_counts, lemma_leave_counts, reader_count, Watermark,
};
use crate::skiplist::{list_entries, EntryList};
use crate::table::{BoundView, ScanBound, SsTable};
use crate::wal::{
    batch_view, entries_len, fits_layout, insert_all, lemma_replay_of_appended_batch, WalError,
};

verus! {

/// What a state stands for, said of its fields.
pub proof fn lemma_state(state: &LsmStorageState)
    ensures
        state@.memtable == state.memtable@,
        state@.imm_memtables.len() == state.imm_memtables@.len(),
        forall|i: int|
            0 <= i < state.imm_memtables@.len() ==> #[trigger] state@.imm_memtables[i]
                == state.imm_memtables@[i]@,
        state@.l0_sstables == state.l0_sstables@,
        state@.levels.len() == state.levels@.len(),
        forall|i: int|
            0 <= i < state.levels@.len() ==> (#[trigger] state@.levels[i]).0 == state.levels@[i].0
                && state@.levels[i].1 == state.levels@[i].1@,
        state@.sstables.dom() == state.sstables@.dom(),
        forall|id: usize| #[trigger]
            state.sstables@.contains_key(id) ==> state@.sstables[id] == state.sstables@[id]@,
{
}

/// Where enough tables are in L0, the task that comes back is to merge all of L0, in its order.
pub proof fn lemma_generated_task_takes_l0(
    controller: &LeveledCompactionController,
    state: &LsmStorageState,
    task: Option<LeveledCompactionTask>,
    targets: Seq<int>,
)
    requires
        controller.can_generate(state@),
        are_targets(state@, controller.options(), targets),
        call_ensures(
            LeveledCompactionController::generate_compaction_task,
            (controller, state),
            task,
        ),
        state.l0_sstables@.len() >= controller.options().level0_file_num_compaction_trigger,
    ensures
        task matches Some(task) && task.upper_level is None && task.upper_level_sst_ids@
            == state.l0_sstables@,
{
    lemma_l0_goes_down_as_a_whole(
        *controller,
        state@,
        crate::compact::leveled::task_view(task),
        targets,
    );
}

/// Below that, the task is to merge the table with the least id of a level that holds more than it
/// should into the level below it, and there is none exactly if no level does.
pub proof fn lemma_generated_task_takes_oldest_table(
    controller: &LeveledCompactionController,
    state: &LsmStorageState,
    task: Option<LeveledCompactionTask>,
    targets: Seq<int>,
)
    requires
        controller.can_generate(state@),
        are_targets(state@, controller.options(), targets),
        call_ensures(
            LeveledCompactionController::generate_compaction_task,
            (controller, state),
            task,
        ),
        state.l0_sstables@.len() < controller.options().level0_file_num_compaction_trigger,
    ensures
        match task {
            None => forall|level: int|
                !#[trigger] is_over(state@, controller.options(), targets, level),
            Some(task) => {
                let upper = task.upper_level->Some_0 as int;
                let ids = state.levels@[upper - 1].1@;
                &&& task.upper_level is Some
                &&& is_over(state@, controller.options(), targets, upper)
                &&& task.lower_level == upper + 1
                &&& task.upper_level_sst_ids@.len() == 1
                &&& ids.contains(task.upper_level_sst_ids@[0])
                &&& forall|i: int|
                    0 <= i < ids.len() ==> task.upper_level_sst_ids@[0] <= #[trigger] ids[i]
            },
        },
{
    lemma_level_gives_its_oldest_table(
        *controller,
        state@,
        crate::compact::leveled::task_view(task),
        targets,
    );
}

/// The tiers that a task takes without too much space amplification: those above the first tier
/// that outweighs them.
pub proof fn lemma_generated_task_takes_tiers(
    controller: &TieredCompactionController,
    state: &LsmStorageState,
    task: Option<TieredCompactionTask>,
    k: int,
)
    requires
        controller.can_generate(state@),
        call_ensures(
            TieredCompactionController::generate_compaction_task,
            (controller, state),
            task,
        ),
        state.levels@.len() > 0,
        (100 + controller.options().size_ratio) * tables_in(state@.levels) < 0x4_0000_0000_0000,
        controller.options().max_size_amplification_percent * tables_in(state@.levels)
            < 0x4_0000_0000_0000,
    ensures
        ({
            let (tiers, o) = (state@.levels, controller.options());
            let n = tiers.len() as int;
            let from = o.min_merge_width as int;
            &&& (task is None) == (n < o.num_tiers)
            &&& n >= o.num_tiers && tables_in(tiers.drop_last()) * 100
                < o.max_size_amplification_percent * tiers[n - 1].1.len() && from <= k < n
                && outweighs(tiers, o, k) && (forall|i: int|
                from <= i < k ==> !#[trigger] outweighs(tiers, o, i)) ==> {
                &&& task matches Some(task) && !task.bottom_tier_included && task.tiers@.len() == k
                    && forall|i: int|
                    0 <= i < k ==> (#[trigger] task.tiers@[i]).0 == state.levels@[i].0
                        && task.tiers@[i].1@ == state.levels@[i].1@
            }
        }),
{
    lemma_tiered_task(state@.levels, controller.options());
    if let Some(task) = task {
        assert forall|i: int| 0 <= i < task.tiers@.len() implies (#[trigger] task.tiers@[i]).0
            == task@.tiers[i].0 && task.tiers@[i].1@ == task@.tiers[i].1 by {}
        assert(task@.tiers.len() == task.tiers@.len());
    }
}

/// The level that a task takes whole: the first one beside which the next one is short.
pub proof fn lemma_generated_task_takes_whole_level(
    controller: &SimpleLeveledCompactionController,
    state: &LsmStorageState,
    task: Option<SimpleLeveledCompactionTask>,
)
    requires
        controller.can_generate(state@),
        call_ensures(
            SimpleLeveledCompactionController::generate_compaction_task,
            (controller, state),
            task,
        ),
        state.l0_sstables@.len() * (100 + controller.options().size_ratio_percent)
            < 0x10_0000_0000_0000,
        forall|i: int|
            0 <= i < state.levels@.len() ==> (#[trigger] state.levels@[i]).1@.len() * (100
                + controller.options().size_ratio_percent) < 0x10_0000_0000_0000,
    ensures
        ({
            let o = controller.options();
            match task {
                None => forall|level: int|
                    0 <= level < state.levels@.len() ==> !#[trigger] is_short(state@, o, level),
                Some(task) => {
                    let level = task.lower_level - 1;
                    &&& 0 <= level < state.levels@.len()
                    &&& is_short(state@, o, level)
                    &&& forall|l: int| 0 <= l < level ==> !#[trigger] is_short(state@, o, l)
                    &&& task.lower_level_sst_ids@ == state.levels@[level].1@
                    &&& task.is_lower_level_bottom_level == (level + 1 == state.levels@.len())
                    &&& level == 0 ==> task.upper_level is None && task.upper_level_sst_ids@
                        == state.l0_sstables@
                    &&& level > 0 ==> task.upper_level == Some(level as usize)
                        && task.upper_level_sst_ids@ == state.levels@[level - 1].1@
                },
            }
        }),
{
    assert forall|level: int| 1 <= level <= state@.levels.len() implies (
    #[trigger] state@.levels[level - 1]).1.len() * (100 + controller.options().size_ratio_percent)
        < 0x10_0000_0000_0000 by {
        assert(state.levels@[level - 1].1@ == state@.levels[level - 1].1);
    }
    lemma_simple_task(
        state@,
        controller.options(),
        crate::compact::simple_leveled::task_view(task),
    );
}

/// The tables that a task reads, and whether what comes out lies at the bottom.
pub proof fn lemma_input_of_task(task: &CompactionTask, input: CompactionInput, bottom: bool)
    requires
        !(task is Leveled),
        call_ensures(CompactionTask::input, (task,), input),
        call_ensures(CompactionTask::compact_to_bottom_level, (task,), bottom),
    ensures
        match *task {
            CompactionTask::Tiered(t) => {
                &&& input matches CompactionInput::Merged(runs) && runs@.len() == t.tiers@.len()
                    && forall|i: int|
                    0 <= i < runs@.len() ==> (#[trigger] runs@[i])@ == t.tiers@[i].1@
                &&& bottom == t.bottom_tier_included
            },
            CompactionTask::Simple(t) => {
                &&& input matches CompactionInput::Onto { upper, lower } && lower@
                    == t.lower_level_sst_ids@ && if t.upper_level is Some {
                    upper@.len() == 1 && upper@[0]@ == t.upper_level_sst_ids@
                } else {
                    upper@.len() == t.upper_level_sst_ids@.len() && forall|i: int|
                        0 <= i < upper@.len() ==> (#[trigger] upper@[i])@
                            == seq![t.upper_level_sst_ids@[i]]
                }
                &&& bottom == t.is_lower_level_bottom_level
            },
            CompactionTask::ForceFullCompaction { l0_sstables, l1_sstables } => {
                &&& input matches CompactionInput::Onto { upper, lower } && lower@ == l1_sstables@
                    && upper@.len() == l0_sstables@.len() && forall|i: int|
                    0 <= i < upper@.len() ==> (#[trigger] upper@[i])@ == seq![l0_sstables@[i]]
                &&& bottom
            },
            CompactionTask::Leveled(_) => true,
        },
{
    lemma_task_input(task@);
    match input {
        CompactionInput::Merged(runs) => {
            assert forall|i: int| 0 <= i < runs@.len() implies (#[trigger] runs@[i])@
                == crate::compact::runs_view(runs@)[i] by {}
        },
        CompactionInput::Onto { upper, lower } => {
            assert forall|i: int| 0 <= i < upper@.len() implies (#[trigger] upper@[i])@
                == crate::compact::runs_view(upper@)[i] by {}
        },
    }
}

/// A compaction, done live and replayed from its record: where both states listed the same tables
/// before, they do so after.
pub proof fn lemma_record_replays_compaction(
    controller: &CompactionController,
    live: &LsmStorageState,
    task: CompactionTask,
    tables: Vec<Arc<SsTable>>,
    ids: &[usize],
    live_after: (LsmStorageState, Vec<usize>),
    output: Vec<usize>,
    recovered: LsmStorageState,
    recovered_after: LsmStorageState,
)
    requires
        list_alike(*controller, live@, recovered@),
        controller.can_apply(live@, task@, output@, false),
        is_exact(live@, task@),
        ids@ == ids_of(tables_view(tables@)),
        output@ == ids@,
        call_ensures(
            CompactionController::apply_compaction_result,
            (controller, live, &task, ids, false),
            live_after,
        ),
        call_ensures(
            CompactionController::apply_record,
            (controller, recovered, &ManifestRecord::Compaction(task, output)),
            recovered_after,
        ),
    ensures
        list_alike(*controller, live_after.0@, recovered_after@),
{
    lemma_compaction_is_replayed(*controller, live@, recovered@, task@, tables_view(tables@));
}

/// What a read does next: a value that was found is the answer, an empty one that there is none;
/// the bloom filter of an L0 table is asked for the hash of the whole key.
pub proof fn lemma_next_lookup(
    state: &LsmStorageState,
    key: &[u8],
    step: usize,
    found: Option<&[u8]>,
    action: GetAction,
)
    requires
        state@.levels_sorted(),
        call_ensures(LsmStorageState::get_action, (state, key, step, found), action),
    ensures
        ({
            let imm = state.imm_memtables@.len() as int;
            let l0 = state.l0_sstables@.len() as int;
            &&& found matches Some(value) ==> {
                &&& action matches GetAction::Return(answer)
                &&& (answer is None) == (value@.len() == 0)
                &&& answer matches Some(answer) ==> bytes_view(answer) == value@
            }
            &&& found is None && step == 0 ==> {
                &&& action matches GetAction::Look(lookup)
                &&& lookup matches Lookup::Memtable(id)
                &&& id == state.memtable@
            }
            &&& found is None && 1 <= step <= imm ==> {
                &&& action matches GetAction::Look(lookup)
                &&& lookup matches Lookup::Memtable(id)
                &&& id == state.imm_memtables@[step - 1]@
            }
            &&& found is None && imm < step <= imm + l0 ==> {
                &&& action matches GetAction::Look(lookup)
                &&& lookup matches Lookup::Table { table, hash }
                &&& table@ == state@.sstables[state.l0_sstables@[step - imm - 1]]
                &&& table@.has_bloom ==> hash == Some(farm_hash(key@))
                &&& !table@.has_bloom ==> hash is None
            }
            &&& found is None && step > imm + l0 + state.levels@.len() ==> {
                &&& action matches GetAction::Return(answer)
                &&& answer is None
            }
        }),
{
    lemma_get_action(
        state@,
        key@,
        step as int,
        crate::lsm_storage::read::optional_slice(found),
    );
}

/// A block takes an entry if it is empty or if the bytes of its entries and of the new one, and as
/// many more as it has entries, stay within the block size. A refused entry changes nothing; one
/// that is taken goes behind the others.
pub proof fn lemma_block_takes_entry(
    builder: &mut BlockBuilder,
    key: KeySlice<'_>,
    value: &[u8],
    accepted: bool,
)
    requires
        call_ensures(BlockBuilder::add, (builder, key, value), accepted),
        key@.key.len() <= u16::MAX,
        value@.len() <= u16::MAX,
    ensures
        accepted == (old(builder)@.block.data.len() == 0 || old(builder)@.block.data.len()
            + old(builder)@.block.offsets.len() + key@.key.len() + value@.len() + 6
            <= old(builder)@.block_size),
        !accepted ==> final(builder)@ == old(builder)@,
        accepted ==> final(builder)@.block.data.take(old(builder)@.block.data.len() as int)
            == old(builder)@.block.data && final(builder)@.block.data.len()
            == old(builder)@.block.data.len() + 4 + key@.key.len() + value@.len()
            && final(builder)@.block.offsets.drop_last() == old(builder)@.block.offsets,
{
    lemma_refused_only_where_full(old(builder)@, key@.key, value@);
    lemma_added_entry(old(builder)@, key@, value@);
}

/// A block that is written and read again is the same block.
pub proof fn lemma_block_reads_back(
    block: &Block,
    written: Bytes,
    data: &[u8],
    read: Block,
)
    requires
        block@.offsets.len() <= u16::MAX,
        call_ensures(Block::encode, (block,), written),
        data@ == bytes_view(written),
        call_ensures(Block::decode, (data,), read),
    ensures
        read@ == block@,
{
    lemma_decode_of_encode(block@);
}

/// A flush is called for as soon as there are as many immutable memtables as the limit.
pub proof fn lemma_should_flush(inner: &LsmStorageInner, flush: bool)
    requires
        call_ensures(LsmStorageInner::should_flush, (inner,), flush),
    ensures
        flush == (inner@.state.imm_memtables.len() >= inner@.options.num_memtable_limit),
{
}

/// Closing without a write-ahead log ends only once the memtables are flushed; with one, at once.
pub proof fn lemma_close_step(inner: &LsmStorageInner, memtable_is_done: bool, step: CloseStep)
    requires
        call_ensures(LsmStorageInner::close_step, (inner, memtable_is_done), step),
    ensures
        step == CloseStep::Done <==> inner@.options.enable_wal || memtable_is_done
            && inner@.state.imm_memtables.len() == 0,
        step == CloseStep::Freeze <==> !inner@.options.enable_wal && !memtable_is_done,
        step == CloseStep::Flush <==> !inner@.options.enable_wal && memtable_is_done
            && inner@.state.imm_memtables.len() > 0,
{
}

/// A memtable is frozen once it has reached the target size and still is as large: it becomes the
/// first of the immutable ones, and nothing else does.
pub proof fn lemma_try_freeze(
    inner: &mut LsmStorageInner,
    new_size: usize,
    size: usize,
    freeze: bool,
)
    requires
        call_ensures(LsmStorageInner::try_freeze_memtable, (inner, new_size, size), freeze),
    ensures
        freeze == (new_size >= old(inner)@.options.target_sst_size && size >= old(
            inner,
        )@.options.target_sst_size),
        !freeze ==> final(inner)@ == old(inner)@,
        freeze ==> {
            let (before, after) = (old(inner)@.state, final(inner)@.state);
            &&& after.memtable == old(inner)@.next_sst_id
            &&& after.imm_memtables.len() == before.imm_memtables.len() + 1
            &&& after.imm_memtables[0] == before.memtable
            &&& after.imm_memtables.skip(1) == before.imm_memtables
            &&& after.l0_sstables == before.l0_sstables
            &&& after.levels == before.levels
            &&& after.sstables == before.sstables
        },
{
    lemma_freeze(old(inner)@);
}

/// A flush takes the earliest memtable off and lists its table first, in L0 or as a tier of its
/// own. Replayed from its record, it lists the same.
pub proof fn lemma_flush_and_record(
    inner: &mut LsmStorageInner,
    table: Arc<SsTable>,
    record: ManifestRecord,
    recovered: LsmStorageState,
    recovered_after: LsmStorageState,
)
    requires
        old(inner)@.state.imm_memtables.len() > 0,
        call_ensures(LsmStorageInner::finish_flush, (inner, table), record),
        old(inner)@.state.l0_sstables == recovered@.l0_sstables,
        old(inner)@.state.levels == recovered@.levels,
        call_ensures(
            CompactionController::apply_record,
            (&old(inner)@.compaction_controller, recovered, &record),
            recovered_after,
        ),
    ensures
        ({
            let (before, after) = (old(inner)@.state, final(inner)@.state);
            &&& record == ManifestRecord::Flush(table@.id)
            &&& after.imm_memtables == before.imm_memtables.take(before.imm_memtables.len() - 1)
            &&& after.memtable == before.memtable
            &&& after.sstables == before.sstables.insert(table@.id, table@)
            &&& after.l0_sstables == recovered_after@.l0_sstables
            &&& after.levels == recovered_after@.levels
            &&& if old(inner)@.compaction_controller is Tiered {
                after.l0_sstables == before.l0_sstables && after.levels == seq![
                    (table@.id, seq![table@.id]),
                ] + before.levels
            } else {
                after.l0_sstables == seq![table@.id] + before.l0_sstables && after.levels
                    == before.levels
            }
            &&& final(inner)@.next_sst_id == old(inner)@.next_sst_id
        }),
{
    let (before, after) = (old(inner)@.state, final(inner)@.state);
    let controller = old(inner)@.compaction_controller;
    lemma_flush(before, controller, table@);
    lemma_flush_is_replayed(controller, before, recovered@, table@);
    if controller is Tiered {
        assert(after.levels =~= seq![(table@.id, seq![table@.id])] + before.levels) by {
            assert(after.levels.skip(1) == before.levels);
            assert forall|i: int| 1 <= i < after.levels.len() implies #[trigger] after.levels[i]
                == before.levels[i - 1] by {
                assert(after.levels.skip(1)[i - 1] == after.levels[i]);
            }
        }
    } else {
        assert(after.l0_sstables =~= seq![table@.id] + before.l0_sstables) by {
            assert forall|i: int| 1 <= i < after.l0_sstables.len() implies
                #[trigger] after.l0_sstables[i] == before.l0_sstables[i - 1] by {
                assert(after.l0_sstables.skip(1)[i - 1] == after.l0_sstables[i]);
            }
        }
    }
}

/// A full compaction puts its tables in the first level, takes what it read off L0 from the end,
/// and gives back the ids of what it read.
pub proof fn lemma_finish_full_compaction(
    inner: &mut LsmStorageInner,
    l0: &Vec<usize>,
    l1: &Vec<usize>,
    tables: Vec<Arc<SsTable>>,
    unused: Vec<usize>,
    id: usize,
)
    requires
        old(inner)@.state.levels.len() > 0,
        l0@.len() <= old(inner)@.state.l0_sstables.len(),
        ids_of(tables_view(tables@)).no_duplicates(),
        call_ensures(LsmStorageInner::finish_full_compaction, (inner, l0, l1, tables), unused),
    ensures
        ({
            let (before, after) = (old(inner)@.state, final(inner)@.state);
            &&& unused@ == l0@ + l1@
            &&& after.l0_sstables == before.l0_sstables.take(
                before.l0_sstables.len() - l0@.len(),
            )
            &&& after.levels.len() == before.levels.len()
            &&& after.levels.skip(1) == before.levels.skip(1)
            &&& after.levels[0].1.len() == tables@.len()
            &&& forall|i: int|
                0 <= i < tables@.len() ==> after.levels[0].1[i] == (#[trigger] tables@[i])@.id
            &&& after.memtable == before.memtable
            &&& after.imm_memtables == before.imm_memtables
            &&& after.sstables.contains_key(id) == (before.sstables.contains_key(id)
                && !unused@.contains(id) || exists|i: int|
                0 <= i < tables@.len() && (#[trigger] tables@[i])@.id == id)
        }),
{
    let v = old(inner)@.state;
    let views = tables_view(tables@);
    lemma_full_compaction(v, l0@, l1@, views);
    lemma_replace(v, l0@ + l1@, views, id);
    assert forall|i: int| 0 <= i < tables@.len() implies (#[trigger] tables@[i])@ == views[i] by {}
    if exists|i: int| 0 <= i < views.len() && (#[trigger] views[i]).id == id {
        let i = choose|i: int| 0 <= i < views.len() && (#[trigger] views[i]).id == id;
        assert(tables@[i]@.id == id);
    }
    let after = final(inner)@.state;
    assert forall|i: int| 0 <= i < tables@.len() implies after.levels[0].1[i] == (
    #[trigger] tables@[i])@.id by {
        assert(views[i].id == after.levels[0].1[i]);
    }
}

/// An entry at the bottom level is dropped exactly if it is a deletion; any other goes to the open
/// table, or starts one. A table is complete once it has reached the target size, and what is open
/// at the end is complete then.
pub proof fn lemma_splitter_calls(
    splitter: &mut TableSplitter,
    value: &[u8],
    action: EntryAction,
    later: &mut TableSplitter,
    estimated_size: usize,
    complete: bool,
    ended: TableSplitter,
    last: bool,
)
    requires
        call_ensures(TableSplitter::next_entry, (splitter, value), action),
        call_ensures(TableSplitter::entry_added, (later, estimated_size), complete),
        call_ensures(TableSplitter::finish, (ended,), last),
    ensures
        (action is Drop) == (old(splitter)@.is_bottom_level && value@.len() == 0),
        action is Append ==> old(splitter)@.is_open,
        action is StartTable ==> !old(splitter)@.is_open,
        !(action is Drop) ==> final(splitter)@.is_open,
        action is Drop ==> final(splitter)@ == old(splitter)@,
        complete == (estimated_size >= old(later)@.target_sst_size),
        final(later)@.is_open == !complete,
        final(later)@.is_bottom_level == old(later)@.is_bottom_level,
        final(later)@.target_sst_size == old(later)@.target_sst_size,
        last == ended@.is_open,
{
}

/// A reader that joins is counted once more at its timestamp and at no other.
pub proof fn lemma_reader_joins(watermark: &mut Watermark, ts: u64, other: u64)
    requires
        old(watermark)@.len() > 0 && old(watermark)@.last().0 == ts ==> old(
            watermark,
        )@.last().1 < usize::MAX,
        call_ensures(Watermark::add_reader, (watermark, ts), ()),
    ensures
        reader_count(final(watermark)@, other) == reader_count(old(watermark)@, other) + (
        if other == ts {
            1nat
        } else {
            0nat
        }),
{
    lemma_join_counts(old(watermark)@, ts, other);
}

/// The watermark is the least timestamp with readers.
pub proof fn lemma_watermark_is_least(watermark: &Watermark, lowest: Option<u64>, ts: u64)
    requires
        is_contiguous(watermark@),
        call_ensures(Watermark::watermark, (watermark,), lowest),
    ensures
        lowest matches Some(lowest) ==> reader_count(watermark@, lowest) > 0,
        reader_count(watermark@, ts) > 0 ==> lowest is Some && lowest->Some_0 <= ts,
{
    lemma_front_is_lowest(watermark@, ts);
}

/// A batch that is appended to a log adds its entries to what the log gives back.
pub proof fn lemma_appended_batch_is_replayed(
    data: &[(KeySlice<'_>, &[u8])],
    batch: Vec<u8>,
    log: &[u8],
    list: &mut EntryList,
    first: Result<(), WalError>,
    longer: &[u8],
    other: &mut EntryList,
    second: Result<(), WalError>,
)
    requires
        crate::wal::is_readable(log@),
        entries_len(batch_view(data@)) < 0x1_0000_0000,
        forall|i: int| 0 <= i < data@.len() ==> fits_layout(#[trigger] batch_view(data@)[i]),
        call_ensures(crate::wal::encode_batch, (data,), batch),
        longer@ == log@ + batch@,
        list_entries(*old(list)) == list_entries(*old(other)),
        call_ensures(crate::wal::replay, (log, list), first),
        first is Ok,
        call_ensures(crate::wal::replay, (longer, other), second),
    ensures
        second is Ok,
        list_entries(*final(other)) == insert_all(list_entries(*final(list)), batch_view(data@)),
{
    lemma_replay_of_appended_batch(log@, batch_view(data@), list_entries(*old(list)));
}

/// Bytes are compared from the front: the lesser ones are a prefix or have the lesser byte first.
pub proof fn lemma_bytes_are_compared(a: &[u8], b: &[u8], less: bool)
    requires
        call_ensures(crate::key::bytes_less, (a, b), less),
    ensures
        less == exists|k: int|
            0 <= k <= a@.len() && k < b@.len() && #[trigger] a@.take(k) == b@.take(k) && (k
                == a@.len() || a@[k] < b@[k]),
{
    lemma_bytes_lt_is_lexicographic(a@, b@);
}

/// Keys are ordered by their bytes, and those with the same bytes from the latest to the earliest.
pub proof fn lemma_keys_are_compared(a: &KeySlice<'_>, b: &KeySlice<'_>, less: bool)
    requires
        call_ensures(KeySlice::is_less, (a, b), less),
    ensures
        a@.key != b@.key ==> less == bytes_lt(a@.key, b@.key),
        a@.key == b@.key ==> less == (a@.ts > b@.ts),
{
    lemma_key_order(a@, b@);
    lemma_key_order(b@, a@);
    lemma_bytes_lt_total(a@.key, b@.key);
}

/// A tiered compaction puts its output, as one tier named after its first table, where the tiers
/// that it merged stood, and gives back the ids of their tables, live and in recovery alike.
pub proof fn lemma_result_of_tiered(
    controller: &CompactionController,
    state: &LsmStorageState,
    task: &CompactionTask,
    output: &[usize],
    in_recovery: bool,
    result: (LsmStorageState, Vec<usize>),
    pos: int,
)
    requires
        task matches CompactionTask::Tiered(t) && {
            &&& output@.len() > 0
            &&& 0 <= pos <= state.levels@.len() - t.tiers@.len()
            &&& forall|i: int|
                0 <= i < t.tiers@.len() ==> (#[trigger] t.tiers@[i]).0 == state.levels@[pos + i].0
                    && t.tiers@[i].1@ == state.levels@[pos + i].1@
            &&& t.bottom_tier_included ==> pos + t.tiers@.len() == state.levels@.len()
            &&& !t.bottom_tier_included ==> t.tiers@.len() > 0 && forall|i: int|
                0 <= i < pos ==> (#[trigger] state.levels@[i]).0 != t.tiers@[0].0
        },
        call_ensures(
            CompactionController::apply_compaction_result,
            (controller, state, task, output, in_recovery),
            result,
        ),
    ensures
        ({
            let (before, after) = (state@.levels, result.0@.levels);
            let t = task->Tiered_0;
            &&& after == before.take(pos) + seq![(output@[0], output@)] + before.skip(
                pos + t.tiers@.len(),
            )
            &&& result.1@ == t.tiers@.map_values(
                |tier: (usize, Vec<usize>)| tier.1@,
            ).flatten()
            &&& result.0@.l0_sstables == state.l0_sstables@
            &&& result.0@.sstables == state@.sstables
            &&& result.0@.memtable == state@.memtable
            &&& result.0@.imm_memtables == state@.imm_memtables
        }),
{
    let t = task->Tiered_0;
    let view = t@;
    assert(view.tiers.len() == t.tiers@.len());
    assert forall|i: int| 0 <= i < view.tiers.len() implies #[trigger] view.tiers[i]
        == state@.levels[pos + i] by {
        assert(t.tiers@[i].1@ == state.levels@[pos + i].1@);
    }
    assert(state@.levels.subrange(pos, pos + view.tiers.len()) =~= view.tiers);
    if !t.bottom_tier_included {
        assert forall|i: int| 0 <= i < pos implies (#[trigger] state@.levels[i]).0
            != view.tiers[0].0 by {
            assert(state.levels@[i].0 != t.tiers@[0].0);
        }
    }
    lemma_tiered_result(state@, view, output@, in_recovery, pos);
    assert(view.tiers.map_values(|tier: (usize, Seq<usize>)| tier.1) =~= t.tiers@.map_values(
        |tier: (usize, Vec<usize>)| tier.1@,
    ));
}

/// A simple leveled compaction puts its output in place of the lower level, empties the upper
/// level or takes what it merged off L0, and gives back the ids of what it merged.
pub proof fn lemma_result_of_simple(
    controller: &CompactionController,
    state: &LsmStorageState,
    task: &CompactionTask,
    output: &[usize],
    in_recovery: bool,
    result: (LsmStorageState, Vec<usize>),
)
    requires
        task matches CompactionTask::Simple(t) && 1 <= t.lower_level <= state.levels@.len() && (
        t.upper_level matches Some(level) ==> 1 <= level <= state.levels@.len() && level
            != t.lower_level),
        call_ensures(
            CompactionController::apply_compaction_result,
            (controller, state, task, output, in_recovery),
            result,
        ),
    ensures
        ({
            let t = task->Simple_0;
            let after = result.0@;
            &&& result.1@ == t.upper_level_sst_ids@ + t.lower_level_sst_ids@
            &&& after.l0_sstables == (if t.upper_level is Some {
                state.l0_sstables@
            } else {
                state.l0_sstables@.filter(|id: usize| !t.upper_level_sst_ids@.contains(id))
            })
            &&& after.levels.len() == state.levels@.len()
            &&& forall|i: int|
                0 <= i < after.levels.len() ==> (#[trigger] after.levels[i]).0
                    == state.levels@[i].0 && after.levels[i].1 == (if i + 1 == t.lower_level {
                    output@
                } else if t.upper_level is Some && i + 1 == t.upper_level->Some_0 {
                    Seq::empty()
                } else {
                    state.levels@[i].1@
                })
            &&& after.sstables == state@.sstables
        }),
{
    lemma_simple_result(state@, task->Simple_0@, output@, in_recovery);
    let after = result.0@;
    assert forall|i: int| 0 <= i < after.levels.len() implies (#[trigger] after.levels[i]).0
        == state.levels@[i].0 && after.levels[i].1 == (if i + 1 == task->Simple_0.lower_level {
        output@
    } else if task->Simple_0.upper_level is Some && i + 1
        == task->Simple_0.upper_level->Some_0 {
        Seq::empty()
    } else {
        state.levels@[i].1@
    }) by {
        assert(after.levels[(i + 1) - 1] == after.levels[i]);
    }
}

/// A compaction that is finished takes the tables that it gives back out of the state and files
/// its own.
pub proof fn lemma_finish_compaction(
    inner: &mut LsmStorageInner,
    task: &CompactionTask,
    tables: Vec<Arc<SsTable>>,
    unused: Vec<usize>,
    state: &LsmStorageState,
    ids: &[usize],
    result: (LsmStorageState, Vec<usize>),
    id: usize,
)
    requires
        old(inner)@.compaction_controller.can_apply(old(inner)@.state, task@, ids@, false),
        ids_of(tables_view(tables@)).no_duplicates(),
        ids@ == ids_of(tables_view(tables@)),
        state@ == old(inner)@.state,
        call_ensures(LsmStorageInner::finish_compaction, (inner, task, tables), unused),
        call_ensures(
            CompactionController::apply_compaction_result,
            (&old(inner)@.compaction_controller, state, task, ids, false),
            result,
        ),
    ensures
        ({
            let (before, after) = (old(inner)@.state, final(inner)@.state);
            &&& unused@ == result.1@
            &&& after.l0_sstables == result.0@.l0_sstables
            &&& after.levels == result.0@.levels
            &&& after.memtable == before.memtable
            &&& after.imm_memtables == before.imm_memtables
            &&& after.sstables.contains_key(id) == (before.sstables.contains_key(id)
                && !unused@.contains(id) || exists|i: int|
                0 <= i < tables@.len() && (#[trigger] tables@[i])@.id == id)
            &&& final(inner)@.next_sst_id == old(inner)@.next_sst_id
        }),
{
    let v = old(inner)@.state;
    let views = tables_view(tables@);
    lemma_apply_keeps_tables(v, task@, ids@, false);
    lemma_replace(result.0@, unused@, views, id);
    assert forall|i: int| 0 <= i < tables@.len() implies (#[trigger] tables@[i])@ == views[i] by {}
    if exists|i: int| 0 <= i < views.len() && (#[trigger] views[i]).id == id {
        let i = choose|i: int| 0 <= i < views.len() && (#[trigger] views[i]).id == id;
        assert(tables@[i]@.id == id);
    }
}

/// A scan goes through all memtables, and through those tables of L0 and of each level that reach
/// into the range.
pub proof fn lemma_scan_goes_through(
    state: &LsmStorageState,
    lower: &ScanBound<'_>,
    upper: &ScanBound<'_>,
    plan: ScanPlan,
    key: Seq<u8>,
)
    requires
        state@.holds(state@.l0_sstables),
        state@.levels_sorted(),
        lies_between(key, lower@, upper@),
        call_ensures(LsmStorageState::scan_plan, (state, lower, upper), plan),
    ensures
        ({
            let reaches = |id: usize|
                lies_between(state@.sstables[id].last_key.key, lower@, BoundView::Unbounded)
                    && lies_between(
                    state@.sstables[id].first_key.key,
                    BoundView::Unbounded,
                    upper@,
                );
            let table = |id: usize| state@.sstables[id];
            &&& plan.memtables@.len() == 1 + state.imm_memtables@.len()
            &&& plan.memtables@[0] == state.memtable@
            &&& forall|i: int|
                0 <= i < state.imm_memtables@.len() ==> plan.memtables@[i + 1]
                    == #[trigger] state.imm_memtables@[i]@
            &&& tables_view(plan.l0@) == state.l0_sstables@.filter(reaches).map_values(table)
            &&& plan.levels@.len() == state.levels@.len()
            &&& forall|i: int|
                0 <= i < state.levels@.len() ==> tables_view((#[trigger] plan.levels@[i])@)
                    == state.levels@[i].1@.filter(reaches).map_values(table)
        }),
{
    lemma_scan_plan(state@, lower@, upper@, key);
    let reaches = |id: usize|
        lies_between(state@.sstables[id].last_key.key, lower@, BoundView::Unbounded)
            && lies_between(state@.sstables[id].first_key.key, BoundView::Unbounded, upper@);
    let table = |id: usize| state@.sstables[id];
    assert forall|i: int| 0 <= i < state.imm_memtables@.len() implies plan.memtables@[i + 1]
        == #[trigger] state.imm_memtables@[i]@ by {
        assert(plan@.memtables[i + 1] == state@.imm_memtables[i]);
    }
    assert(plan@.levels.len() == plan.levels@.len());
    assert forall|i: int| 0 <= i < state.levels@.len() implies tables_view(
        (#[trigger] plan.levels@[i])@,
    ) == state.levels@[i].1@.filter(reaches).map_values(table) by {
        assert(plan@.levels[i] == tables_view(plan.levels@[i]@));
        assert(state@.levels[i].1 == state.levels@[i].1@);
    }
}

/// A record that is framed and put behind whole frames is handed out for parsing, as it was; once
/// it has been parsed, reading goes on behind it.
pub proof fn lemma_framed_record_is_recovered(
    record: &[u8],
    frame: Vec<u8>,
    records: Seq<Seq<u8>>,
    data: &[u8],
    pos: usize,
    first: RecoverStep,
    read: &[u8],
    second: RecoverStep,
)
    requires
        record@.len() <= u64::MAX,
        call_ensures(crate::manifest::frame_record, (record,), frame),
        data@ == framed_all(records) + frame@,
        pos == framed_all(records).len(),
        data@.len() <= usize::MAX,
        call_ensures(crate::manifest::recover_step, (data, pos, false), first),
        call_ensures(crate::manifest::record_at, (data, pos), read),
        call_ensures(crate::manifest::recover_step, (data, pos, true), second),
    ensures
        first == RecoverStep::Parse,
        read@ == record@,
        second == RecoverStep::Keep(data@.len() as usize),
{
    let all = records.push(record@);
    let n = records.len() as int;
    assert(all.take(n) =~= records);
    assert(all.take(n + 1) =~= all);
    assert(all.drop_last() =~= records);
    assert(framed_all(all) == data@);
    lemma_records_are_recovered(all, n);
}

/// A reader that leaves is counted once less at its timestamp and at no other.
pub proof fn lemma_reader_leaves(watermark: &mut Watermark, ts: u64, other: u64)
    requires
        is_contiguous(old(watermark)@),
        reader_count(old(watermark)@, ts) > 0,
        call_ensures(Watermark::remove_reader, (watermark, ts), ()),
    ensures
        reader_count(final(watermark)@, other) == reader_count(old(watermark)@, other) - (
        if other == ts {
            1nat
        } else {
            0nat
        }),
        is_contiguous(final(watermark)@),
{
    lemma_can_leave(old(watermark)@, ts);
    lemma_leave_counts(old(watermark)@, ts, other);
}

/// The number of retained snapshots is how many timestamps have readers.
pub proof fn lemma_retained_snapshots(watermark: &Watermark, n: usize)
    requires
        is_contiguous(watermark@),
        call_ensures(Watermark::num_retained_snapshots, (watermark,), n),
    ensures
        Set::new(|ts: u64| reader_count(watermark@, ts) > 0).len() == n,
{
    lemma_active_count_is_distinct(watermark@);
}

/// An engine that is opened lists the tables that its state listed and numbers its memtable and the
/// tables to come above them.
pub proof fn lemma_opened_engine(
    options: LsmStorageOptions,
    controller: CompactionController,
    state: LsmStorageState,
    tables: Vec<Arc<SsTable>>,
    inner: LsmStorageInner,
)
    requires
        state@.table_ids().no_duplicates(),
        ids_of(tables_view(tables@)) == state@.table_ids(),
        next_id(state@.table_ids()) < usize::MAX,
        call_ensures(LsmStorageInner::open, (options, controller, state, tables), inner),
    ensures
        inner@.state.l0_sstables == state.l0_sstables@,
        inner@.state.levels.len() == state.levels@.len(),
        !(options.compaction_options is Leveled) ==> inner@.state.levels == state@.levels,
        forall|i: int|
            0 <= i < tables@.len() ==> inner@.state.sstables.contains_key(
                (#[trigger] tables@[i])@.id,
            ) && inner@.state.sstables[tables@[i]@.id] == tables@[i]@,
        forall|i: int|
            0 <= i < tables@.len() ==> (#[trigger] tables@[i])@.id < inner@.state.memtable,
        inner@.next_sst_id == inner@.state.memtable + 1,
        inner@.options == options,
        inner@.compaction_controller == controller,
        inner@.compaction_filters.len() == 0,
{
    let views = tables_view(tables@);
    lemma_open(state@, views, options.compaction_options is Leveled);
    assert forall|i: int| 0 <= i < tables@.len() implies (#[trigger] tables@[i])@ == views[i]
        && views[i].id == state@.table_ids()[i] by {
        assert(ids_of(views)[i] == views[i].id);
    }
}

/// The task of a full compaction names all of L0 and of the first level.
pub proof fn lemma_full_compaction_task(inner: &LsmStorageInner, task: CompactionTask)
    requires
        inner@.state.levels.len() > 0,
        call_ensures(LsmStorageInner::full_compaction_task, (inner,), task),
    ensures
        task matches CompactionTask::ForceFullCompaction { l0_sstables, l1_sstables }
            && l0_sstables@ == inner@.state.l0_sstables && l1_sstables@
            == inner@.state.levels[0].1,
{
}

/// A key is held against a bound by its bytes; a bound itself is within if it is included.
pub proof fn lemma_bound_is_compared(key: &[u8], bound: &ScanBound<'_>, above: bool, below: bool)
    requires
        call_ensures(crate::table::is_above_lower, (key, bound), above),
        call_ensures(crate::table::is_below_upper, (key, bound), below),
    ensures
        match bound {
            ScanBound::Included(b) => above == !bytes_lt(key@, b@) && below == !bytes_lt(
                b@,
                key@,
            ),
            ScanBound::Excluded(b) => above == bytes_lt(b@, key@) && below == bytes_lt(key@, b@),
            ScanBound::Unbounded => above && below,
        },
{
    match bound {
        ScanBound::Included(b) | ScanBound::Excluded(b) => {
            lemma_bytes_lt_total(key@, b@);
            lemma_bytes_lt_irreflexive(key@);
            if bytes_lt(key@, b@) && bytes_lt(b@, key@) {
                lemma_bytes_lt_transitive(key@, b@, key@);
            }
        },
        ScanBound::Unbounded => {},
    }
}

/// The operations on a state can be called wherever the state allows them.
pub proof fn lemma_can_be_called(
    leveled: &LeveledCompactionController,
    tiered: &TieredCompactionController,
    simple: &SimpleLeveledCompactionController,
    controller: &CompactionController,
    state: &LsmStorageState,
    task: &CompactionTask,
    output: &[usize],
    in_recovery: bool,
    owned: LsmStorageState,
    record: &ManifestRecord,
)
    ensures
        leveled.can_generate(state@) ==> call_requires(
            LeveledCompactionController::generate_compaction_task,
            (leveled, state),
        ),
        tiered.can_generate(state@) ==> call_requires(
            TieredCompactionController::generate_compaction_task,
            (tiered, state),
        ),
        simple.can_generate(state@) ==> call_requires(
            SimpleLeveledCompactionController::generate_compaction_task,
            (simple, state),
        ),
        controller.can_generate(state@) ==> call_requires(
            CompactionController::generate_compaction_task,
            (controller, state),
        ),
        controller.can_apply(state@, task@, output@, in_recovery) ==> call_requires(
            CompactionController::apply_compaction_result,
            (controller, state, task, output, in_recovery),
        ),
        controller.can_replay_record(owned@, record@) ==> call_requires(
            CompactionController::apply_record,
            (controller, owned, record),
        ),
{
}

/// The engine compacts what its strategy says, and a strategy gives out tasks of its own alone.
pub proof fn lemma_next_compaction(
    inner: &LsmStorageInner,
    task: Option<CompactionTask>,
    targets: Seq<int>,
)
    requires
        inner@.compaction_controller.can_generate(inner@.state),
        call_ensures(LsmStorageInner::next_compaction, (inner,), task),
    ensures
        match inner@.compaction_controller {
            CompactionController::Leveled(controller) => {
                &&& task matches Some(task) ==> task is Leveled
                &&& are_targets(inner@.state, controller.options(), targets)
                    && inner@.state.l0_sstables.len()
                    >= controller.options().level0_file_num_compaction_trigger ==> task is Some
                    && task->Some_0->Leveled_0.upper_level is None
                    && task->Some_0->Leveled_0.upper_level_sst_ids@ == inner@.state.l0_sstables
            },
            CompactionController::Tiered(controller) => {
                &&& task matches Some(task) ==> task is Tiered
                &&& inner@.state.levels.len() < controller.options().num_tiers ==> task is None
                &&& inner@.state.levels.len() >= controller.options().num_tiers ==> task is Some
            },
            CompactionController::Simple(_) => task matches Some(task) ==> task is Simple,
            CompactionController::NoCompaction => false,
        },
{
    let v = inner@.state;
    let view = match task {
        Some(task) => Some(task@),
        None => None,
    };
    lemma_strategy_decides(inner@.compaction_controller, v, view);
    if let CompactionController::Leveled(controller) = inner@.compaction_controller {
        if are_targets(v, controller.options(), targets) && v.l0_sstables.len()
            >= controller.options().level0_file_num_compaction_trigger {
            let level_task = match view {
                Some(task) => Some(task->Leveled_0),
                None => None,
            };
            lemma_l0_goes_down_as_a_whole(controller, v, level_task, targets);
        }
    }
}

/// A lookup finds the value at the front of an iterator exactly if the key there is the one asked
/// for.
pub proof fn lemma_found_value<I: StorageIterator>(iter: &I, key: &[u8], value: Option<&[u8]>)
    requires
        call_ensures(found_value::<I>, (iter, key), value),
    ensures
        (value is Some) == (iter.remaining().len() > 0 && iter.remaining()[0].0.key == key@),
        value matches Some(value) ==> value@ == iter.remaining()[0].1,
{
    lemma_skips_only_the_bound(iter.remaining(), BoundView::Unbounded);
}

/// The tables with some ids come in the order of the ids.
pub proof fn lemma_collected_tables(
    state: &LsmStorageState,
    ids: &[usize],
    tables: Vec<Arc<SsTable>>,
)
    requires
        forall|i: int| 0 <= i < ids@.len() ==> state@.sstables.contains_key(#[trigger] ids@[i]),
        call_ensures(LsmStorageState::collect_sst_from_ids, (state, ids), tables),
    ensures
        tables@.len() == ids@.len(),
        forall|i: int|
            0 <= i < ids@.len() ==> (#[trigger] tables@[i])@ == state@.sstables[ids@[i]],
{
    let views = tables_view(tables@);
    assert(views.len() == ids@.len());
    assert forall|i: int| 0 <= i < ids@.len() implies (#[trigger] tables@[i])@
        == state@.sstables[ids@[i]] by {
        assert(views[i] == tables@[i]@);
    }
}

/// Where an entry of a block stands: the length of what its key shares with the first key, the
/// length of the rest, the rest, the timestamp, the length of the value and the value.
pub proof fn lemma_entry_of_block(block: &Block, nth: usize, key: KeyVec, range: (usize, usize))
    requires
        nth < block@.offsets.len(),
        block@.key_is_there(nth as int),
        call_ensures(Block::get_key, (block, nth), key),
        call_ensures(Block::get_value_range, (block, nth), range),
    ensures
        ({
            let data = block@.data;
            let at = block@.offsets[nth as int] as int;
            let shared = data[at] * 0x100 + data[at + 1];
            let end = at + 4 + data[at + 2] * 0x100 + data[at + 3];
            &&& key@.key == data.subrange(4, 4 + shared) + data.subrange(at + 4, end)
            &&& key@.ts == be_value(data.subrange(end, end + 8))
            &&& end + 10 <= data.len() ==> range.0 == end + 10 && range.1 == range.0 + data[end
                + 8] * 0x100 + data[end + 9]
        }),
{
    lemma_entry_layout(block@, nth as int);
}

/// The reader of a table range goes through the tables that the range reaches into, in their order.
pub proof fn lemma_filtered_tables(
    state: &LsmStorageState,
    ids: &Vec<usize>,
    lower: &ScanBound<'_>,
    upper: &ScanBound<'_>,
    tables: Vec<Arc<SsTable>>,
    l0: Vec<Arc<SsTable>>,
)
    requires
        state@.holds(state@.l0_sstables),
        state@.is_searchable(ids@, lower@, upper@),
        call_ensures(LsmStorageState::filter_level_sst, (state, ids, lower, upper), tables),
        call_ensures(LsmStorageState::filter_l0_sst, (state, lower, upper), l0),
    ensures
        ({
            let reaches = |id: usize|
                lies_between(state@.sstables[id].last_key.key, lower@, BoundView::Unbounded)
                    && lies_between(
                    state@.sstables[id].first_key.key,
                    BoundView::Unbounded,
                    upper@,
                );
            let table = |id: usize| state@.sstables[id];
            &&& tables_view(tables@) == ids@.filter(reaches).map_values(table)
            &&& tables_view(l0@) == state.l0_sstables@.filter(reaches).map_values(table)
        }),
{
    let reaches = |id: usize|
        lies_between(state@.sstables[id].last_key.key, lower@, BoundView::Unbounded)
            && lies_between(state@.sstables[id].first_key.key, BoundView::Unbounded, upper@);
    lemma_range_is_what_overlaps(state@, ids@, lower@, upper@);
    assert forall|id: usize| #[trigger]
        reaches_into(state@.sstables, lower@, upper@)(id) == reaches(id) by {
        lemma_table_overlaps(state@.sstables[id], lower@, upper@);
    }
    assert(reaches_into(state@.sstables, lower@, upper@) =~= reaches);
    assert(tables_view(tables@) =~= ids@.filter(reaches).map_values(
        |id: usize| state@.sstables[id],
    ));
    assert(tables_view(l0@) =~= state.l0_sstables@.filter(reaches).map_values(
        |id: usize| state@.sstables[id],
    ));
}

/// Two numbers that are given out one after the other follow each other, and the rest of the engine
/// stays as it is.
pub proof fn lemma_numbers_follow(
    inner: &mut LsmStorageInner,
    first: usize,
    later: &mut LsmStorageInner,
    second: usize,
)
    requires
        call_ensures(LsmStorageInner::next_sst_id, (inner,), first),
        old(later)@ == final(inner)@,
        call_ensures(LsmStorageInner::next_sst_id, (later,), second),
        first < usize::MAX,
    ensures
        first == old(inner)@.next_sst_id,
        second == first + 1,
        final(later)@.state == old(inner)@.state,
        final(later)@.options == old(inner)@.options,
        final(later)@.compaction_controller == old(inner)@.compaction_controller,
        final(later)@.compaction_filters == old(inner)@.compaction_filters,
{
}

/// The memtable that is flushed next is the one that was frozen first: after a freeze it is the
/// same as before, and the first one to be frozen where there was none.
pub proof fn lemma_earliest_is_flushed(
    inner: &mut LsmStorageInner,
    before: &LsmStorageInner,
    id: usize,
    after: &LsmStorageInner,
    next: usize,
)
    requires
        before@ == old(inner)@,
        call_ensures(LsmStorageInner::force_freeze_memtable, (inner,), ()),
        after@ == final(inner)@,
        before@.state.imm_memtables.len() > 0 ==> call_ensures(
            LsmStorageInner::next_flush,
            (before,),
            id,
        ),
        call_ensures(LsmStorageInner::next_flush, (after,), next),
    ensures
        before@.state.imm_memtables.len() > 0 ==> next == id,
        before@.state.imm_memtables.len() == 0 ==> next == before@.state.memtable,
{
    lemma_freeze(before@);
    let (v, w) = (before@.state.imm_memtables, after@.state.imm_memtables);
    assert(w.skip(1) == v);
    if v.len() > 0 {
        assert(w.skip(1)[v.len() - 1] == w[v.len() as int]);
    }
}

/// A new state has no tables, and as many empty levels as its strategy asks for.
pub proof fn lemma_created_state(options: &LsmStorageOptions, state: LsmStorageState)
    requires
        call_ensures(LsmStorageState::create, (options,), state),
    ensures
        state.l0_sstables@.len() == 0,
        state.imm_memtables@.len() == 0,
        state@.sstables.dom() == Set::<usize>::empty(),
        state.levels@.len() == (match options.compaction_options {
            CompactionOptions::Leveled(o) => o.max_levels as int,
            CompactionOptions::Simple(o) => o.max_levels as int,
            CompactionOptions::Tiered(_) => 0,
            CompactionOptions::NoCompaction => 1,
        }),
        forall|i: int|
            0 <= i < state.levels@.len() ==> (#[trigger] state.levels@[i]).0 == i + 1
                && state.levels@[i].1@.len() == 0,
{
    lemma_initial_state(options.compaction_options);
    assert forall|i: int| 0 <= i < state.levels@.len() implies (#[trigger] state.levels@[i]).0 == i
        + 1 && state.levels@[i].1@.len() == 0 by {
        assert(state@.levels[i].1 == state.levels@[i].1@);
    }
}

/// The strategy is the one of the options, and flushes go to L0 unless it is tiered.
pub proof fn lemma_strategy_of_options(
    options: &CompactionOptions,
    controller: CompactionController,
    to_l0: bool,
)
    requires
        call_ensures(CompactionController::from_options, (options,), controller),
        call_ensures(CompactionController::flush_to_l0, (&controller,), to_l0),
    ensures
        match *options {
            CompactionOptions::Leveled(o) => controller is Leveled
                && controller->Leveled_0.options() == o,
            CompactionOptions::Tiered(o) => controller is Tiered && controller->Tiered_0.options()
                == o,
            CompactionOptions::Simple(o) => controller is Simple && controller->Simple_0.options()
                == o,
            CompactionOptions::NoCompaction => controller is NoCompaction,
        },
        to_l0 == !(*options is Tiered),
{
    lemma_strategy_has_options(controller, *options);
}

/// Replaying the records of a run of flushes and compactions lists the tables as the live engine
/// does at the end.
pub proof fn lemma_records_replay_run(
    controller: &CompactionController,
    live: Seq<StateView>,
    changes: Seq<ChangeView>,
    start: LsmStorageState,
    records: &Vec<ManifestRecord>,
    recovered: LsmStorageState,
)
    requires
        live.len() == changes.len() + 1,
        list_alike(*controller, live[0], start@),
        forall|i: int|
            0 <= i < changes.len() ==> (#[trigger] changes[i]).is_possible(*controller, live[i]),
        forall|i: int, j: int|
            0 <= i < changes.len() && j == i + 1 ==> (#[trigger] live[j]).l0_sstables == (
            #[trigger] changes[i]).made(*controller, live[i]).l0_sstables && live[j].levels
                == changes[i].made(*controller, live[i]).levels,
        records@.len() == changes.len(),
        forall|i: int|
            0 <= i < changes.len() ==> (#[trigger] records@[i])@ == changes[i].record(),
        call_ensures(CompactionController::replay_records, (controller, start, records), recovered),
    ensures
        list_alike(*controller, live.last(), recovered@),
{
    lemma_run_is_replayed(*controller, live, changes, start@);
    let views = records_view(records@);
    assert(views.len() == records@.len());
    assert forall|i: int| 0 <= i < views.len() implies #[trigger] views[i] == records_of(
        changes,
    )[i] by {
        assert(records@[i]@ == changes[i].record());
    }
    assert(views =~= records_of(changes));
}

/// The number of the current memtable of an opened engine is above those of all its tables, and no
/// greater than it need be.
pub proof fn lemma_tables_are_numbered(state: &LsmStorageState, ids: Vec<usize>, next: usize)
    requires
        call_ensures(LsmStorageState::table_ids, (state,), ids),
        call_ensures(find_next_id, (&ids,), next),
    ensures
        ids@ == state.l0_sstables@ + state.levels@.map_values(
            |level: (usize, Vec<usize>)| level.1@,
        ).flatten(),
        forall|i: int| 0 <= i < ids@.len() ==> #[trigger] ids@[i] < next,
        next == 0 || ids@.contains((next - 1) as usize),
{
    lemma_table_ids(state@);
    assert(state@.levels.map_values(|level: (usize, Seq<usize>)| level.1)
        =~= state.levels@.map_values(|level: (usize, Vec<usize>)| level.1@));
    lemma_next_id(ids@);
}

} // verus!
