use std::sync::Arc;

use bytes::Bytes;
use mini_lsm::compact::leveled::LeveledCompactionOptions;
use mini_lsm::compact::simple_leveled::SimpleLeveledCompactionOptions;
use mini_lsm::compact::tiered::{TieredCompactionOptions, TieredCompactionTask};
use mini_lsm::compact::{
    CompactionController, CompactionInput, CompactionOptions, CompactionTask,
};
use mini_lsm::key::KeyBytes;
use mini_lsm::lsm_storage::inner::{CloseStep, LsmStorageInner};
use mini_lsm::lsm_storage::read::{GetAction, Lookup};
use mini_lsm::lsm_storage::recovery::find_next_id;
use mini_lsm::lsm_storage::{
    CompactionFilter, LsmStorageOptions, LsmStorageState, WriteBatchRecord,
};
use mini_lsm::manifest::ManifestRecord;
use mini_lsm::table::{ScanBound, SsTable};

fn key(k: &str) -> KeyBytes {
    KeyBytes::from_bytes_with_ts(Bytes::copy_from_slice(k.as_bytes()), 0)
}

fn table(id: usize, first: &str, last: &str) -> Arc<SsTable> {
    Arc::new(SsTable::new(id, key(first), key(last), 10, false))
}

fn simple_options() -> CompactionOptions {
    CompactionOptions::Simple(SimpleLeveledCompactionOptions {
        size_ratio_percent: 200,
        level0_file_num_compaction_trigger: 2,
        max_levels: 3,
    })
}

fn leveled_options() -> CompactionOptions {
    CompactionOptions::Leveled(LeveledCompactionOptions {
        level_size_multiplier: 2,
        level0_file_num_compaction_trigger: 2,
        max_levels: 2,
        base_level_size_mb: 1,
    })
}

fn tiered_options() -> CompactionOptions {
    CompactionOptions::Tiered(TieredCompactionOptions {
        num_tiers: 3,
        max_size_amplification_percent: 200,
        size_ratio: 1,
        min_merge_width: 2,
        max_merge_width: None,
    })
}

fn options_with(compaction: CompactionOptions) -> LsmStorageOptions {
    LsmStorageOptions::default_for_week2_test(compaction)
}

/// An engine on an empty directory.
fn fresh(compaction: CompactionOptions) -> LsmStorageInner {
    let options = options_with(compaction);
    let controller = CompactionController::from_options(&compaction);
    LsmStorageInner::open(options, controller, LsmStorageState::create(&options), Vec::new())
}

fn ids(tables: &[Arc<SsTable>]) -> Vec<usize> {
    tables.iter().map(|t| t.sst_id()).collect()
}

fn imm_ids(state: &LsmStorageState) -> Vec<usize> {
    state.imm_memtables.iter().map(|m| m.id()).collect()
}

#[test]
fn the_default_options() {
    let o = LsmStorageOptions::default_for_week1_test();
    assert_eq!((o.block_size, o.target_sst_size, o.num_memtable_limit), (4096, 2 << 20, 50));
    assert!(matches!(o.compaction_options, CompactionOptions::NoCompaction));
    assert!(!o.enable_wal && !o.serializable);
    let o = LsmStorageOptions::default_for_week1_day6_test();
    assert_eq!((o.block_size, o.target_sst_size, o.num_memtable_limit), (4096, 2 << 20, 2));
    assert!(matches!(o.compaction_options, CompactionOptions::NoCompaction));
    let o = LsmStorageOptions::default_for_week2_test(tiered_options());
    assert_eq!((o.block_size, o.target_sst_size, o.num_memtable_limit), (4096, 1 << 20, 2));
    assert!(matches!(o.compaction_options, CompactionOptions::Tiered(_)));
}

#[test]
fn an_empty_state_has_the_levels_of_its_strategy() {
    let levels = |c| LsmStorageState::create(&options_with(c)).levels;
    assert_eq!(levels(leveled_options()), vec![(1, vec![]), (2, vec![])]);
    assert_eq!(levels(simple_options()), vec![(1, vec![]), (2, vec![]), (3, vec![])]);
    assert_eq!(levels(tiered_options()), vec![]);
    assert_eq!(levels(CompactionOptions::NoCompaction), vec![(1, vec![])]);
    let state = LsmStorageState::create(&options_with(simple_options()));
    assert_eq!(state.memtable.id(), 0);
    assert!(state.imm_memtables.is_empty() && state.l0_sstables.is_empty());
    assert!(state.sstables.is_empty());
}

#[test]
fn memtables_are_frozen_and_flushed_in_order() {
    let mut inner = fresh(CompactionOptions::NoCompaction);
    assert_eq!(inner.snapshot().memtable.id(), 0);
    inner.force_freeze_memtable();
    inner.force_freeze_memtable();
    let state = inner.snapshot();
    assert_eq!(state.memtable.id(), 2);
    assert_eq!(imm_ids(&state), vec![1, 0]);
    assert!(inner.should_flush());

    assert_eq!(inner.next_flush(), 0);
    let record = inner.finish_flush(table(0, "a", "b"));
    assert!(matches!(record, ManifestRecord::Flush(0)));
    let record = inner.finish_flush(table(1, "c", "d"));
    assert!(matches!(record, ManifestRecord::Flush(1)));
    let state = inner.snapshot();
    assert!(state.imm_memtables.is_empty());
    assert!(!inner.should_flush());
    assert_eq!(state.l0_sstables, vec![1, 0]);
    assert!(state.has_table(0) && state.has_table(1) && !state.has_table(2));
    assert_eq!(inner.next_sst_id(), 3);
    assert_eq!(inner.next_sst_id(), 4);
}

#[test]
fn with_tiered_compaction_each_flush_is_a_tier() {
    let mut inner = fresh(tiered_options());
    inner.force_freeze_memtable();
    inner.force_freeze_memtable();
    inner.finish_flush(table(0, "a", "b"));
    inner.finish_flush(table(1, "a", "b"));
    let state = inner.snapshot();
    assert_eq!(state.levels, vec![(1, vec![1]), (0, vec![0])]);
    assert!(state.l0_sstables.is_empty());
}

#[test]
fn a_memtable_is_frozen_only_if_it_stays_large() {
    let mut inner = fresh(simple_options());
    let target = inner.target_sst_size();
    assert_eq!(target, 1 << 20);
    assert!(!inner.try_freeze_memtable(target - 1, target));
    assert!(!inner.try_freeze_memtable(target, target - 1));
    assert_eq!(inner.snapshot().memtable.id(), 0);
    assert!(inner.try_freeze_memtable(target, target));
    assert_eq!(inner.snapshot().memtable.id(), 1);
}

#[test]
fn closing_flushes_everything_unless_there_is_a_log() {
    let mut inner = fresh(simple_options());
    assert_eq!(inner.close_step(false), CloseStep::Freeze);
    inner.force_freeze_memtable();
    assert!(inner.has_imm_memtables());
    assert_eq!(inner.close_step(true), CloseStep::Flush);
    inner.finish_flush(table(0, "a", "b"));
    assert_eq!(inner.close_step(true), CloseStep::Done);

    let mut options = options_with(simple_options());
    options.enable_wal = true;
    let controller = CompactionController::from_options(&options.compaction_options);
    let state = LsmStorageState::create(&options);
    let inner = LsmStorageInner::open(options, controller, state, Vec::new());
    assert_eq!(inner.close_step(false), CloseStep::Done);
    assert!(inner.options().enable_wal);
}

#[test]
fn only_a_strategy_compacts_in_the_background() {
    assert!(fresh(simple_options()).compacts_in_background());
    assert!(fresh(tiered_options()).compacts_in_background());
    assert!(fresh(leveled_options()).compacts_in_background());
    assert!(!fresh(CompactionOptions::NoCompaction).compacts_in_background());
    assert!(fresh(simple_options()).compaction_controller().flush_to_l0());
    assert!(!fresh(tiered_options()).compaction_controller().flush_to_l0());
}

#[test]
fn compaction_filters_are_kept_in_order() {
    let mut inner = fresh(simple_options());
    inner.add_compaction_filter(CompactionFilter::Prefix(Bytes::from_static(b"a")));
    let second = CompactionFilter::Prefix(Bytes::from_static(b"b"));
    inner.add_compaction_filter(second.clone());
    let prefixes: Vec<Bytes> = inner
        .compaction_filters()
        .iter()
        .map(|f| match f {
            CompactionFilter::Prefix(p) => p.clone(),
        })
        .collect();
    assert_eq!(prefixes, vec![Bytes::from_static(b"a"), Bytes::from_static(b"b")]);
}

#[test]
fn a_full_compaction_replaces_l0_and_the_first_level() {
    let mut inner = fresh(CompactionOptions::NoCompaction);
    for id in 0..3 {
        inner.force_freeze_memtable();
        inner.finish_flush(table(id, "a", "z"));
    }
    let task = inner.full_compaction_task();
    assert!(task.compact_to_bottom_level());
    let (l0, l1) = match &task {
        CompactionTask::ForceFullCompaction { l0_sstables, l1_sstables } => {
            (l0_sstables.clone(), l1_sstables.clone())
        }
        _ => panic!("{:?}", task),
    };
    assert_eq!((l0.clone(), l1.clone()), (vec![2, 1, 0], vec![]));
    match task.input() {
        CompactionInput::Onto { upper, lower } => {
            assert_eq!(upper, vec![vec![2], vec![1], vec![0]]);
            assert_eq!(lower, Vec::<usize>::new());
        }
        other => panic!("{:?}", other),
    }
    // Another table is flushed while the compaction runs.
    inner.force_freeze_memtable();
    inner.finish_flush(table(3, "a", "z"));
    let output = vec![table(10, "a", "m"), table(11, "n", "z")];
    assert!(inner.can_finish_full_compaction(&l0, &l1, &output));
    assert_eq!(inner.finish_full_compaction(&l0, &l1, output), vec![2, 1, 0]);
    let state = inner.snapshot();
    assert_eq!(state.l0_sstables, vec![3]);
    assert_eq!(state.levels, vec![(1, vec![10, 11])]);
    assert!(!state.has_table(0) && state.has_table(3) && state.has_table(11));
    // The same tables cannot be replaced twice.
    assert!(!inner.can_finish_full_compaction(&l0, &l1, &Vec::new()));
}

#[test]
fn a_compaction_task_is_carried_out() {
    let mut inner = fresh(simple_options());
    for id in 0..2 {
        inner.force_freeze_memtable();
        inner.finish_flush(table(id, "a", "z"));
    }
    assert!(inner.compaction_controller().can_generate_task(&inner.snapshot()));
    let task = inner.next_compaction().unwrap();
    let output = vec![table(20, "a", "z")];
    assert!(inner.can_finish_compaction(&task, &output));
    assert_eq!(inner.finish_compaction(&task, output), vec![1, 0]);
    let state = inner.snapshot();
    assert!(state.l0_sstables.is_empty());
    assert_eq!(state.levels[0], (1, vec![20]));
    assert_eq!(state.sstables.len(), 1);
    assert!(!inner.can_finish_compaction(&task, &Vec::new()));
}

#[test]
fn tiers_are_merged_as_runs() {
    let task = CompactionTask::Tiered(TieredCompactionTask {
        tiers: vec![(5, vec![5]), (3, vec![1, 2])],
        bottom_tier_included: false,
    });
    assert!(!task.compact_to_bottom_level());
    match task.input() {
        CompactionInput::Merged(runs) => assert_eq!(runs, vec![vec![5], vec![1, 2]]),
        other => panic!("{:?}", other),
    }
}

#[test]
fn tables_can_be_taken_out_and_put_in() {
    let mut state = LsmStorageState::create(&options_with(simple_options()));
    state.add_sst_batch(vec![table(1, "a", "b"), table(2, "c", "d"), table(3, "e", "f")]);
    assert_eq!(ids(&state.collect_sst_from_ids(&[3, 1])), vec![3, 1]);
    state.remove_sst_batch(&vec![3, 1]);
    assert!(state.has_table(2) && !state.has_table(1) && !state.has_table(3));
    assert!(state.can_replace(&vec![2], &vec![table(2, "x", "y")]));
    assert!(!state.can_replace(&vec![], &vec![table(2, "x", "y")]));
    assert!(!state.can_replace(&vec![1], &vec![]));
    assert!(!state.can_replace(&vec![2, 2], &vec![]));
    assert!(!state.can_replace(&vec![], &vec![table(7, "x", "y"), table(7, "x", "y")]));
}

#[test]
fn recovery_replays_flushes_and_compactions() {
    let options = options_with(simple_options());
    let controller = CompactionController::from_options(&options.compaction_options);
    let mut live = fresh(simple_options());
    let mut records = Vec::new();
    for id in 0..2 {
        live.force_freeze_memtable();
        records.push(live.finish_flush(table(id, "a", "z")));
    }
    let task = live.next_compaction().unwrap();
    live.finish_compaction(&task, vec![table(20, "a", "z")]);
    records.push(ManifestRecord::Compaction(task, vec![20]));
    live.force_freeze_memtable();
    records.push(live.finish_flush(table(2, "b", "c")));

    let start = LsmStorageState::create(&options);
    assert!(controller.can_replay_records(&start, &records));
    let state = controller.replay_records(start, &records);
    assert_eq!(state.l0_sstables, live.snapshot().l0_sstables);
    assert_eq!(state.levels, live.snapshot().levels);
    assert_eq!(state.table_ids(), vec![2, 20]);

    let tables = vec![table(2, "b", "c"), table(20, "a", "z")];
    let inner = LsmStorageInner::open(options, controller, state, tables);
    assert_eq!(inner.snapshot().memtable.id(), 21);
    assert_eq!(inner.snapshot().sstables.len(), 2);
    let mut inner = inner;
    assert_eq!(inner.next_sst_id(), 22);
}

#[test]
fn records_that_cannot_be_replayed_are_told() {
    let controller = CompactionController::from_options(&simple_options());
    let state = LsmStorageState::create(&options_with(simple_options()));
    assert!(!controller.can_replay_records(&state, &vec![ManifestRecord::NewMemtable(1)]));
    let strange = CompactionTask::ForceFullCompaction { l0_sstables: vec![], l1_sstables: vec![] };
    let record = ManifestRecord::Compaction(strange, vec![]);
    assert!(!controller.can_replay_records(&state, &vec![record]));
    assert!(controller.can_replay_records(&state, &vec![ManifestRecord::Flush(1)]));
}

#[test]
fn leveled_recovery_sorts_the_levels() {
    let options = options_with(leveled_options());
    let controller = CompactionController::from_options(&options.compaction_options);
    let mut state = LsmStorageState::create(&options);
    state.levels[1].1 = vec![4, 9, 2, 7];
    let tables = vec![table(4, "p", "q"), table(9, "a", "b"), table(2, "c", "d"), table(7, "c", "e")];
    let inner = LsmStorageInner::open(options, controller, state, tables);
    // Tables with the same first key stay in their order.
    assert_eq!(inner.snapshot().levels[1].1, vec![9, 2, 7, 4]);
    assert_eq!(inner.snapshot().memtable.id(), 10);
}

#[test]
fn the_next_id_lies_above_all_others() {
    assert_eq!(find_next_id(&vec![]), 0);
    assert_eq!(find_next_id(&vec![3, 9, 1]), 10);
}

fn read_state() -> LsmStorageState {
    let mut state = LsmStorageState::create(&options_with(simple_options()));
    let bloom = Arc::new(SsTable::new(8, key("a"), key("z"), 1, true));
    state.add_sst_batch(vec![
        bloom,
        table(7, "c", "d"),
        table(1, "a", "f"),
        table(2, "g", "k"),
        table(3, "m", "z"),
    ]);
    state.l0_sstables = vec![8, 7];
    state.levels[0].1 = vec![1, 2, 3];
    state
}

#[test]
fn a_key_is_looked_up_from_the_latest_to_the_earliest() {
    let state = read_state();
    let look = |step: usize| {
        assert!(state.can_look(b"hello world", step));
        match state.get_action(b"hello world", step, None) {
            GetAction::Look(lookup) => lookup,
            other => panic!("{:?}", other),
        }
    };
    assert!(matches!(look(0), Lookup::Memtable(0)));
    match look(1) {
        Lookup::Table { table, hash } => {
            assert_eq!(table.sst_id(), 8);
            assert_eq!(hash, Some(430397466));
        }
        other => panic!("{:?}", other),
    }
    match look(2) {
        Lookup::Table { table, hash } => {
            assert_eq!(table.sst_id(), 7);
            assert_eq!(hash, None);
        }
        other => panic!("{:?}", other),
    }
    match look(3) {
        Lookup::Run(tables) => assert_eq!(ids(&tables), vec![2]),
        other => panic!("{:?}", other),
    }
    match look(4) {
        Lookup::Run(tables) => assert!(tables.is_empty()),
        other => panic!("{:?}", other),
    }
    look(5);
    assert!(matches!(state.get_action(b"hello world", 6, None), GetAction::Return(None)));
}

#[test]
fn the_first_value_found_counts() {
    let state = read_state();
    match state.get_action(b"k", 1, Some(b"value")) {
        GetAction::Return(Some(value)) => assert_eq!(value, Bytes::from_static(b"value")),
        other => panic!("{:?}", other),
    }
    // An empty value stands for a deleted key.
    assert!(matches!(state.get_action(b"k", 1, Some(b"")), GetAction::Return(None)));
}

#[test]
fn immutable_memtables_are_looked_up_after_the_current_one() {
    let mut inner = fresh(simple_options());
    inner.force_freeze_memtable();
    inner.force_freeze_memtable();
    let state = inner.snapshot();
    let order: Vec<usize> = (0..3)
        .map(|step| match state.get_action(b"k", step, None) {
            GetAction::Look(Lookup::Memtable(id)) => id,
            other => panic!("{:?}", other),
        })
        .collect();
    assert_eq!(order, vec![2, 1, 0]);
}

#[test]
fn a_step_that_cannot_be_told_is_noticed() {
    let mut state = read_state();
    // A key whose hash would overflow, where the table has a bloom filter.
    assert!(!state.can_look(&[0xff; 8], 1));
    assert!(state.can_look(&[0xff; 8], 2));
    // A table that is not there.
    state.l0_sstables.push(99);
    assert!(!state.can_look(b"k", 3));
    // Tables out of order.
    state.levels[0].1 = vec![3, 1];
    assert!(!state.can_look(b"g", 4));
}

#[test]
fn a_scan_reads_the_tables_that_reach_into_the_range() {
    let state = read_state();
    let lower = ScanBound::Included(&b"e"[..]);
    let upper = ScanBound::Excluded(&b"m"[..]);
    assert!(state.can_scan(&lower, &upper));
    let plan = state.scan_plan(&lower, &upper);
    assert_eq!(plan.memtables, vec![0]);
    assert_eq!(ids(&plan.l0), vec![8]);
    assert_eq!(plan.levels.iter().map(|t| ids(t)).collect::<Vec<_>>(), vec![
        vec![1, 2],
        vec![],
        vec![]
    ]);
    let plan = state.scan_plan(&ScanBound::Excluded(b"d"), &ScanBound::Included(b"m"));
    assert_eq!(ids(&plan.l0), vec![8]);
    assert_eq!(ids(&plan.levels[0]), vec![1, 2, 3]);
    let plan = state.scan_plan(&ScanBound::Unbounded, &ScanBound::Unbounded);
    assert_eq!(ids(&plan.l0), vec![8, 7]);
    assert_eq!(ids(&plan.levels[0]), vec![1, 2, 3]);
}

#[test]
fn a_range_that_runs_backwards_cannot_be_scanned() {
    let state = read_state();
    assert!(!state.can_scan(&ScanBound::Included(b"z"), &ScanBound::Included(b"a")));
}

#[test]
fn write_batch_records_hold_what_they_are_given() {
    let put = WriteBatchRecord::Put("k", "v");
    let del = WriteBatchRecord::Del("k");
    assert!(matches!(put, WriteBatchRecord::Put("k", "v")));
    assert!(matches!(del, WriteBatchRecord::Del("k")));
}
