use std::sync::Arc;

use bytes::Bytes;
use mini_lsm::compact::leveled::{
    LeveledCompactionController, LeveledCompactionOptions, LeveledCompactionTask,
};
use mini_lsm::compact::CompactionOptions;
use mini_lsm::key::KeyBytes;
use mini_lsm::lsm_storage::{LsmStorageOptions, LsmStorageState};
use mini_lsm::table::SsTable;

const MB: u64 = 1024 * 1024;

fn key(n: u64) -> KeyBytes {
    KeyBytes::from_bytes_with_ts(Bytes::from(format!("{:06}", n)), 0)
}

fn table(id: usize, first: u64, last: u64, size: u64) -> Arc<SsTable> {
    Arc::new(SsTable::new(id, key(first), key(last), size, false))
}

fn options(multiplier: usize, trigger: usize, levels: usize, mb: usize) -> LeveledCompactionOptions {
    LeveledCompactionOptions {
        level_size_multiplier: multiplier,
        level0_file_num_compaction_trigger: trigger,
        max_levels: levels,
        base_level_size_mb: mb,
    }
}

fn empty_state(o: LeveledCompactionOptions) -> LsmStorageState {
    let options = LsmStorageOptions::default_for_week2_test(CompactionOptions::Leveled(o));
    LsmStorageState::create(&options)
}

fn add(state: &mut LsmStorageState, level: usize, t: Arc<SsTable>) {
    let id = t.sst_id();
    if level == 0 {
        state.l0_sstables.push(id);
    } else {
        state.levels[level - 1].1.push(id);
    }
    state.sstables.insert(id, t);
}

/// The level that is chosen, by floating point.
fn chosen_level(sizes: &[u64], o: &LeveledCompactionOptions) -> Option<usize> {
    let n = sizes.len();
    let base = o.base_level_size_mb as u64 * MB;
    let mut targets = vec![0u64; n];
    let mut next = sizes[n - 1].max(base);
    let mut base_level = 1;
    for i in (0..n).rev() {
        targets[i] = next;
        next /= o.level_size_multiplier as u64;
        if targets[i] <= base {
            base_level = i + 1;
            break;
        }
    }
    let mut priorities: Vec<(f64, usize)> = Vec::new();
    for i in base_level..n {
        if sizes[i - 1] > targets[i - 1] {
            priorities.push((sizes[i - 1] as f64 / targets[i - 1] as f64, i));
        }
    }
    priorities.sort_by(|a, b| a.partial_cmp(b).unwrap().reverse());
    priorities.first().map(|p| p.1)
}

#[test]
fn enough_l0_tables_go_to_the_base_level() {
    let o = options(2, 2, 3, 1);
    let controller = LeveledCompactionController::new(o);
    let mut state = empty_state(o);
    add(&mut state, 0, table(5, 30, 40, 10));
    assert!(controller.can_generate_task(&state));
    assert!(controller.generate_compaction_task(&state).is_none());
    add(&mut state, 0, table(4, 10, 20, 10));
    add(&mut state, 3, table(1, 0, 9, MB));
    add(&mut state, 3, table(2, 15, 35, MB / 2));
    add(&mut state, 3, table(3, 50, 60, 1));
    let task = controller.generate_compaction_task(&state).unwrap();
    assert_eq!(task.upper_level, None);
    assert_eq!(task.upper_level_sst_ids, vec![5, 4]);
    // The bottom level holds 1.5 MB and exceeds the base size, the one above it does not.
    assert_eq!(task.lower_level, 2);
    assert_eq!(task.lower_level_sst_ids, Vec::<usize>::new());
    assert!(task.is_lower_level_bottom_level);
}

#[test]
fn l0_takes_what_it_overlaps() {
    let o = options(2, 1, 2, 16);
    let controller = LeveledCompactionController::new(o);
    let mut state = empty_state(o);
    add(&mut state, 0, table(9, 12, 33, 10));
    for (i, first) in [0u64, 10, 20, 30, 40].iter().enumerate() {
        add(&mut state, 2, table(i + 1, *first, first + 5, 10));
    }
    let task = controller.generate_compaction_task(&state).unwrap();
    assert_eq!(task.lower_level, 2);
    assert_eq!(task.lower_level_sst_ids, vec![2, 3, 4]);
    assert!(!task.is_lower_level_bottom_level);
}

#[test]
fn the_oldest_table_of_the_fullest_level_is_compacted() {
    let o = options(10, 100, 3, 1);
    let controller = LeveledCompactionController::new(o);
    let mut state = empty_state(o);
    add(&mut state, 1, table(8, 0, 5, 3 * MB));
    add(&mut state, 1, table(7, 6, 9, 3 * MB));
    add(&mut state, 2, table(3, 0, 3, 20 * MB));
    add(&mut state, 2, table(2, 4, 7, 20 * MB));
    add(&mut state, 2, table(4, 8, 12, 20 * MB));
    add(&mut state, 3, table(1, 0, 100, 100 * MB));
    // Targets are 1 MB, 10 MB and 100 MB; both upper levels hold six times as much, and of two
    // with the same factor the lower one comes first.
    let task = controller.generate_compaction_task(&state).unwrap();
    assert_eq!(task.upper_level, Some(2));
    assert_eq!(task.upper_level_sst_ids, vec![2]);
    assert_eq!(task.lower_level, 3);
    assert_eq!(task.lower_level_sst_ids, vec![1]);
    assert!(task.is_lower_level_bottom_level);
}

#[test]
fn the_choice_of_a_level_agrees_with_floating_point() {
    let mut seed: u64 = 42;
    let mut random = move |bound: u64| {
        seed = seed.wrapping_mul(6364136223846793005).wrapping_add(1442695040888963407);
        (seed >> 33) % bound
    };
    let mut chosen = 0;
    for _ in 0..2000 {
        let n = 1 + random(5) as usize;
        let o = options(2 + random(9) as usize, 1000, n, 1 + random(3) as usize);
        let sizes: Vec<u64> = (0..n).map(|_| random(1 << 20) * (1 + random(64))).collect();
        let controller = LeveledCompactionController::new(o);
        let mut state = empty_state(o);
        for (i, size) in sizes.iter().enumerate() {
            add(&mut state, i + 1, table(i + 1, i as u64, i as u64, *size));
        }
        assert!(controller.can_generate_task(&state));
        let task = controller.generate_compaction_task(&state);
        let expected = chosen_level(&sizes, &o);
        assert_eq!(task.map(|t| t.upper_level.unwrap()), expected);
        chosen += expected.is_some() as usize;
    }
    assert!(chosen > 100);
}

#[test]
fn close_factors_are_told_apart_as_doubles_are() {
    // Both factors round to the same double, so that the lower level comes first.
    let o = options(1, 1000, 3, 0);
    let size = (1u64 << 60) + 1;
    let controller = LeveledCompactionController::new(o);
    let mut state = empty_state(o);
    add(&mut state, 1, table(1, 0, 1, size + 1));
    add(&mut state, 2, table(2, 0, 1, size));
    add(&mut state, 3, table(3, 0, 1, 1));
    let sizes = [size + 1, size, 1];
    assert_eq!(chosen_level(&sizes, &o), Some(2));
    let task = controller.generate_compaction_task(&state).unwrap();
    assert_eq!(task.upper_level, Some(2));
}

#[test]
fn a_live_compaction_puts_its_output_where_its_tables_were() {
    let o = options(2, 2, 2, 1);
    let controller = LeveledCompactionController::new(o);
    let mut state = empty_state(o);
    add(&mut state, 0, table(9, 0, 9, 1));
    add(&mut state, 0, table(8, 12, 33, 1));
    for (i, first) in [0u64, 10, 20, 30, 40].iter().enumerate() {
        add(&mut state, 2, table(i + 1, *first, first + 5, 1));
    }
    let task = LeveledCompactionTask {
        upper_level: None,
        upper_level_sst_ids: vec![8],
        lower_level: 2,
        lower_level_sst_ids: vec![2, 3, 4],
        is_lower_level_bottom_level: true,
    };
    assert!(controller.can_apply_result(&state, &task, false));
    let (after, unused) = controller.apply_compaction_result(&state, &task, &[20, 21], false);
    assert_eq!(after.l0_sstables, vec![9]);
    assert_eq!(after.levels[1].1, vec![1, 20, 21, 5]);
    assert_eq!(unused, vec![8, 2, 3, 4]);
    // Replayed, the output comes last, and the tables are the same.
    let (again, unused) = controller.apply_compaction_result(&state, &task, &[20, 21], true);
    assert_eq!(again.l0_sstables, vec![9]);
    assert_eq!(again.levels[1].1, vec![1, 5, 20, 21]);
    assert_eq!(unused, vec![8, 2, 3, 4]);
}

#[test]
fn a_level_compaction_moves_one_table_down() {
    let o = options(2, 100, 3, 1);
    let controller = LeveledCompactionController::new(o);
    let mut state = empty_state(o);
    add(&mut state, 1, table(4, 0, 5, 1));
    add(&mut state, 1, table(3, 10, 15, 1));
    add(&mut state, 2, table(1, 0, 12, 1));
    add(&mut state, 2, table(2, 13, 30, 1));
    let task = LeveledCompactionTask {
        upper_level: Some(1),
        upper_level_sst_ids: vec![3],
        lower_level: 2,
        lower_level_sst_ids: vec![1, 2],
        is_lower_level_bottom_level: false,
    };
    assert!(controller.can_apply_result(&state, &task, false));
    let (after, unused) = controller.apply_compaction_result(&state, &task, &[7], false);
    assert_eq!(after.levels[0].1, vec![4]);
    assert_eq!(after.levels[1].1, vec![7]);
    assert_eq!(unused, vec![3, 1, 2]);
}

#[test]
fn leveled_tasks_that_do_not_fit_are_told() {
    let o = options(2, 2, 2, 1);
    let controller = LeveledCompactionController::new(o);
    let state = empty_state(o);
    let mut task = LeveledCompactionTask {
        upper_level: Some(3),
        upper_level_sst_ids: vec![1],
        lower_level: 2,
        lower_level_sst_ids: vec![],
        is_lower_level_bottom_level: false,
    };
    assert!(!controller.can_apply_result(&state, &task, true));
    task.upper_level = Some(1);
    assert!(controller.can_apply_result(&state, &task, true));
    assert!(!controller.can_apply_result(&state, &task, false));
    task.upper_level = None;
    assert!(!controller.can_apply_result(&state, &task, true));
    task.upper_level_sst_ids = vec![];
    assert!(controller.can_apply_result(&state, &task, true));
    task.lower_level = 0;
    assert!(!controller.can_apply_result(&state, &task, true));
}

#[test]
fn states_that_cannot_be_judged_are_told() {
    let o = options(2, 2, 2, 1);
    let controller = LeveledCompactionController::new(o);
    let mut state = empty_state(o);
    assert!(controller.can_generate_task(&state));
    // A table that is listed but not there.
    state.levels[0].1.push(7);
    assert!(!controller.can_generate_task(&state));
    let mut state = empty_state(o);
    // Tables out of order.
    add(&mut state, 1, table(1, 10, 20, 1));
    add(&mut state, 1, table(2, 0, 5, 1));
    assert!(!controller.can_generate_task(&state));
    // No multiplier.
    let o = options(0, 2, 2, 1);
    assert!(!LeveledCompactionController::new(o).can_generate_task(&empty_state(o)));
}

#[test]
fn l0_tables_that_are_not_due_need_not_be_there() {
    let o = options(2, 2, 2, 1);
    let controller = LeveledCompactionController::new(o);
    let mut state = empty_state(o);
    state.l0_sstables.push(7);
    assert!(controller.can_generate_task(&state));
    assert!(controller.generate_compaction_task(&state).is_none());
    state.l0_sstables.push(8);
    assert!(!controller.can_generate_task(&state));
}

/// The first and the last key of each table of a level, in order.
fn ranges(state: &LsmStorageState, level: usize) -> Vec<(Vec<u8>, Vec<u8>)> {
    let bytes = |k: &KeyBytes| k.as_key_slice().key_ref().to_vec();
    let mut ranges = Vec::new();
    for id in state.level(level) {
        let t = state.table(*id);
        ranges.push((bytes(t.first_key()), bytes(t.last_key())));
    }
    ranges
}

#[test]
fn a_generated_compaction_leaves_the_ranges_of_a_level_apart() {
    let o = options(2, 2, 3, 16);
    let controller = LeveledCompactionController::new(o);
    let mut state = empty_state(o);
    add(&mut state, 0, table(9, 12, 13, 1));
    add(&mut state, 0, table(8, 14, 22, 1));
    add(&mut state, 3, table(1, 0, 5, 1));
    add(&mut state, 3, table(2, 10, 15, 1));
    add(&mut state, 3, table(3, 20, 25, 1));
    add(&mut state, 3, table(4, 30, 35, 1));
    let task = controller.generate_compaction_task(&state).unwrap();
    assert_eq!(task.lower_level, 3);
    assert_eq!(task.upper_level_sst_ids, vec![9, 8]);
    assert_eq!(task.lower_level_sst_ids, vec![2, 3]);
    let (mut after, unused) = controller.apply_compaction_result(&state, &task, &[20, 21], false);
    assert_eq!(unused, vec![9, 8, 2, 3]);
    after.remove_sst_batch(&unused);
    after.add_sst_batch(vec![table(20, 10, 14, 1), table(21, 15, 25, 1)]);
    assert_eq!(after.levels[2].1, vec![1, 20, 21, 4]);
    let apart = ranges(&after, 3);
    assert_eq!(apart.len(), 4);
    assert!(apart.iter().all(|(first, last)| first <= last));
    assert!(apart.windows(2).all(|pair| pair[0].1 < pair[1].0));
}
