use mini_lsm::compact::simple_leveled::{
    SimpleLeveledCompactionController, SimpleLeveledCompactionOptions,
};
use mini_lsm::compact::CompactionOptions;
use mini_lsm::lsm_storage::{LsmStorageOptions, LsmStorageState};

fn options(percent: usize, trigger: usize, levels: usize) -> SimpleLeveledCompactionOptions {
    SimpleLeveledCompactionOptions {
        size_ratio_percent: percent,
        level0_file_num_compaction_trigger: trigger,
        max_levels: levels,
    }
}

fn state_of(o: SimpleLeveledCompactionOptions, l0: usize, counts: &[usize]) -> LsmStorageState {
    let options = LsmStorageOptions::default_for_week2_test(CompactionOptions::Simple(o));
    let mut state = LsmStorageState::create(&options);
    state.l0_sstables = (0..l0).collect();
    let mut id = 100;
    for (i, count) in counts.iter().enumerate() {
        state.levels[i].1 = (id..id + count).collect();
        id += count;
    }
    state
}

#[test]
fn l0_waits_for_enough_tables() {
    let o = options(200, 2, 3);
    let controller = SimpleLeveledCompactionController::new(o);
    let state = state_of(o, 1, &[0, 0, 0]);
    assert!(controller.can_generate_task(&state));
    assert!(controller.generate_compaction_task(&state).is_none());
    let state = state_of(o, 2, &[0, 0, 0]);
    let task = controller.generate_compaction_task(&state).unwrap();
    assert_eq!(task.upper_level, None);
    assert_eq!(task.upper_level_sst_ids, vec![0, 1]);
    assert_eq!(task.lower_level, 1);
    assert_eq!(task.lower_level_sst_ids, Vec::<usize>::new());
    assert!(!task.is_lower_level_bottom_level);
}

#[test]
fn a_small_lower_level_takes_the_upper_one() {
    let o = options(200, 2, 3);
    let controller = SimpleLeveledCompactionController::new(o);
    let state = state_of(o, 0, &[2, 4, 7]);
    let task = controller.generate_compaction_task(&state).unwrap();
    assert_eq!(task.upper_level, Some(2));
    assert_eq!(task.lower_level, 3);
    assert_eq!(task.upper_level_sst_ids, vec![102, 103, 104, 105]);
    assert!(task.is_lower_level_bottom_level);
    let state = state_of(o, 0, &[2, 4, 8]);
    assert!(controller.generate_compaction_task(&state).is_none());
}

#[test]
fn applying_a_generated_task_moves_whole_levels() {
    let o = options(200, 2, 2);
    let controller = SimpleLeveledCompactionController::new(o);
    let mut state = state_of(o, 2, &[1, 9]);
    let task = controller.generate_compaction_task(&state).unwrap();
    // A table that was flushed in the meantime stays.
    state.l0_sstables.insert(0, 50);
    assert!(controller.can_apply_result(&state, &task));
    let (after, unused) = controller.apply_compaction_result(&state, &task, &[70, 71]);
    assert_eq!(after.l0_sstables, vec![50]);
    assert_eq!(after.levels[0], (1, vec![70, 71]));
    assert_eq!(unused, vec![0, 1, 100]);

    let state = state_of(o, 0, &[3, 1]);
    let task = controller.generate_compaction_task(&state).unwrap();
    let (after, unused) = controller.apply_compaction_result(&state, &task, &[80]);
    assert_eq!(after.levels, vec![(1, vec![]), (2, vec![80])]);
    assert_eq!(unused, vec![100, 101, 102, 103]);
}

#[test]
fn a_task_for_other_tables_does_not_fit() {
    let o = options(200, 2, 2);
    let controller = SimpleLeveledCompactionController::new(o);
    let state = state_of(o, 2, &[1, 9]);
    let mut task = controller.generate_compaction_task(&state).unwrap();
    task.lower_level_sst_ids.push(5);
    assert!(!controller.can_apply_result(&state, &task));
}

#[test]
fn ratios_agree_with_floating_point() {
    for percent in [0usize, 1, 33, 50, 66, 100, 150, 333] {
        for upper in 0..20usize {
            for lower in 0..20usize {
                let o = options(percent, 1000, 2);
                let controller = SimpleLeveledCompactionController::new(o);
                let state = state_of(o, 0, &[upper, lower]);
                let ratio = lower as f64 / upper as f64;
                let expected = ratio < percent as f64 / 100.0;
                let got = controller.generate_compaction_task(&state).is_some();
                assert_eq!(got, expected, "{} {} {}", percent, upper, lower);
            }
        }
    }
}
