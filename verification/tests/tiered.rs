use mini_lsm::compact::tiered::{
    TieredCompactionController, TieredCompactionOptions, TieredCompactionTask,
};
use mini_lsm::compact::CompactionOptions;
use mini_lsm::lsm_storage::{LsmStorageOptions, LsmStorageState};

fn options(
    num_tiers: usize,
    amplification: usize,
    ratio: usize,
    min_width: usize,
    max_width: Option<usize>,
) -> TieredCompactionOptions {
    TieredCompactionOptions {
        num_tiers,
        max_size_amplification_percent: amplification,
        size_ratio: ratio,
        min_merge_width: min_width,
        max_merge_width: max_width,
    }
}

/// A state with tiers of the given numbers of tables, the latest first.
fn state_of(o: TieredCompactionOptions, counts: &[usize]) -> LsmStorageState {
    let options = LsmStorageOptions::default_for_week2_test(CompactionOptions::Tiered(o));
    let mut state = LsmStorageState::create(&options);
    let mut id = 0;
    for count in counts {
        let ids: Vec<usize> = (id..id + count).collect();
        state.levels.push((1000 - state.levels.len(), ids));
        id += count;
    }
    state
}

/// How many tiers are merged and whether the bottom tier is among them, by floating point.
fn expected_task(counts: &[usize], o: &TieredCompactionOptions) -> Option<(usize, bool)> {
    let sizes: Vec<f64> = counts.iter().map(|c| *c as f64).collect();
    let n = sizes.len();
    if n < o.num_tiers {
        return None;
    }
    let upper: f64 = sizes.iter().take(n - 1).sum();
    if upper / sizes[n - 1] * 100.0 >= o.max_size_amplification_percent as f64 {
        return Some((n, true));
    }
    let trigger = (100.0 + o.size_ratio as f64) / 100.0;
    let mut upper: f64 = sizes.iter().take(o.min_merge_width).sum();
    for i in o.min_merge_width..n {
        if sizes[i] / upper <= trigger {
            upper += sizes[i];
        } else {
            return Some((i, false));
        }
    }
    let take = n.min(o.max_merge_width.unwrap_or(usize::MAX));
    Some((take, n >= take))
}

#[test]
fn too_few_tiers_are_left_alone() {
    let o = options(3, 200, 1, 2, None);
    let controller = TieredCompactionController::new(o);
    assert!(controller.generate_compaction_task(&state_of(o, &[5, 5])).is_none());
}

#[test]
fn large_upper_tiers_lead_to_a_full_merge() {
    let o = options(3, 200, 1, 2, None);
    let controller = TieredCompactionController::new(o);
    let state = state_of(o, &[3, 3, 3]);
    let task = controller.generate_compaction_task(&state).unwrap();
    assert_eq!(task.tiers, state.levels);
    assert!(task.bottom_tier_included);
}

#[test]
fn a_large_tier_leads_to_a_merge_of_those_above_it() {
    let o = options(3, 200, 1, 2, None);
    let controller = TieredCompactionController::new(o);
    let state = state_of(o, &[1, 1, 1, 9, 9]);
    let task = controller.generate_compaction_task(&state).unwrap();
    assert_eq!(task.tiers, state.levels[..3].to_vec());
    assert!(!task.bottom_tier_included);
}

#[test]
fn otherwise_as_many_tiers_are_merged_as_may_be() {
    let o = options(2, 1000, 500, 2, Some(3));
    let controller = TieredCompactionController::new(o);
    let state = state_of(o, &[2, 2, 2, 2]);
    let task = controller.generate_compaction_task(&state).unwrap();
    assert_eq!(task.tiers, state.levels[..3].to_vec());
    assert!(task.bottom_tier_included);
}

#[test]
fn tiered_tasks_agree_with_floating_point() {
    let mut seed: u64 = 7;
    let mut random = move |bound: u64| {
        seed = seed.wrapping_mul(6364136223846793005).wrapping_add(1442695040888963407);
        (seed >> 33) % bound
    };
    let mut kinds = [0usize; 4];
    for _ in 0..5000 {
        let num_tiers = 1 + random(4) as usize;
        let o = options(
            num_tiers,
            random(400) as usize,
            random(120) as usize,
            random(num_tiers as u64 + 1) as usize,
            if random(2) == 0 { None } else { Some(random(6) as usize) },
        );
        let counts: Vec<usize> = (0..1 + random(7)).map(|_| random(9) as usize).collect();
        let controller = TieredCompactionController::new(o);
        let state = state_of(o, &counts);
        assert!(controller.can_generate_task(&state));
        let task = controller.generate_compaction_task(&state);
        let expected = expected_task(&counts, &o);
        let got = task.map(|t| {
            assert_eq!(t.tiers, state.levels[..t.tiers.len()].to_vec());
            (t.tiers.len(), t.bottom_tier_included)
        });
        assert_eq!(got, expected, "{:?} {:?}", o, counts);
        kinds[match expected {
            None => 0,
            Some((k, true)) if k == counts.len() => 1,
            Some((_, true)) => 2,
            Some((_, false)) => 3,
        }] += 1;
    }
    assert!(kinds.iter().all(|k| *k > 50), "{:?}", kinds);
}

#[test]
fn the_bottom_tiers_are_replaced_by_the_output() {
    let o = options(2, 1000, 500, 2, None);
    let controller = TieredCompactionController::new(o);
    let mut state = state_of(o, &[2, 1]);
    let task = TieredCompactionTask { tiers: state.levels.clone(), bottom_tier_included: true };
    // A tier that was flushed in the meantime stays in front.
    state.levels.insert(0, (2000, vec![50]));
    assert!(controller.can_apply_result(&state, &task, &[60, 61]));
    let (after, unused) = controller.apply_compaction_result(&state, &task, &[60, 61]);
    assert_eq!(after.levels, vec![(2000, vec![50]), (60, vec![60, 61])]);
    assert_eq!(unused, vec![0, 1, 2]);
}

#[test]
fn inner_tiers_are_replaced_where_they_stand() {
    let o = options(2, 1000, 500, 2, None);
    let controller = TieredCompactionController::new(o);
    let mut state = state_of(o, &[2, 1, 4]);
    let task = TieredCompactionTask {
        tiers: state.levels[..2].to_vec(),
        bottom_tier_included: false,
    };
    state.levels.insert(0, (2000, vec![50]));
    assert!(controller.can_apply_result(&state, &task, &[60]));
    let (after, unused) = controller.apply_compaction_result(&state, &task, &[60]);
    assert_eq!(
        after.levels,
        vec![(2000, vec![50]), (60, vec![60]), (998, vec![3, 4, 5, 6])]
    );
    assert_eq!(unused, vec![0, 1, 2]);
}

#[test]
fn tiered_tasks_that_do_not_fit_are_told() {
    let o = options(2, 1000, 500, 2, None);
    let controller = TieredCompactionController::new(o);
    let state = state_of(o, &[1]);
    let none = TieredCompactionTask { tiers: vec![], bottom_tier_included: false };
    assert!(!controller.can_apply_result(&state, &none, &[60]));
    let strange = TieredCompactionTask { tiers: vec![(7, vec![])], bottom_tier_included: false };
    assert!(!controller.can_apply_result(&state, &strange, &[60]));
    let known = TieredCompactionTask { tiers: vec![(1000, vec![0])], bottom_tier_included: false };
    assert!(controller.can_apply_result(&state, &known, &[60]));
    assert!(!controller.can_apply_result(&state, &known, &[]));
}
