use pebbledb::compaction::{pick_compaction, FileMeta, LevelConfig};

fn meta(id: u64, level: u32, smallest: &str, largest: &str, size: usize) -> FileMeta {
    FileMeta {
        id,
        level,
        smallest: smallest.to_string(),
        largest: largest.to_string(),
        size,
    }
}

fn level_config(l0_threshold: usize, target_level_size: usize) -> LevelConfig {
    LevelConfig::new(l0_threshold, 10, target_level_size)
}

#[test]
fn no_files_means_no_work() {
    assert_eq!(pick_compaction(&[], &level_config(4, 1000)), None);
}

#[test]
fn l0_below_threshold_is_left_alone() {
    let files = vec![meta(1, 0, "a", "b", 10), meta(2, 0, "c", "d", 10)];
    assert_eq!(pick_compaction(&files, &level_config(4, 1000)), None);
}

#[test]
fn small_levels_are_left_alone() {
    let files = vec![meta(1, 1, "a", "m", 400), meta(2, 1, "n", "z", 400)];
    assert_eq!(pick_compaction(&files, &level_config(4, 1000)), None);
}

#[test]
fn l0_threshold_compacts_all_l0_files_with_overlapping_l1() {
    let files = vec![
        meta(3, 0, "b", "d", 10),
        meta(1, 0, "a", "c", 10),
        meta(5, 1, "c", "e", 10),
        meta(6, 1, "x", "z", 10),
    ];
    let plan = pick_compaction(&files, &level_config(2, 1000)).unwrap();
    assert_eq!(plan.level, 0);
    assert_eq!(plan.inputs, vec![3, 1]);
    assert_eq!(plan.overlaps, vec![5]);
    assert!(plan.drop_tombstones);
}

#[test]
fn l0_plan_keeps_tombstones_when_a_deeper_level_exists() {
    let files = vec![
        meta(1, 0, "a", "b", 10),
        meta(2, 0, "c", "d", 10),
        meta(3, 2, "a", "d", 10),
    ];
    let plan = pick_compaction(&files, &level_config(2, 1000)).unwrap();
    assert_eq!(plan.level, 0);
    assert!(!plan.drop_tombstones);
}

#[test]
fn oversized_level_compacts_its_oldest_file_with_overlaps() {
    let files = vec![
        meta(7, 2, "a", "c", 10),
        meta(2, 1, "c", "o", 900),
        meta(5, 1, "a", "b", 900),
        meta(9, 2, "x", "z", 10),
        meta(11, 3, "a", "z", 10),
    ];
    let plan = pick_compaction(&files, &level_config(100, 1000)).unwrap();
    assert_eq!(plan.level, 1);
    assert_eq!(plan.inputs, vec![2]);
    assert_eq!(plan.overlaps, vec![7]);
    assert!(!plan.drop_tombstones);
}

#[test]
fn deepest_level_compaction_drops_tombstones() {
    let files = vec![meta(1, 1, "a", "z", 5000)];
    let plan = pick_compaction(&files, &level_config(100, 1000)).unwrap();
    assert_eq!(plan.level, 1);
    assert_eq!(plan.overlaps, Vec::new());
    assert!(plan.drop_tombstones);
}

#[test]
fn level_capacity_grows_with_the_multiplier() {
    let config = LevelConfig::new(4, 10, 100);
    assert_eq!(config.level_capacity(1), 100);
    assert_eq!(config.level_capacity(2), 1000);
    assert_eq!(config.level_capacity(3), 10_000);
}

#[test]
fn config_is_clamped_to_terminating_values() {
    let config = LevelConfig::new(0, 0, 0);
    assert_eq!(config.l0_compaction_threshold, 1);
    assert_eq!(config.level_size_multiplier, 2);
    assert_eq!(config.target_level_size, 1);
}

#[test]
fn picker_is_deterministic() {
    let files = vec![meta(3, 0, "b", "d", 10), meta(1, 0, "a", "c", 10)];
    let config = level_config(2, 1000);
    assert_eq!(
        pick_compaction(&files, &config),
        pick_compaction(&files, &config)
    );
}

#[test]
fn picker_does_not_look_at_the_order_of_the_files() {
    let files = [
        meta(3, 0, "b", "d", 10),
        meta(1, 0, "a", "c", 10),
        meta(5, 1, "c", "e", 400),
        meta(6, 1, "x", "z", 700),
        meta(2, 2, "a", "z", 10),
    ];
    for threshold in [2, 3] {
        let config = level_config(threshold, 1000);
        let plan = pick_compaction(&files, &config).unwrap();
        assert_eq!(plan.level, if threshold == 2 { 0 } else { 1 });
        for step in 1..files.len() {
            let turned: Vec<FileMeta> = (0..files.len()).map(|i| files[(i * step + step) % files.len()].clone()).collect();
            assert_eq!(pick_compaction(&turned, &config), Some(plan.clone()));
        }
    }
}
