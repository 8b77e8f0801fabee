use voxel_terrain::limiter::{adjust_limiter, ChunkSpawnLimiter};

#[test]
fn default_budget() {
    let l = ChunkSpawnLimiter::default();
    assert_eq!(l.max_spawns_per_frame, 4);
    assert_eq!(l.max_concurrent_tasks, 12);
    assert_eq!(l.target_frame_time_micros, 16666);
    assert_eq!(l.smooth_frame_time_micros, 16666);
}

#[test]
fn smoothing_weighs_the_new_sample_at_one_twentieth() {
    let mut l = ChunkSpawnLimiter::default();
    adjust_limiter(&mut l, 33332);
    assert_eq!(l.smooth_frame_time_micros, (19 * 16666 + 33332) / 20);
    assert_eq!(l.smooth_frame_time_micros, 17499);
}

#[test]
fn a_frame_inside_the_band_holds_the_budget_steady() {
    let mut l = ChunkSpawnLimiter::default();
    adjust_limiter(&mut l, 16666);
    assert_eq!(l.max_spawns_per_frame, 4);
    assert_eq!(l.max_concurrent_tasks, 12);
    assert_eq!(l.smooth_frame_time_micros, 16666);
}

#[test]
fn sustained_overload_drives_the_budget_to_its_floor_and_keeps_it_there() {
    let mut l = ChunkSpawnLimiter::default();
    // frames held at twice the target frame time
    for _ in 0..50 {
        adjust_limiter(&mut l, 2 * 16666);
        assert!(l.max_spawns_per_frame >= 1);
        assert!(l.max_concurrent_tasks >= 4);
    }
    assert_eq!(l.max_spawns_per_frame, 1);
    assert_eq!(l.max_concurrent_tasks, 4);
    // the floor is kept: no oscillation below it
    for _ in 0..20 {
        adjust_limiter(&mut l, 2 * 16666);
        assert_eq!(l.max_spawns_per_frame, 1);
        assert_eq!(l.max_concurrent_tasks, 4);
    }
}

#[test]
fn sustained_headroom_grows_the_budget_to_its_ceiling() {
    let mut l = ChunkSpawnLimiter::default();
    // frames held far under the target: thirty percent to spare and more
    for _ in 0..60 {
        adjust_limiter(&mut l, 1000);
        assert!(l.max_spawns_per_frame <= 16);
        assert!(l.max_concurrent_tasks <= 32);
    }
    assert_eq!(l.max_spawns_per_frame, 16);
    assert_eq!(l.max_concurrent_tasks, 32);
}

#[test]
fn concurrency_recovers_twice_as_fast_as_it_backs_off() {
    let mut l = ChunkSpawnLimiter {
        max_spawns_per_frame: 8,
        max_concurrent_tasks: 20,
        target_frame_time_micros: 16666,
        smooth_frame_time_micros: 5000,
    };
    adjust_limiter(&mut l, 5000);
    // one underloaded tick: spawns +1, concurrency +2
    assert_eq!(l.max_spawns_per_frame, 9);
    assert_eq!(l.max_concurrent_tasks, 22);
    let mut h = ChunkSpawnLimiter {
        max_spawns_per_frame: 8,
        max_concurrent_tasks: 20,
        target_frame_time_micros: 16666,
        smooth_frame_time_micros: 40000,
    };
    adjust_limiter(&mut h, 40000);
    // one overloaded tick: spawns -1, concurrency -1
    assert_eq!(h.max_spawns_per_frame, 7);
    assert_eq!(h.max_concurrent_tasks, 19);
}
