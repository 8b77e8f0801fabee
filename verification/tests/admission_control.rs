use voxel_terrain::admission::spawn_with_limits;
use voxel_terrain::area::Observer;
use voxel_terrain::chunk::Chunk;
use voxel_terrain::lifecycle::{ChunkState, Terrain};
use voxel_terrain::limiter::ChunkSpawnLimiter;
use voxel_terrain::manager::ChunkManager;

fn limiter_with(max_spawns: usize, max_concurrent: usize) -> ChunkSpawnLimiter {
    ChunkSpawnLimiter {
        max_spawns_per_frame: max_spawns,
        max_concurrent_tasks: max_concurrent,
        target_frame_time_micros: 16666,
        smooth_frame_time_micros: 16666,
    }
}

#[test]
fn launches_nearest_chunks_first() {
    let mut m = ChunkManager::default();
    let mut t = Terrain::default();
    let observer = Observer { tile: Chunk::new(0, 0) };
    m.request_chunk(Chunk::new(5, 5));
    m.request_chunk(Chunk::new(1, 0));
    m.request_chunk(Chunk::new(3, 0));
    let launched = spawn_with_limits(&mut m, &limiter_with(2, 12), &mut t, &observer);
    // squared distances 1, 9, 50: the two nearest go first
    assert_eq!(launched.len(), 2);
    assert_eq!(launched[0].1, Chunk::new(1, 0));
    assert_eq!(launched[1].1, Chunk::new(3, 0));
    assert_eq!(m.get_entity(&Chunk::new(5, 5)), None);
}

#[test]
fn launched_chunks_start_loading_and_are_registered() {
    let mut m = ChunkManager::default();
    let mut t = Terrain::default();
    let observer = Observer { tile: Chunk::new(0, 0) };
    m.request_chunk(Chunk::new(0, 0));
    let launched = spawn_with_limits(&mut m, &limiter_with(4, 12), &mut t, &observer);
    assert_eq!(launched.len(), 1);
    let (entity, chunk) = launched[0];
    assert_eq!(chunk, Chunk::new(0, 0));
    assert_eq!(m.get_entity(&chunk), Some(entity));
    assert_eq!(t.state_of(entity), Some(ChunkState::Loading));
    assert_eq!(t.count_loading(), 1);
}

#[test]
fn never_launches_more_than_the_per_tick_budget() {
    let mut m = ChunkManager::default();
    let mut t = Terrain::default();
    let observer = Observer { tile: Chunk::new(0, 0) };
    for x in 0..10 {
        m.request_chunk(Chunk::new(x, 0));
    }
    let launched = spawn_with_limits(&mut m, &limiter_with(3, 12), &mut t, &observer);
    assert_eq!(launched.len(), 3);
    assert_eq!(t.count_loading(), 3);
}

#[test]
fn never_exceeds_the_concurrency_bound() {
    let mut m = ChunkManager::default();
    let mut t = Terrain::default();
    let observer = Observer { tile: Chunk::new(0, 0) };
    for x in 0..10 {
        m.request_chunk(Chunk::new(x, 0));
    }
    let limiter = limiter_with(4, 6);
    for _ in 0..5 {
        spawn_with_limits(&mut m, &limiter, &mut t, &observer);
        assert!(t.count_loading() <= 6);
    }
    assert_eq!(t.count_loading(), 6);
}

#[test]
fn a_full_pool_admits_nothing() {
    let mut m = ChunkManager::default();
    let mut t = Terrain::default();
    let observer = Observer { tile: Chunk::new(0, 0) };
    for x in 0..4 {
        m.request_chunk(Chunk::new(x, 0));
    }
    let launched = spawn_with_limits(&mut m, &limiter_with(4, 4), &mut t, &observer);
    assert_eq!(launched.len(), 4);
    m.request_chunk(Chunk::new(9, 9));
    let more = spawn_with_limits(&mut m, &limiter_with(4, 4), &mut t, &observer);
    assert_eq!(more.len(), 0);
    assert_eq!(t.count_loading(), 4);
}

#[test]
fn each_chunk_is_scheduled_exactly_once() {
    let mut m = ChunkManager::default();
    let mut t = Terrain::default();
    let observer = Observer { tile: Chunk::new(0, 0) };
    for x in 0..3 {
        m.request_chunk(Chunk::new(x, 1));
    }
    let first = spawn_with_limits(&mut m, &limiter_with(16, 32), &mut t, &observer);
    assert_eq!(first.len(), 3);
    let recorded: Vec<_> = (0..3).map(|x| m.get_entity(&Chunk::new(x, 1)).unwrap()).collect();
    // further ticks over the same desired set find nothing to launch and
    // leave every registration as it was
    for _ in 0..8 {
        let again = spawn_with_limits(&mut m, &limiter_with(16, 32), &mut t, &observer);
        assert_eq!(again.len(), 0);
        for x in 0..3 {
            assert_eq!(m.get_entity(&Chunk::new(x, 1)), Some(recorded[x as usize]));
        }
    }
}

#[test]
fn fresh_entities_are_pairwise_distinct() {
    let mut m = ChunkManager::default();
    let mut t = Terrain::default();
    let observer = Observer { tile: Chunk::new(0, 0) };
    for x in 0..5 {
        m.request_chunk(Chunk::new(x, 2));
    }
    let launched = spawn_with_limits(&mut m, &limiter_with(16, 32), &mut t, &observer);
    assert_eq!(launched.len(), 5);
    for a in 0..5 {
        for b in 0..5 {
            if a != b {
                assert_ne!(launched[a].0, launched[b].0);
            }
        }
    }
}
