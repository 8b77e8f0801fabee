use voxel_terrain::area::{AreaManaged, Observer};
use voxel_terrain::chunk::Chunk;
use voxel_terrain::lifecycle::{ChunkState, Entity, Terrain};
use voxel_terrain::limiter::ChunkSpawnLimiter;
use voxel_terrain::manager::ChunkManager;
use voxel_terrain::scheduler::tick;

const TARGET: u32 = 16666;

#[test]
fn a_tick_loop_streams_the_whole_catchment_in() {
    let mut manager = ChunkManager::default();
    let mut limiter = ChunkSpawnLimiter::default();
    let mut terrain = Terrain::default();
    let observer = Observer { tile: Chunk::new(0, 0) };
    let area = AreaManaged::Circle(1);

    // first tick: the catchment becomes desired, the four nearest launch
    let mut completed: Vec<Entity> = Vec::new();
    let launched = tick(
        &mut manager,
        &mut limiter,
        &mut terrain,
        &observer,
        &area,
        TARGET,
        &completed,
    );
    assert_eq!(launched.len(), 4);
    assert_eq!(launched[0].1, Chunk::new(0, 0)); // distance zero goes first
    assert_eq!(terrain.count_loading(), 4);
    assert_eq!(manager.iter_desired_chunks().len(), 5);

    // second tick: the first batch completes and commits; the last chunk launches
    completed = launched.iter().map(|(e, _)| *e).collect();
    let second = tick(
        &mut manager,
        &mut limiter,
        &mut terrain,
        &observer,
        &area,
        TARGET,
        &completed,
    );
    assert_eq!(second.len(), 1);
    for (e, _) in &launched {
        assert_eq!(terrain.state_of(*e), Some(ChunkState::Active));
    }
    assert_eq!(terrain.count_loading(), 1);

    // third tick: everything is placed, nothing more to launch
    completed = second.iter().map(|(e, _)| *e).collect();
    let third = tick(
        &mut manager,
        &mut limiter,
        &mut terrain,
        &observer,
        &area,
        TARGET,
        &completed,
    );
    assert_eq!(third.len(), 0);
    assert_eq!(terrain.count_loading(), 0);
}

#[test]
fn no_chunk_is_ever_registered_twice_across_a_run() {
    let mut manager = ChunkManager::default();
    let mut limiter = ChunkSpawnLimiter::default();
    let mut terrain = Terrain::default();
    let observer = Observer { tile: Chunk::new(0, 0) };
    let area = AreaManaged::Circle(1);

    let mut completed: Vec<Entity> = Vec::new();
    let mut launches_per_chunk: std::collections::BTreeMap<(i32, i32), usize> =
        std::collections::BTreeMap::new();
    let mut recorded: Vec<(Chunk, Entity)> = Vec::new();
    // a fixed desired set of five chunks, well under the concurrency bound
    for _ in 0..12 {
        let launched = tick(
            &mut manager,
            &mut limiter,
            &mut terrain,
            &observer,
            &area,
            TARGET,
            &completed,
        );
        for (e, c) in &launched {
            *launches_per_chunk.entry((c.x, c.y)).or_insert(0) += 1;
            recorded.push((*c, *e));
        }
        completed = launched.iter().map(|(e, _)| *e).collect();
        // an already-recorded chunk keeps the entity it was given
        for (c, e) in &recorded {
            assert_eq!(manager.get_entity(c), Some(*e));
        }
    }
    assert_eq!(launches_per_chunk.len(), 5);
    for (_, count) in &launches_per_chunk {
        assert_eq!(*count, 1);
    }
}

#[test]
fn admission_stays_within_bounds_on_every_tick() {
    let mut manager = ChunkManager::default();
    let mut limiter = ChunkSpawnLimiter::default();
    let mut terrain = Terrain::default();
    let area = AreaManaged::Circle(4);
    let mut completed: Vec<Entity> = Vec::new();
    for step in 0..20 {
        let observer = Observer { tile: Chunk::new(step, 0) };
        let launched = tick(
            &mut manager,
            &mut limiter,
            &mut terrain,
            &observer,
            &area,
            TARGET,
            &completed,
        );
        assert!(launched.len() <= limiter.max_spawns_per_frame);
        assert!(terrain.count_loading() <= limiter.max_concurrent_tasks);
        // complete every other batch, so the pool drains in bursts
        if step % 2 == 0 {
            completed = launched.iter().map(|(e, _)| *e).collect();
        } else {
            completed = Vec::new();
        }
    }
}

#[test]
fn a_wandering_observer_leaves_dormant_chunks_behind() {
    let mut manager = ChunkManager::default();
    let mut limiter = ChunkSpawnLimiter::default();
    let mut terrain = Terrain::default();
    let area = AreaManaged::Circle(0);
    // stream in the tile under the observer, then walk away
    let mut completed: Vec<Entity> = Vec::new();
    let launched = tick(
        &mut manager,
        &mut limiter,
        &mut terrain,
        &Observer { tile: Chunk::new(0, 0) },
        &area,
        TARGET,
        &completed,
    );
    assert_eq!(launched.len(), 1);
    let home = launched[0].0;
    completed = vec![home];
    tick(
        &mut manager,
        &mut limiter,
        &mut terrain,
        &Observer { tile: Chunk::new(0, 0) },
        &area,
        TARGET,
        &completed,
    );
    assert_eq!(terrain.state_of(home), Some(ChunkState::Active));
    // the baseline policy never evicts: the home tile stays desired, so
    // the chunk stays active even after the observer has moved on
    completed = Vec::new();
    tick(
        &mut manager,
        &mut limiter,
        &mut terrain,
        &Observer { tile: Chunk::new(50, 0) },
        &area,
        TARGET,
        &completed,
    );
    assert!(manager.should_exist(&Chunk::new(0, 0)));
    assert_eq!(terrain.state_of(home), Some(ChunkState::Active));
    // only an explicit unload sends it dormant on the next tick
    manager._unload_chunk(Chunk::new(0, 0));
    tick(
        &mut manager,
        &mut limiter,
        &mut terrain,
        &Observer { tile: Chunk::new(50, 0) },
        &area,
        TARGET,
        &completed,
    );
    assert_eq!(terrain.state_of(home), Some(ChunkState::Dormant));
    // and a fresh request wakes it without regenerating
    manager.request_chunk(Chunk::new(0, 0));
    let relaunched = tick(
        &mut manager,
        &mut limiter,
        &mut terrain,
        &Observer { tile: Chunk::new(50, 0) },
        &area,
        TARGET,
        &completed,
    );
    assert_eq!(terrain.state_of(home), Some(ChunkState::Active));
    assert!(relaunched.iter().all(|(_, c)| *c != Chunk::new(0, 0)));
}
