use voxel_terrain::admission::spawn_with_limits;
use voxel_terrain::area::Observer;
use voxel_terrain::chunk::Chunk;
use voxel_terrain::lifecycle::{
    abandon_stale_chunks, handle_spawning_chunk, make_chunks_dormant, make_dormant_chunks_active,
    recieve, ChunkState, Entity, Terrain,
};
use voxel_terrain::limiter::ChunkSpawnLimiter;
use voxel_terrain::manager::ChunkManager;

fn launch_one(m: &mut ChunkManager, t: &mut Terrain, id: Chunk) -> Entity {
    m.request_chunk(id);
    let limiter = ChunkSpawnLimiter::default();
    let observer = Observer { tile: Chunk::new(0, 0) };
    let launched = spawn_with_limits(m, &limiter, t, &observer);
    launched
        .iter()
        .find(|(_, c)| *c == id)
        .expect("the requested chunk should launch")
        .0
}

#[test]
fn loading_becomes_active_only_after_completion() {
    let mut m = ChunkManager::default();
    let mut t = Terrain::default();
    let e = launch_one(&mut m, &mut t, Chunk::new(2, 3));
    assert_eq!(t.state_of(e), Some(ChunkState::Loading));
    // polling with nothing complete leaves the chunk loading
    handle_spawning_chunk(&mut t, &vec![]);
    assert_eq!(t.state_of(e), Some(ChunkState::Loading));
    // a completion for some other entity does not commit this one
    handle_spawning_chunk(&mut t, &vec![Entity { id: e.id + 100 }]);
    assert_eq!(t.state_of(e), Some(ChunkState::Loading));
    // its own completion does
    handle_spawning_chunk(&mut t, &vec![e]);
    assert_eq!(t.state_of(e), Some(ChunkState::Active));
    assert_eq!(t.count_loading(), 0);
}

#[test]
fn active_goes_dormant_only_when_no_longer_desired() {
    let mut m = ChunkManager::default();
    let mut t = Terrain::default();
    let id = Chunk::new(1, 1);
    let e = launch_one(&mut m, &mut t, id);
    handle_spawning_chunk(&mut t, &vec![e]);
    // still desired: stays active
    make_chunks_dormant(&m, &mut t);
    assert_eq!(t.state_of(e), Some(ChunkState::Active));
    // drop it from the desired set: goes dormant
    m._unload_chunk(id);
    make_chunks_dormant(&m, &mut t);
    assert_eq!(t.state_of(e), Some(ChunkState::Dormant));
}

#[test]
fn dormant_wakes_only_when_desired_again() {
    let mut m = ChunkManager::default();
    let mut t = Terrain::default();
    let id = Chunk::new(-4, 0);
    let e = launch_one(&mut m, &mut t, id);
    handle_spawning_chunk(&mut t, &vec![e]);
    m._unload_chunk(id);
    make_chunks_dormant(&m, &mut t);
    assert_eq!(t.state_of(e), Some(ChunkState::Dormant));
    // not desired: waking does nothing
    make_dormant_chunks_active(&m, &mut t);
    assert_eq!(t.state_of(e), Some(ChunkState::Dormant));
    // desired again: wakes without a second generation
    m.request_chunk(id);
    make_dormant_chunks_active(&m, &mut t);
    assert_eq!(t.state_of(e), Some(ChunkState::Active));
    assert_eq!(t.count_loading(), 0);
    assert_eq!(m.get_entity(&id), Some(e));
}

#[test]
fn a_loading_chunk_is_untouched_by_visibility_passes() {
    let mut m = ChunkManager::default();
    let mut t = Terrain::default();
    let id = Chunk::new(6, 6);
    let e = launch_one(&mut m, &mut t, id);
    m._unload_chunk(id);
    make_chunks_dormant(&m, &mut t);
    make_dormant_chunks_active(&m, &mut t);
    assert_eq!(t.state_of(e), Some(ChunkState::Loading));
}

#[test]
fn recieve_commits_one_entity_and_ignores_strangers() {
    let mut m = ChunkManager::default();
    let mut t = Terrain::default();
    let e = launch_one(&mut m, &mut t, Chunk::new(0, 5));
    recieve(&mut t, Entity { id: 999 });
    assert_eq!(t.state_of(e), Some(ChunkState::Loading));
    assert_eq!(t.state_of(Entity { id: 999 }), None);
    recieve(&mut t, e);
    assert_eq!(t.state_of(e), Some(ChunkState::Active));
    // a second completion report changes nothing
    recieve(&mut t, e);
    assert_eq!(t.state_of(e), Some(ChunkState::Active));
}

#[test]
fn an_abandoned_task_frees_its_slot_and_its_tile_retries() {
    let mut m = ChunkManager::default();
    let mut t = Terrain::default();
    let id = Chunk::new(3, 3);
    let stuck = launch_one(&mut m, &mut t, id);
    assert_eq!(t.count_loading(), 1);
    // the task ran past its age threshold: abandon it
    abandon_stale_chunks(&mut m, &mut t, &vec![stuck]);
    assert_eq!(t.state_of(stuck), None);
    assert_eq!(t.count_loading(), 0);
    assert_eq!(m.get_entity(&id), None);
    assert!(m.should_exist(&id));
    // the tile is a candidate again and retries with a fresh entity
    let retried = launch_one(&mut m, &mut t, id);
    assert_ne!(retried, stuck);
    assert_eq!(t.state_of(retried), Some(ChunkState::Loading));
    // an active chunk named as stale is not touched
    handle_spawning_chunk(&mut t, &vec![retried]);
    abandon_stale_chunks(&mut m, &mut t, &vec![retried]);
    assert_eq!(t.state_of(retried), Some(ChunkState::Active));
    assert_eq!(m.get_entity(&id), Some(retried));
}

#[test]
fn an_empty_terrain_has_nothing_loading() {
    let t = Terrain::default();
    assert_eq!(t.count_loading(), 0);
    assert_eq!(t.state_of(Entity { id: 0 }), None);
}
