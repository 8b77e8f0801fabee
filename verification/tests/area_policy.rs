use voxel_terrain::area::{add_desired_chunks, lod_level, AreaManaged, LodLevel, Observer};
use voxel_terrain::chunk::Chunk;
use voxel_terrain::manager::ChunkManager;

#[test]
fn circle_radius_one_requests_exactly_five_chunks() {
    let mut m = ChunkManager::default();
    let observer = Observer { tile: Chunk::new(0, 0) };
    add_desired_chunks(&mut m, &observer, &AreaManaged::Circle(1));
    let desired = m.iter_desired_chunks();
    assert_eq!(desired.len(), 5);
    for id in [
        Chunk::new(0, 0),
        Chunk::new(1, 0),
        Chunk::new(-1, 0),
        Chunk::new(0, 1),
        Chunk::new(0, -1),
    ] {
        assert!(m.should_exist(&id));
    }
    assert!(!m.should_exist(&Chunk::new(1, 1)));
}

#[test]
fn circle_radius_zero_requests_the_observer_tile() {
    let mut m = ChunkManager::default();
    let observer = Observer { tile: Chunk::new(8, -2) };
    add_desired_chunks(&mut m, &observer, &AreaManaged::Circle(0));
    let desired = m.iter_desired_chunks();
    assert_eq!(desired.len(), 1);
    assert!(m.should_exist(&Chunk::new(8, -2)));
}

#[test]
fn circle_radius_two_requests_thirteen_chunks() {
    let mut m = ChunkManager::default();
    let observer = Observer { tile: Chunk::new(0, 0) };
    add_desired_chunks(&mut m, &observer, &AreaManaged::Circle(2));
    assert_eq!(m.iter_desired_chunks().len(), 13);
    assert!(m.should_exist(&Chunk::new(1, 1)));
    assert!(m.should_exist(&Chunk::new(2, 0)));
    assert!(!m.should_exist(&Chunk::new(2, 1)));
}

#[test]
fn circle_is_centred_on_the_observer() {
    let mut m = ChunkManager::default();
    let observer = Observer { tile: Chunk::new(100, -50) };
    add_desired_chunks(&mut m, &observer, &AreaManaged::Circle(1));
    assert!(m.should_exist(&Chunk::new(100, -50)));
    assert!(m.should_exist(&Chunk::new(101, -50)));
    assert!(!m.should_exist(&Chunk::new(0, 0)));
}

#[test]
fn moving_the_observer_only_grows_the_desired_set() {
    let mut m = ChunkManager::default();
    add_desired_chunks(&mut m, &Observer { tile: Chunk::new(0, 0) }, &AreaManaged::Circle(1));
    add_desired_chunks(&mut m, &Observer { tile: Chunk::new(3, 0) }, &AreaManaged::Circle(1));
    // the old catchment is still desired: no eviction in the baseline policy
    assert!(m.should_exist(&Chunk::new(-1, 0)));
    assert!(m.should_exist(&Chunk::new(4, 0)));
    assert_eq!(m.iter_desired_chunks().len(), 10);
}

#[test]
fn lod_grades_by_distance_bands() {
    // render distance 25: medium band below 25 - 5 = 20, low outside
    assert!(matches!(lod_level(0, 25), LodLevel::Medium));
    assert!(matches!(lod_level(7, 25), LodLevel::Medium));
    assert!(matches!(lod_level(19, 25), LodLevel::Medium));
    assert!(matches!(lod_level(20, 25), LodLevel::Low));
    assert!(matches!(lod_level(25, 25), LodLevel::Low));
    assert!(matches!(lod_level(-19, 25), LodLevel::Medium));
    assert!(matches!(lod_level(-20, 25), LodLevel::Low));
}

#[test]
fn lod_with_zero_render_distance_is_low() {
    assert!(matches!(lod_level(0, 0), LodLevel::Low));
    assert!(matches!(lod_level(5, 0), LodLevel::Low));
}
