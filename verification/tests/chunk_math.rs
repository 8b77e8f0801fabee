use voxel_terrain::chunk::{chunk_to_world, world_to_tile, Chunk, CHUNK_SIZE};
use voxel_terrain::collider::collider_triangles;

#[test]
fn chunk_size_is_thirty_two_voxels() {
    assert_eq!(CHUNK_SIZE, 32);
}

#[test]
fn squared_distance_in_grid_units() {
    assert_eq!(Chunk::new(0, 0).distance_squared(&Chunk::new(3, 4)), 25);
    assert_eq!(Chunk::new(-2, 1).distance_squared(&Chunk::new(1, -3)), 25);
    assert_eq!(Chunk::new(5, 5).distance_squared(&Chunk::new(5, 5)), 0);
    assert_eq!(Chunk::new(0, 0).distance_squared(&Chunk::new(5, 5)), 50);
}

#[test]
fn squared_distance_admits_the_whole_grid() {
    let span = i32::MAX as i128 - i32::MIN as i128;
    assert_eq!(
        Chunk::new(i32::MIN, 0).distance_squared(&Chunk::new(i32::MAX, 0)),
        span * span
    );
    assert_eq!(
        Chunk::new(i32::MIN, i32::MIN).distance_squared(&Chunk::new(i32::MAX, i32::MAX)),
        2 * span * span
    );
}

#[test]
fn chunks_compare_structurally() {
    assert_eq!(Chunk::new(1, 2), Chunk { x: 1, y: 2 });
    assert_ne!(Chunk::new(1, 2), Chunk::new(2, 1));
}

#[test]
fn world_translation_centres_the_tile_and_sinks_it() {
    assert_eq!(chunk_to_world(&Chunk::new(0, 0)), (-16, -5, -16));
    assert_eq!(chunk_to_world(&Chunk::new(2, -1)), (48, -5, -48));
    assert_eq!(
        chunk_to_world(&Chunk::new(i32::MAX, i32::MIN)),
        (i32::MAX as i64 * 32 - 16, -5, i32::MIN as i64 * 32 - 16)
    );
}

#[test]
fn an_empty_mesh_gets_no_collision_body() {
    assert!(collider_triangles(0, &vec![0, 1, 2]).is_none());
    assert!(collider_triangles(9, &vec![]).is_none());
}

#[test]
fn indices_regroup_into_triangles() {
    let triangles = collider_triangles(4, &vec![0, 1, 2, 0, 2, 3]).unwrap();
    assert_eq!(triangles, vec![[0, 1, 2], [0, 2, 3]]);
    // a trailing partial triple is dropped
    let ragged = collider_triangles(4, &vec![0, 1, 2, 3]).unwrap();
    assert_eq!(ragged, vec![[0, 1, 2]]);
}

#[test]
fn world_positions_at_the_grid_edges_stay_on_it() {
    let west = i32::MIN as i64 * 32;
    let east = i32::MAX as i64 * 32 + 31;
    assert_eq!(world_to_tile(west, east), Chunk::new(i32::MIN, i32::MAX));
    assert_eq!(world_to_tile(west + 31, east - 31), Chunk::new(i32::MIN, i32::MAX));
}

#[test]
fn world_positions_floor_onto_tiles() {
    assert_eq!(world_to_tile(0, 0), Chunk::new(0, 0));
    assert_eq!(world_to_tile(31, 33), Chunk::new(0, 1));
    assert_eq!(world_to_tile(32, 64), Chunk::new(1, 2));
    // flooring, not truncation: a step below zero is already tile -1
    assert_eq!(world_to_tile(-1, -32), Chunk::new(-1, -1));
    assert_eq!(world_to_tile(-33, -64), Chunk::new(-2, -2));
}
