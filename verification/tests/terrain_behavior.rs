use mountforge::dirty::{DirtyRegion, LocalPoint};
use mountforge::lod::LODLevel;
use mountforge::terrain::{MasterTerrain, TerrainError};
use mountforge::{ChunkPos, DIST_ONE, HEIGHT_ONE};

fn single_lod() -> Vec<LODLevel> {
    vec![LODLevel::new(0, u64::MAX)]
}

fn loaded_terrain(chunk_size: usize, texture_size: usize) -> MasterTerrain {
    let mut t = MasterTerrain::unloaded();
    t.init(chunk_size, texture_size, single_lod()).unwrap();
    t.process_spawn_queue();
    t
}

/// Walks a path of edge-adjacent chunks so each spawn has a neighbor.
fn spawn_path(t: &mut MasterTerrain, path: &[(i32, i32)]) {
    for &(x, y) in path {
        t.spawn_chunk(ChunkPos::new(x, y));
    }
    t.process_spawn_queue();
}

#[test]
fn generation_is_deterministic_across_runs() {
    let mut a = loaded_terrain(16, 16);
    let mut b = loaded_terrain(16, 16);
    for &(x, y) in &[(0i64, 0i64), (3, 7), (-1, -1), (-40, 25), (100, -3)] {
        assert_eq!(a.get_height(x, y), b.get_height(x, y));
    }
}

#[test]
fn generation_matches_the_noise_source() {
    let mut t = loaded_terrain(16, 16);
    for &(wx, wy) in &[(1i64, 2i64), (-5, 9), (20, -20)] {
        let table = noise::permutationtable::PermutationTable::new(1);
        let point = noise::Vector2::new(wx, wy).numcast::<f64>().unwrap() / 10.0;
        let sample = noise::core::open_simplex::open_simplex_2d(point, &table);
        let expected = (458752.0 * sample) as i64;
        assert_eq!(t.get_height(wx, wy), expected);
    }
}

#[test]
fn write_then_read_returns_the_value() {
    let mut t = loaded_terrain(16, 16);
    let v = 5 * HEIGHT_ONE;
    t.set_height(3, 4, v);
    assert_eq!(t.get_height(3, 4), v);
    let w = -7 * HEIGHT_ONE;
    t.set_height(-3, -4, w);
    assert_eq!(t.get_height(-3, -4), w);
    assert_eq!(t.get_height(3, 4), v);
}

#[test]
fn add_height_accumulates() {
    let mut t = loaded_terrain(16, 16);
    t.set_height(1, 1, 5 * HEIGHT_ONE);
    t.add_height(1, 1, 2 * HEIGHT_ONE);
    assert_eq!(t.get_height(1, 1), 7 * HEIGHT_ONE);
    t.add_height(1, 1, -10 * HEIGHT_ONE);
    assert_eq!(t.get_height(1, 1), -3 * HEIGHT_ONE);
}

#[test]
fn mark_all_is_final_against_point_marks() {
    let mut t = loaded_terrain(16, 16);
    let c = ChunkPos::new(0, 0);
    t.mark_all(c);
    for i in 0..10 {
        t.mark_point(c, LocalPoint { x: i, y: i });
    }
    let regions = t.drain_dirty_regions();
    let entry = regions.iter().find(|e| e.0 == c).expect("origin chunk dirty");
    assert!(matches!(entry.1, DirtyRegion::AllVertices));
}

#[test]
fn edge_write_dirties_western_neighbor() {
    let mut t = loaded_terrain(16, 16);
    spawn_path(
        &mut t,
        &[(1, 0), (2, 0), (2, 1), (2, 2), (2, 3), (1, 3)],
    );
    // Clear the whole-chunk marks left by spawning.
    let _ = t.drain_dirty_regions();
    // Local point (0, 5) of chunk (2, 3).
    t.set_height(2 * 16, 3 * 16 + 5, HEIGHT_ONE);
    let regions = t.drain_dirty_regions();
    let west = regions
        .iter()
        .find(|e| e.0 == ChunkPos::new(1, 3))
        .expect("western neighbor is dirty");
    match &west.1 {
        DirtyRegion::Points(pts) => {
            assert!(pts.iter().any(|p| p.x == 16 && p.y == 5));
        },
        DirtyRegion::AllVertices => panic!("expected a point list"),
    }
    let own = regions
        .iter()
        .find(|e| e.0 == ChunkPos::new(2, 3))
        .expect("written chunk is dirty");
    match &own.1 {
        DirtyRegion::Points(pts) => {
            assert!(pts.iter().any(|p| p.x == 0 && p.y == 5));
        },
        DirtyRegion::AllVertices => panic!("expected a point list"),
    }
}

#[test]
fn corner_write_dirties_three_neighbors() {
    let mut t = loaded_terrain(16, 16);
    spawn_path(&mut t, &[(0, 1), (1, 1), (1, 0)]);
    let _ = t.drain_dirty_regions();
    // Local point (0, 0) of chunk (1, 1).
    t.set_height(16, 16, HEIGHT_ONE);
    let regions = t.drain_dirty_regions();
    let find = |x: i32, y: i32| regions.iter().find(|e| e.0 == ChunkPos::new(x, y));
    assert!(find(1, 1).is_some());
    assert!(find(0, 1).is_some());
    assert!(find(1, 0).is_some());
    assert!(find(0, 0).is_some());
}

#[test]
fn dirty_regions_of_missing_chunks_are_dropped() {
    let mut t = loaded_terrain(16, 16);
    let _ = t.drain_dirty_regions();
    t.mark_point(ChunkPos::new(9, 9), LocalPoint { x: 1, y: 1 });
    let regions = t.drain_dirty_regions();
    assert!(regions.iter().all(|e| e.0 != ChunkPos::new(9, 9)));
}

#[test]
fn last_chunk_cannot_be_destroyed() {
    let mut t = loaded_terrain(16, 16);
    assert_eq!(t.chunk_count(), 1);
    t.destroy_chunk(ChunkPos::new(0, 0));
    t.process_destroy_queue();
    assert_eq!(t.chunk_count(), 1);
    assert!(t.does_chunk_exist(&ChunkPos::new(0, 0)));
}

#[test]
fn destroy_removes_chunk_heights_and_dirty_entry() {
    let mut t = loaded_terrain(16, 16);
    spawn_path(&mut t, &[(1, 0)]);
    t.set_height(16 + 3, 2, HEIGHT_ONE);
    assert!(t.heights_of_chunk(&ChunkPos::new(1, 0)).is_some());
    t.destroy_chunk(ChunkPos::new(1, 0));
    t.process_destroy_queue();
    assert!(!t.does_chunk_exist(&ChunkPos::new(1, 0)));
    assert!(t.heights_of_chunk(&ChunkPos::new(1, 0)).is_none());
    let regions = t.drain_dirty_regions();
    assert!(regions.iter().all(|e| e.0 != ChunkPos::new(1, 0)));
    assert_eq!(t.chunk_count(), 1);
}

#[test]
fn spawn_without_neighbor_is_refused() {
    let mut t = loaded_terrain(16, 16);
    t.spawn_chunk(ChunkPos::new(5, 5));
    t.process_spawn_queue();
    assert!(!t.does_chunk_exist(&ChunkPos::new(5, 5)));
    assert_eq!(t.chunk_count(), 1);
    // An adjacent chunk is accepted.
    t.spawn_chunk(ChunkPos::new(1, 0));
    t.process_spawn_queue();
    assert!(t.does_chunk_exist(&ChunkPos::new(1, 0)));
    assert_eq!(t.chunk_count(), 2);
}

#[test]
fn first_chunk_of_a_fresh_terrain_needs_no_neighbor() {
    let mut t = MasterTerrain::unloaded();
    t.init(16, 16, single_lod()).unwrap();
    t.process_spawn_queue();
    assert!(t.does_chunk_exist(&ChunkPos::new(0, 0)));
}

#[test]
fn respawning_an_existing_chunk_is_a_no_op() {
    let mut t = loaded_terrain(16, 16);
    t.set_height(1, 1, 3 * HEIGHT_ONE);
    t.update_meshes();
    t.spawn_chunk(ChunkPos::new(0, 0));
    t.process_spawn_queue();
    assert_eq!(t.chunk_count(), 1);
    // The existing mesh was not replaced by a fresh one.
    let m = t.get_chunk_mesh(&ChunkPos::new(0, 0), 0).unwrap();
    assert_eq!(m.vertex_height(1, 1), 3 * HEIGHT_ONE);
}

#[test]
fn neighbor_count_ranges_zero_to_four() {
    let mut t = loaded_terrain(16, 16);
    assert_eq!(t.count_neighbors(&ChunkPos::new(0, 0)), 0);
    assert_eq!(t.count_neighbors(&ChunkPos::new(1, 0)), 1);
    spawn_path(&mut t, &[(1, 0), (0, 1), (-1, 0), (0, -1)]);
    assert_eq!(t.count_neighbors(&ChunkPos::new(0, 0)), 4);
    assert_eq!(t.count_neighbors(&ChunkPos::new(1, 1)), 2);
}

#[test]
fn textures_survive_destroy_and_respawn() {
    let mut t = loaded_terrain(16, 16);
    spawn_path(&mut t, &[(1, 0)]);
    let white = t.texture_of_chunk(&ChunkPos::new(1, 0)).unwrap().clone();
    assert_eq!(white.len(), 16 * 16 * 4);
    assert!(white.iter().all(|&b| b == 255));
    t.destroy_chunk(ChunkPos::new(1, 0));
    t.process_destroy_queue();
    assert!(t.texture_of_chunk(&ChunkPos::new(1, 0)).is_some());
    spawn_path(&mut t, &[(1, 0)]);
    assert!(t.does_chunk_exist(&ChunkPos::new(1, 0)));
}

#[test]
fn end_to_end_single_lod_edit() {
    let mut t = loaded_terrain(16, 16);
    t.set_height(0, 0, 5 * HEIGHT_ONE);
    t.update_meshes();
    let m = t.get_chunk_mesh(&ChunkPos::new(0, 0), 0).unwrap();
    assert_eq!(m.vertex_height(0, 0), (5.0f32 * HEIGHT_ONE as f32) as i64);
    let n = m.vertex_normal(0, 0);
    assert!(!(n.x == 0 && n.y == 1 && n.z == 0));
}

#[test]
fn init_validates_the_configuration() {
    let mut t = MasterTerrain::unloaded();
    assert_eq!(
        t.init(0, 16, single_lod()),
        Err(TerrainError::InvalidChunkSize)
    );
    assert_eq!(
        t.init(16, 17, single_lod()),
        Err(TerrainError::InvalidTextureSize)
    );
    assert_eq!(
        t.init(16, 8, single_lod()),
        Err(TerrainError::InvalidTextureSize)
    );
    // Empty table.
    assert_eq!(t.init(16, 16, Vec::new()), Err(TerrainError::InvalidLodTable));
    // Last threshold bounded.
    assert_eq!(
        t.init(16, 16, vec![LODLevel::new(0, 200 * DIST_ONE)]),
        Err(TerrainError::InvalidLodTable)
    );
    // Thresholds must not decrease.
    assert_eq!(
        t.init(
            16,
            16,
            vec![
                LODLevel::new(0, 1000 * DIST_ONE),
                LODLevel::new(1, 200 * DIST_ONE),
                LODLevel::new(2, u64::MAX),
            ]
        ),
        Err(TerrainError::InvalidLodTable)
    );
    // A reduction factor must divide the chunk side into a whole grid.
    assert_eq!(
        t.init(16, 16, vec![LODLevel::new(5, u64::MAX)]),
        Err(TerrainError::InvalidLodTable)
    );
    assert!(t.init(16, 32, single_lod()).is_ok());
    assert!(t.loaded());
    assert_eq!(t.chunk_size(), 16);
    assert_eq!(t.texture_size(), 32);
    assert_eq!(t.pixels_per_tile(), 2);
}

#[test]
fn restore_round_trip_preserves_heights() {
    let mut t = loaded_terrain(16, 16);
    spawn_path(&mut t, &[(1, 0)]);
    t.set_height(5, 5, 9 * HEIGHT_ONE);
    t.update_meshes();

    // Save.
    let chunk_size = t.chunk_size();
    let texture_size = t.texture_size();
    let lod = t.lod_levels().clone();
    let mut saved = Vec::new();
    for pos in t.chunk_positions() {
        let heights = t.heights_of_chunk(&pos).cloned().unwrap_or_default();
        let texture = t.texture_of_chunk(&pos).cloned().unwrap_or_default();
        saved.push((pos, heights, texture));
    }

    // Load into a fresh terrain.
    let mut u = MasterTerrain::unloaded();
    u.begin_restore(chunk_size, texture_size, lod).unwrap();
    for (pos, heights, texture) in saved {
        u.restore_chunk(pos, heights, texture).unwrap();
    }
    u.process_spawn_queue();
    for pos in [ChunkPos::new(0, 0), ChunkPos::new(1, 0)] {
        assert!(u.does_chunk_exist(&pos));
        u.mark_all(pos);
    }
    u.update_meshes();
    assert_eq!(u.get_height(5, 5), 9 * HEIGHT_ONE);
    assert_eq!(u.chunk_count(), 2);
}

#[test]
fn restore_rejects_mismatched_data() {
    let mut t = MasterTerrain::unloaded();
    assert_eq!(
        t.restore_chunk(ChunkPos::new(0, 0), Vec::new(), Vec::new()),
        Err(TerrainError::NotLoaded)
    );
    t.begin_restore(16, 16, single_lod()).unwrap();
    assert_eq!(
        t.restore_chunk(ChunkPos::new(0, 0), vec![0i64; 10], Vec::new()),
        Err(TerrainError::InvalidChunkData)
    );
    assert_eq!(
        t.restore_chunk(ChunkPos::new(0, 0), Vec::new(), vec![255u8; 3]),
        Err(TerrainError::InvalidChunkData)
    );
    assert!(t
        .restore_chunk(ChunkPos::new(0, 0), Vec::new(), Vec::new())
        .is_ok());
}

#[test]
fn refresh_is_incremental_after_the_first_pass() {
    let mut t = loaded_terrain(16, 16);
    t.update_meshes();
    let before = {
        let m = t.get_chunk_mesh(&ChunkPos::new(0, 0), 0).unwrap();
        (m.vertex_height(5, 5), m.vertex_height(1, 1))
    };
    t.set_height(1, 1, 8 * HEIGHT_ONE);
    t.update_meshes();
    let m = t.get_chunk_mesh(&ChunkPos::new(0, 0), 0).unwrap();
    assert_eq!(m.vertex_height(5, 5), before.0);
    assert_eq!(m.vertex_height(1, 1), 8 * HEIGHT_ONE);
    assert_ne!(m.vertex_height(1, 1), before.1);
}
