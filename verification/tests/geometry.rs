use mountforge::coords::{floor_div, floor_rem, local_to_world, mod_neg, sample_repeating};
use mountforge::lod::{LODLevel, QualityPreset, LOD};
use mountforge::mesh::build_mesh;
use mountforge::terrain::MasterTerrain;
use mountforge::{ChunkPos, DIST_ONE};

#[test]
fn coordinates_round_trip_for_negative_positions() {
    for &w in &[-33i64, -17, -16, -1, 0, 1, 15, 16, 47, 1000] {
        let c = floor_div(w, 16);
        let l = floor_rem(w, 16);
        assert!(0 <= l && l < 16);
        assert_eq!(local_to_world(c, l, 16), w);
    }
    assert_eq!(floor_div(-1, 16), -1);
    assert_eq!(floor_rem(-1, 16), 15);
    assert_eq!(floor_div(-16, 16), -1);
    assert_eq!(floor_rem(-16, 16), 0);
    assert_eq!(floor_div(-17, 16), -2);
    assert_eq!(floor_rem(-17, 16), 15);
}

#[test]
fn wrapped_sampling_tiles_in_both_directions() {
    assert_eq!(mod_neg(5, 4), 1);
    assert_eq!(mod_neg(-1, 4), 3);
    assert_eq!(mod_neg(-4, 4), 0);
    assert_eq!(mod_neg(-5, 4), 3);
    let tile: Vec<u32> = (0..16).collect();
    assert_eq!(sample_repeating(1, 2, &tile, 4), 9);
    assert_eq!(sample_repeating(5, 2, &tile, 4), 9);
    assert_eq!(sample_repeating(-3, -2, &tile, 4), 9);
}

#[test]
fn mesh_vertex_count_follows_the_reduction_factor() {
    for r in 0..=3 {
        let m = build_mesh(128, r);
        let side = 128usize >> r;
        assert_eq!(m.mesh_size, side);
        assert_eq!(m.heights.len(), (side + 1) * (side + 1));
        assert_eq!(m.normals.len(), (side + 1) * (side + 1));
        assert_eq!(m.indices.len(), 6 * side * side);
    }
}

#[test]
fn fresh_mesh_is_flat_and_upward() {
    let m = build_mesh(16, 1);
    assert_eq!(m.step, 2);
    assert!(m.heights.iter().all(|&h| h == 0));
    assert!(m.normals.iter().all(|n| n.x == 0 && n.y == 1 && n.z == 0));
    // First cell, first triangle, wound for an upward face.
    assert_eq!(&m.indices[0..6], &[9, 10, 0, 1, 0, 10]);
}

#[test]
fn lod_selection_respects_the_boundaries() {
    let lod = LOD {
        levels: vec![
            LODLevel::new(0, 200 * DIST_ONE),
            LODLevel::new(1, 1000 * DIST_ONE),
            LODLevel::new(2, u64::MAX),
        ],
    };
    // 199.9 world units, in fixed-point distance units.
    let just_under = (199.9f64 * DIST_ONE as f64) as u64;
    assert_eq!(lod.get(just_under), Some(0));
    assert_eq!(lod.get(200 * DIST_ONE), Some(1));
    assert_eq!(lod.get(1500 * DIST_ONE), Some(2));
    assert_eq!(lod.get(0), Some(0));
    // A table that violates the invariant is rejected defensively.
    let bounded = LOD { levels: vec![LODLevel::new(0, 200 * DIST_ONE)] };
    assert_eq!(bounded.get(1500 * DIST_ONE), None);
}

#[test]
fn quality_presets_form_valid_tables() {
    for preset in [
        QualityPreset::Ultra,
        QualityPreset::VeryHigh,
        QualityPreset::High,
        QualityPreset::Medium,
        QualityPreset::Low,
        QualityPreset::Potato,
    ] {
        let levels = preset.to_lod();
        assert!(!levels.is_empty());
        assert_eq!(levels.last().unwrap().max_view_distance, u64::MAX);
        for pair in levels.windows(2) {
            assert!(pair[0].max_view_distance <= pair[1].max_view_distance);
        }
    }
    let high = QualityPreset::High.to_lod();
    assert_eq!(high.len(), 4);
    assert_eq!(high[0].mesh_reduce, 0);
    assert_eq!(high[0].max_view_distance, 200 * DIST_ONE);
    assert_eq!(high[3].mesh_reduce, 4);
}

#[test]
fn multiple_lods_track_their_own_grids() {
    let mut t = MasterTerrain::unloaded();
    t.init(
        16,
        16,
        vec![LODLevel::new(0, 200 * DIST_ONE), LODLevel::new(1, u64::MAX)],
    )
    .unwrap();
    t.process_spawn_queue();
    t.set_height(2, 2, 4 * mountforge::HEIGHT_ONE);
    t.set_height(3, 3, 4 * mountforge::HEIGHT_ONE);
    t.update_meshes();
    let origin = ChunkPos::new(0, 0);
    let full = t.get_chunk_mesh(&origin, 0).unwrap();
    assert_eq!(full.vertex_height(2, 2), 4 * mountforge::HEIGHT_ONE);
    assert_eq!(full.vertex_height(3, 3), 4 * mountforge::HEIGHT_ONE);
    let half = t.get_chunk_mesh(&origin, 1).unwrap();
    assert_eq!(half.mesh_size, 8);
    // (2, 2) lies on the reduced grid as vertex (1, 1).
    assert_eq!(half.vertex_height(1, 1), 4 * mountforge::HEIGHT_ONE);
    let missing = t.get_chunk_mesh(&origin, 2);
    assert!(missing.is_none());
}

#[test]
fn terrain_selects_lods_from_its_own_table() {
    let mut t = MasterTerrain::unloaded();
    t.init(
        128,
        128,
        vec![
            LODLevel::new(0, 200 * DIST_ONE),
            LODLevel::new(1, 1000 * DIST_ONE),
            LODLevel::new(2, u64::MAX),
        ],
    )
    .unwrap();
    t.process_spawn_queue();
    assert_eq!(t.select_lod(0), Some(0));
    assert_eq!(t.select_lod(200 * DIST_ONE - 1), Some(0));
    assert_eq!(t.select_lod(200 * DIST_ONE), Some(1));
    assert_eq!(t.select_lod(1500 * DIST_ONE), Some(2));
    let refreshed = t.update_meshes();
    assert_eq!(refreshed.len(), 1);
    assert_eq!(refreshed[0], ChunkPos::new(0, 0));
}
