use voxel_world_rust::config::WorldConfig;
use voxel_world_rust::lattice::{ChunkCoordinate, Point3};
use voxel_world_rust::voxel::{Sd16, Voxel, VoxelId, VoxelIdInfo, VoxelMaterial};
use voxel_world_rust::world::VoxelWorld;

const Y_SCALE: f32 = 64.0 * 8.0;

/// The height offsets of the column at `(x, z)`: gradient noise of frequency 0.008 and
/// seed 15464, scaled and rounded.
fn sample_offsets(x: i32, z: i32, edge: usize) -> Vec<i32> {
    let (noise, _min, _max) = simdnoise::NoiseBuilder::gradient_2d_offset(x as f32, edge, z as f32, edge)
        .with_freq(0.008)
        .with_seed(15464)
        .generate();
    noise.iter().map(|n| (n * Y_SCALE).round() as i32).collect()
}

fn reference_world() -> VoxelWorld {
    let mut w = VoxelWorld::new(WorldConfig::reference()).unwrap();
    w.register_palette(vec![
        VoxelIdInfo { is_empty: true, material: VoxelMaterial::null() },
        VoxelIdInfo { is_empty: false, material: VoxelMaterial(0) },
        VoxelIdInfo { is_empty: false, material: VoxelMaterial(1) },
        VoxelIdInfo { is_empty: false, material: VoxelMaterial(2) },
        VoxelIdInfo { is_empty: false, material: VoxelMaterial(3) },
    ])
    .unwrap();
    w
}

#[test]
fn noise_samples_are_reproducible() {
    assert_eq!(sample_offsets(0, 0, 32), sample_offsets(0, 0, 32));
    assert_eq!(sample_offsets(0, 0, 32).len(), 32 * 32);
}

#[test]
fn the_reference_column_has_a_classified_profile_and_a_top_surface() {
    let offsets = sample_offsets(0, 0, 32);
    let mut w = reference_world();
    assert_eq!(w.generate(ChunkCoordinate::new(0, 0, 0), &offsets, None), Ok(()));
    let top = 42 + *offsets.iter().max().unwrap();
    let low = 42 + *offsets.iter().min().unwrap();
    for dz in 0..32 {
        for dx in 0..32 {
            let height = 42 + offsets[(dz * 32 + dx) as usize];
            for y in [0, height - 4, height - 3, height - 1, height, height + 1, top, top + 1] {
                let expected = if y < 0 || y > top {
                    Voxel::default()
                } else if y > height {
                    Voxel::new(VoxelId(0), Sd16::one())
                } else if y == height {
                    Voxel::new(VoxelId(2), Sd16::neg_one())
                } else if y > height - 4 {
                    Voxel::new(VoxelId(1), Sd16::neg_one())
                } else {
                    Voxel::new(VoxelId(3), Sd16::neg_one())
                };
                assert_eq!(w.read(Point3::new(dx, y, dz)), expected);
            }
        }
    }
    // The chunks of the column are extracted with ambient neighbours.
    let delta = w.poll_geometry_deltas().unwrap();
    assert_eq!(delta.despawned.len(), 0);
    let mut top_surfaces = 0;
    for mesh in &delta.spawned {
        for surface in &mesh.surfaces {
            // No surface without triangles, and none of a material that no voxel has.
            assert!(!surface.quads.is_empty());
            assert_eq!(surface.buffer.indices.len(), 6 * surface.quads.len());
            assert!(surface.material.0 <= 2);
            if surface.material == VoxelMaterial(1) {
                top_surfaces += 1;
                let spans = low.div_euclid(32) <= mesh.coord.y && mesh.coord.y <= top.div_euclid(32);
                assert!(mesh.coord.x == 0 && mesh.coord.z == 0 && spans);
            }
        }
    }
    assert!(top_surfaces >= 1);
    if top >= 0 {
        let surface_chunk = ChunkCoordinate::new(0, top.div_euclid(32), 0);
        let published = w.published_materials(surface_chunk).unwrap();
        assert!(published.contains(&VoxelMaterial(1)));
        assert!(!published.contains(&VoxelMaterial(3)));
    }
}

#[test]
fn two_worlds_generate_the_same_column() {
    let mut first = reference_world();
    let mut second = reference_world();
    let c = ChunkCoordinate::new(2, 0, -3);
    first.generate(c, &sample_offsets(64, -96, 32), None).unwrap();
    second.generate(c, &sample_offsets(64, -96, 32), None).unwrap();
    for y in (-1..600).step_by(7) {
        for (dx, dz) in [(0, 0), (31, 0), (5, 17), (31, 31)] {
            let p = Point3::new(64 + dx, y, -96 + dz);
            assert_eq!(first.read(p), second.read(p));
        }
    }
}
