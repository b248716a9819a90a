use voxel_world_rust::config::{ConfigError, WorldConfig};
use voxel_world_rust::dirty::DirtyTracker;
use voxel_world_rust::lattice::{ChunkCoordinate, Point3};
use voxel_world_rust::terrain::{
    block_by_depth, generate_chunk, get_block_by_height, greatest_offset, CaveField,
    GenerateError,
};
use voxel_world_rust::volume::{ChunkState, VoxelVolume};
use voxel_world_rust::voxel::{Sd16, Voxel, VoxelId};

fn small_config() -> WorldConfig {
    WorldConfig { chunk_edge: 4, view_distance: 1, sea_level: 5, band_thickness: 3, compression_level: 10 }
}

#[test]
fn reference_configuration_is_valid() {
    let config = WorldConfig::reference();
    assert_eq!(config.chunk_edge, 32);
    assert_eq!(config.view_distance, 6);
    assert_eq!(config.sea_level, 42);
    assert_eq!(config.band_thickness, 3);
    assert_eq!(config.validate(), Ok(()));
}

#[test]
fn configuration_errors() {
    let good = WorldConfig::reference();
    assert_eq!(WorldConfig { chunk_edge: 0, ..good }.validate(), Err(ConfigError::ChunkEdge));
    assert_eq!(WorldConfig { chunk_edge: 48, ..good }.validate(), Err(ConfigError::ChunkEdge));
    assert_eq!(WorldConfig { view_distance: 0, ..good }.validate(), Err(ConfigError::ViewDistance));
    assert_eq!(WorldConfig { view_distance: -3, ..good }.validate(), Err(ConfigError::ViewDistance));
    assert_eq!(WorldConfig { view_distance: 1025, ..good }.validate(), Err(ConfigError::ViewDistance));
    assert_eq!(WorldConfig { band_thickness: -1, ..good }.validate(), Err(ConfigError::BandThickness));
    assert_eq!(WorldConfig { compression_level: 11, ..good }.validate(), Err(ConfigError::CompressionLevel));
    // The first fault is reported.
    assert_eq!(
        WorldConfig { chunk_edge: 5, view_distance: 0, ..good }.validate(),
        Err(ConfigError::ChunkEdge)
    );
}

#[test]
fn blocks_are_classified_by_depth() {
    assert_eq!(get_block_by_height(42, 42), VoxelId(2));
    assert_eq!(get_block_by_height(41, 42), VoxelId(1));
    assert_eq!(get_block_by_height(39, 42), VoxelId(1));
    assert_eq!(get_block_by_height(38, 42), VoxelId(3));
    assert_eq!(get_block_by_height(0, 42), VoxelId(3));
    assert_eq!(get_block_by_height(i32::MIN, i32::MAX), VoxelId(3));
    assert_eq!(block_by_depth(10, 10, 0), VoxelId(2));
    assert_eq!(block_by_depth(9, 10, 0), VoxelId(3));
    assert_eq!(block_by_depth(9, 10, 1), VoxelId(1));
    assert_eq!(block_by_depth(8, 10, 1), VoxelId(3));
}

#[test]
fn greatest_offset_of_samples() {
    assert_eq!(greatest_offset(&vec![3, -7, 12, 12, 0]), 12);
    assert_eq!(greatest_offset(&vec![-5]), -5);
    assert_eq!(greatest_offset(&Vec::new()), i32::MIN);
}

#[test]
fn generated_columns_follow_their_heights() {
    let config = small_config();
    let mut volume = VoxelVolume::new(4, Voxel::default(), 10).unwrap();
    let mut tracker = DirtyTracker::new();
    // One offset for each column, row by row along z: heights 5 + offset.
    let offsets: Vec<i32> = (0..16).map(|i| i - 8).collect();
    assert_eq!(generate_chunk(8, -4, &offsets, None, &config, &mut volume, &mut tracker), Ok(()));
    let top = 5 + 7;
    for dz in 0..4 {
        for dx in 0..4 {
            let height = 5 + offsets[(dz * 4 + dx) as usize];
            for y in -2..(top + 3) {
                let expected = if y < 0 || y > top {
                    Voxel::default()
                } else if y > height {
                    Voxel::new(VoxelId(0), Sd16::one())
                } else if y == height {
                    Voxel::new(VoxelId(2), Sd16::neg_one())
                } else if y >= height - 3 {
                    Voxel::new(VoxelId(1), Sd16::neg_one())
                } else {
                    Voxel::new(VoxelId(3), Sd16::neg_one())
                };
                assert_eq!(volume.read(Point3::new(8 + dx, y, -4 + dz)), expected);
            }
        }
    }
    // Nothing outside the footprint is written.
    assert_eq!(volume.read(Point3::new(7, 0, -4)), Voxel::default());
    assert_eq!(volume.read(Point3::new(12, 0, -4)), Voxel::default());
    assert_eq!(volume.read(Point3::new(8, 0, 0)), Voxel::default());
    // The column spans the chunks at heights 0 to 3; they and their face neighbours are dirty.
    for cy in 0..=3 {
        assert_eq!(volume.chunk_state(ChunkCoordinate::new(2, cy, -1)), ChunkState::Hot);
        assert!(tracker.is_dirty(ChunkCoordinate::new(2, cy, -1)));
        assert!(tracker.is_dirty(ChunkCoordinate::new(1, cy, -1)));
        assert!(tracker.is_dirty(ChunkCoordinate::new(2, cy, 0)));
    }
    assert!(tracker.is_dirty(ChunkCoordinate::new(2, -1, -1)));
    assert!(tracker.is_dirty(ChunkCoordinate::new(2, 4, -1)));
    assert!(!tracker.is_dirty(ChunkCoordinate::new(1, 4, -1)));
    assert_eq!(volume.chunk_state(ChunkCoordinate::new(2, 4, -1)), ChunkState::Absent);
}

#[test]
fn generation_is_deterministic() {
    let config = small_config();
    let offsets: Vec<i32> = (0..16).map(|i| (i * 7) % 5 - 2).collect();
    let mut first = VoxelVolume::new(4, Voxel::default(), 10).unwrap();
    let mut second = VoxelVolume::new(4, Voxel::default(), 3).unwrap();
    let mut t1 = DirtyTracker::new();
    let mut t2 = DirtyTracker::new();
    generate_chunk(0, 0, &offsets, None, &config, &mut first, &mut t1).unwrap();
    generate_chunk(0, 0, &offsets, None, &config, &mut second, &mut t2).unwrap();
    for cy in -1..4 {
        let c = ChunkCoordinate::new(0, cy, 0);
        assert_eq!(first.chunk_snapshot(c), second.chunk_snapshot(c));
    }
    assert_eq!(t1.take(), t2.take());
}

#[test]
fn columns_below_zero_write_nothing() {
    let config = small_config();
    let mut volume = VoxelVolume::new(4, Voxel::default(), 10).unwrap();
    let mut tracker = DirtyTracker::new();
    let offsets = vec![-6; 16];
    assert_eq!(generate_chunk(0, 0, &offsets, None, &config, &mut volume, &mut tracker), Ok(()));
    assert_eq!(volume.chunk_state(ChunkCoordinate::new(0, 0, 0)), ChunkState::Absent);
    assert_eq!(tracker.len(), 0);
}

#[test]
fn generation_errors_change_nothing() {
    let config = small_config();
    let mut volume = VoxelVolume::new(4, Voxel::default(), 10).unwrap();
    let mut tracker = DirtyTracker::new();
    assert_eq!(
        generate_chunk(0, 0, &vec![0; 15], None, &config, &mut volume, &mut tracker),
        Err(GenerateError::SampleCount)
    );
    assert_eq!(
        generate_chunk(i32::MAX - 3, 0, &vec![0; 16], None, &config, &mut volume, &mut tracker),
        Err(GenerateError::OutOfRange)
    );
    assert_eq!(
        generate_chunk(0, 0, &vec![i32::MAX - 6; 16], None, &config, &mut volume, &mut tracker),
        Err(GenerateError::OutOfRange)
    );
    assert_eq!(tracker.len(), 0);
    assert_eq!(volume.chunk_state(ChunkCoordinate::new(0, 0, 0)), ChunkState::Absent);
}

#[test]
fn a_cave_field_carves_voxels_out() {
    let config = small_config();
    let mut volume = VoxelVolume::new(4, Voxel::default(), 10).unwrap();
    let mut tracker = DirtyTracker::new();
    let offsets = vec![0; 16];
    // Heights 5: six layers of sixteen samples. The sample of voxel (dx, y, dz) is its index.
    let samples: Vec<i32> = (0..96).map(|i| if i % 2 == 0 { i } else { -i }).collect();
    let caves = CaveField { samples, threshold: 40 };
    assert_eq!(generate_chunk(0, 0, &offsets, Some(&caves), &config, &mut volume, &mut tracker), Ok(()));
    for y in 0..6 {
        for dz in 0..4 {
            for dx in 0..4 {
                let index = (y * 4 + dz) * 4 + dx;
                let solid = if y == 5 { VoxelId(2) } else if y >= 2 { VoxelId(1) } else { VoxelId(3) };
                let expected = if index > 40 {
                    Voxel::new(VoxelId(0), Sd16::one())
                } else {
                    Voxel::new(solid, Sd16::neg_one())
                };
                assert_eq!(volume.read(Point3::new(dx, y, dz)), expected);
            }
        }
    }
    // A field of the wrong size is refused before anything is written.
    let mut fresh = VoxelVolume::new(4, Voxel::default(), 10).unwrap();
    let short = CaveField { samples: vec![0; 95], threshold: 40 };
    assert_eq!(
        generate_chunk(0, 0, &offsets, Some(&short), &config, &mut fresh, &mut tracker),
        Err(GenerateError::SampleCount)
    );
    assert_eq!(fresh.chunk_state(ChunkCoordinate::new(0, 0, 0)), ChunkState::Absent);
    // A column below height 0 has no voxel and needs no sample.
    let none = CaveField { samples: Vec::new(), threshold: 0 };
    assert_eq!(
        generate_chunk(0, 0, &vec![-9; 16], Some(&none), &config, &mut fresh, &mut tracker),
        Ok(())
    );
    // The sample of greatest magnitude does not overflow.
    let extreme = CaveField { samples: vec![i32::MIN; 96], threshold: i32::MAX };
    assert_eq!(
        generate_chunk(4, 0, &offsets, Some(&extreme), &config, &mut fresh, &mut tracker),
        Ok(())
    );
    assert_eq!(fresh.read(Point3::new(4, 0, 0)), Voxel::new(VoxelId(0), Sd16::one()));
}
