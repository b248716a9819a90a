use voxel_world_rust::config::ConfigError;
use voxel_world_rust::dirty::DirtyTracker;
use voxel_world_rust::lattice::{ChunkCoordinate, Extent3, Point3};
use voxel_world_rust::volume::{ChunkState, VoxelVolume};
use voxel_world_rust::voxel::{Sd16, Voxel, VoxelId};

fn ambient() -> Voxel {
    Voxel::default()
}

#[test]
fn untouched_space_reads_ambient_even_at_extremes() {
    let volume = VoxelVolume::new(32, ambient(), 10).unwrap();
    for p in [
        Point3::new(0, 0, 0),
        Point3::new(i32::MAX, i32::MAX, i32::MAX),
        Point3::new(i32::MIN, i32::MIN, i32::MIN),
        Point3::new(-1, 7, i32::MAX),
    ] {
        assert_eq!(volume.read(p), ambient());
        assert_eq!(volume.chunk_state(ChunkCoordinate::new(p.x / 32, p.y / 32, p.z / 32)), ChunkState::Absent);
    }
    assert_eq!(volume.chunk_edge(), 32);
    assert_eq!(volume.ambient_value(), ambient());
}

#[test]
fn volume_refuses_bad_settings() {
    assert_eq!(VoxelVolume::new(0, ambient(), 10).err(), Some(ConfigError::ChunkEdge));
    assert_eq!(VoxelVolume::new(24, ambient(), 10).err(), Some(ConfigError::ChunkEdge));
    assert_eq!(VoxelVolume::new(32, ambient(), 11).err(), Some(ConfigError::CompressionLevel));
}

#[test]
fn write_allocates_only_the_owning_chunk() {
    let mut volume = VoxelVolume::new(8, ambient(), 10).unwrap();
    let v = Voxel::new(VoxelId(1), Sd16::neg_one());
    volume.write(Point3::new(i32::MAX, i32::MIN, 0), v);
    assert_eq!(volume.read(Point3::new(i32::MAX, i32::MIN, 0)), v);
    assert_eq!(volume.read(Point3::new(i32::MAX - 1, i32::MIN, 0)), ambient());
    let owner = ChunkCoordinate::new(i32::MAX / 8, i32::MIN / 8, 0);
    assert_eq!(volume.chunk_state(owner), ChunkState::Hot);
    assert_eq!(volume.chunk_state(ChunkCoordinate::new(i32::MAX / 8 - 1, i32::MIN / 8, 0)), ChunkState::Absent);
}

#[test]
fn write_compress_read_round_trip() {
    let mut volume = VoxelVolume::new(32, ambient(), 10).unwrap();
    let cases = [
        (Point3::new(-5, 40, 100), Voxel::new(VoxelId(3), Sd16(-1234))),
        (Point3::new(0, 0, 0), Voxel::new(VoxelId(255), Sd16(i16::MIN))),
        (Point3::new(i32::MAX, i32::MAX, i32::MAX), Voxel::new(VoxelId(1), Sd16(i16::MAX))),
        (Point3::new(i32::MIN, 0, -1), Voxel::new(VoxelId(0), Sd16(7))),
    ];
    for (p, v) in cases {
        volume.write(p, v);
        let c = ChunkCoordinate::new(p.x.div_euclid(32), p.y.div_euclid(32), p.z.div_euclid(32));
        assert_eq!(volume.chunk_state(c), ChunkState::Hot);
        assert_eq!(volume.compressed_size(c), None);
        assert!(volume.force_compress(c));
        assert_eq!(volume.chunk_state(c), ChunkState::Cold);
        assert_eq!(volume.read(p), v);
        assert_eq!(volume.chunk_state(c), ChunkState::Cold);
        // A chunk of one voxel among ambient ones compresses well.
        let size = volume.compressed_size(c).unwrap();
        assert!(size > 0 && size < 32 * 32 * 32 * 3);
        assert!(!volume.force_compress(c));
    }
    for (p, v) in cases {
        assert_eq!(volume.read(p), v);
    }
}

#[test]
fn compressing_an_absent_chunk_does_nothing() {
    let mut volume = VoxelVolume::new(4, ambient(), 0).unwrap();
    let c = ChunkCoordinate::new(3, 3, 3);
    assert!(!volume.force_compress(c));
    assert_eq!(volume.chunk_state(c), ChunkState::Absent);
    assert_eq!(volume.compressed_size(c), None);
}

#[test]
fn editing_promotes_a_cold_chunk() {
    let mut volume = VoxelVolume::new(4, ambient(), 10).unwrap();
    let a = Voxel::new(VoxelId(1), Sd16::neg_one());
    let b = Voxel::new(VoxelId(2), Sd16::neg_one());
    volume.write(Point3::new(1, 1, 1), a);
    let c = ChunkCoordinate::new(0, 0, 0);
    volume.force_compress(c);
    volume.write(Point3::new(2, 1, 1), b);
    assert_eq!(volume.chunk_state(c), ChunkState::Hot);
    assert_eq!(volume.read(Point3::new(1, 1, 1)), a);
    assert_eq!(volume.read(Point3::new(2, 1, 1)), b);
    volume.force_compress(c);
    volume.promote(c);
    assert_eq!(volume.chunk_state(c), ChunkState::Hot);
    assert_eq!(volume.read(Point3::new(2, 1, 1)), b);
    let snapshot = volume.chunk_snapshot(c);
    assert_eq!(snapshot.len(), 64);
    assert_eq!(snapshot[(1 * 4 + 1) * 4 + 1], a);
    assert_eq!(snapshot[0], ambient());
}

#[test]
fn edit_region_applies_the_function_inside_the_extent_only() {
    let mut volume = VoxelVolume::new(4, ambient(), 10).unwrap();
    let extent = Extent3::from_min_and_max(Point3::new(-1, 0, 2), Point3::new(4, 1, 2));
    let f = |p: Point3, v: Voxel| Voxel::new(VoxelId((p.x + 10) as u8), v.distance);
    volume.edit_region(&extent, &f);
    for x in -3..7 {
        for y in -1..3 {
            for z in 1..4 {
                let p = Point3::new(x, y, z);
                let inside = (-1..=4).contains(&x) && (0..=1).contains(&y) && z == 2;
                let expected = if inside {
                    Voxel::new(VoxelId((x + 10) as u8), Sd16::one())
                } else {
                    ambient()
                };
                assert_eq!(volume.read(p), expected);
            }
        }
    }
    // The extent touches the chunks -1, 0 and 1 along x, at y = 0 and z = 0.
    for cx in -1..=1 {
        assert_eq!(volume.chunk_state(ChunkCoordinate::new(cx, 0, 0)), ChunkState::Hot);
    }
    assert_eq!(volume.chunk_state(ChunkCoordinate::new(2, 0, 0)), ChunkState::Absent);
    assert_eq!(volume.chunk_state(ChunkCoordinate::new(0, 1, 0)), ChunkState::Absent);
}

#[test]
fn edit_with_neighbors_marks_touched_chunks_and_their_face_neighbors() {
    let mut volume = VoxelVolume::new(4, ambient(), 10).unwrap();
    let mut tracker = DirtyTracker::new();
    let extent = Extent3::from_min_and_max(Point3::new(1, 1, 1), Point3::new(1, 1, 1));
    let f = |_p: Point3, _v: Voxel| Voxel::new(VoxelId(1), Sd16::neg_one());
    volume.edit_region_and_touch_neighbors(&extent, &f, &mut tracker);
    assert_eq!(volume.read(Point3::new(1, 1, 1)), Voxel::new(VoxelId(1), Sd16::neg_one()));
    assert_eq!(tracker.len(), 7);
    for c in [
        ChunkCoordinate::new(0, 0, 0),
        ChunkCoordinate::new(1, 0, 0),
        ChunkCoordinate::new(-1, 0, 0),
        ChunkCoordinate::new(0, 1, 0),
        ChunkCoordinate::new(0, -1, 0),
        ChunkCoordinate::new(0, 0, 1),
        ChunkCoordinate::new(0, 0, -1),
    ] {
        assert!(tracker.is_dirty(c));
    }
    assert!(!tracker.is_dirty(ChunkCoordinate::new(1, 1, 0)));
    // Only the touched chunk is allocated.
    assert_eq!(volume.chunk_state(ChunkCoordinate::new(1, 0, 0)), ChunkState::Absent);
}
