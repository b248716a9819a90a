use voxel_world_rust::config::WorldConfig;
use voxel_world_rust::lattice::{ChunkCoordinate, Point3};
use voxel_world_rust::streaming::{pending_chunks, resident_box, ChunkBox, GeneratedSet};

#[test]
fn generated_set_grows() {
    let mut set = GeneratedSet::new();
    let c = ChunkCoordinate::new(3, 0, -2);
    assert!(!set.contains(c));
    assert!(set.insert(c));
    assert!(set.contains(c));
    assert!(!set.insert(c));
    assert!(!set.contains(ChunkCoordinate::new(3, 1, -2)));
}

#[test]
fn resident_box_of_the_reference_design() {
    let config = WorldConfig::reference();
    // Radius 6 * 32 = 192 around x = 10, z = -10: the square [-182, 202] x [-202, 182].
    let b = resident_box(Point3::new(10, 500, -10), &config);
    assert_eq!(b, ChunkBox { lo_x: -6, hi_x: 7, lo_z: -7, hi_z: 6 });
    assert!(b.holds(ChunkCoordinate::new(-6, 9, -7)));
    assert!(!b.holds(ChunkCoordinate::new(7, 0, 0)));
    // On a chunk boundary the square reaches the chunk that starts at its upper bound.
    let aligned = resident_box(Point3::new(0, 0, 0), &config);
    assert_eq!(aligned, ChunkBox { lo_x: -6, hi_x: 7, lo_z: -6, hi_z: 7 });
    assert!(aligned.holds(ChunkCoordinate::new(6, 0, 6)));
    assert!(!aligned.holds(ChunkCoordinate::new(-7, 0, 0)));
    // One voxel further back the chunk at the upper bound is out of view.
    let back = resident_box(Point3::new(-1, 0, -1), &config);
    assert_eq!(back, ChunkBox { lo_x: -7, hi_x: 6, lo_z: -7, hi_z: 6 });
}

#[test]
fn pending_chunks_cover_the_view_and_skip_generated_columns() {
    let config = WorldConfig { chunk_edge: 8, view_distance: 1, sea_level: 0, band_thickness: 3, compression_level: 10 };
    let mut generated = GeneratedSet::new();
    generated.insert(ChunkCoordinate::new(0, 0, 0));
    generated.insert(ChunkCoordinate::new(5, 0, 5));
    let pending = pending_chunks(Point3::new(3, 0, 3), &config, &generated);
    // The square [-5, 11] meets the chunks -1, 0 and 1 on both axes.
    let mut expected = Vec::new();
    for z in -1..=1 {
        for x in -1..=1 {
            if (x, z) != (0, 0) {
                expected.push(ChunkCoordinate::new(x, 0, z));
            }
        }
    }
    assert_eq!(pending, expected);
    for c in &pending {
        generated.insert(*c);
    }
    assert_eq!(pending_chunks(Point3::new(3, 0, 3), &config, &generated), Vec::new());
}
