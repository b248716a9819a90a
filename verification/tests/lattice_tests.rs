use voxel_world_rust::lattice::{
    chunk_extent, containing_chunk, floor_div, floor_mod, index_in_chunk, is_valid_chunk_edge,
    key_of, modulo_down, modulo_up, ChunkCoordinate, Extent3, Point3,
};
use voxel_world_rust::streaming::{extent_modulo_expand, transform_to_extent};

#[test]
fn floor_division_rounds_towards_minus_infinity() {
    assert_eq!(floor_div(7, 32), 0);
    assert_eq!(floor_div(32, 32), 1);
    assert_eq!(floor_div(-1, 32), -1);
    assert_eq!(floor_div(-32, 32), -1);
    assert_eq!(floor_div(-33, 32), -2);
    assert_eq!(floor_div(i32::MIN, 32), -67108864);
    assert_eq!(floor_mod(-1, 32), 31);
    assert_eq!(floor_mod(-32, 32), 0);
    assert_eq!(floor_mod(33, 32), 1);
}

#[test]
fn rounding_to_chunk_multiples() {
    assert_eq!(modulo_down(-200, 32), -224);
    assert_eq!(modulo_down(-192, 32), -192);
    assert_eq!(modulo_down(31, 32), 0);
    assert_eq!(modulo_up(192, 32), 192);
    assert_eq!(modulo_up(193, 32), 224);
    assert_eq!(modulo_up(-200, 32), -192);
    assert_eq!(modulo_up(0, 32), 0);
}

#[test]
fn chunk_edges_are_powers_of_two_up_to_1024() {
    for e in [1, 2, 4, 8, 16, 32, 64, 128, 256, 512, 1024] {
        assert!(is_valid_chunk_edge(e));
    }
    for e in [0, -32, 3, 24, 33, 2048, i32::MAX] {
        assert!(!is_valid_chunk_edge(e));
    }
}

#[test]
fn points_map_to_chunks_and_indices() {
    assert_eq!(containing_chunk(Point3::new(0, 0, 0), 32), ChunkCoordinate::new(0, 0, 0));
    assert_eq!(containing_chunk(Point3::new(-1, 32, 63), 32), ChunkCoordinate::new(-1, 1, 1));
    assert_eq!(index_in_chunk(Point3::new(0, 0, 0), 32), 0);
    assert_eq!(index_in_chunk(Point3::new(1, 2, 3), 32), (3 * 32 + 2) * 32 + 1);
    assert_eq!(index_in_chunk(Point3::new(-1, -1, -1), 32), 32 * 32 * 32 - 1);
}

#[test]
fn chunk_keys_are_distinct() {
    let coords = [
        ChunkCoordinate::new(0, 0, 0),
        ChunkCoordinate::new(1, 0, 0),
        ChunkCoordinate::new(0, 1, 0),
        ChunkCoordinate::new(0, 0, 1),
        ChunkCoordinate::new(-1, 0, 0),
        ChunkCoordinate::new(i32::MIN, i32::MAX, 0),
        ChunkCoordinate::new(i32::MAX, i32::MIN, -1),
    ];
    for (i, a) in coords.iter().enumerate() {
        for (j, b) in coords.iter().enumerate() {
            assert_eq!(key_of(*a) == key_of(*b), i == j);
        }
    }
    assert_eq!(key_of(ChunkCoordinate::new(i32::MIN, i32::MIN, i32::MIN)), 0);
    assert_eq!(key_of(ChunkCoordinate::new(0, 0, 1)), (1u128 << 95) + (1u128 << 63) + (1u128 << 31) + 1);
}

#[test]
fn extents_from_bounds() {
    let e = Extent3::from_min_and_lub(Point3::new(1, 2, 3), Point3::new(4, 2, 0));
    assert_eq!(e.minimum, Point3::new(1, 2, 3));
    assert_eq!(e.shape, Point3::new(3, 0, 0));
    assert!(e.is_empty());
    let f = Extent3::from_min_and_max(Point3::new(-1, -1, -1), Point3::new(1, 0, -1));
    assert_eq!(f.shape, Point3::new(3, 2, 1));
    assert_eq!(f.least_upper_bound(), Point3::new(2, 1, 0));
    assert!(f.contains_point(Point3::new(1, 0, -1)));
    assert!(!f.contains_point(Point3::new(2, 0, -1)));
    assert!(!f.is_empty());
    let g = f.padded(1);
    assert_eq!(g.minimum, Point3::new(-2, -2, -2));
    assert_eq!(g.shape, Point3::new(5, 4, 3));
    let c = chunk_extent(ChunkCoordinate::new(-1, 0, 2), 32);
    assert_eq!(c.minimum, Point3::new(-32, 0, 64));
    assert_eq!(c.shape, Point3::new(32, 32, 32));
}

#[test]
fn view_square_and_its_expansion() {
    let square = transform_to_extent(Point3::new(10, 77, -10), 192);
    assert_eq!(square.minimum, Point3::new(-182, 0, -202));
    assert_eq!(square.shape, Point3::new(384, 0, 384));
    let resident = extent_modulo_expand(square, 32);
    assert_eq!(resident.minimum, Point3::new(-192, 0, -224));
    assert_eq!(resident.least_upper_bound(), Point3::new(224, 0, 192));
    let aligned = extent_modulo_expand(transform_to_extent(Point3::new(0, 0, 0), 64), 32);
    assert_eq!(aligned.minimum, Point3::new(-64, 0, -64));
    assert_eq!(aligned.least_upper_bound(), Point3::new(64, 0, 64));
}
