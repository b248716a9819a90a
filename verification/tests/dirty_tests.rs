use voxel_world_rust::dirty::DirtyTracker;
use voxel_world_rust::lattice::{ChunkCoordinate, Extent3, Point3};

#[test]
fn marking_is_idempotent_and_take_empties_the_tracker() {
    let mut tracker = DirtyTracker::new();
    let a = ChunkCoordinate::new(1, 2, 3);
    let b = ChunkCoordinate::new(-1, 0, 0);
    tracker.mark(a);
    tracker.mark(b);
    tracker.mark(a);
    assert_eq!(tracker.len(), 2);
    assert!(tracker.is_dirty(a) && tracker.is_dirty(b));
    let taken = tracker.take();
    assert_eq!(taken, vec![a, b]);
    assert_eq!(tracker.len(), 0);
    assert!(!tracker.is_dirty(a));
}

#[test]
fn neighbors_at_the_edge_of_the_lattice_are_left_out() {
    let mut tracker = DirtyTracker::new();
    let corner = ChunkCoordinate::new(i32::MAX, i32::MIN, 0);
    tracker.mark_with_neighbors(corner);
    assert_eq!(tracker.len(), 5);
    assert!(tracker.is_dirty(corner));
    assert!(tracker.is_dirty(ChunkCoordinate::new(i32::MAX - 1, i32::MIN, 0)));
    assert!(tracker.is_dirty(ChunkCoordinate::new(i32::MAX, i32::MIN + 1, 0)));
    assert!(tracker.is_dirty(ChunkCoordinate::new(i32::MAX, i32::MIN, 1)));
    assert!(tracker.is_dirty(ChunkCoordinate::new(i32::MAX, i32::MIN, -1)));
}

#[test]
fn touching_without_neighbors_marks_the_touched_chunks_only() {
    let mut tracker = DirtyTracker::new();
    // A voxel strictly inside chunk (0, 0, 0).
    let interior = Extent3::from_min_and_max(Point3::new(5, 5, 5), Point3::new(5, 5, 5));
    tracker.touch_extent(&interior, 32, false);
    assert_eq!(tracker.take(), vec![ChunkCoordinate::new(0, 0, 0)]);
    // An extent across a chunk boundary.
    let across = Extent3::from_min_and_max(Point3::new(30, 0, -1), Point3::new(33, 0, 0));
    tracker.touch_extent(&across, 32, false);
    assert_eq!(tracker.len(), 4);
    for c in [
        ChunkCoordinate::new(0, 0, -1),
        ChunkCoordinate::new(1, 0, -1),
        ChunkCoordinate::new(0, 0, 0),
        ChunkCoordinate::new(1, 0, 0),
    ] {
        assert!(tracker.is_dirty(c));
    }
    let empty = Extent3::from_min_and_lub(Point3::new(0, 0, 0), Point3::new(4, 0, 4));
    let mut other = DirtyTracker::new();
    other.touch_extent(&empty, 32, true);
    assert_eq!(other.len(), 0);
}

#[test]
fn an_edit_on_a_boundary_face_marks_the_chunk_across_the_face() {
    let mut tracker = DirtyTracker::new();
    // The voxel (32, 5, 5) lies on the face of chunk (1, 0, 0) towards chunk (0, 0, 0).
    let boundary = Extent3::from_min_and_max(Point3::new(32, 5, 5), Point3::new(32, 5, 5));
    tracker.touch_extent(&boundary, 32, true);
    assert!(tracker.is_dirty(ChunkCoordinate::new(1, 0, 0)));
    assert!(tracker.is_dirty(ChunkCoordinate::new(0, 0, 0)));
    assert_eq!(tracker.len(), 7);
}
