use voxel_world_rust::lattice::ChunkCoordinate;
use voxel_world_rust::reconciler::{batch_has, is_batch_distinct, GeometryReconciler, MeshHandle};
use voxel_world_rust::streaming::ChunkBox;
use voxel_world_rust::surface::{ChunkMesh, MeshBuffer, SurfaceMesh};
use voxel_world_rust::voxel::VoxelMaterial;

fn mesh(x: i32, materials: &[u8]) -> ChunkMesh {
    ChunkMesh {
        coord: ChunkCoordinate::new(x, 0, 0),
        surfaces: materials
            .iter()
            .map(|m| SurfaceMesh {
                material: VoxelMaterial(*m),
                quads: Vec::new(),
                buffer: MeshBuffer { positions: Vec::new(), normals: Vec::new(), indices: Vec::new() },
            })
            .collect(),
    }
}

fn handle(x: i32, m: u8) -> MeshHandle {
    MeshHandle { chunk: ChunkCoordinate::new(x, 0, 0), material: VoxelMaterial(m) }
}

fn published(r: &GeometryReconciler, x: i32) -> Option<Vec<u8>> {
    r.published_materials(ChunkCoordinate::new(x, 0, 0)).map(|ms| ms.iter().map(|m| m.0).collect())
}

#[test]
fn batches_are_searched_by_chunk() {
    let batch = vec![mesh(1, &[0]), mesh(2, &[]), mesh(3, &[1])];
    assert!(batch_has(&batch, ChunkCoordinate::new(2, 0, 0)));
    assert!(!batch_has(&batch, ChunkCoordinate::new(2, 1, 0)));
    assert!(is_batch_distinct(&batch));
    assert!(is_batch_distinct(&Vec::new()));
    assert!(!is_batch_distinct(&vec![mesh(1, &[0]), mesh(2, &[]), mesh(1, &[])]));
}

#[test]
fn first_meshes_are_published_and_empty_ones_are_not() {
    let mut r = GeometryReconciler::new();
    let despawned = r.reconcile(&vec![mesh(1, &[0, 2]), mesh(2, &[])], None);
    assert_eq!(despawned, Vec::new());
    assert_eq!(published(&r, 1), Some(vec![0, 2]));
    assert_eq!(published(&r, 2), None);
    assert_eq!(published(&r, 3), None);
    assert_eq!(r.len(), 1);
}

#[test]
fn a_fresh_mesh_replaces_the_record_wholesale() {
    let mut r = GeometryReconciler::new();
    r.reconcile(&vec![mesh(1, &[0, 2]), mesh(2, &[1]), mesh(3, &[4])], None);
    // Chunk 1 changes its materials, chunk 2 becomes empty, chunk 3 is not in the batch.
    let despawned = r.reconcile(&vec![mesh(2, &[]), mesh(1, &[2, 3])], None);
    assert_eq!(despawned, vec![handle(1, 0), handle(1, 2), handle(2, 1)]);
    assert_eq!(published(&r, 1), Some(vec![2, 3]));
    assert_eq!(published(&r, 2), None);
    assert_eq!(published(&r, 3), Some(vec![4]));
    assert_eq!(r.len(), 2);
}

#[test]
fn chunks_outside_the_resident_region_are_taken_down() {
    let mut r = GeometryReconciler::new();
    r.reconcile(&vec![mesh(-5, &[1]), mesh(0, &[1]), mesh(5, &[1, 2])], None);
    let region = ChunkBox { lo_x: -1, hi_x: 2, lo_z: 0, hi_z: 1 };
    let despawned = r.reconcile(&vec![mesh(1, &[7])], Some(region));
    assert_eq!(despawned, vec![handle(-5, 1), handle(5, 1), handle(5, 2)]);
    assert_eq!(published(&r, -5), None);
    assert_eq!(published(&r, 0), Some(vec![1]));
    assert_eq!(published(&r, 1), Some(vec![7]));
    assert_eq!(published(&r, 5), None);
    // An empty batch with the same region changes nothing more.
    assert_eq!(r.reconcile(&Vec::new(), Some(region)), Vec::new());
    assert_eq!(r.len(), 2);
}

#[test]
fn applying_a_delta_keeps_the_renderer_in_step() {
    // The renderer's handle set, kept by taking down and putting up what each cycle reports.
    let mut shown: Vec<MeshHandle> = Vec::new();
    let mut r = GeometryReconciler::new();
    let region = ChunkBox { lo_x: 0, hi_x: 4, lo_z: 0, hi_z: 1 };
    let cycles = vec![
        vec![mesh(0, &[1]), mesh(1, &[1, 2]), mesh(9, &[3])],
        vec![mesh(1, &[]), mesh(2, &[5])],
        vec![],
        vec![mesh(0, &[2]), mesh(1, &[1])],
    ];
    for batch in cycles {
        let despawned = r.reconcile(&batch, Some(region));
        for h in &despawned {
            let at = shown.iter().position(|s| s == h).unwrap();
            shown.remove(at);
        }
        for m in &batch {
            for s in &m.surfaces {
                let h = MeshHandle { chunk: m.coord, material: s.material };
                assert!(!shown.contains(&h));
                shown.push(h);
            }
        }
        for x in -1..11 {
            let mut expected: Vec<u8> = shown.iter().filter(|h| h.chunk.x == x).map(|h| h.material.0).collect();
            expected.sort();
            let mut actual = published(&r, x).unwrap_or_default();
            actual.sort();
            assert_eq!(actual, expected);
        }
    }
    assert_eq!(published(&r, 0), Some(vec![2]));
    assert_eq!(published(&r, 1), Some(vec![1]));
    assert_eq!(published(&r, 2), Some(vec![5]));
    // Chunk 9 lies outside the region: it was taken down in the cycle after its own.
    assert_eq!(published(&r, 9), None);
}
