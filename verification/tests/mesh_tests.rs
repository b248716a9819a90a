use voxel_world_rust::grid::MaterialGrid;
use voxel_world_rust::lattice::Point3;
use voxel_world_rust::mesh::{greedy_quads, Axis, Face, Quad};
use voxel_world_rust::surface::{build_buffer, partition_by_material, select_material};
use voxel_world_rust::voxel::VoxelMaterial;

/// A grid of edge `edge` whose cell at local `(x, y, z)` is `f(x, y, z)`.
fn grid(edge: i32, f: impl Fn(i32, i32, i32) -> Option<u8>) -> MaterialGrid {
    let mut cells = Vec::new();
    for z in -1..=edge {
        for y in -1..=edge {
            for x in -1..=edge {
                cells.push(f(x, y, z).map(VoxelMaterial));
            }
        }
    }
    MaterialGrid::from_cells(edge, cells).unwrap()
}

fn covers(q: &Quad, x: i32, y: i32, z: i32) -> bool {
    let (n, u, v, qn, qu, qv) = match q.face.axis {
        Axis::X => (x, z, y, q.minimum.x, q.minimum.z, q.minimum.y),
        Axis::Y => (y, z, x, q.minimum.y, q.minimum.z, q.minimum.x),
        Axis::Z => (z, x, y, q.minimum.z, q.minimum.x, q.minimum.y),
    };
    n == qn && qu <= u && u < qu + q.width && qv <= v && v < qv + q.height
}

#[test]
fn grid_needs_all_cells() {
    assert!(MaterialGrid::from_cells(2, vec![None; 64]).is_some());
    assert!(MaterialGrid::from_cells(2, vec![None; 63]).is_none());
    assert!(MaterialGrid::from_cells(3, vec![None; 125]).is_none());
    let g = grid(2, |x, y, z| if (x, y, z) == (1, 0, -1) { Some(4) } else { None });
    assert_eq!(g.chunk_edge(), 2);
    assert_eq!(g.get(1, 0, -1), Some(VoxelMaterial(4)));
    assert_eq!(g.get(0, 0, 0), None);
}

#[test]
fn a_single_voxel_has_six_unit_quads() {
    let g = grid(2, |x, y, z| if (x, y, z) == (1, 0, 1) { Some(5) } else { None });
    let quads = greedy_quads(&g);
    assert_eq!(quads.len(), 6);
    for q in &quads {
        assert_eq!((q.minimum, q.width, q.height, q.material), (Point3::new(1, 0, 1), 1, 1, VoxelMaterial(5)));
    }
    for axis in [Axis::X, Axis::Y, Axis::Z] {
        for positive in [false, true] {
            assert_eq!(quads.iter().filter(|q| q.face == Face { axis, positive }).count(), 1);
        }
    }
}

#[test]
fn faces_of_one_material_merge_and_faces_of_two_do_not() {
    let same = grid(2, |x, y, z| if y == 0 && z == 0 && (x == 0 || x == 1) { Some(1) } else { None });
    assert_eq!(greedy_quads(&same).len(), 6);
    let mixed = grid(2, |x, y, z| if y == 0 && z == 0 && (x == 0 || x == 1) { Some(x as u8) } else { None });
    let quads = greedy_quads(&mixed);
    assert_eq!(quads.len(), 10);
    assert_eq!(quads.iter().filter(|q| q.material == VoxelMaterial(0)).count(), 5);
}

#[test]
fn a_full_chunk_has_one_quad_a_side_and_hidden_faces_have_none() {
    let full = grid(4, |x, y, z| if (0..4).contains(&x) && (0..4).contains(&y) && (0..4).contains(&z) { Some(2) } else { None });
    let quads = greedy_quads(&full);
    assert_eq!(quads.len(), 6);
    for q in &quads {
        assert_eq!((q.width, q.height), (4, 4));
    }
    let buried = grid(4, |_, _, _| Some(2));
    assert_eq!(greedy_quads(&buried).len(), 0);
    let empty = grid(4, |_, _, _| None);
    assert_eq!(greedy_quads(&empty).len(), 0);
    // A solid border does not make the empty chunk's faces visible.
    let hollow = grid(2, |x, y, z| if (0..2).contains(&x) && (0..2).contains(&y) && (0..2).contains(&z) { None } else { Some(1) });
    assert_eq!(greedy_quads(&hollow).len(), 0);
}

#[test]
fn every_visible_face_is_covered_exactly_once() {
    let edge = 4;
    let solid = |x: i32, y: i32, z: i32| -> Option<u8> {
        if (x * 7 + y * 3 + z * 5 + x * y * z) % 3 == 0 { Some(((x + y + z).rem_euclid(3)) as u8) } else { None }
    };
    let g = grid(edge, solid);
    let quads = greedy_quads(&g);
    for axis in [Axis::X, Axis::Y, Axis::Z] {
        for positive in [false, true] {
            let face = Face { axis, positive };
            let d = if positive { 1 } else { -1 };
            for z in 0..edge {
                for y in 0..edge {
                    for x in 0..edge {
                        let beyond = match axis {
                            Axis::X => solid(x + d, y, z),
                            Axis::Y => solid(x, y + d, z),
                            Axis::Z => solid(x, y, z + d),
                        };
                        let visible = solid(x, y, z).is_some() && beyond.is_none();
                        let covering: Vec<&Quad> = quads.iter().filter(|q| q.face == face && covers(q, x, y, z)).collect();
                        assert_eq!(covering.len(), if visible { 1 } else { 0 });
                        for q in covering {
                            assert_eq!(Some(q.material.0), solid(x, y, z));
                        }
                    }
                }
            }
        }
    }
}

#[test]
fn no_two_quads_make_one_rectangle() {
    let solid = |x: i32, y: i32, z: i32| -> Option<u8> {
        if (x * 5 + y * 11 + z * 3 + x * y + z * z) % 4 != 0 { Some(((x + 2 * y + z).rem_euclid(2)) as u8) } else { None }
    };
    let quads = greedy_quads(&grid(8, solid));
    assert!(!quads.is_empty());
    let nuv = |q: &Quad| match q.face.axis {
        Axis::X => (q.minimum.x, q.minimum.z, q.minimum.y),
        Axis::Y => (q.minimum.y, q.minimum.z, q.minimum.x),
        Axis::Z => (q.minimum.z, q.minimum.x, q.minimum.y),
    };
    for p in &quads {
        for q in &quads {
            let (pn, pu, pv) = nuv(p);
            let (qn, qu, qv) = nuv(q);
            if p.face == q.face && p.material == q.material && pn == qn {
                assert!(!(pv == qv && p.height == q.height && qu == pu + p.width));
                assert!(!(pu == qu && p.width == q.width && qv == pv + p.height));
            }
        }
    }
    // Quads of one face come slice by slice, and within a slice in the order of the walk.
    for pair in quads.windows(2) {
        if pair[0].face == pair[1].face {
            let (pn, pu, pv) = nuv(&pair[0]);
            let (qn, qu, qv) = nuv(&pair[1]);
            assert!((pn, pv, pu) < (qn, qv, qu));
        }
    }
}

#[test]
fn quads_are_split_by_material_in_ascending_order() {
    let mk = |m: u8, x: i32| Quad { face: Face { axis: Axis::Y, positive: true }, minimum: Point3::new(x, 0, 0), width: 1, height: 1, material: VoxelMaterial(m) };
    let quads = vec![mk(3, 0), mk(1, 1), mk(3, 2), mk(200, 3), mk(1, 4)];
    assert_eq!(select_material(&quads, VoxelMaterial(3)), vec![mk(3, 0), mk(3, 2)]);
    assert_eq!(select_material(&quads, VoxelMaterial(9)), Vec::new());
    let surfaces = partition_by_material(&quads).unwrap();
    assert_eq!(surfaces.len(), 3);
    assert_eq!(surfaces[0].material, VoxelMaterial(1));
    assert_eq!(surfaces[0].quads, vec![mk(1, 1), mk(1, 4)]);
    assert_eq!(surfaces[1].material, VoxelMaterial(3));
    assert_eq!(surfaces[2].material, VoxelMaterial(200));
    assert_eq!(surfaces[2].quads, vec![mk(200, 3)]);
    for s in &surfaces {
        assert_eq!(s.buffer.positions.len(), 4 * s.quads.len());
        assert_eq!(s.buffer.normals.len(), s.buffer.positions.len());
        assert_eq!(s.buffer.indices.len(), 6 * s.quads.len());
    }
    assert_eq!(partition_by_material(&Vec::new()).unwrap().len(), 0);
}

#[test]
fn buffers_hold_corners_normals_and_triangles() {
    let up = Quad { face: Face { axis: Axis::Y, positive: true }, minimum: Point3::new(0, 1, 0), width: 2, height: 3, material: VoxelMaterial(0) };
    let west = Quad { face: Face { axis: Axis::X, positive: false }, minimum: Point3::new(4, 0, 1), width: 1, height: 2, material: VoxelMaterial(0) };
    let east = Quad { face: Face { axis: Axis::X, positive: true }, minimum: Point3::new(4, 0, 1), width: 1, height: 2, material: VoxelMaterial(0) };
    let buffer = build_buffer(&vec![up, west, east]).unwrap();
    assert_eq!(
        buffer.positions,
        vec![
            Point3::new(0, 2, 0), Point3::new(0, 2, 2), Point3::new(3, 2, 0), Point3::new(3, 2, 2),
            Point3::new(4, 0, 1), Point3::new(4, 0, 2), Point3::new(4, 2, 1), Point3::new(4, 2, 2),
            Point3::new(5, 0, 1), Point3::new(5, 0, 2), Point3::new(5, 2, 1), Point3::new(5, 2, 2),
        ]
    );
    let mut normals = vec![Point3::new(0, 1, 0); 4];
    normals.extend(vec![Point3::new(-1, 0, 0); 4]);
    normals.extend(vec![Point3::new(1, 0, 0); 4]);
    assert_eq!(buffer.normals, normals);
    assert_eq!(buffer.indices, vec![0, 1, 2, 1, 3, 2, 4, 5, 6, 5, 7, 6, 8, 10, 9, 9, 10, 11]);
    // Every triangle winds counter-clockwise around its normal.
    for t in buffer.indices.chunks(3) {
        let (a, b, c) = (buffer.positions[t[0] as usize], buffer.positions[t[1] as usize], buffer.positions[t[2] as usize]);
        let (ux, uy, uz) = (b.x - a.x, b.y - a.y, b.z - a.z);
        let (vx, vy, vz) = (c.x - a.x, c.y - a.y, c.z - a.z);
        let cross = (uy * vz - uz * vy, uz * vx - ux * vz, ux * vy - uy * vx);
        let n = buffer.normals[t[0] as usize];
        assert!(cross.0 * n.x + cross.1 * n.y + cross.2 * n.z > 0);
    }
}

#[test]
fn the_mesh_of_a_grid_is_always_the_same() {
    let solid = |x: i32, y: i32, z: i32| -> Option<u8> {
        if (x + y * y + 3 * z) % 3 != 1 { Some(((x * y + z).rem_euclid(3)) as u8) } else { None }
    };
    let first = greedy_quads(&grid(8, solid));
    let second = greedy_quads(&grid(8, solid));
    assert_eq!(first, second);
    // The first quad starts at the first visible face of the walk over the faces against x:
    // slice by slice along x, row by row along y, and along z within a row.
    let mut start = None;
    'walk: for x in 0..8 {
        for y in 0..8 {
            for z in 0..8 {
                if solid(x, y, z).is_some() && solid(x - 1, y, z).is_none() {
                    start = Some(Point3::new(x, y, z));
                    break 'walk;
                }
            }
        }
    }
    assert_eq!(first[0].face, Face { axis: Axis::X, positive: false });
    assert_eq!(Some(first[0].minimum), start);
}
