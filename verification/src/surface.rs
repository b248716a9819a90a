//! From quads to publishable geometry: the partition of a chunk's quads by
//! material, and the vertex and index buffers of each part.

use crate::grid::{
    cell_material, classify_cells, copy_padded, in_padding, world_voxel, MaterialGrid, MeshError,
};
use crate::lattice::{ChunkCoordinate, Point3};
use crate::mesh::{
    all_sound, complete, covered, greedy, greedy_quads, sound, visible, Axis, Face, Quad,
};
use crate::terrain::{
    column_extent, generated, generation_fault, lemma_max_offset, max_offset, surface_height,
    TOP_ID,
};
use crate::volume::VoxelVolume;
use crate::voxel::{VoxelMaterial, VoxelPalette};
use vstd::prelude::*;

verus! {

/// The quads of `quads` that have material `m`, in order.
pub open spec fn select(quads: Seq<Quad>, m: VoxelMaterial) -> Seq<Quad>
    decreases quads.len(),
{
    if quads.len() == 0 {
        Seq::empty()
    } else if quads.last().material == m {
        select(quads.drop_last(), m).push(quads.last())
    } else {
        select(quads.drop_last(), m)
    }
}

/// `select` holds exactly the quads of material `m`.
pub proof fn lemma_select(quads: Seq<Quad>, m: VoxelMaterial)
    ensures
        forall|q: Quad|
            #![trigger select(quads, m).contains(q)]
            #![trigger quads.contains(q)]
            select(quads, m).contains(q) <==> (quads.contains(q) && q.material == m),
        select(quads, m).len() <= quads.len(),
    decreases quads.len(),
{
    if quads.len() > 0 {
        let rest = quads.drop_last();
        let last = quads.last();
        lemma_select(rest, m);
        assert(rest.push(last) =~= quads);
        crate::streaming::lemma_push_contains(rest, last);
        crate::streaming::lemma_push_contains(select(rest, m), last);
        assert forall|q: Quad|
            select(quads, m).contains(q) <==> (quads.contains(q) && q.material == m) by {
            assert(quads.contains(q) <==> (rest.contains(q) || q == last)) by {
                assert(rest.push(last).contains(q) <==> (rest.contains(q) || q == last));
            }
            assert(select(rest, m).contains(q) <==> (rest.contains(q) && q.material == m));
            if last.material == m {
                assert(select(quads, m) == select(rest, m).push(last));
                assert(select(rest, m).push(last).contains(q) <==> (select(rest, m).contains(q)
                    || q == last));
            } else {
                assert(select(quads, m) == select(rest, m));
            }
        }
    }
}

/// The quads of `quads` that have material `m`.
pub fn select_material(quads: &Vec<Quad>, m: VoxelMaterial) -> (part: Vec<Quad>)
    ensures
        part@ == select(quads@, m),
{
    let mut part: Vec<Quad> = Vec::new();
    let mut i: usize = 0;
    while i < quads.len()
        invariant
            i <= quads.len(),
            part@ == select(quads@.take(i as int), m),
        decreases quads.len() - i,
    {
        assert(quads@.take(i + 1).drop_last() =~= quads@.take(i as int));
        if quads[i].material == m {
            part.push(quads[i]);
        }
        i += 1;
    }
    assert(quads@.take(i as int) =~= quads@);
    part
}

/// The four corners of `q` as lattice points, in the order least, along the
/// width, along the height, opposite. A face whose normal points in the
/// positive direction lies one step along the normal.
pub open spec fn corner(q: Quad, i: int) -> (int, int, int) {
    let lift: int = if q.face.positive {
        1
    } else {
        0
    };
    let du: int = if i == 1 || i == 3 {
        q.width as int
    } else {
        0
    };
    let dv: int = if i == 2 || i == 3 {
        q.height as int
    } else {
        0
    };
    let (x, y, z) = (q.minimum.x as int, q.minimum.y as int, q.minimum.z as int);
    match q.face.axis {
        Axis::X => (x + lift, y + dv, z + du),
        Axis::Y => (x + dv, y + lift, z + du),
        Axis::Z => (x + du, y + dv, z + lift),
    }
}

/// The unit normal of `face`.
pub open spec fn normal_of(face: Face) -> (int, int, int) {
    let s: int = if face.positive {
        1
    } else {
        -1
    };
    match face.axis {
        Axis::X => (s, 0, 0),
        Axis::Y => (0, s, 0),
        Axis::Z => (0, 0, s),
    }
}

/// Whether the two triangles of a quad of `face` run through its corners in
/// the order 0, 1, 2 and 1, 3, 2; otherwise they run 0, 2, 1 and 1, 2, 3.
/// Seen from outside the solid, both orders are counter-clockwise.
pub open spec fn winds_forward(face: Face) -> bool {
    match face.axis {
        Axis::X => !face.positive,
        Axis::Y => face.positive,
        Axis::Z => face.positive,
    }
}

/// Which corner of its quad the `i`-th index of a quad of `face` names.
pub open spec fn triangle_corner(face: Face, i: int) -> int {
    if winds_forward(face) {
        if i == 0 {
            0
        } else if i == 1 {
            1
        } else if i == 2 {
            2
        } else if i == 3 {
            1
        } else if i == 4 {
            3
        } else {
            2
        }
    } else {
        if i == 0 {
            0
        } else if i == 1 {
            2
        } else if i == 2 {
            1
        } else if i == 3 {
            1
        } else if i == 4 {
            2
        } else {
            3
        }
    }
}

/// Whether the coordinates of `q` are those of a quad inside a chunk.
pub open spec fn bounded(q: Quad) -> bool {
    &&& 0 <= q.minimum.x <= 1024
    &&& 0 <= q.minimum.y <= 1024
    &&& 0 <= q.minimum.z <= 1024
    &&& 0 <= q.width <= 1024
    &&& 0 <= q.height <= 1024
}

/// A sound quad lies inside its chunk.
pub proof fn lemma_sound_bounded(grid: &MaterialGrid, q: Quad)
    requires
        grid.wf(),
        sound(grid, q),
    ensures
        bounded(q),
{
    grid.lemma_edge();
    let (x, y, z) = (q.minimum.x as int, q.minimum.y as int, q.minimum.z as int);
    assert(q.covers(x, y, z));
    let a = q.face.axis;
    // The opposite corner of the quad is covered too, and lies in the chunk.
    let (fx, fy, fz) = match a {
        Axis::X => (x, y + q.height - 1, z + q.width - 1),
        Axis::Y => (x + q.height - 1, y, z + q.width - 1),
        Axis::Z => (x + q.width - 1, y + q.height - 1, z),
    };
    assert(q.covers(fx, fy, fz));
}

/// Vertex positions, vertex normals and triangle indices of a surface of
/// one material. The normal at an index belongs to the position at that
/// index.
#[derive(Debug)]
pub struct MeshBuffer {
    pub positions: Vec<Point3>,
    pub normals: Vec<Point3>,
    pub indices: Vec<u32>,
}

/// Whether `buffer` is the geometry of `quads`: four vertices and six
/// indices for each quad, in the order of the quads.
pub open spec fn buffer_of(quads: Seq<Quad>, buffer: &MeshBuffer) -> bool {
    &&& buffer.positions@.len() == 4 * quads.len()
    &&& buffer.normals@.len() == 4 * quads.len()
    &&& buffer.indices@.len() == 6 * quads.len()
    &&& forall|v: int|
        0 <= v < 4 * quads.len() ==> {
            let p = #[trigger] buffer.positions@[v];
            (p.x as int, p.y as int, p.z as int) == corner(quads[v / 4], v % 4)
        }
    &&& forall|v: int|
        0 <= v < 4 * quads.len() ==> {
            let n = #[trigger] buffer.normals@[v];
            (n.x as int, n.y as int, n.z as int) == normal_of(quads[v / 4].face)
        }
    &&& forall|t: int|
        0 <= t < 6 * quads.len() ==> #[trigger] buffer.indices@[t] == 4 * (t / 6)
            + triangle_corner(quads[t / 6].face, t % 6)
}

/// The corner `i` of `q`.
fn corner_point(q: &Quad, i: u8) -> (p: Point3)
    requires
        bounded(*q),
        i < 4,
    ensures
        (p.x as int, p.y as int, p.z as int) == corner(*q, i as int),
{
    let lift: i32 = if q.face.positive {
        1
    } else {
        0
    };
    let du: i32 = if i == 1 || i == 3 {
        q.width
    } else {
        0
    };
    let dv: i32 = if i == 2 || i == 3 {
        q.height
    } else {
        0
    };
    match q.face.axis {
        Axis::X => Point3 { x: q.minimum.x + lift, y: q.minimum.y + dv, z: q.minimum.z + du },
        Axis::Y => Point3 { x: q.minimum.x + dv, y: q.minimum.y + lift, z: q.minimum.z + du },
        Axis::Z => Point3 { x: q.minimum.x + du, y: q.minimum.y + dv, z: q.minimum.z + lift },
    }
}

/// The unit normal of `face`.
fn normal_point(face: Face) -> (n: Point3)
    ensures
        (n.x as int, n.y as int, n.z as int) == normal_of(face),
{
    let s: i32 = if face.positive {
        1
    } else {
        -1
    };
    match face.axis {
        Axis::X => Point3 { x: s, y: 0, z: 0 },
        Axis::Y => Point3 { x: 0, y: s, z: 0 },
        Axis::Z => Point3 { x: 0, y: 0, z: s },
    }
}

/// Which corner of its quad the `i`-th index of a quad of `face` names.
fn corner_of_index(face: Face, i: u8) -> (c: u32)
    requires
        i < 6,
    ensures
        c == triangle_corner(face, i as int),
        c < 4,
{
    let forward = match face.axis {
        Axis::X => !face.positive,
        Axis::Y => face.positive,
        Axis::Z => face.positive,
    };
    if forward {
        if i == 0 {
            0
        } else if i == 1 {
            1
        } else if i == 2 {
            2
        } else if i == 3 {
            1
        } else if i == 4 {
            3
        } else {
            2
        }
    } else {
        if i == 0 {
            0
        } else if i == 1 {
            2
        } else if i == 2 {
            1
        } else if i == 3 {
            1
        } else if i == 4 {
            2
        } else {
            3
        }
    }
}

/// The largest number of quads whose vertices 32-bit indices can address.
pub const MAX_QUADS: usize = 0x3fff_ffff;

/// The vertex and index buffers of `quads`. Fails if there are more quads
/// than `MAX_QUADS`.
pub fn build_buffer(quads: &Vec<Quad>) -> (r: Result<MeshBuffer, MeshError>)
    requires
        forall|k: int| 0 <= k < quads@.len() ==> bounded(#[trigger] quads@[k]),
    ensures
        match r {
            Ok(buffer) => quads@.len() <= MAX_QUADS && buffer_of(quads@, &buffer),
            Err(e) => quads@.len() > MAX_QUADS && e == MeshError::TooManyQuads,
        },
{
    if quads.len() > MAX_QUADS {
        return Err(MeshError::TooManyQuads);
    }
    let mut positions: Vec<Point3> = Vec::new();
    let mut normals: Vec<Point3> = Vec::new();
    let mut indices: Vec<u32> = Vec::new();
    let mut k: usize = 0;
    while k < quads.len()
        invariant
            k <= quads.len(),
            quads@.len() <= MAX_QUADS,
            forall|j: int| 0 <= j < quads@.len() ==> bounded(#[trigger] quads@[j]),
            positions@.len() == 4 * k,
            normals@.len() == 4 * k,
            indices@.len() == 6 * k,
            forall|v: int|
                0 <= v < 4 * k ==> {
                    let p = #[trigger] positions@[v];
                    (p.x as int, p.y as int, p.z as int) == corner(quads@[v / 4], v % 4)
                },
            forall|v: int|
                0 <= v < 4 * k ==> {
                    let n = #[trigger] normals@[v];
                    (n.x as int, n.y as int, n.z as int) == normal_of(quads@[v / 4].face)
                },
            forall|t: int|
                0 <= t < 6 * k ==> #[trigger] indices@[t] == 4 * (t / 6) + triangle_corner(
                    quads@[t / 6].face,
                    t % 6,
                ),
        decreases quads.len() - k,
    {
        let q = quads[k];
        let start: u32 = (4 * k) as u32;
        let normal = normal_point(q.face);
        let mut i: u8 = 0;
        while i < 4
            invariant
                i <= 4,
                k < quads.len(),
                q == quads@[k as int],
                bounded(q),
                (normal.x as int, normal.y as int, normal.z as int) == normal_of(q.face),
                positions@.len() == 4 * k + i,
                normals@.len() == 4 * k + i,
                forall|v: int|
                    0 <= v < 4 * k + i ==> {
                        let p = #[trigger] positions@[v];
                        (p.x as int, p.y as int, p.z as int) == corner(quads@[v / 4], v % 4)
                    },
                forall|v: int|
                    0 <= v < 4 * k + i ==> {
                        let n = #[trigger] normals@[v];
                        (n.x as int, n.y as int, n.z as int) == normal_of(quads@[v / 4].face)
                    },
            decreases 4 - i,
        {
            let ghost v0 = 4 * k + i;
            assert(v0 / 4 == k && v0 % 4 == i);
            positions.push(corner_point(&q, i));
            normals.push(normal);
            i += 1;
        }
        let mut t: u8 = 0;
        while t < 6
            invariant
                t <= 6,
                k < quads.len(),
                quads@.len() <= MAX_QUADS,
                q == quads@[k as int],
                start == 4 * k,
                indices@.len() == 6 * k + t,
                forall|j: int|
                    0 <= j < 6 * k + t ==> #[trigger] indices@[j] == 4 * (j / 6)
                        + triangle_corner(quads@[j / 6].face, j % 6),
            decreases 6 - t,
        {
            let ghost t0 = 6 * k + t;
            assert(t0 / 6 == k && t0 % 6 == t);
            indices.push(start + corner_of_index(q.face, t));
            t += 1;
        }
        k += 1;
    }
    Ok(MeshBuffer { positions, normals, indices })
}

/// The surface of one material in a chunk: the quads of that material and
/// their buffers.
#[derive(Debug)]
pub struct SurfaceMesh {
    pub material: VoxelMaterial,
    pub quads: Vec<Quad>,
    pub buffer: MeshBuffer,
}

/// The geometry extracted from one chunk: one surface for each material
/// that shows a face.
#[derive(Debug)]
pub struct ChunkMesh {
    pub coord: ChunkCoordinate,
    pub surfaces: Vec<SurfaceMesh>,
}

/// Whether `surfaces` is the partition of `quads` by material: each surface
/// holds all quads of its material and at least one, the surfaces are in
/// ascending order of material, and no material is left out.
pub open spec fn partitioned(quads: Seq<Quad>, surfaces: Seq<SurfaceMesh>) -> bool {
    &&& forall|i: int|
        0 <= i < surfaces.len() ==> {
            let s = #[trigger] surfaces[i];
            &&& s.quads@ == select(quads, s.material)
            &&& s.quads@.len() > 0
            &&& buffer_of(s.quads@, &s.buffer)
        }
    &&& forall|i: int, j: int|
        0 <= i < j < surfaces.len() ==> (#[trigger] surfaces[i]).material.0 < (
        #[trigger] surfaces[j]).material.0
    &&& forall|m: VoxelMaterial|
        (#[trigger] select(quads, m)).len() > 0 ==> has_surface(surfaces, m)
}

/// Whether `surfaces` holds a surface of material `m`.
pub open spec fn has_surface(surfaces: Seq<SurfaceMesh>, m: VoxelMaterial) -> bool {
    exists|i: int| 0 <= i < surfaces.len() && (#[trigger] surfaces[i]).material == m
}

/// Splits `quads` by material and builds the buffers of each part. Fails if
/// one material has more quads than `MAX_QUADS`.
pub fn partition_by_material(quads: &Vec<Quad>) -> (r: Result<Vec<SurfaceMesh>, MeshError>)
    requires
        forall|k: int| 0 <= k < quads@.len() ==> bounded(#[trigger] quads@[k]),
    ensures
        match r {
            Ok(surfaces) => partitioned(quads@, surfaces@) && forall|m: VoxelMaterial|
                (#[trigger] select(quads@, m)).len() <= MAX_QUADS,
            Err(e) => e == MeshError::TooManyQuads && exists|m: VoxelMaterial|
                (#[trigger] select(quads@, m)).len() > MAX_QUADS,
        },
{
    let mut surfaces: Vec<SurfaceMesh> = Vec::new();
    let mut id: u16 = 0;
    while id < 256
        invariant
            id <= 256,
            forall|k: int| 0 <= k < quads@.len() ==> bounded(#[trigger] quads@[k]),
            forall|i: int|
                0 <= i < surfaces@.len() ==> {
                    let s = #[trigger] surfaces@[i];
                    &&& s.quads@ == select(quads@, s.material)
                    &&& s.quads@.len() > 0
                    &&& buffer_of(s.quads@, &s.buffer)
                    &&& s.material.0 < id
                },
            forall|i: int, j: int|
                0 <= i < j < surfaces@.len() ==> (#[trigger] surfaces@[i]).material.0 < (
                #[trigger] surfaces@[j]).material.0,
            forall|m: VoxelMaterial|
                m.0 < id && (#[trigger] select(quads@, m)).len() > 0 ==> has_surface(
                    surfaces@,
                    m,
                ),
            forall|m: VoxelMaterial|
                m.0 < id ==> (#[trigger] select(quads@, m)).len() <= MAX_QUADS,
        decreases 256 - id,
    {
        let material = VoxelMaterial(id as u8);
        let part = select_material(quads, material);
        if part.len() > 0 {
            proof {
                lemma_select(quads@, material);
                assert forall|k: int| 0 <= k < part@.len() implies bounded(#[trigger] part@[k]) by {
                    assert(part@.contains(part@[k]));
                    let j = choose|j: int| 0 <= j < quads@.len() && quads@[j] == part@[k];
                    assert(bounded(quads@[j]));
                }
            }
            match build_buffer(&part) {
                Ok(buffer) => {
                    let ghost before = surfaces@;
                    surfaces.push(SurfaceMesh { material, quads: part, buffer });
                    proof {
                        assert forall|m: VoxelMaterial|
                            m.0 < id + 1 && (#[trigger] select(quads@, m)).len()
                                > 0 implies has_surface(surfaces@, m) by {
                            if m.0 < id {
                                let i = choose|i: int|
                                    0 <= i < before.len() && (#[trigger] before[i]).material == m;
                                assert(surfaces@[i] == before[i]);
                            } else {
                                assert(m == material);
                                assert(surfaces@[before.len() as int].material == m);
                            }
                        }
                    }
                },
                Err(e) => {
                    return Err(e);
                },
            }
        } else {
            proof {
                assert forall|m: VoxelMaterial|
                    m.0 < id + 1 && (#[trigger] select(quads@, m)).len() > 0 implies has_surface(
                    surfaces@,
                    m,
                ) by {
                    if m.0 == id {
                        assert(m == material);
                    }
                }
            }
        }
        id += 1;
    }
    Ok(surfaces)
}

/// Whether `grid` shows chunk `c` of `volume` under `palette`: each cell of
/// the chunk and of its border holds the material of the voxel there.
pub open spec fn grid_shows(
    grid: &MaterialGrid,
    volume: &VoxelVolume,
    palette: &VoxelPalette,
    c: ChunkCoordinate,
) -> bool {
    &&& grid.wf()
    &&& grid.edge() == volume.edge()
    &&& forall|x: int, y: int, z: int|
        in_padding(volume.edge(), x, y, z) ==> #[trigger] grid.at(x, y, z) == cell_material(
            palette@,
            world_voxel(volume, c, x, y, z),
        )
}

/// Whether `quads` is the greedy mesh of chunk `c`, and `grid` the grid that
/// shows the chunk.
pub open spec fn meshes_chunk(
    grid: &MaterialGrid,
    quads: Seq<Quad>,
    volume: &VoxelVolume,
    palette: &VoxelPalette,
    c: ChunkCoordinate,
) -> bool {
    &&& grid_shows(grid, volume, palette, c)
    &&& greedy(grid, quads)
}

/// Whether `mesh` is what extraction makes of its chunk in `volume` under
/// `palette`: the partition by material of a greedy mesh of the chunk.
pub open spec fn extracted(mesh: &ChunkMesh, volume: &VoxelVolume, palette: &VoxelPalette) -> bool {
    exists|grid: MaterialGrid, quads: Seq<Quad>|
        #[trigger] meshes_chunk(&grid, quads, volume, palette, mesh.coord) && partitioned(
            quads,
            mesh.surfaces@,
        )
}

/// Whether some voxel of chunk `c` or of its border has a type that the
/// palette does not describe.
pub open spec fn has_unknown_type(
    volume: &VoxelVolume,
    palette: &VoxelPalette,
    c: ChunkCoordinate,
) -> bool {
    exists|x: int, y: int, z: int|
        in_padding(volume.edge(), x, y, z) && !palette.knows(
            (#[trigger] world_voxel(volume, c, x, y, z)).voxel_id,
        )
}

/// Whether the greedy mesh of chunk `c` has more quads of one material than
/// 32-bit indices can address.
pub open spec fn too_many_quads(
    volume: &VoxelVolume,
    palette: &VoxelPalette,
    c: ChunkCoordinate,
) -> bool {
    exists|grid: MaterialGrid, quads: Seq<Quad>|
        #[trigger] meshes_chunk(&grid, quads, volume, palette, c) && exists|m: VoxelMaterial|
            (#[trigger] select(quads, m)).len() > MAX_QUADS
}

/// Whether some voxel of chunk `c` or of its border has type `id`.
pub open spec fn type_occurs(volume: &VoxelVolume, c: ChunkCoordinate, id: crate::voxel::VoxelId) -> bool {
    exists|x: int, y: int, z: int|
        in_padding(volume.edge(), x, y, z) && (#[trigger] world_voxel(
            volume,
            c,
            x,
            y,
            z,
        )).voxel_id == id
}

/// The cell of a padded buffer of side `side` that stands at position `i`.
pub proof fn lemma_cell_of_index(side: int, i: int) -> (cell: (int, int, int))
    requires
        side > 0,
        0 <= i < side * side * side,
    ensures
        0 <= cell.0 < side,
        0 <= cell.1 < side,
        0 <= cell.2 < side,
        (cell.2 * side + cell.1) * side + cell.0 == i,
{
    let r = i / side;
    let x = i % side;
    let z = r / side;
    let y = r % side;
    vstd::arithmetic::div_mod::lemma_fundamental_div_mod(i, side);
    vstd::arithmetic::div_mod::lemma_fundamental_div_mod(r, side);
    vstd::arithmetic::div_mod::lemma_mod_bound(i, side);
    vstd::arithmetic::div_mod::lemma_mod_bound(r, side);
    assert(0 <= r < side * side) by (nonlinear_arith)
        requires
            side > 0,
            0 <= i < side * side * side,
            i == side * r + x,
            0 <= x < side,
    ;
    assert(0 <= z < side) by (nonlinear_arith)
        requires
            side > 0,
            0 <= r < side * side,
            r == side * z + y,
            0 <= y < side,
    ;
    assert((z * side + y) * side + x == i) by (nonlinear_arith)
        requires
            i == side * r + x,
            r == side * z + y,
    ;
    (x, y, z)
}

/// Extracts the surface of chunk `c`: copies the chunk and its border,
/// looks up the materials, merges the visible faces into quads and splits
/// them by material. Fails if a voxel has a type that the palette does not
/// describe, or if one material has more quads than `MAX_QUADS`.
pub fn extract_chunk(volume: &VoxelVolume, palette: &VoxelPalette, c: ChunkCoordinate) -> (r:
    Result<ChunkMesh, MeshError>)
    requires
        volume.wf(),
    ensures
        (r matches Err(MeshError::UnknownVoxelType(_))) <==> has_unknown_type(volume, palette, c),
        match r {
            Ok(mesh) => mesh.coord == c && extracted(&mesh, volume, palette),
            Err(MeshError::UnknownVoxelType(id)) => !palette.knows(id) && type_occurs(
                volume,
                c,
                id,
            ),
            Err(MeshError::TooManyQuads) => too_many_quads(volume, palette, c),
            Err(MeshError::NoPalette) => false,
        },
{
    let padded = copy_padded(volume, c);
    let ghost e = volume.edge();
    match classify_cells(&padded, palette) {
        Err(MeshError::UnknownVoxelType(id)) => {
            proof {
                let i = choose|i: int|
                    0 <= i < padded.cells().len() && (#[trigger] padded.cells()[i]).voxel_id == id
                        && forall|j: int|
                        0 <= j < i ==> palette.knows((#[trigger] padded.cells()[j]).voxel_id);
                volume.lemma_shape(c);
                padded.lemma_cells(0, 0, 0);
                let cell = lemma_cell_of_index(e + 2, i);
                let (x, y, z) = (cell.0 - 1, cell.1 - 1, cell.2 - 1);
                padded.lemma_cells(x, y, z);
                assert(padded.at(x, y, z) == world_voxel(volume, c, x, y, z));
                assert(world_voxel(volume, c, x, y, z).voxel_id == id);
                assert(has_unknown_type(volume, palette, c));
            }
            Err(MeshError::UnknownVoxelType(id))
        },
        Err(MeshError::TooManyQuads) => Err(MeshError::TooManyQuads),
        Err(MeshError::NoPalette) => Err(MeshError::NoPalette),
        Ok(grid) => {
            let quads = greedy_quads(&grid);
            proof {
                assert(!has_unknown_type(volume, palette, c)) by {
                    if has_unknown_type(volume, palette, c) {
                        let (x, y, z) = choose|x: int, y: int, z: int|
                            in_padding(volume.edge(), x, y, z) && !palette.knows(
                                (#[trigger] world_voxel(volume, c, x, y, z)).voxel_id,
                            );
                        padded.lemma_cells(x, y, z);
                        assert(padded.at(x, y, z) == world_voxel(volume, c, x, y, z));
                        let i = crate::grid::grid_index(e + 2, x, y, z);
                        assert(palette.knows(padded.cells()[i].voxel_id));
                    }
                }
                assert forall|k: int| 0 <= k < quads@.len() implies bounded(#[trigger] quads@[k]) by {
                    lemma_sound_bounded(&grid, quads@[k]);
                }
                assert(meshes_chunk(&grid, quads@, volume, palette, c));
            }
            match partition_by_material(&quads) {
                Ok(surfaces) => {
                    let mesh = ChunkMesh { coord: c, surfaces };
                    assert(meshes_chunk(&grid, quads@, volume, palette, mesh.coord)
                        && partitioned(quads@, mesh.surfaces@));
                    Ok(mesh)
                },
                Err(err) => Err(MeshError::TooManyQuads),
            }
        },
    }
}

/// The surfaces of a chunk are those of the materials that show a face:
/// there is a surface of material `m` exactly if some voxel of material `m`
/// has a visible face, and every quad of a surface is a rectangle of visible
/// faces of the surface's material.
pub proof fn law_partition_exact(
    grid: &MaterialGrid,
    quads: Seq<Quad>,
    surfaces: Seq<SurfaceMesh>,
    m: VoxelMaterial,
)
    requires
        grid.wf(),
        all_sound(grid, quads),
        complete(grid, quads),
        partitioned(quads, surfaces),
    ensures
        has_surface(surfaces, m) <==> exists|face: Face, x: int, y: int, z: int|
            #[trigger] visible(grid, face, x, y, z) && grid.at(x, y, z) == Some(m),
        forall|i: int, k: int|
            0 <= i < surfaces.len() && 0 <= k < surfaces[i].quads@.len() ==> sound(
                grid,
                #[trigger] surfaces[i].quads@[k],
            ) && surfaces[i].quads@[k].material == surfaces[i].material,
{
    assert forall|i: int, k: int|
        0 <= i < surfaces.len() && 0 <= k < surfaces[i].quads@.len() implies sound(
        grid,
        #[trigger] surfaces[i].quads@[k],
    ) && surfaces[i].quads@[k].material == surfaces[i].material by {
        let s = surfaces[i];
        let q = s.quads@[k];
        lemma_select(quads, s.material);
        assert(select(quads, s.material).contains(q));
        let j = choose|j: int| 0 <= j < quads.len() && quads[j] == q;
        assert(sound(grid, quads[j]));
    }
    if has_surface(surfaces, m) {
        let i = choose|i: int| 0 <= i < surfaces.len() && (#[trigger] surfaces[i]).material == m;
        let q = surfaces[i].quads@[0];
        assert(sound(grid, q) && q.material == m);
        let (x, y, z) = (q.minimum.x as int, q.minimum.y as int, q.minimum.z as int);
        assert(q.covers(x, y, z));
        assert(visible(grid, q.face, x, y, z) && grid.at(x, y, z) == Some(m));
    }
    if exists|face: Face, x: int, y: int, z: int|
        #[trigger] visible(grid, face, x, y, z) && grid.at(x, y, z) == Some(m) {
        let (face, x, y, z) = choose|face: Face, x: int, y: int, z: int|
            #[trigger] visible(grid, face, x, y, z) && grid.at(x, y, z) == Some(m);
        assert(covered(quads, face, x, y, z));
        let k = choose|k: int|
            0 <= k < quads.len() && quads[k].face == face && #[trigger] quads[k].covers(x, y, z);
        assert(sound(grid, quads[k]));
        assert(quads[k].material == m);
        lemma_select(quads, m);
        assert(quads.contains(quads[k]));
        assert(select(quads, m).contains(quads[k]));
        assert(select(quads, m).len() > 0);
    }
}

/// The buffers of a surface are consistent: there is a normal for each
/// position, the indices come in threes, and every index names a vertex.
pub proof fn law_buffer_consistent(quads: Seq<Quad>, buffer: &MeshBuffer)
    requires
        buffer_of(quads, buffer),
    ensures
        buffer.normals@.len() == buffer.positions@.len(),
        buffer.indices@.len() % 3 == 0,
        forall|t: int|
            0 <= t < buffer.indices@.len() ==> (#[trigger] buffer.indices@[t])
                < buffer.positions@.len(),
{
    assert forall|t: int| 0 <= t < buffer.indices@.len() implies (#[trigger] buffer.indices@[t])
        < buffer.positions@.len() by {
        assert(0 <= triangle_corner(quads[t / 6].face, t % 6) <= 3);
        assert(t / 6 < quads.len());
    }
}

/// The top of a column shows: where a column was generated without caves
/// into space without solid voxels, and the palette gives the top type a
/// material, the mesh extracted from the chunk of the top voxel of a column
/// has a surface of that material.
pub proof fn law_top_surface(
    before: &VoxelVolume,
    volume: &VoxelVolume,
    palette: &VoxelPalette,
    mesh: &ChunkMesh,
    x: int,
    z: int,
    offsets: Seq<i32>,
    sea_level: int,
    band: int,
    p: Point3,
)
    requires
        before.wf(),
        palette.wf(),
        i32::MIN <= x,
        i32::MIN <= z,
        generation_fault(x, z, before.edge(), sea_level, offsets, None) is None,
        generated(before, volume, x, z, offsets, sea_level, band, None),
        forall|q: Point3| (#[trigger] before.voxel_at(q)).voxel_id == crate::voxel::VoxelId(0),
        x <= p.x < x + before.edge(),
        z <= p.z < z + before.edge(),
        p.y >= 0,
        p.y == surface_height(offsets, sea_level, before.edge(), x, z, p.x as int, p.z as int),
        palette.knows(crate::voxel::VoxelId(TOP_ID)),
        !palette@[TOP_ID as int].is_empty,
        mesh.coord == crate::lattice::chunk_of(p, before.edge()),
        extracted(mesh, volume, palette),
    ensures
        has_surface(mesh.surfaces@, palette@[TOP_ID as int].material),
{
    let e = before.edge();
    let c = mesh.coord;
    let material = palette@[TOP_ID as int].material;
    before.lemma_shape(c);
    let (grid, quads) = choose|grid: MaterialGrid, quads: Seq<Quad>|
        #[trigger] meshes_chunk(&grid, quads, volume, palette, c) && partitioned(
            quads,
            mesh.surfaces@,
        );
    let top = sea_level + max_offset(offsets);
    let extent = column_extent(x, z, e, top);
    let (dx, dz) = (p.x - x, p.z - z);
    assert(0 <= dz * e + dx < e * e) by (nonlinear_arith)
        requires
            0 <= dx < e,
            0 <= dz < e,
    ;
    lemma_max_offset(offsets, dz * e + dx);
    assert(extent.contains(p));
    let h = p.y as int;
    assert(volume.voxel_at(p).voxel_id == crate::voxel::VoxelId(TOP_ID));
    // The voxel above the top voxel is empty.
    let above = Point3 { x: p.x, y: (p.y + 1) as i32, z: p.z };
    assert(volume.voxel_at(above).voxel_id == crate::voxel::VoxelId(0)) by {
        if !extent.contains(above) {
            assert(volume.voxel_at(above) == before.voxel_at(above));
        }
    }
    // In the coordinates of the chunk.
    crate::lattice::lemma_component_bounds(p.x as int, e);
    crate::lattice::lemma_component_bounds(p.y as int, e);
    crate::lattice::lemma_component_bounds(p.z as int, e);
    let (lx, ly, lz) = (p.x as int % e, p.y as int % e, p.z as int % e);
    assert(c.x * e + lx == p.x && c.y * e + ly == p.y && c.z * e + lz == p.z);
    assert(world_voxel(volume, c, lx, ly, lz) == volume.voxel_at(p));
    assert(world_voxel(volume, c, lx, ly + 1, lz) == volume.voxel_at(above));
    assert(in_padding(e, lx, ly, lz) && in_padding(e, lx, ly + 1, lz));
    assert(grid.at(lx, ly, lz) == Some(material));
    assert(grid.at(lx, ly + 1, lz) is None);
    let up = Face { axis: Axis::Y, positive: true };
    assert(visible(&grid, up, lx, ly, lz));
    law_partition_exact(&grid, quads, mesh.surfaces@, material);
}

} // verus!
