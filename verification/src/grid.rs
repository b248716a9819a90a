//! Dense scratch buffers for meshing: a chunk with the one-voxel border
//! around it, as voxels and as materials.

use crate::lattice::{
    chunk_of, containing_chunk, index_in_chunk, lemma_in_chunk, lemma_volume_bound,
    valid_chunk_edge, ChunkCoordinate, Point3,
};
use crate::volume::VoxelVolume;
use crate::voxel::{Voxel, VoxelId, VoxelIdInfo, VoxelMaterial, VoxelPalette};
use vstd::prelude::*;

verus! {

/// The position in a padded buffer of side `side` of the cell with local
/// coordinates `(x, y, z)`, each in `[-1, side - 2]`; `x` varies fastest.
pub open spec fn grid_index(side: int, x: int, y: int, z: int) -> int {
    ((z + 1) * side + (y + 1)) * side + (x + 1)
}

/// Whether `(x, y, z)` are local coordinates of a padded chunk of edge
/// `edge`: those of the chunk, or one step outside it.
pub open spec fn in_padding(edge: int, x: int, y: int, z: int) -> bool {
    -1 <= x <= edge && -1 <= y <= edge && -1 <= z <= edge
}

/// Whether `(x, y, z)` are local coordinates of a voxel of the chunk itself.
pub open spec fn in_chunk(edge: int, x: int, y: int, z: int) -> bool {
    0 <= x < edge && 0 <= y < edge && 0 <= z < edge
}

/// The index of a cell of the padding lies inside the buffer.
pub proof fn lemma_grid_index(edge: int, x: int, y: int, z: int)
    requires
        edge > 0,
        in_padding(edge, x, y, z),
    ensures
        0 <= grid_index(edge + 2, x, y, z) < (edge + 2) * (edge + 2) * (edge + 2),
{
    crate::lattice::lemma_index_bound(x + 1, y + 1, z + 1, edge + 2);
}

/// Whether `v` is a 32-bit coordinate.
pub open spec fn representable(v: int) -> bool {
    i32::MIN <= v <= i32::MAX
}

/// The voxel that the store shows at local coordinates `(x, y, z)` of chunk
/// `c`; positions outside the 32-bit lattice show the ambient voxel.
pub open spec fn world_voxel(volume: &VoxelVolume, c: ChunkCoordinate, x: int, y: int, z: int) -> Voxel {
    let e = volume.edge();
    let wx = c.x * e + x;
    let wy = c.y * e + y;
    let wz = c.z * e + z;
    if representable(wx) && representable(wy) && representable(wz) {
        volume.voxel_at(Point3 { x: wx as i32, y: wy as i32, z: wz as i32 })
    } else {
        volume.ambient()
    }
}

/// A dense copy of one chunk and of the voxels one step outside each of its
/// faces.
pub struct PaddedChunk {
    coord: ChunkCoordinate,
    edge: i32,
    voxels: Vec<Voxel>,
}

impl PaddedChunk {
    /// The chunk copied.
    pub closed spec fn coord(&self) -> ChunkCoordinate {
        self.coord
    }

    /// The edge length of the chunk, without the border.
    pub closed spec fn edge(&self) -> int {
        self.edge as int
    }

    /// The edge is valid and the buffer holds every cell of the padding.
    pub closed spec fn wf(&self) -> bool {
        &&& valid_chunk_edge(self.edge as int)
        &&& self.voxels@.len() == (self.edge + 2) * (self.edge + 2) * (self.edge + 2)
    }

    /// The voxel at local coordinates `(x, y, z)`.
    pub closed spec fn at(&self, x: int, y: int, z: int) -> Voxel {
        self.voxels@[grid_index(self.edge + 2, x, y, z)]
    }

    /// The voxels in buffer order.
    pub closed spec fn cells(&self) -> Seq<Voxel> {
        self.voxels@
    }

    /// The buffer holds `at` in the order of `grid_index`.
    pub proof fn lemma_cells(&self, x: int, y: int, z: int)
        requires
            self.wf(),
            in_padding(self.edge(), x, y, z),
        ensures
            valid_chunk_edge(self.edge()),
            self.cells().len() == (self.edge() + 2) * (self.edge() + 2) * (self.edge() + 2),
            0 <= grid_index(self.edge() + 2, x, y, z) < self.cells().len(),
            self.at(x, y, z) == self.cells()[grid_index(self.edge() + 2, x, y, z)],
    {
        lemma_grid_index(self.edge as int, x, y, z);
    }

    /// The chunk copied.
    pub fn chunk(&self) -> (c: ChunkCoordinate)
        ensures
            c == self.coord(),
    {
        self.coord
    }

    /// The edge length of the chunk, without the border.
    pub fn chunk_edge(&self) -> (e: i32)
        ensures
            e == self.edge(),
    {
        self.edge
    }

    /// The voxel at local coordinates `(x, y, z)`, each in `[-1, edge]`.
    pub fn get(&self, x: i32, y: i32, z: i32) -> (v: Voxel)
        requires
            self.wf(),
            in_padding(self.edge(), x as int, y as int, z as int),
        ensures
            v == self.at(x as int, y as int, z as int),
    {
        proof {
            lemma_grid_index(self.edge as int, x as int, y as int, z as int);
            crate::lattice::lemma_index_bound(
                x + 1,
                y + 1,
                z + 1,
                self.edge + 2,
            );
            lemma_side_bound(self.edge as int);
        }
        let side = (self.edge + 2) as usize;
        let i = (((z + 1) as usize) * side + (y + 1) as usize) * side + (x + 1) as usize;
        self.voxels[i]
    }
}

/// A padded buffer of the largest chunk still has fewer than 2^31 cells.
pub proof fn lemma_side_bound(edge: int)
    requires
        0 < edge <= 1024,
    ensures
        (edge + 2) * (edge + 2) <= 0x10_1004,
        (edge + 2) * (edge + 2) * (edge + 2) <= 0x4060_3008,
{
    let s = edge + 2;
    assert(s * s <= 1026 * 1026) by (nonlinear_arith)
        requires
            0 < s <= 1026,
    ;
    let sq = s * s;
    assert(sq > 0) by (nonlinear_arith)
        requires
            sq == s * s,
            s > 0,
    ;
    assert(sq * s <= 1026 * 1026 * 1026) by (nonlinear_arith)
        requires
            0 < s <= 1026,
            0 < sq <= 1026 * 1026,
    ;
}

/// The position, among the 27 chunks around `c`, of chunk `d`.
pub open spec fn slot_of(c: ChunkCoordinate, d: ChunkCoordinate) -> int {
    (d.z - c.z + 1) * 9 + (d.y - c.y + 1) * 3 + (d.x - c.x + 1)
}

/// Whether `d` is `c` or one of the 26 chunks around it.
pub open spec fn around(c: ChunkCoordinate, d: ChunkCoordinate) -> bool {
    &&& -1 <= d.x - c.x <= 1
    &&& -1 <= d.y - c.y <= 1
    &&& -1 <= d.z - c.z <= 1
}

/// A coordinate at local offset `t` in `[-1, edge]` of chunk index `c` lies
/// in chunk `c - 1`, `c` or `c + 1`.
pub proof fn lemma_near_chunk(c: int, t: int, edge: int)
    requires
        edge > 0,
        -1 <= t <= edge,
    ensures
        c - 1 <= (c * edge + t) / edge <= c + 1,
{
    let w = c * edge + t;
    lemma_in_chunk(w, c - 1, edge);
    lemma_in_chunk(w, c, edge);
    lemma_in_chunk(w, c + 1, edge);
    assert((c - 1) * edge == c * edge - edge && (c + 1) * edge == c * edge + edge)
        by (nonlinear_arith);
}

/// Whether every chunk copied into `snaps` is the store's chunk of its
/// slot.
pub open spec fn snaps_hold(volume: &VoxelVolume, c: ChunkCoordinate, snaps: Seq<Vec<Voxel>>) -> bool {
    &&& snaps.len() == 27
    &&& forall|d: ChunkCoordinate|
        around(c, d) && (#[trigger] snaps[slot_of(c, d)])@.len() > 0 ==> snaps[slot_of(c, d)]@
            == volume.chunk_voxels(d)
}

/// Copying chunk `d` into its slot keeps `snaps_hold`.
proof fn lemma_snaps_set(
    volume: &VoxelVolume,
    c: ChunkCoordinate,
    before: Seq<Vec<Voxel>>,
    after: Seq<Vec<Voxel>>,
    d: ChunkCoordinate,
    snapshot: Vec<Voxel>,
)
    requires
        snaps_hold(volume, c, before),
        around(c, d),
        snapshot@ == volume.chunk_voxels(d),
        after == before.update(slot_of(c, d), snapshot),
    ensures
        snaps_hold(volume, c, after),
{
    assert forall|d2: ChunkCoordinate|
        around(c, d2) && (#[trigger] after[slot_of(c, d2)])@.len() > 0 implies after[slot_of(
        c,
        d2,
    )]@ == volume.chunk_voxels(d2) by {
        if slot_of(c, d2) == slot_of(c, d) {
            assert(d2 == d);
        } else {
            assert(after[slot_of(c, d2)] == before[slot_of(c, d2)]);
        }
    }
}

/// The point at local coordinates `(x, y, z)` of chunk `c` lies in `c` or in
/// one of the chunks around it.
proof fn lemma_fetch_chunk(c: ChunkCoordinate, p: Point3, x: int, y: int, z: int, e: int)
    requires
        e > 0,
        in_padding(e, x, y, z),
        p.x == c.x * e + x,
        p.y == c.y * e + y,
        p.z == c.z * e + z,
    ensures
        around(c, chunk_of(p, e)),
{
    lemma_near_chunk(c.x as int, x, e);
    lemma_near_chunk(c.y as int, y, e);
    lemma_near_chunk(c.z as int, z, e);
    crate::lattice::lemma_component_bounds(p.x as int, e);
    crate::lattice::lemma_component_bounds(p.y as int, e);
    crate::lattice::lemma_component_bounds(p.z as int, e);
}

/// The world coordinate of local offset `t` of chunk index `c` fits in 64
/// bits.
proof fn lemma_world_bound(c: int, e: int)
    requires
        0 < e <= 1024,
        i32::MIN <= c <= i32::MAX,
    ensures
        -0x200_0000_0000 <= c * e <= 0x200_0000_0000,
{
    assert(-0x200_0000_0000 <= c * e <= 0x200_0000_0000) by (nonlinear_arith)
        requires
            0 < e <= 1024,
            -0x8000_0000 <= c <= 0x7fff_ffff,
    ;
}

/// The voxel at local coordinates `(x, y, z)` of chunk `c`, read through
/// `snaps`; the chunk that holds it is copied into `snaps` at first use.
fn fetch_voxel(
    volume: &VoxelVolume,
    c: ChunkCoordinate,
    snaps: &mut Vec<Vec<Voxel>>,
    x: i32,
    y: i32,
    z: i32,
) -> (v: Voxel)
    requires
        volume.wf(),
        in_padding(volume.edge(), x as int, y as int, z as int),
        snaps_hold(volume, c, old(snaps)@),
    ensures
        snaps_hold(volume, c, final(snaps)@),
        v == world_voxel(volume, c, x as int, y as int, z as int),
{
    let edge = volume.chunk_edge();
    let ghost e = edge as int;
    proof {
        lemma_world_bound(c.x as int, e);
        lemma_world_bound(c.y as int, e);
        lemma_world_bound(c.z as int, e);
    }
    let wx: i64 = (c.x as i64) * (edge as i64) + (x as i64);
    let wy: i64 = (c.y as i64) * (edge as i64) + (y as i64);
    let wz: i64 = (c.z as i64) * (edge as i64) + (z as i64);
    if wx >= i32::MIN as i64 && wx <= i32::MAX as i64 && wy >= i32::MIN as i64 && wy
        <= i32::MAX as i64 && wz >= i32::MIN as i64 && wz <= i32::MAX as i64 {
        let p = Point3 { x: wx as i32, y: wy as i32, z: wz as i32 };
        let d = containing_chunk(p, edge);
        let n = index_in_chunk(p, edge);
        proof {
            lemma_fetch_chunk(c, p, x as int, y as int, z as int, e);
            volume.lemma_shape(d);
        }
        let slot: usize = ((d.z as i64 - c.z as i64 + 1) * 9 + (d.y as i64 - c.y as i64 + 1) * 3
            + (d.x as i64 - c.x as i64 + 1)) as usize;
        if snaps[slot].len() == 0 {
            let snapshot = volume.chunk_snapshot(d);
            let ghost before = snaps@;
            snaps.set(slot, snapshot);
            proof {
                lemma_snaps_set(volume, c, before, snaps@, d, snapshot);
            }
        }
        assert(snaps@[slot_of(c, d)]@ == volume.chunk_voxels(d));
        snaps[slot][n]
    } else {
        volume.ambient_value()
    }
}

/// Copies chunk `c` and its one-voxel border out of the store. Voxels of
/// chunks that are not allocated, and positions outside the lattice, are
/// copied as the ambient voxel.
pub fn copy_padded(volume: &VoxelVolume, c: ChunkCoordinate) -> (padded: PaddedChunk)
    requires
        volume.wf(),
    ensures
        padded.wf(),
        padded.coord() == c,
        padded.edge() == volume.edge(),
        forall|x: int, y: int, z: int|
            in_padding(volume.edge(), x, y, z) ==> #[trigger] padded.at(x, y, z) == world_voxel(
                volume,
                c,
                x,
                y,
                z,
            ),
{
    let edge = volume.chunk_edge();
    let ambient = volume.ambient_value();
    let ghost e = edge as int;
    proof {
        lemma_side_bound(e);
        lemma_volume_bound(e);
    }
    let side: usize = (edge + 2) as usize;
    let total: usize = side * side * side;
    // The chunks around `c` that have been copied so far, by slot.
    let mut snaps: Vec<Vec<Voxel>> = Vec::new();
    let mut s: usize = 0;
    while s < 27
        invariant
            s <= 27,
            snaps@.len() == s,
            forall|t: int| 0 <= t < s ==> snaps@[t]@.len() == 0,
        decreases 27 - s,
    {
        snaps.push(Vec::new());
        s += 1;
    }
    let mut voxels: Vec<Voxel> = Vec::new();
    let mut k: usize = 0;
    while k < side
        invariant
            volume.wf(),
            e == edge as int,
            e == volume.edge(),
            valid_chunk_edge(e),
            ambient == volume.ambient(),
            side == e + 2,
            k <= side,
            voxels@.len() == k * side * side,
            snaps_hold(volume, c, snaps@),
            forall|x: int, y: int, z: int|
                in_padding(e, x, y, z) && z + 1 < k ==> voxels@[grid_index(e + 2, x, y, z)]
                    == world_voxel(volume, c, x, y, z),
        decreases side - k,
    {
        let mut j: usize = 0;
        assert(k * side * side + 0 * side == k * side * side) by (nonlinear_arith);
        while j < side
            invariant
                volume.wf(),
                e == edge as int,
                e == volume.edge(),
                valid_chunk_edge(e),
                ambient == volume.ambient(),
                side == e + 2,
                k < side,
                j <= side,
                voxels@.len() == (k * side + j) * side,
                    snaps_hold(volume, c, snaps@),
                forall|x: int, y: int, z: int|
                    in_padding(e, x, y, z) && (z + 1 < k || (z + 1 == k && y + 1 < j))
                        ==> voxels@[grid_index(e + 2, x, y, z)] == world_voxel(
                        volume,
                        c,
                        x,
                        y,
                        z,
                    ),
            decreases side - j,
        {
            let mut i: usize = 0;
            while i < side
                invariant
                    volume.wf(),
                    e == edge as int,
                    e == volume.edge(),
                    valid_chunk_edge(e),
                    ambient == volume.ambient(),
                    side == e + 2,
                    k < side,
                    j < side,
                    i <= side,
                    voxels@.len() == (k * side + j) * side + i,
                            snaps_hold(volume, c, snaps@),
                    forall|x: int, y: int, z: int|
                        in_padding(e, x, y, z) && (z + 1 < k || (z + 1 == k && (y + 1 < j || (y + 1
                            == j && x + 1 < i)))) ==> voxels@[grid_index(e + 2, x, y, z)]
                            == world_voxel(volume, c, x, y, z),
                decreases side - i,
            {
                let ghost lx = i as int - 1;
                let ghost ly = j as int - 1;
                let ghost lz = k as int - 1;
                let v = fetch_voxel(volume, c, &mut snaps, i as i32 - 1, j as i32 - 1, k as i32 - 1);
                assert(v == world_voxel(volume, c, lx, ly, lz));
                voxels.push(v);
                proof {
                    let cur = grid_index(e + 2, lx, ly, lz);
                    assert(cur == (k * side + j) * side + i);
                    assert forall|x: int, y: int, z: int|
                        in_padding(e, x, y, z) && (z + 1 < k || (z + 1 == k && (y + 1 < j || (y + 1
                            == j && x + 1 < i + 1)))) implies voxels@[grid_index(e + 2, x, y, z)]
                        == world_voxel(volume, c, x, y, z) by {
                        if x == lx && y == ly && z == lz {
                        } else {
                            lemma_grid_index(e, x, y, z);
                            lemma_grid_order(e + 2, x + 1, y + 1, z + 1, i as int, j as int, k as int);
                        }
                    }
                }
                i += 1;
            }
            assert((k * side + j) * side + side == (k * side + (j + 1)) * side)
                by (nonlinear_arith);
            j += 1;
        }
        assert((k * side + side) * side == (k + 1) * side * side) by (nonlinear_arith);
        k += 1;
    }
    assert(k * side * side == side * side * side);
    PaddedChunk { coord: c, edge, voxels }
}

/// A cell that comes before `(i, j, k)` in buffer order has a smaller index.
pub proof fn lemma_grid_order(side: int, x: int, y: int, z: int, i: int, j: int, k: int)
    requires
        0 <= x < side,
        0 <= y < side,
        0 <= z < side,
        0 <= i < side,
        0 <= j < side,
        0 <= k < side,
        z < k || (z == k && (y < j || (y == j && x < i))),
    ensures
        (z * side + y) * side + x < (k * side + j) * side + i,
{
    let a = z * side + y;
    let b = k * side + j;
    assert(a <= b && (a == b ==> x < i)) by (nonlinear_arith)
        requires
            0 <= y < side,
            0 <= j < side,
            0 <= z,
            0 <= k,
            a == z * side + y,
            b == k * side + j,
            z < k || (z == k && (y < j || (y == j && x < i))),
    ;
    assert(a * side + x < b * side + i) by (nonlinear_arith)
        requires
            0 <= x < side,
            0 <= i < side,
            a <= b,
            a == b ==> x < i,
    ;
}

/// Why a mesh is not extracted.
#[derive(Clone, Copy, Debug, PartialEq, Eq, Structural)]
pub enum MeshError {
    /// A voxel has a type that the palette does not describe.
    UnknownVoxelType(VoxelId),
    /// The mesh has more vertices than 32-bit indices can address.
    TooManyQuads,
    /// No palette has been registered.
    NoPalette,
}

/// The material of a voxel under a palette: none for an empty type.
pub open spec fn cell_material(palette: Seq<VoxelIdInfo>, v: Voxel) -> Option<VoxelMaterial> {
    let info = palette[v.voxel_id.0 as int];
    if info.is_empty {
        None
    } else {
        Some(info.material)
    }
}

/// A padded chunk reduced to what meshing reads: for each cell, the material
/// of its voxel, or none if the voxel is empty.
pub struct MaterialGrid {
    edge: i32,
    cells: Vec<Option<VoxelMaterial>>,
}

impl MaterialGrid {
    /// The edge length of the chunk, without the border.
    pub closed spec fn edge(&self) -> int {
        self.edge as int
    }

    /// The edge is valid and the buffer holds every cell of the padding.
    pub closed spec fn wf(&self) -> bool {
        &&& valid_chunk_edge(self.edge as int)
        &&& self.cells@.len() == (self.edge + 2) * (self.edge + 2) * (self.edge + 2)
    }

    /// The material at local coordinates `(x, y, z)`.
    pub closed spec fn at(&self, x: int, y: int, z: int) -> Option<VoxelMaterial> {
        self.cells@[grid_index(self.edge + 2, x, y, z)]
    }

    /// A well-formed grid has a valid chunk edge.
    pub proof fn lemma_edge(&self)
        requires
            self.wf(),
        ensures
            valid_chunk_edge(self.edge()),
    {
    }

    /// A grid of edge `edge` from its cells in buffer order, if there are as
    /// many cells as a padded chunk of that edge has.
    pub fn from_cells(edge: i32, cells: Vec<Option<VoxelMaterial>>) -> (r: Option<MaterialGrid>)
        ensures
            r is Some <==> (valid_chunk_edge(edge as int) && cells@.len() == (edge + 2) * (edge
                + 2) * (edge + 2)),
            r matches Some(g) ==> g.wf() && g.edge() == edge && forall|x: int, y: int, z: int|
                #[trigger] g.at(x, y, z) == cells@[grid_index(edge + 2, x, y, z)],
    {
        if !crate::lattice::is_valid_chunk_edge(edge) {
            return None;
        }
        proof {
            lemma_side_bound(edge as int);
        }
        let side = (edge + 2) as usize;
        if cells.len() != side * side * side {
            return None;
        }
        Some(MaterialGrid { edge, cells })
    }

    /// The edge length of the chunk, without the border.
    pub fn chunk_edge(&self) -> (e: i32)
        requires
            self.wf(),
        ensures
            e == self.edge(),
            valid_chunk_edge(e as int),
    {
        self.edge
    }

    /// The material at local coordinates `(x, y, z)`, each in `[-1, edge]`.
    pub fn get(&self, x: i32, y: i32, z: i32) -> (m: Option<VoxelMaterial>)
        requires
            self.wf(),
            in_padding(self.edge(), x as int, y as int, z as int),
        ensures
            m == self.at(x as int, y as int, z as int),
    {
        proof {
            lemma_grid_index(self.edge as int, x as int, y as int, z as int);
            crate::lattice::lemma_index_bound(x + 1, y + 1, z + 1, self.edge + 2);
            lemma_side_bound(self.edge as int);
        }
        let side = (self.edge + 2) as usize;
        let i = (((z + 1) as usize) * side + (y + 1) as usize) * side + (x + 1) as usize;
        self.cells[i]
    }
}

/// Looks up the material of every voxel of `padded` in `palette`. Fails on
/// the first voxel, in buffer order, whose type the palette does not
/// describe.
pub fn classify_cells(padded: &PaddedChunk, palette: &VoxelPalette) -> (r: Result<
    MaterialGrid,
    MeshError,
>)
    requires
        padded.wf(),
    ensures
        match r {
            Ok(g) => {
                &&& g.wf()
                &&& g.edge() == padded.edge()
                &&& forall|i: int|
                    0 <= i < padded.cells().len() ==> palette.knows(
                        (#[trigger] padded.cells()[i]).voxel_id,
                    )
                &&& forall|x: int, y: int, z: int|
                    in_padding(padded.edge(), x, y, z) ==> #[trigger] g.at(x, y, z)
                        == cell_material(palette@, padded.at(x, y, z))
            },
            Err(MeshError::UnknownVoxelType(id)) => {
                &&& !palette.knows(id)
                &&& exists|i: int|
                    0 <= i < padded.cells().len() && (#[trigger] padded.cells()[i]).voxel_id == id
                        && forall|j: int|
                        0 <= j < i ==> palette.knows((#[trigger] padded.cells()[j]).voxel_id)
            },
            Err(MeshError::TooManyQuads) => false,
            Err(MeshError::NoPalette) => false,
        },
{
    let mut cells: Vec<Option<VoxelMaterial>> = Vec::new();
    let mut i: usize = 0;
    while i < padded.voxels.len()
        invariant
            i <= padded.voxels.len(),
            cells@.len() == i,
            forall|j: int| 0 <= j < i ==> palette.knows((#[trigger] padded.voxels@[j]).voxel_id),
            forall|j: int|
                0 <= j < i ==> #[trigger] cells@[j] == cell_material(palette@, padded.voxels@[j]),
        decreases padded.voxels.len() - i,
    {
        let v = padded.voxels[i];
        match palette.get(v.voxel_id) {
            Some(info) => {
                if info.is_empty {
                    cells.push(None);
                } else {
                    cells.push(Some(info.material));
                }
            },
            None => {
                assert(padded.cells()[i as int].voxel_id == v.voxel_id);
                return Err(MeshError::UnknownVoxelType(v.voxel_id));
            },
        }
        i += 1;
    }
    let g = MaterialGrid { edge: padded.edge, cells };
    proof {
        assert forall|x: int, y: int, z: int|
            in_padding(padded.edge(), x, y, z) implies #[trigger] g.at(x, y, z) == cell_material(
            palette@,
            padded.at(x, y, z),
        ) by {
            let n = grid_index(padded.edge + 2, x, y, z);
            lemma_grid_index(padded.edge as int, x, y, z);
            assert(cells@[n] == cell_material(palette@, padded.voxels@[n]));
        }
    }
    Ok(g)
}

} // verus!
