//! The region generator: fills one chunk column of the store from the
//! height offsets sampled over its footprint.

use crate::config::WorldConfig;
use crate::dirty::{law_touch_covers, touch_set, DirtyTracker};
use crate::lattice::{chunk_of, ChunkCoordinate, Extent3, Point3};
use crate::volume::{ChunkState, VoxelVolume};
use crate::voxel::{Sd16, Voxel, VoxelId, SD16_NEG_ONE, SD16_ONE};
use vstd::prelude::*;

verus! {

/// The type of the filling under the surface.
pub const FILL_ID: u8 = 1;

/// The type of the top voxel of a column.
pub const TOP_ID: u8 = 2;

/// The type of everything under the fill.
pub const BULK_ID: u8 = 3;

/// How many voxels of fill lie under the top voxel in the reference design.
pub const REFERENCE_BAND: i32 = 3;

/// The type of the solid voxel at height `y` in a column whose top is at
/// `max_y`, with `band` voxels of fill under the top.
pub open spec fn classify(y: int, max_y: int, band: int) -> VoxelId {
    if y == max_y {
        VoxelId(TOP_ID)
    } else if y >= max_y - band {
        VoxelId(FILL_ID)
    } else {
        VoxelId(BULK_ID)
    }
}

/// The voxel at height `y` of a column whose surface is at `height`: solid
/// and classified by depth at or below the surface, empty above it.
pub open spec fn column_voxel(y: int, height: int, band: int) -> Voxel {
    if y <= height {
        Voxel { voxel_id: classify(y, height, band), distance: Sd16(SD16_NEG_ONE) }
    } else {
        Voxel { voxel_id: VoxelId(0), distance: Sd16(SD16_ONE) }
    }
}

/// The type of a solid voxel by its depth under the top of its column.
pub fn block_by_depth(y: i32, max_y: i32, band: i32) -> (id: VoxelId)
    ensures
        id == classify(y as int, max_y as int, band as int),
{
    if y == max_y {
        VoxelId(TOP_ID)
    } else if y as i64 >= max_y as i64 - band as i64 {
        VoxelId(FILL_ID)
    } else {
        VoxelId(BULK_ID)
    }
}

/// The type of a solid voxel in the reference design: the top voxel, three
/// voxels of fill under it, bulk below.
pub fn get_block_by_height(y: i32, max_y: i32) -> (id: VoxelId)
    ensures
        id == classify(y as int, max_y as int, REFERENCE_BAND as int),
{
    block_by_depth(y, max_y, REFERENCE_BAND)
}

/// The greatest of `offsets`; `i32::MIN` if there is none.
pub open spec fn max_offset(offsets: Seq<i32>) -> int
    decreases offsets.len(),
{
    if offsets.len() == 0 {
        i32::MIN as int
    } else {
        let rest = max_offset(offsets.drop_last());
        if offsets.last() > rest {
            offsets.last() as int
        } else {
            rest
        }
    }
}

/// `max_offset` is an upper bound of the offsets.
pub proof fn lemma_max_offset(offsets: Seq<i32>, i: int)
    requires
        0 <= i < offsets.len(),
    ensures
        offsets[i] <= max_offset(offsets),
        i32::MIN <= max_offset(offsets) <= i32::MAX,
    decreases offsets.len(),
{
    if i < offsets.len() - 1 {
        lemma_max_offset(offsets.drop_last(), i);
    } else if offsets.len() > 1 {
        lemma_max_offset(offsets.drop_last(), 0);
    } else {
        assert(offsets.drop_last().len() == 0);
        assert(max_offset(offsets.drop_last()) == i32::MIN);
    }
}

/// The greatest of `offsets`.
pub fn greatest_offset(offsets: &Vec<i32>) -> (m: i32)
    ensures
        m == max_offset(offsets@),
{
    let mut m: i32 = i32::MIN;
    let mut i: usize = 0;
    while i < offsets.len()
        invariant
            i <= offsets.len(),
            m == max_offset(offsets@.take(i as int)),
        decreases offsets.len() - i,
    {
        assert(offsets@.take(i + 1).drop_last() =~= offsets@.take(i as int));
        if offsets[i] > m {
            m = offsets[i];
        }
        i += 1;
    }
    assert(offsets@.take(i as int) =~= offsets@);
    m
}

/// Why a chunk column is not generated.
#[derive(Clone, Copy, Debug, PartialEq, Eq, Structural)]
pub enum GenerateError {
    /// There is not one height offset for each column of the footprint.
    SampleCount,
    /// The column or its surface lies outside the 32-bit lattice.
    OutOfRange,
    /// The column was generated before.
    AlreadyGenerated,
    /// The palette does not describe the voxel types that generation writes.
    PaletteMismatch,
}

/// The surface height of the column at `(x, z)` of a footprint whose least
/// corner is `(x0, z0)`.
pub open spec fn surface_height(
    offsets: Seq<i32>,
    sea_level: int,
    edge: int,
    x0: int,
    z0: int,
    x: int,
    z: int,
) -> int {
    sea_level + offsets[(z - z0) * edge + (x - x0)]
}

/// The extent that generation writes: the footprint of edge `edge` at
/// `(x, z)`, from height 0 up to the highest surface.
pub open spec fn column_extent(x: int, z: int, edge: int, top: int) -> Extent3 {
    Extent3 {
        minimum: Point3 { x: x as i32, y: 0, z: z as i32 },
        shape: Point3 {
            x: edge as i32,
            y: if top >= 0 {
                (top + 1) as i32
            } else {
                0
            },
            z: edge as i32,
        },
    }
}

/// Samples of a cave field over the extent of a column: one for each voxel,
/// layer by layer upwards from height 0, and within a layer row by row along
/// `z`. A voxel whose sample is greater in magnitude than the threshold is
/// carved out.
#[derive(Debug)]
pub struct CaveField {
    pub samples: Vec<i32>,
    pub threshold: i32,
}

/// What is sampled for one chunk column: a height offset for each column of
/// the footprint, row by row along `z`, and a cave field if caves are wanted.
#[derive(Debug)]
pub struct ColumnSamples {
    pub offsets: Vec<i32>,
    pub caves: Option<CaveField>,
}

impl ColumnSamples {
    /// The cave field, if there is one.
    pub open spec fn cave_field(&self) -> Option<&CaveField> {
        match &self.caves {
            Some(field) => Some(field),
            None => None,
        }
    }
}

/// The position in a cave field of the sample of voxel `q` of the column at
/// `(x0, z0)`.
pub open spec fn cave_index(edge: int, x0: int, z0: int, q: Point3) -> int {
    (q.y * edge + (q.z - z0)) * edge + (q.x - x0)
}

/// The number of samples that a cave field has for a column whose highest
/// surface is at `top`.
pub open spec fn cave_samples_needed(edge: int, top: int) -> int {
    if top >= 0 {
        edge * edge * (top + 1)
    } else {
        0
    }
}

/// Whether the cave field carves out voxel `q` of the column at `(x0, z0)`.
/// Without a field nothing is carved.
pub open spec fn carved(caves: Option<&CaveField>, edge: int, x0: int, z0: int, q: Point3) -> bool {
    match caves {
        Some(field) => {
            let sample = field.samples@[cave_index(edge, x0, z0, q)];
            sample > field.threshold || -sample > field.threshold
        },
        None => false,
    }
}

/// The voxel that generation writes: empty if it is carved out, else the
/// column voxel of its height.
pub open spec fn terrain_voxel(y: int, height: int, band: int, carved: bool) -> Voxel {
    if carved {
        Voxel { voxel_id: VoxelId(0), distance: Sd16(SD16_ONE) }
    } else {
        column_voxel(y, height, band)
    }
}

/// Why the column at `(x, z)` cannot be generated from these samples, if it
/// cannot: there must be one offset for each column of the footprint, the
/// column and its surface must lie inside the lattice, and a cave field
/// must have one sample for each voxel of the extent.
pub open spec fn generation_fault(
    x: int,
    z: int,
    edge: int,
    sea_level: int,
    offsets: Seq<i32>,
    caves: Option<&CaveField>,
) -> Option<GenerateError> {
    if offsets.len() != edge * edge {
        Some(GenerateError::SampleCount)
    } else if !column_in_range(x, z, edge, sea_level, offsets) {
        Some(GenerateError::OutOfRange)
    } else if caves matches Some(field) && field.samples@.len() != cave_samples_needed(
        edge,
        sea_level + max_offset(offsets),
    ) {
        Some(GenerateError::SampleCount)
    } else {
        None
    }
}

/// The sample of a voxel of the extent lies inside the cave field.
pub proof fn lemma_cave_index(dx: int, dz: int, y: int, edge: int, top: int)
    requires
        0 <= dx < edge,
        0 <= dz < edge,
        0 <= y <= top,
    ensures
        0 <= y * edge + dz < edge * (top + 1),
        0 <= (y * edge + dz) * edge + dx < edge * edge * (top + 1),
{
    assert(0 <= y * edge + dz < edge * (top + 1)) by (nonlinear_arith)
        requires
            0 <= dz < edge,
            0 <= y <= top,
    ;
    let row = y * edge + dz;
    let rows = edge * (top + 1);
    assert(0 <= row * edge + dx < edge * rows) by (nonlinear_arith)
        requires
            0 <= dx < edge,
            0 <= row < rows,
    ;
    assert(edge * rows == edge * edge * (top + 1)) by (nonlinear_arith)
        requires
            rows == edge * (top + 1),
    ;
}

/// Whether the column at `(x, z)` with these offsets lies inside the
/// lattice.
pub open spec fn column_in_range(x: int, z: int, edge: int, sea_level: int, offsets: Seq<i32>) -> bool {
    &&& x + edge <= i32::MAX
    &&& z + edge <= i32::MAX
    &&& sea_level + max_offset(offsets) < i32::MAX - 1
}

/// What generation of the column at `(x, z)` does to the store: inside the
/// column's extent every voxel is the column voxel of its height, or empty
/// if the cave field carves it out, and outside it nothing changes.
pub open spec fn generated(
    before: &VoxelVolume,
    after: &VoxelVolume,
    x: int,
    z: int,
    offsets: Seq<i32>,
    sea_level: int,
    band: int,
    caves: Option<&CaveField>,
) -> bool {
    let edge = before.edge();
    let extent = column_extent(x, z, edge, sea_level + max_offset(offsets));
    &&& after.wf()
    &&& after.edge() == before.edge()
    &&& after.ambient() == before.ambient()
    &&& forall|q: Point3|
        extent.contains(q) ==> #[trigger] after.voxel_at(q) == terrain_voxel(
            q.y as int,
            surface_height(offsets, sea_level, edge, x, z, q.x as int, q.z as int),
            band,
            carved(caves, edge, x, z, q),
        )
    &&& forall|q: Point3| !extent.contains(q) ==> #[trigger] after.voxel_at(q) == before.voxel_at(q)
    &&& forall|c: crate::lattice::ChunkCoordinate| #[trigger]
        after.state(c) == if extent.touches_chunk(c, edge) {
            ChunkState::Hot
        } else {
            before.state(c)
        }
}

/// Fills the chunk column whose least corner is `(x, 0, z)`. `offsets` holds
/// one height offset for each column of the footprint, row by row along
/// `z`; the surface of a column lies at the sea level plus its offset. With
/// a cave field, the voxels that it carves out are left empty. Every chunk
/// touched, and each of its face neighbours, is recorded as dirty.
pub fn generate_chunk(
    x: i32,
    z: i32,
    offsets: &Vec<i32>,
    caves: Option<&CaveField>,
    config: &WorldConfig,
    volume: &mut VoxelVolume,
    tracker: &mut DirtyTracker,
) -> (r: Result<(), GenerateError>)
    requires
        config.valid(),
        old(volume).wf(),
        old(volume).edge() == config.chunk_edge,
        old(tracker).wf(),
    ensures
        final(tracker).wf(),
        final(volume).wf(),
        match r {
            Ok(()) => {
                &&& generation_fault(
                    x as int,
                    z as int,
                    config.chunk_edge as int,
                    config.sea_level as int,
                    offsets@,
                    caves,
                ) is None
                &&& generated(
                    old(volume),
                    final(volume),
                    x as int,
                    z as int,
                    offsets@,
                    config.sea_level as int,
                    config.band_thickness as int,
                    caves,
                )
                &&& final(tracker)@ == old(tracker)@.union(
                    touch_set(
                        column_extent(
                            x as int,
                            z as int,
                            config.chunk_edge as int,
                            config.sea_level + max_offset(offsets@),
                        ),
                        config.chunk_edge as int,
                        true,
                    ),
                )
            },
            Err(e) => {
                &&& *final(volume) == *old(volume)
                &&& *final(tracker) == *old(tracker)
                &&& generation_fault(
                    x as int,
                    z as int,
                    config.chunk_edge as int,
                    config.sea_level as int,
                    offsets@,
                    caves,
                ) == Some(e)
            },
        },
{
    let edge = config.chunk_edge;
    let sea = config.sea_level;
    let band = config.band_thickness;
    proof {
        crate::lattice::lemma_volume_bound(edge as int);
    }
    if offsets.len() != (edge as usize) * (edge as usize) {
        return Err(GenerateError::SampleCount);
    }
    let m = greatest_offset(offsets);
    let top: i64 = sea as i64 + m as i64;
    if x as i64 + edge as i64 > i32::MAX as i64 || z as i64 + edge as i64 > i32::MAX as i64 || top
        >= i32::MAX as i64 - 1 {
        return Err(GenerateError::OutOfRange);
    }
    match caves {
        Some(field) => {
            proof {
                if top >= 0 {
                    lemma_cave_index(0, 0, top as int, edge as int, top as int);
                    assert(edge * edge * (top + 1) <= 0x10_0000 * 0x8000_0000) by (nonlinear_arith)
                        requires
                            0 < edge * edge <= 0x10_0000,
                            0 <= top + 1 <= 0x8000_0000,
                    ;
                }
            }
            let needed: u64 = if top >= 0 {
                (edge as u64) * (edge as u64) * ((top + 1) as u64)
            } else {
                0
            };
            if field.samples.len() as u64 != needed {
                return Err(GenerateError::SampleCount);
            }
        },
        None => {},
    }
    let extent = Extent3 {
        minimum: Point3 { x, y: 0, z },
        shape: Point3 {
            x: edge,
            y: if top >= 0 {
                (top + 1) as i32
            } else {
                0
            },
            z: edge,
        },
    };
    assert(extent == column_extent(x as int, z as int, edge as int, sea + max_offset(offsets@)));
    let f = |p: Point3, v: Voxel| -> (w: Voxel)
        requires
            extent.contains(p),
        ensures
            w == terrain_voxel(
                p.y as int,
                surface_height(offsets@, sea as int, edge as int, x as int, z as int, p.x as int, p.z as int),
                band as int,
                carved(caves, edge as int, x as int, z as int, p),
            ),
        {
            let dz = (p.z as i64 - z as i64) as usize;
            let dx = (p.x as i64 - x as i64) as usize;
            proof {
                crate::lattice::lemma_index_bound(dx as int, dz as int, 0, edge as int);
                assert(0 <= dz * edge + dx < edge * edge) by (nonlinear_arith)
                    requires
                        0 <= dx < edge,
                        0 <= dz < edge,
                ;
            }
            let i = dz * (edge as usize) + dx;
            let height: i64 = sea as i64 + offsets[i] as i64;
            proof {
                lemma_max_offset(offsets@, i as int);
            }
            let hollow = match caves {
                Some(field) => {
                    proof {
                        lemma_cave_index(dx as int, dz as int, p.y as int, edge as int, top as int);
                        assert(edge * (top + 1) <= 0x400 * 0x8000_0000) by (nonlinear_arith)
                            requires
                                0 < edge <= 0x400,
                                0 <= top + 1 <= 0x8000_0000,
                        ;
                    }
                    let at: u64 = ((p.y as u64) * (edge as u64) + dz as u64) * (edge as u64)
                        + dx as u64;
                    let sample = field.samples[at as usize] as i64;
                    sample > field.threshold as i64 || -sample > field.threshold as i64
                },
                None => false,
            };
            if hollow {
                Voxel { voxel_id: VoxelId(0), distance: Sd16(SD16_ONE) }
            } else if p.y as i64 <= height {
                Voxel { voxel_id: block_by_depth(p.y, height as i32, band), distance: Sd16(SD16_NEG_ONE) }
            } else {
                Voxel { voxel_id: VoxelId(0), distance: Sd16(SD16_ONE) }
            }
        };
    volume.edit_region_and_touch_neighbors(&extent, &f, tracker);
    Ok(())
}

/// Generation is a function of the column, the samples and the settings:
/// two stores in which the same column was generated from the same offsets
/// hold the same voxels over the column's extent, and the same voxels
/// everywhere if they held the same voxels before.
pub proof fn law_generation_deterministic(
    before1: &VoxelVolume,
    after1: &VoxelVolume,
    before2: &VoxelVolume,
    after2: &VoxelVolume,
    x: int,
    z: int,
    offsets: Seq<i32>,
    sea_level: int,
    band: int,
    caves: Option<&CaveField>,
)
    requires
        before1.edge() == before2.edge(),
        generated(before1, after1, x, z, offsets, sea_level, band, caves),
        generated(before2, after2, x, z, offsets, sea_level, band, caves),
    ensures
        forall|q: Point3|
            column_extent(x, z, before1.edge(), sea_level + max_offset(offsets)).contains(q)
                ==> after1.voxel_at(q) == after2.voxel_at(q),
        (forall|q: Point3| before1.voxel_at(q) == before2.voxel_at(q)) ==> (forall|q: Point3|
            after1.voxel_at(q) == after2.voxel_at(q)),
{
    let extent = column_extent(x, z, before1.edge(), sea_level + max_offset(offsets));
    assert forall|q: Point3| extent.contains(q) implies after1.voxel_at(q) == after2.voxel_at(
        q,
    ) by {
        let v = terrain_voxel(
            q.y as int,
            surface_height(offsets, sea_level, before1.edge(), x, z, q.x as int, q.z as int),
            band,
            carved(caves, before1.edge(), x, z, q),
        );
        assert(after1.voxel_at(q) == v);
        assert(after2.voxel_at(q) == v);
    }
    if forall|q: Point3| before1.voxel_at(q) == before2.voxel_at(q) {
        assert forall|q: Point3| after1.voxel_at(q) == after2.voxel_at(q) by {
            if !extent.contains(q) {
                assert(after1.voxel_at(q) == before1.voxel_at(q));
                assert(after2.voxel_at(q) == before2.voxel_at(q));
            }
        }
    }
}

/// The profile of a generated column: in a column generated without caves
/// where nothing was before, a voxel of the footprint from height 0 up to
/// the surface of its own column is solid, at distance -1, and of the type
/// of its depth; a voxel above the surface is empty, inside the extent
/// written or above it; and a voxel below height 0 is as it was.
pub proof fn law_column_profile(
    before: &VoxelVolume,
    after: &VoxelVolume,
    x: int,
    z: int,
    offsets: Seq<i32>,
    sea_level: int,
    band: int,
    p: Point3,
)
    requires
        before.wf(),
        i32::MIN <= x,
        i32::MIN <= z,
        generation_fault(x, z, before.edge(), sea_level, offsets, None) is None,
        generated(before, after, x, z, offsets, sea_level, band, None),
        before.voxel_at(p) == crate::voxel::ambient_voxel(),
        x <= p.x < x + before.edge(),
        z <= p.z < z + before.edge(),
    ensures
        ({
            let h = surface_height(offsets, sea_level, before.edge(), x, z, p.x as int, p.z as int);
            &&& 0 <= p.y <= h ==> after.voxel_at(p) == (Voxel {
                voxel_id: classify(p.y as int, h, band),
                distance: Sd16(SD16_NEG_ONE),
            }) && after.voxel_at(p).voxel_id != VoxelId(0) && after.voxel_at(p).distance.0 < 0
            &&& p.y > h ==> after.voxel_at(p) == crate::voxel::ambient_voxel()
            &&& p.y < 0 ==> after.voxel_at(p) == crate::voxel::ambient_voxel()
        }),
{
    let e = before.edge();
    before.lemma_shape(crate::lattice::ChunkCoordinate { x: 0, y: 0, z: 0 });
    let top = sea_level + max_offset(offsets);
    let extent = column_extent(x, z, e, top);
    let (dx, dz) = (p.x - x, p.z - z);
    assert(0 <= dz * e + dx < e * e) by (nonlinear_arith)
        requires
            0 <= dx < e,
            0 <= dz < e,
    ;
    lemma_max_offset(offsets, dz * e + dx);
    let h = surface_height(offsets, sea_level, e, x, z, p.x as int, p.z as int);
    assert(h <= top);
    if 0 <= p.y <= top {
        assert(extent.contains(p));
    } else {
        assert(!extent.contains(p));
    }
}

/// What the generation of a column makes dirty: where the highest surface
/// is at height 0 or above, every chunk that the column's extent touches is
/// dirty, and so is every chunk that shares a face with one of those, the
/// chunk under the column's foot among them.
pub proof fn law_generation_touch(
    x: int,
    z: int,
    edge: int,
    top: int,
    d: ChunkCoordinate,
    n: ChunkCoordinate,
)
    requires
        0 < edge <= crate::lattice::MAX_CHUNK_EDGE,
        0 <= top < i32::MAX,
        i32::MIN <= x && x + edge <= i32::MAX,
        i32::MIN <= z && z + edge <= i32::MAX,
    ensures
        column_extent(x, z, edge, top).touches_chunk(d, edge) ==> touch_set(
            column_extent(x, z, edge, top),
            edge,
            true,
        ).contains(d),
        column_extent(x, z, edge, top).touches_chunk(d, edge) && d.is_face_neighbor(n)
            ==> touch_set(column_extent(x, z, edge, top), edge, true).contains(n),
        ({
            let foot = chunk_of(Point3 { x: x as i32, y: 0, z: z as i32 }, edge);
            &&& touch_set(column_extent(x, z, edge, top), edge, true).contains(foot)
            &&& touch_set(column_extent(x, z, edge, top), edge, true).contains(
                ChunkCoordinate { x: foot.x, y: -1i32, z: foot.z },
            )
        }),
{
    let extent = column_extent(x, z, edge, top);
    if extent.touches_chunk(d, edge) {
        law_touch_covers(extent, edge, d, n);
    }
    let start = Point3 { x: x as i32, y: 0, z: z as i32 };
    let foot = chunk_of(start, edge);
    assert(extent.contains(start));
    assert(extent.touches_chunk(foot, edge));
    let under = ChunkCoordinate { x: foot.x, y: -1i32, z: foot.z };
    assert(foot.y == 0);
    assert(foot.is_face_neighbor(under));
    law_touch_covers(extent, edge, foot, under);
}

} // verus!
