//! The voxel world as its host sees it: one owner of the store, the dirty
//! set, the generated set, the palette and the mesh records, with plain
//! synchronous entry points.

use crate::config::{ConfigError, WorldConfig};
use crate::dirty::{touch_set, with_face_neighbors, DirtyTracker};
use crate::grid::{copy_padded, in_padding, world_voxel, MeshError, PaddedChunk};
use crate::lattice::{chunk_of, containing_chunk, ChunkCoordinate, Extent3, Point3};
use crate::reconciler::{
    batch_distinct, in_batch, is_resident, resident_set, GeometryReconciler, MeshHandle,
};
use crate::streaming::{
    column_of, in_view, lemma_push_contains, pending_chunks, resident_box, view_radius,
    viewpoint_in_range, ChunkBox, GeneratedSet,
};
use crate::surface::{
    extract_chunk, extracted, has_unknown_type, too_many_quads, type_occurs, ChunkMesh,
};
use crate::terrain::{
    carved, column_extent, generate_chunk, generated, generation_fault, max_offset,
    surface_height, terrain_voxel, CaveField, ColumnSamples, GenerateError, BULK_ID,
};
use crate::volume::{ChunkState, VoxelVolume};
use crate::voxel::{
    ambient_voxel, palette_check, PaletteError, Sd16, Voxel, VoxelId, VoxelIdInfo, VoxelMaterial,
    VoxelPalette, SD16_ONE,
};
use vstd::prelude::*;

verus! {

/// What changed in the published geometry: the handles of the surfaces to
/// take down, and the fresh meshes whose surfaces are to be put up. The
/// surfaces of a chunk are taken down before its fresh ones are put up.
pub struct GeometryDelta {
    pub despawned: Vec<MeshHandle>,
    pub spawned: Vec<ChunkMesh>,
}

/// A voxel world.
pub struct VoxelWorld {
    config: WorldConfig,
    volume: VoxelVolume,
    dirty: DirtyTracker,
    generated: GeneratedSet,
    palette: Option<VoxelPalette>,
    reconciler: GeometryReconciler,
    viewpoint: Option<Point3>,
}

impl VoxelWorld {
    /// The settings the world was made with.
    pub closed spec fn config(&self) -> WorldConfig {
        self.config
    }

    /// The voxel store.
    pub closed spec fn volume(&self) -> VoxelVolume {
        self.volume
    }

    /// The dirty tracker.
    pub closed spec fn tracker(&self) -> DirtyTracker {
        self.dirty
    }

    /// The chunks whose geometry is stale.
    pub open spec fn dirty_set(&self) -> Set<ChunkCoordinate> {
        self.tracker()@
    }

    /// The chunk columns that have been generated.
    pub closed spec fn generated_set(&self) -> Set<ChunkCoordinate> {
        self.generated@
    }

    /// The registered palette, if there is one.
    pub closed spec fn palette(&self) -> Option<VoxelPalette> {
        self.palette
    }

    /// The mesh records.
    pub closed spec fn reconciler(&self) -> GeometryReconciler {
        self.reconciler
    }

    /// The position of the observer, if there is one.
    pub closed spec fn viewpoint(&self) -> Option<Point3> {
        self.viewpoint
    }

    /// The invariant of the world: the settings are valid, the parts are
    /// well formed, and the viewpoint lies where its resident region fits
    /// into the lattice.
    pub open spec fn wf(&self) -> bool {
        &&& self.config().valid()
        &&& self.volume().wf()
        &&& self.volume().edge() == self.config().chunk_edge
        &&& self.tracker().wf()
        &&& self.reconciler().wf()
        &&& self.viewpoint() matches Some(p) ==> viewpoint_in_range(p, self.config())
    }

    /// Whether the palette describes every voxel type that generation
    /// writes.
    pub open spec fn palette_ready(&self) -> bool {
        self.palette() matches Some(p) && p@.len() > BULK_ID
    }

    /// The resident region: the columns in view, or everything if there is
    /// no observer.
    pub open spec fn resident(&self, c: ChunkCoordinate) -> bool {
        self.viewpoint() matches Some(p) ==> in_view(
            crate::streaming::column_of(c),
            p,
            self.config(),
        )
    }

    /// A world with the settings `config`: nothing allocated, nothing
    /// generated, nothing dirty, nothing published, no palette and no
    /// observer. Fails if the settings are not valid.
    pub fn new(config: WorldConfig) -> (r: Result<VoxelWorld, ConfigError>)
        ensures
            match r {
                Ok(w) => {
                    &&& config.check() is Ok
                    &&& w.wf()
                    &&& w.config() == config
                    &&& w.volume().ambient() == ambient_voxel()
                    &&& forall|p: Point3| #[trigger] w.volume().voxel_at(p) == ambient_voxel()
                    &&& forall|c: ChunkCoordinate|
                        #[trigger] w.volume().state(c) == ChunkState::Absent
                    &&& w.dirty_set() == Set::<ChunkCoordinate>::empty()
                    &&& w.generated_set() == Set::<ChunkCoordinate>::empty()
                    &&& w.palette() is None
                    &&& w.viewpoint() is None
                    &&& forall|c: ChunkCoordinate| #[trigger] w.reconciler().published(c) is None
                },
                Err(e) => config.check() == Err::<(), ConfigError>(e),
            },
    {
        match config.validate() {
            Err(e) => Err(e),
            Ok(()) => {
                let ambient = Voxel { voxel_id: VoxelId(0), distance: Sd16(SD16_ONE) };
                match VoxelVolume::new(config.chunk_edge, ambient, config.compression_level) {
                    Err(e) => Err(e),
                    Ok(volume) => Ok(
                        VoxelWorld {
                            config,
                            volume,
                            dirty: DirtyTracker::new(),
                            generated: GeneratedSet::new(),
                            palette: None,
                            reconciler: GeometryReconciler::new(),
                            viewpoint: None,
                        },
                    ),
                }
            },
        }
    }

    /// Registers the palette, once. The position of an entry in `entries` is
    /// the voxel type it describes.
    pub fn register_palette(&mut self, entries: Vec<VoxelIdInfo>) -> (r: Result<(), PaletteError>)
        requires
            old(self).wf(),
        ensures
            final(self).wf(),
            match r {
                Ok(()) => {
                    &&& old(self).palette() is None
                    &&& palette_check(entries@) is Ok
                    &&& final(self).palette() matches Some(p) && p@ == entries@ && p.wf()
                    &&& final(self).config() == old(self).config()
                    &&& final(self).volume() == old(self).volume()
                    &&& final(self).dirty_set() == old(self).dirty_set()
                    &&& final(self).generated_set() == old(self).generated_set()
                    &&& final(self).reconciler() == old(self).reconciler()
                    &&& final(self).viewpoint() == old(self).viewpoint()
                },
                Err(e) => {
                    &&& *final(self) == *old(self)
                    &&& if old(self).palette() is Some {
                        e == PaletteError::AlreadyRegistered
                    } else {
                        palette_check(entries@) == Err::<(), PaletteError>(e)
                    }
                },
            },
    {
        if self.palette.is_some() {
            return Err(PaletteError::AlreadyRegistered);
        }
        match VoxelPalette::new(entries) {
            Ok(p) => {
                self.palette = Some(p);
                Ok(())
            },
            Err(e) => Err(e),
        }
    }

    /// Moves the observer to `position`; the last position set counts. A
    /// position whose resident region would not fit into the lattice is
    /// refused, and the observer stays where it was. Returns whether the
    /// position was taken.
    pub fn set_viewpoint(&mut self, position: Point3) -> (taken: bool)
        requires
            old(self).wf(),
        ensures
            final(self).wf(),
            taken == viewpoint_in_range(position, old(self).config()),
            final(self).viewpoint() == if taken {
                Some(position)
            } else {
                old(self).viewpoint()
            },
            final(self).config() == old(self).config(),
            final(self).volume() == old(self).volume(),
            final(self).dirty_set() == old(self).dirty_set(),
            final(self).generated_set() == old(self).generated_set(),
            final(self).palette() == old(self).palette(),
            final(self).reconciler() == old(self).reconciler(),
    {
        assert(0 < view_radius(self.config) <= 1024 * 1024) by (nonlinear_arith)
            requires
                0 < self.config.view_distance <= 1024,
                0 < self.config.chunk_edge <= 1024,
        ;
        let reach: i64 = (self.config.view_distance as i64) * (self.config.chunk_edge as i64)
            + self.config.chunk_edge as i64;
        let x = position.x as i64;
        let z = position.z as i64;
        let taken = x - reach >= i32::MIN as i64 && x + reach <= i32::MAX as i64 && z - reach
            >= i32::MIN as i64 && z + reach <= i32::MAX as i64;
        if taken {
            self.viewpoint = Some(position);
        }
        taken
    }

    /// Removes the observer. Without an observer nothing is pending, and
    /// every chunk counts as resident.
    pub fn clear_viewpoint(&mut self)
        requires
            old(self).wf(),
        ensures
            final(self).wf(),
            final(self).viewpoint() is None,
            final(self).config() == old(self).config(),
            final(self).volume() == old(self).volume(),
            final(self).dirty_set() == old(self).dirty_set(),
            final(self).generated_set() == old(self).generated_set(),
            final(self).palette() == old(self).palette(),
            final(self).reconciler() == old(self).reconciler(),
    {
        self.viewpoint = None;
    }

    /// The voxel at `p`.
    pub fn read(&self, p: Point3) -> (v: Voxel)
        requires
            self.wf(),
        ensures
            v == self.volume().voxel_at(p),
    {
        self.volume.read(p)
    }

    /// The tier that holds chunk `c`.
    pub fn chunk_state(&self, c: ChunkCoordinate) -> (s: ChunkState)
        requires
            self.wf(),
        ensures
            s == self.volume().state(c),
    {
        self.volume.chunk_state(c)
    }

    /// Whether the geometry of chunk `c` is stale.
    pub fn is_dirty(&self, c: ChunkCoordinate) -> (b: bool)
        ensures
            b == self.dirty_set().contains(c),
    {
        self.dirty.is_dirty(c)
    }

    /// Whether the column of `c` has been generated.
    pub fn is_generated(&self, c: ChunkCoordinate) -> (b: bool)
        ensures
            b == self.generated_set().contains(c),
    {
        self.generated.contains(c)
    }

    /// The materials of the surfaces published for chunk `c`.
    pub fn published_materials(&self, c: ChunkCoordinate) -> (r: Option<Vec<VoxelMaterial>>)
        requires
            self.wf(),
        ensures
            match r {
                Some(ms) => self.reconciler().published(c) == Some(ms@),
                None => self.reconciler().published(c) is None,
            },
    {
        self.reconciler.published_materials(c)
    }

    /// A dense copy of chunk `c` and of the voxels one step outside each of
    /// its faces, as surface extraction reads them.
    pub fn padded_chunk(&self, c: ChunkCoordinate) -> (padded: PaddedChunk)
        requires
            self.wf(),
        ensures
            padded.wf(),
            padded.coord() == c,
            padded.edge() == self.config().chunk_edge,
            forall|x: int, y: int, z: int|
                in_padding(self.config().chunk_edge as int, x, y, z) ==> #[trigger] padded.at(
                    x,
                    y,
                    z,
                ) == world_voxel(&self.volume(), c, x, y, z),
    {
        copy_padded(&self.volume, c)
    }

    /// The settings the world was made with.
    pub fn settings(&self) -> (c: WorldConfig)
        ensures
            c == self.config(),
    {
        self.config
    }

    /// Sets the voxel at `p` to `v` and records the chunk of `p` and its
    /// face neighbours as dirty.
    pub fn write(&mut self, p: Point3, v: Voxel)
        requires
            old(self).wf(),
        ensures
            final(self).wf(),
            VoxelVolume::written(&old(self).volume(), &final(self).volume(), p, v),
            final(self).dirty_set() == old(self).dirty_set().union(
                with_face_neighbors(chunk_of(p, old(self).config().chunk_edge as int)),
            ),
            final(self).config() == old(self).config(),
            final(self).generated_set() == old(self).generated_set(),
            final(self).palette() == old(self).palette(),
            final(self).reconciler() == old(self).reconciler(),
            final(self).viewpoint() == old(self).viewpoint(),
    {
        self.volume.write(p, v);
        self.dirty.mark_with_neighbors(containing_chunk(p, self.config.chunk_edge));
    }

    /// Applies `f` to every voxel of `extent` and records every chunk that
    /// the extent touches, and each of their face neighbours, as dirty.
    pub fn edit<F: Fn(Point3, Voxel) -> Voxel>(&mut self, extent: &Extent3, f: &F)
        requires
            old(self).wf(),
            extent.wf(),
            forall|q: Point3, v: Voxel| extent.contains(q) ==> call_requires(*f, (q, v)),
        ensures
            final(self).wf(),
            VoxelVolume::edited(&old(self).volume(), &final(self).volume(), *extent, *f),
            final(self).dirty_set() == old(self).dirty_set().union(
                touch_set(*extent, old(self).config().chunk_edge as int, true),
            ),
            final(self).config() == old(self).config(),
            final(self).generated_set() == old(self).generated_set(),
            final(self).palette() == old(self).palette(),
            final(self).reconciler() == old(self).reconciler(),
            final(self).viewpoint() == old(self).viewpoint(),
    {
        self.volume.edit_region_and_touch_neighbors(extent, f, &mut self.dirty);
    }

    /// Moves chunk `c` to the cold tier if it is hot; returns whether it
    /// was.
    pub fn force_compress(&mut self, c: ChunkCoordinate) -> (was_hot: bool)
        requires
            old(self).wf(),
        ensures
            final(self).wf(),
            VoxelVolume::compressed(&old(self).volume(), &final(self).volume(), c),
            was_hot == (old(self).volume().state(c) == ChunkState::Hot),
            final(self).config() == old(self).config(),
            final(self).dirty_set() == old(self).dirty_set(),
            final(self).generated_set() == old(self).generated_set(),
            final(self).palette() == old(self).palette(),
            final(self).reconciler() == old(self).reconciler(),
            final(self).viewpoint() == old(self).viewpoint(),
    {
        self.volume.force_compress(c)
    }

    /// The chunk columns that must be resident for the observer and are not
    /// generated yet, each once. Without an observer there are none.
    pub fn pending_chunks(&self) -> (out: Vec<ChunkCoordinate>)
        requires
            self.wf(),
        ensures
            out@.no_duplicates(),
            crate::streaming::row_by_row(out@),
            forall|c: ChunkCoordinate|
                out@.contains(c) <==> (self.viewpoint() matches Some(p) && in_view(
                    c,
                    p,
                    self.config(),
                ) && !self.generated_set().contains(c)),
    {
        match self.viewpoint {
            Some(p) => pending_chunks(p, &self.config, &self.generated),
            None => Vec::new(),
        }
    }

    /// Whether the column `c` can be generated from these samples, and if
    /// not, why: the palette must describe the types that generation writes,
    /// the column must not have been generated, there must be one offset
    /// for each column of the footprint, `c` must be a column coordinate
    /// inside the lattice, and the samples must be fit for the column.
    pub open spec fn generate_check(
        &self,
        c: ChunkCoordinate,
        offsets: Seq<i32>,
        caves: Option<&CaveField>,
    ) -> Result<(), GenerateError> {
        let e = self.config().chunk_edge as int;
        if !self.palette_ready() {
            Err(GenerateError::PaletteMismatch)
        } else if self.generated_set().contains(c) {
            Err(GenerateError::AlreadyGenerated)
        } else if offsets.len() != e * e {
            Err(GenerateError::SampleCount)
        } else if c.y != 0 || c.x * e < i32::MIN || c.z * e < i32::MIN || c.x * e > i32::MAX || c.z
            * e > i32::MAX {
            Err(GenerateError::OutOfRange)
        } else {
            match generation_fault(
                c.x * e,
                c.z * e,
                e,
                self.config().sea_level as int,
                offsets,
                caves,
            ) {
                Some(fault) => Err(fault),
                None => Ok(()),
            }
        }
    }

    /// Generates the chunk column `c` from the height offsets sampled over
    /// its footprint, carving out what the cave field says if there is one,
    /// and records the column as generated. A column is generated at most
    /// once: a second request is refused and changes nothing.
    pub fn generate(
        &mut self,
        c: ChunkCoordinate,
        offsets: &Vec<i32>,
        caves: Option<&CaveField>,
    ) -> (r: Result<(), GenerateError>)
        requires
            old(self).wf(),
        ensures
            final(self).wf(),
            r == old(self).generate_check(c, offsets@, caves),
            match r {
                Ok(()) => {
                    let e = old(self).config().chunk_edge as int;
                    &&& generated(
                        &old(self).volume(),
                        &final(self).volume(),
                        c.x * e,
                        c.z * e,
                        offsets@,
                        old(self).config().sea_level as int,
                        old(self).config().band_thickness as int,
                        caves,
                    )
                    &&& final(self).generated_set() == old(self).generated_set().insert(c)
                    &&& final(self).dirty_set() == old(self).dirty_set().union(
                        touch_set(
                            column_extent(
                                c.x * e,
                                c.z * e,
                                e,
                                old(self).config().sea_level + max_offset(offsets@),
                            ),
                            e,
                            true,
                        ),
                    )
                    &&& final(self).config() == old(self).config()
                    &&& final(self).palette() == old(self).palette()
                    &&& final(self).reconciler() == old(self).reconciler()
                    &&& final(self).viewpoint() == old(self).viewpoint()
                },
                Err(_) => *final(self) == *old(self),
            },
    {
        let edge = self.config.chunk_edge;
        let ready = match &self.palette {
            Some(p) => p.len() > BULK_ID as usize,
            None => false,
        };
        if !ready {
            return Err(GenerateError::PaletteMismatch);
        }
        if self.generated.contains(c) {
            return Err(GenerateError::AlreadyGenerated);
        }
        proof {
            crate::lattice::lemma_volume_bound(edge as int);
        }
        if offsets.len() != (edge as usize) * (edge as usize) {
            return Err(GenerateError::SampleCount);
        }
        assert(-0x200_0000_0000 <= c.x * edge <= 0x200_0000_0000 && -0x200_0000_0000 <= c.z
            * edge <= 0x200_0000_0000) by (nonlinear_arith)
            requires
                0 < edge <= 1024,
                -0x8000_0000 <= c.x <= 0x7fff_ffff,
                -0x8000_0000 <= c.z <= 0x7fff_ffff,
        ;
        let x: i64 = (c.x as i64) * (edge as i64);
        let z: i64 = (c.z as i64) * (edge as i64);
        if c.y != 0 || x < i32::MIN as i64 || z < i32::MIN as i64 || x > i32::MAX as i64 || z
            > i32::MAX as i64 {
            return Err(GenerateError::OutOfRange);
        }
        match generate_chunk(
            x as i32,
            z as i32,
            offsets,
            caves,
            &self.config,
            &mut self.volume,
            &mut self.dirty,
        ) {
            Ok(()) => {
                self.generated.insert(c);
                Ok(())
            },
            Err(e) => Err(e),
        }
    }
}

/// What one more mesh adds to a batch.
proof fn lemma_batch_push(fresh: Seq<ChunkMesh>, mesh: ChunkMesh, c: ChunkCoordinate)
    ensures
        in_batch(fresh.push(mesh), c) <==> (in_batch(fresh, c) || mesh.coord == c),
{
    let longer = fresh.push(mesh);
    if in_batch(longer, c) {
        let i = choose|i: int| 0 <= i < longer.len() && (#[trigger] longer[i]).coord == c;
        if i < fresh.len() {
            assert(fresh[i] == longer[i]);
        }
    }
    if in_batch(fresh, c) {
        let i = choose|i: int| 0 <= i < fresh.len() && (#[trigger] fresh[i]).coord == c;
        assert(longer[i] == fresh[i]);
    }
    if mesh.coord == c {
        assert(longer[fresh.len() as int] == mesh);
    }
}

/// Whether chunk `c` is resident under `resident`.
fn resident_holds(resident: Option<ChunkBox>, c: ChunkCoordinate) -> (b: bool)
    ensures
        b == is_resident(resident, c),
{
    match resident {
        Some(b) => b.holds(c),
        None => true,
    }
}

/// Extracts the meshes of the resident chunks among `taken`, in order.
/// Fails with the error of the first chunk whose extraction fails.
pub fn extract_batch(
    volume: &VoxelVolume,
    palette: &VoxelPalette,
    taken: &Vec<ChunkCoordinate>,
    resident: Option<ChunkBox>,
) -> (r: Result<Vec<ChunkMesh>, MeshError>)
    requires
        volume.wf(),
        taken@.no_duplicates(),
    ensures
        match r {
            Ok(fresh) => {
                &&& batch_distinct(fresh@)
                &&& forall|c: ChunkCoordinate|
                    #![trigger in_batch(fresh@, c)]
                    in_batch(fresh@, c) <==> (taken@.contains(c) && is_resident(resident, c))
                &&& forall|i: int|
                    0 <= i < fresh@.len() ==> extracted(&#[trigger] fresh@[i], volume, palette)
                &&& forall|c: ChunkCoordinate|
                    taken@.contains(c) && is_resident(resident, c) ==> !#[trigger] has_unknown_type(
                        volume,
                        palette,
                        c,
                    )
            },
            Err(MeshError::UnknownVoxelType(id)) => !palette.knows(id) && exists|
                c: ChunkCoordinate,
            |
                taken@.contains(c) && is_resident(resident, c) && #[trigger] type_occurs(
                    volume,
                    c,
                    id,
                ),
            Err(MeshError::TooManyQuads) => exists|c: ChunkCoordinate|
                taken@.contains(c) && is_resident(resident, c) && #[trigger] too_many_quads(
                    volume,
                    palette,
                    c,
                ),
            Err(MeshError::NoPalette) => false,
        },
{
    let mut fresh: Vec<ChunkMesh> = Vec::new();
    let mut i: usize = 0;
    while i < taken.len()
        invariant
            volume.wf(),
            taken@.no_duplicates(),
            i <= taken.len(),
            batch_distinct(fresh@),
            forall|c: ChunkCoordinate|
                #![trigger in_batch(fresh@, c)]
                in_batch(fresh@, c) <==> (taken@.take(i as int).contains(c) && is_resident(
                    resident,
                    c,
                )),
            forall|k: int|
                0 <= k < fresh@.len() ==> extracted(&#[trigger] fresh@[k], volume, palette),
            forall|c: ChunkCoordinate|
                taken@.take(i as int).contains(c) && is_resident(resident, c)
                    ==> !#[trigger] has_unknown_type(volume, palette, c),
        decreases taken.len() - i,
    {
        let c0 = taken[i];
        let ghost before = taken@.take(i as int);
        let ghost after = taken@.take(i + 1);
        let ghost listed = fresh@;
        proof {
            assert(after =~= before.push(c0));
            lemma_push_contains(before, c0);
            assert forall|c: ChunkCoordinate| after.contains(c) <==> (before.contains(c) || c
                == c0) by {
                assert(before.push(c0).contains(c) <==> (before.contains(c) || c == c0));
            }
            // `c0` is not among the chunks taken so far.
            if before.contains(c0) {
                let j = choose|j: int| 0 <= j < before.len() && before[j] == c0;
                assert(taken@[j] == c0 && taken@[i as int] == c0);
            }
            assert(!in_batch(listed, c0));
        }
        if resident_holds(resident, c0) {
            match extract_chunk(volume, palette, c0) {
                Ok(mesh) => {
                    fresh.push(mesh);
                    proof {
                        assert forall|c: ChunkCoordinate|
                            #![trigger in_batch(fresh@, c)]
                            in_batch(fresh@, c) <==> (after.contains(c) && is_resident(
                                resident,
                                c,
                            )) by {
                            lemma_batch_push(listed, mesh, c);
                            assert(in_batch(listed, c) <==> (before.contains(c) && is_resident(
                                resident,
                                c,
                            )));
                            assert(after.contains(c) <==> (before.contains(c) || c == c0));
                        }
                        assert forall|c: ChunkCoordinate|
                            after.contains(c) && is_resident(resident, c)
                            implies !#[trigger] has_unknown_type(volume, palette, c) by {
                            assert(after.contains(c) <==> (before.contains(c) || c == c0));
                        }
                        assert forall|a: int, b: int| 0 <= a < b < fresh@.len() implies (
                        #[trigger] fresh@[a]).coord != (#[trigger] fresh@[b]).coord by {
                            if b == listed.len() {
                                assert(fresh@[a] == listed[a]);
                                assert(in_batch(listed, listed[a].coord));
                            } else {
                                assert(fresh@[a] == listed[a] && fresh@[b] == listed[b]);
                            }
                        }
                        assert forall|k: int| 0 <= k < fresh@.len() implies extracted(
                            &#[trigger] fresh@[k],
                            volume,
                            palette,
                        ) by {
                            if k < listed.len() {
                                assert(fresh@[k] == listed[k]);
                            }
                        }
                    }
                },
                Err(e) => {
                    proof {
                        assert(taken@.contains(c0)) by {
                            assert(taken@[i as int] == c0);
                        }
                    }
                    return Err(e);
                },
            }
        } else {
            proof {
                assert forall|c: ChunkCoordinate|
                    #![trigger in_batch(fresh@, c)]
                    in_batch(fresh@, c) <==> (after.contains(c) && is_resident(resident, c)) by {
                    assert(in_batch(listed, c) <==> (before.contains(c) && is_resident(
                        resident,
                        c,
                    )));
                    assert(after.contains(c) <==> (before.contains(c) || c == c0));
                }
                assert forall|c: ChunkCoordinate|
                    after.contains(c) && is_resident(resident, c)
                    implies !#[trigger] has_unknown_type(volume, palette, c) by {
                    assert(after.contains(c) <==> (before.contains(c) || c == c0));
                }
            }
        }
        i += 1;
    }
    proof {
        assert(taken@.take(i as int) =~= taken@);
    }
    Ok(fresh)
}

/// Records the chunks of `chunks` as dirty; if `outside_only` is set, only
/// those that are not resident.
fn mark_chunks(
    dirty: &mut DirtyTracker,
    chunks: &Vec<ChunkCoordinate>,
    resident: Option<ChunkBox>,
    outside_only: bool,
)
    requires
        old(dirty).wf(),
    ensures
        final(dirty).wf(),
        forall|c: ChunkCoordinate|
            #![trigger final(dirty)@.contains(c)]
            final(dirty)@.contains(c) <==> (old(dirty)@.contains(c) || (chunks@.contains(c) && (
            !outside_only || !is_resident(resident, c)))),
{
    let mut i: usize = 0;
    while i < chunks.len()
        invariant
            dirty.wf(),
            i <= chunks.len(),
            forall|c: ChunkCoordinate|
                #![trigger dirty@.contains(c)]
                dirty@.contains(c) <==> (old(dirty)@.contains(c) || (chunks@.take(
                    i as int,
                ).contains(c) && (!outside_only || !is_resident(resident, c)))),
        decreases chunks.len() - i,
    {
        let c0 = chunks[i];
        let ghost before = chunks@.take(i as int);
        let ghost after = chunks@.take(i + 1);
        let ghost marked = dirty@;
        if !outside_only || !resident_holds(resident, c0) {
            dirty.mark(c0);
        }
        proof {
            assert(after =~= before.push(c0));
            lemma_push_contains(before, c0);
            assert forall|c: ChunkCoordinate|
                #![trigger dirty@.contains(c)]
                dirty@.contains(c) <==> (old(dirty)@.contains(c) || (after.contains(c) && (
                !outside_only || !is_resident(resident, c)))) by {
                assert(before.push(c0).contains(c) <==> (before.contains(c) || c == c0));
                assert(marked.contains(c) <==> (old(dirty)@.contains(c) || (before.contains(c)
                    && (!outside_only || !is_resident(resident, c)))));
            }
        }
        i += 1;
    }
    proof {
        assert(chunks@.take(i as int) =~= chunks@);
    }
}

/// Records as dirty the chunks of the handles in `despawned` that are not
/// resident and have no fresh mesh: their geometry must be extracted again
/// when they come back.
fn mark_departed(
    dirty: &mut DirtyTracker,
    despawned: &Vec<MeshHandle>,
    resident: Option<ChunkBox>,
    fresh: &Vec<ChunkMesh>,
)
    requires
        old(dirty).wf(),
    ensures
        final(dirty).wf(),
        forall|c: ChunkCoordinate|
            #![trigger final(dirty)@.contains(c)]
            final(dirty)@.contains(c) <==> (old(dirty)@.contains(c) || (!is_resident(resident, c)
                && !in_batch(fresh@, c) && names_chunk(despawned@, c))),
{
    let mut i: usize = 0;
    while i < despawned.len()
        invariant
            dirty.wf(),
            i <= despawned.len(),
            forall|c: ChunkCoordinate|
                #![trigger dirty@.contains(c)]
                dirty@.contains(c) <==> (old(dirty)@.contains(c) || (!is_resident(resident, c)
                    && !in_batch(fresh@, c) && names_chunk(despawned@.take(i as int), c))),
        decreases despawned.len() - i,
    {
        let h0 = despawned[i];
        let ghost before = despawned@.take(i as int);
        let ghost after = despawned@.take(i + 1);
        let ghost marked = dirty@;
        if !resident_holds(resident, h0.chunk) && !crate::reconciler::batch_has(fresh, h0.chunk) {
            dirty.mark(h0.chunk);
        }
        proof {
            assert(after =~= before.push(h0));
            assert forall|c: ChunkCoordinate|
                #![trigger dirty@.contains(c)]
                dirty@.contains(c) <==> (old(dirty)@.contains(c) || (!is_resident(resident, c)
                    && !in_batch(fresh@, c) && names_chunk(after, c))) by {
                lemma_names_push(before, h0, c);
                assert(marked.contains(c) <==> (old(dirty)@.contains(c) || (!is_resident(
                    resident,
                    c,
                ) && !in_batch(fresh@, c) && names_chunk(before, c))));
            }
        }
        i += 1;
    }
    proof {
        assert(despawned@.take(i as int) =~= despawned@);
    }
}

/// What one more handle adds to the chunks named.
proof fn lemma_names_push(handles: Seq<MeshHandle>, h: MeshHandle, c: ChunkCoordinate)
    ensures
        names_chunk(handles.push(h), c) <==> (names_chunk(handles, c) || h.chunk == c),
{
    let longer = handles.push(h);
    if names_chunk(longer, c) {
        let k = choose|k: int| 0 <= k < longer.len() && (#[trigger] longer[k]).chunk == c;
        if k < handles.len() {
            assert(handles[k] == longer[k]);
        }
    }
    if names_chunk(handles, c) {
        let k = choose|k: int| 0 <= k < handles.len() && (#[trigger] handles[k]).chunk == c;
        assert(longer[k] == handles[k]);
    }
    if h.chunk == c {
        assert(longer[handles.len() as int] == h);
    }
}

/// Whether a handle of `handles` names a surface of chunk `c`.
pub open spec fn names_chunk(handles: Seq<MeshHandle>, c: ChunkCoordinate) -> bool {
    exists|k: int| 0 <= k < handles.len() && (#[trigger] handles[k]).chunk == c
}

/// Moves the chunks of the batch that are hot to the cold tier.
fn compress_batch(volume: &mut VoxelVolume, fresh: &Vec<ChunkMesh>)
    requires
        old(volume).wf(),
    ensures
        final(volume).wf(),
        final(volume).edge() == old(volume).edge(),
        final(volume).ambient() == old(volume).ambient(),
        forall|p: Point3| #[trigger] final(volume).voxel_at(p) == old(volume).voxel_at(p),
        forall|c: ChunkCoordinate| #[trigger]
            final(volume).state(c) == if in_batch(fresh@, c) && old(volume).state(c)
                == ChunkState::Hot {
                ChunkState::Cold
            } else {
                old(volume).state(c)
            },
{
    let mut i: usize = 0;
    while i < fresh.len()
        invariant
            volume.wf(),
            i <= fresh.len(),
            volume.edge() == old(volume).edge(),
            volume.ambient() == old(volume).ambient(),
            forall|p: Point3| #[trigger] volume.voxel_at(p) == old(volume).voxel_at(p),
            forall|c: ChunkCoordinate| #[trigger]
                volume.state(c) == if in_batch(fresh@.take(i as int), c) && old(volume).state(c)
                    == ChunkState::Hot {
                    ChunkState::Cold
                } else {
                    old(volume).state(c)
                },
        decreases fresh.len() - i,
    {
        let ghost before = fresh@.take(i as int);
        let ghost mid = *volume;
        proof {
            assert(fresh@.take(i + 1) =~= before.push(fresh@[i as int]));
        }
        let c0 = fresh[i].coord;
        volume.force_compress(c0);
        proof {
            assert forall|p: Point3| #[trigger] volume.voxel_at(p) == old(volume).voxel_at(p) by {
                assert(volume.voxel_at(p) == mid.voxel_at(p));
            }
            assert forall|c: ChunkCoordinate| #[trigger]
                volume.state(c) == if in_batch(fresh@.take(i + 1), c) && old(volume).state(c)
                    == ChunkState::Hot {
                    ChunkState::Cold
                } else {
                    old(volume).state(c)
                } by {
                lemma_batch_push(before, fresh@[i as int], c);
                assert(volume.state(c) == if c == c0 && mid.state(c0) == ChunkState::Hot {
                    ChunkState::Cold
                } else {
                    mid.state(c)
                });
            }
        }
        i += 1;
    }
    proof {
        assert(fresh@.take(i as int) =~= fresh@);
    }
}

/// The chunks of `taken` that are resident, in order.
fn resident_part(taken: &Vec<ChunkCoordinate>, resident: Option<ChunkBox>) -> (batch: Vec<
    ChunkCoordinate,
>)
    requires
        taken@.no_duplicates(),
    ensures
        batch@.no_duplicates(),
        forall|c: ChunkCoordinate|
            #![trigger batch@.contains(c)]
            batch@.contains(c) <==> (taken@.contains(c) && is_resident(resident, c)),
{
    let mut batch: Vec<ChunkCoordinate> = Vec::new();
    let mut i: usize = 0;
    while i < taken.len()
        invariant
            taken@.no_duplicates(),
            i <= taken.len(),
            batch@.no_duplicates(),
            forall|c: ChunkCoordinate|
                #![trigger batch@.contains(c)]
                batch@.contains(c) <==> (taken@.take(i as int).contains(c) && is_resident(
                    resident,
                    c,
                )),
        decreases taken.len() - i,
    {
        let c0 = taken[i];
        let ghost before = taken@.take(i as int);
        let ghost after = taken@.take(i + 1);
        let ghost listed = batch@;
        proof {
            assert(after =~= before.push(c0));
            lemma_push_contains(before, c0);
            if before.contains(c0) {
                let j = choose|j: int| 0 <= j < before.len() && before[j] == c0;
                assert(taken@[j] == c0 && taken@[i as int] == c0);
            }
        }
        let inside = resident_holds(resident, c0);
        if inside {
            batch.push(c0);
            proof {
                lemma_push_contains(listed, c0);
                assert(!listed.contains(c0));
            }
        }
        proof {
            assert forall|c: ChunkCoordinate|
                #![trigger batch@.contains(c)]
                batch@.contains(c) <==> (after.contains(c) && is_resident(resident, c)) by {
                assert(before.push(c0).contains(c) <==> (before.contains(c) || c == c0));
                assert(listed.contains(c) <==> (before.contains(c) && is_resident(resident, c)));
                if inside {
                    assert(listed.push(c0).contains(c) <==> (listed.contains(c) || c == c0));
                }
            }
        }
        i += 1;
    }
    proof {
        assert(taken@.take(i as int) =~= taken@);
    }
    batch
}

impl VoxelWorld {
    /// The resident region as a set.
    pub open spec fn resident_region(&self) -> Set<ChunkCoordinate> {
        Set::new(|c: ChunkCoordinate| self.resident(c))
    }

    /// The resident region as a box of columns, or nothing if there is no
    /// observer.
    fn resident_columns(&self) -> (resident: Option<ChunkBox>)
        requires
            self.wf(),
        ensures
            forall|c: ChunkCoordinate| is_resident(resident, c) == self.resident(c),
            resident_set(resident) == self.resident_region(),
    {
        let resident: Option<ChunkBox> = match self.viewpoint {
            Some(p) => Some(resident_box(p, &self.config)),
            None => None,
        };
        proof {
            assert forall|c: ChunkCoordinate| is_resident(resident, c) == self.resident(c) by {}
            assert(resident_set(resident) =~= self.resident_region());
        }
        resident
    }

    /// Starts an extraction pass: hands out the dirty chunks that are
    /// resident, each once, and forgets that they are dirty. The dirty
    /// chunks that are not resident stay dirty. Without a palette no pass
    /// can start, and nothing changes.
    ///
    /// The chunks handed out can be extracted in any order, and side by
    /// side: extraction only reads the world.
    pub fn begin_extraction(&mut self) -> (r: Result<Vec<ChunkCoordinate>, MeshError>)
        requires
            old(self).wf(),
        ensures
            final(self).wf(),
            final(self).config() == old(self).config(),
            final(self).volume() == old(self).volume(),
            final(self).palette() == old(self).palette(),
            final(self).viewpoint() == old(self).viewpoint(),
            final(self).generated_set() == old(self).generated_set(),
            final(self).reconciler() == old(self).reconciler(),
            match r {
                Ok(batch) => {
                    &&& old(self).palette() is Some
                    &&& batch@.no_duplicates()
                    &&& forall|c: ChunkCoordinate|
                        #![trigger batch@.contains(c)]
                        batch@.contains(c) <==> (old(self).dirty_set().contains(c) && old(
                            self,
                        ).resident(c))
                    &&& forall|c: ChunkCoordinate|
                        #![trigger final(self).dirty_set().contains(c)]
                        final(self).dirty_set().contains(c) <==> (old(self).dirty_set().contains(
                            c,
                        ) && !old(self).resident(c))
                },
                Err(e) => {
                    &&& e == MeshError::NoPalette
                    &&& old(self).palette() is None
                    &&& final(self).dirty_set() == old(self).dirty_set()
                },
            },
    {
        if self.palette.is_none() {
            return Err(MeshError::NoPalette);
        }
        let resident = self.resident_columns();
        let taken = self.dirty.take();
        let batch = resident_part(&taken, resident);
        mark_chunks(&mut self.dirty, &taken, resident, true);
        Ok(batch)
    }

    /// Extracts the surface of chunk `c` as it stands. The world is only
    /// read.
    pub fn extract(&self, c: ChunkCoordinate) -> (r: Result<ChunkMesh, MeshError>)
        requires
            self.wf(),
        ensures
            match r {
                Ok(mesh) => {
                    &&& mesh.coord == c
                    &&& self.palette() matches Some(palette) && extracted(
                        &mesh,
                        &self.volume(),
                        &palette,
                    )
                },
                Err(MeshError::NoPalette) => self.palette() is None,
                Err(MeshError::UnknownVoxelType(id)) => self.palette() matches Some(palette)
                    && !palette.knows(id) && type_occurs(&self.volume(), c, id),
                Err(MeshError::TooManyQuads) => self.palette() matches Some(palette)
                    && too_many_quads(&self.volume(), &palette, c),
            },
            self.palette() matches Some(palette) ==> ((r matches Err(
                MeshError::UnknownVoxelType(_),
            )) <==> has_unknown_type(&self.volume(), &palette, c)),
    {
        match &self.palette {
            Some(palette) => extract_chunk(&self.volume, palette, c),
            None => Err(MeshError::NoPalette),
        }
    }

    /// Gives up an extraction pass: the chunks of `batch` are dirty again.
    pub fn abort_extraction(&mut self, batch: &Vec<ChunkCoordinate>)
        requires
            old(self).wf(),
        ensures
            final(self).wf(),
            final(self).config() == old(self).config(),
            final(self).volume() == old(self).volume(),
            final(self).palette() == old(self).palette(),
            final(self).viewpoint() == old(self).viewpoint(),
            final(self).generated_set() == old(self).generated_set(),
            final(self).reconciler() == old(self).reconciler(),
            forall|c: ChunkCoordinate|
                #![trigger final(self).dirty_set().contains(c)]
                final(self).dirty_set().contains(c) <==> (old(self).dirty_set().contains(c)
                    || batch@.contains(c)),
    {
        mark_chunks(&mut self.dirty, batch, None, false);
    }

    /// Ends an extraction pass with the fresh meshes of its chunks, at most
    /// one of each chunk. The mesh records are reconciled with the batch and
    /// the resident region; the chunks whose surfaces were taken down
    /// because they are not resident become dirty, so that they are
    /// extracted again when they come back; and the chunks of the batch are
    /// moved to the cold tier. No voxel changes.
    pub fn finish_extraction(&mut self, fresh: Vec<ChunkMesh>) -> (delta: GeometryDelta)
        requires
            old(self).wf(),
            batch_distinct(fresh@),
        ensures
            final(self).wf(),
            final(self).config() == old(self).config(),
            final(self).palette() == old(self).palette(),
            final(self).viewpoint() == old(self).viewpoint(),
            final(self).generated_set() == old(self).generated_set(),
            delta.spawned@ == fresh@,
            forall|p: Point3| #[trigger]
                final(self).volume().voxel_at(p) == old(self).volume().voxel_at(p),
            forall|c: ChunkCoordinate| #[trigger]
                final(self).volume().state(c) == if in_batch(fresh@, c) && old(
                    self,
                ).volume().state(c) == ChunkState::Hot {
                    ChunkState::Cold
                } else {
                    old(self).volume().state(c)
                },
            GeometryReconciler::reconciled(
                &old(self).reconciler(),
                &final(self).reconciler(),
                fresh@,
                old(self).resident_region(),
                delta.despawned@,
            ),
            forall|c: ChunkCoordinate|
                #![trigger final(self).dirty_set().contains(c)]
                final(self).dirty_set().contains(c) <==> (old(self).dirty_set().contains(c) || (
                !old(self).resident(c) && !in_batch(fresh@, c) && old(self).reconciler().published(
                    c,
                ) is Some)),
    {
        let resident = self.resident_columns();
        let despawned = self.reconciler.reconcile(&fresh, resident);
        mark_departed(&mut self.dirty, &despawned, resident, &fresh);
        compress_batch(&mut self.volume, &fresh);
        proof {
            assert forall|c: ChunkCoordinate|
                #![trigger self.dirty@.contains(c)]
                self.dirty@.contains(c) <==> (old(self).dirty@.contains(c) || (!old(
                    self,
                ).resident(c) && !in_batch(fresh@, c) && old(self).reconciler.published(c)
                    is Some)) by {
                if !is_resident(resident, c) && !in_batch(fresh@, c) && names_chunk(
                    despawned@,
                    c,
                ) {
                    let k = choose|k: int|
                        0 <= k < despawned@.len() && (#[trigger] despawned@[k]).chunk == c;
                    assert(despawned@.contains(despawned@[k]));
                    assert(old(self).reconciler.publishes(despawned@[k]));
                }
                if !is_resident(resident, c) && old(self).reconciler.published(c) is Some {
                    let ms = old(self).reconciler.published(c)->0;
                    old(self).reconciler.lemma_record_nonempty(c);
                    let h = MeshHandle { chunk: c, material: ms[0] };
                    assert(ms.contains(ms[0]));
                    assert(old(self).reconciler.publishes(h));
                    assert(despawned@.contains(h));
                    let k = choose|k: int| 0 <= k < despawned@.len() && despawned@[k] == h;
                    assert(despawned@[k].chunk == c);
                }
            }
        }
        GeometryDelta { despawned, spawned: fresh }
    }

    /// Runs one extraction pass from start to end, chunk after chunk.
    ///
    /// On success the batch of fresh meshes holds one mesh for each dirty
    /// resident chunk, and the pass has ended as `finish_extraction` says.
    /// Without a palette, or if the extraction of a chunk fails, the pass is
    /// given up and nothing changes.
    pub fn poll_geometry_deltas(&mut self) -> (r: Result<GeometryDelta, MeshError>)
        requires
            old(self).wf(),
        ensures
            final(self).wf(),
            final(self).config() == old(self).config(),
            final(self).palette() == old(self).palette(),
            final(self).viewpoint() == old(self).viewpoint(),
            final(self).generated_set() == old(self).generated_set(),
            forall|p: Point3| #[trigger]
                final(self).volume().voxel_at(p) == old(self).volume().voxel_at(p),
            match r {
                Ok(delta) => {
                    &&& old(self).palette() matches Some(palette) && forall|i: int|
                        0 <= i < delta.spawned@.len() ==> extracted(
                            &#[trigger] delta.spawned@[i],
                            &old(self).volume(),
                            &palette,
                        )
                    &&& old(self).palette() matches Some(palette) && forall|c: ChunkCoordinate|
                        old(self).dirty_set().contains(c) && old(self).resident(c)
                            ==> !#[trigger] has_unknown_type(&old(self).volume(), &palette, c)
                    &&& batch_distinct(delta.spawned@)
                    &&& forall|c: ChunkCoordinate|
                        #![trigger in_batch(delta.spawned@, c)]
                        in_batch(delta.spawned@, c) <==> (old(self).dirty_set().contains(c) && old(
                            self,
                        ).resident(c))
                    &&& GeometryReconciler::reconciled(
                        &old(self).reconciler(),
                        &final(self).reconciler(),
                        delta.spawned@,
                        old(self).resident_region(),
                        delta.despawned@,
                    )
                    &&& forall|c: ChunkCoordinate|
                        #![trigger final(self).dirty_set().contains(c)]
                        final(self).dirty_set().contains(c) <==> (!old(self).resident(c) && (old(
                            self,
                        ).dirty_set().contains(c) || old(self).reconciler().published(c) is Some))
                    &&& forall|c: ChunkCoordinate| #[trigger]
                        final(self).volume().state(c) == if in_batch(delta.spawned@, c) && old(
                            self,
                        ).volume().state(c) == ChunkState::Hot {
                            ChunkState::Cold
                        } else {
                            old(self).volume().state(c)
                        }
                },
                Err(e) => {
                    &&& final(self).volume() == old(self).volume()
                    &&& final(self).reconciler() == old(self).reconciler()
                    &&& final(self).dirty_set() == old(self).dirty_set()
                    &&& (e == MeshError::NoPalette <==> old(self).palette() is None)
                    &&& e matches MeshError::UnknownVoxelType(id) ==> old(self).palette() matches Some(
                        palette,
                    ) && !palette.knows(id) && exists|c: ChunkCoordinate|
                        old(self).dirty_set().contains(c) && old(self).resident(c)
                            && #[trigger] type_occurs(&old(self).volume(), c, id)
                    &&& e matches MeshError::TooManyQuads ==> old(self).palette() matches Some(
                        palette,
                    ) && exists|c: ChunkCoordinate|
                        old(self).dirty_set().contains(c) && old(self).resident(c)
                            && #[trigger] too_many_quads(&old(self).volume(), &palette, c)
                },
            },
    {
        let batch = match self.begin_extraction() {
            Ok(batch) => batch,
            Err(e) => {
                return Err(e);
            },
        };
        let ghost mid = *self;
        let extraction = match &self.palette {
            Some(palette) => extract_batch(&self.volume, palette, &batch, None),
            None => Err(MeshError::NoPalette),
        };
        match extraction {
            Err(e) => {
                self.abort_extraction(&batch);
                assert(self.dirty_set() =~= old(self).dirty_set());
                Err(e)
            },
            Ok(fresh) => {
                proof {
                    assert forall|c: ChunkCoordinate|
                        #![trigger in_batch(fresh@, c)]
                        in_batch(fresh@, c) <==> (old(self).dirty_set().contains(c) && old(
                            self,
                        ).resident(c)) by {
                        assert(in_batch(fresh@, c) <==> (batch@.contains(c) && is_resident(
                            None,
                            c,
                        )));
                    }
                }
                let delta = self.finish_extraction(fresh);
                proof {
                    assert forall|c: ChunkCoordinate|
                        #![trigger self.dirty_set().contains(c)]
                        self.dirty_set().contains(c) <==> (!old(self).resident(c) && (old(
                            self,
                        ).dirty_set().contains(c) || old(self).reconciler().published(c)
                            is Some)) by {
                        assert(mid.dirty_set().contains(c) <==> (old(self).dirty_set().contains(c)
                            && !old(self).resident(c)));
                        assert(in_batch(fresh@, c) ==> old(self).resident(c));
                    }
                }
                Ok(delta)
            },
        }
    }
}

/// The extent that the generation of column `c` from `offsets` writes.
pub open spec fn sampled_extent(config: WorldConfig, c: ChunkCoordinate, offsets: Seq<i32>) -> Extent3 {
    column_extent(
        c.x * config.chunk_edge,
        c.z * config.chunk_edge,
        config.chunk_edge as int,
        config.sea_level + max_offset(offsets),
    )
}

/// The voxel that the generation of column `c` from `samples` writes at
/// `q`.
pub open spec fn sampled_voxel(
    config: WorldConfig,
    c: ChunkCoordinate,
    samples: ColumnSamples,
    q: Point3,
) -> Voxel {
    terrain_voxel(
        q.y as int,
        surface_height(
            samples.offsets@,
            config.sea_level as int,
            config.chunk_edge as int,
            c.x * config.chunk_edge,
            c.z * config.chunk_edge,
            q.x as int,
            q.z as int,
        ),
        config.band_thickness as int,
        carved(
            samples.cave_field(),
            config.chunk_edge as int,
            c.x * config.chunk_edge,
            c.z * config.chunk_edge,
            q,
        ),
    )
}

/// Whether the generation of one of the sampled columns made chunk `d`
/// dirty.
pub open spec fn touched_by(
    config: WorldConfig,
    samples: Map<ChunkCoordinate, ColumnSamples>,
    d: ChunkCoordinate,
) -> bool {
    exists|c: ChunkCoordinate|
        samples.dom().contains(c) && #[trigger] touch_set(
            sampled_extent(config, c, samples[c].offsets@),
            config.chunk_edge as int,
            true,
        ).contains(d)
}

/// Whether the generation of one of the sampled columns wrote into chunk
/// `d`.
pub open spec fn reached_by(
    config: WorldConfig,
    samples: Map<ChunkCoordinate, ColumnSamples>,
    d: ChunkCoordinate,
) -> bool {
    exists|c: ChunkCoordinate|
        samples.dom().contains(c) && #[trigger] sampled_extent(
            config,
            c,
            samples[c].offsets@,
        ).touches_chunk(d, config.chunk_edge as int)
}

/// What one more sampled column adds to the chunks written into.
proof fn lemma_reached_insert(
    config: WorldConfig,
    samples: Map<ChunkCoordinate, ColumnSamples>,
    c0: ChunkCoordinate,
    s: ColumnSamples,
    d: ChunkCoordinate,
)
    requires
        !samples.dom().contains(c0),
    ensures
        reached_by(config, samples.insert(c0, s), d) <==> (reached_by(config, samples, d)
            || sampled_extent(config, c0, s.offsets@).touches_chunk(d, config.chunk_edge as int)),
{
    let more = samples.insert(c0, s);
    let e = config.chunk_edge as int;
    if reached_by(config, more, d) {
        let c = choose|c: ChunkCoordinate|
            more.dom().contains(c) && #[trigger] sampled_extent(
                config,
                c,
                more[c].offsets@,
            ).touches_chunk(d, e);
        if c != c0 {
            assert(samples.dom().contains(c) && samples[c] == more[c]);
            assert(sampled_extent(config, c, samples[c].offsets@).touches_chunk(d, e));
        }
    }
    if reached_by(config, samples, d) {
        let c = choose|c: ChunkCoordinate|
            samples.dom().contains(c) && #[trigger] sampled_extent(
                config,
                c,
                samples[c].offsets@,
            ).touches_chunk(d, e);
        assert(more.dom().contains(c) && more[c] == samples[c]);
        assert(sampled_extent(config, c, more[c].offsets@).touches_chunk(d, e));
    }
    if sampled_extent(config, c0, s.offsets@).touches_chunk(d, e) {
        assert(more.dom().contains(c0) && more[c0] == s);
        assert(sampled_extent(config, c0, more[c0].offsets@).touches_chunk(d, e));
    }
}

/// The extent of a column holds voxels of that column only.
proof fn lemma_extent_in_column(config: WorldConfig, c: ChunkCoordinate, offsets: Seq<i32>, q: Point3)
    requires
        config.valid(),
        c.y == 0,
        i32::MIN <= c.x * config.chunk_edge <= i32::MAX,
        i32::MIN <= c.z * config.chunk_edge <= i32::MAX,
        sampled_extent(config, c, offsets).contains(q),
    ensures
        column_of(chunk_of(q, config.chunk_edge as int)) == c,
{
    let e = config.chunk_edge as int;
    crate::lattice::lemma_in_chunk(q.x as int, c.x as int, e);
    crate::lattice::lemma_in_chunk(q.z as int, c.z as int, e);
    crate::lattice::lemma_component_bounds(q.x as int, e);
    crate::lattice::lemma_component_bounds(q.z as int, e);
}

/// What one more sampled column adds to the chunks made dirty.
proof fn lemma_touched_insert(
    config: WorldConfig,
    samples: Map<ChunkCoordinate, ColumnSamples>,
    c0: ChunkCoordinate,
    s: ColumnSamples,
    d: ChunkCoordinate,
)
    requires
        !samples.dom().contains(c0),
    ensures
        touched_by(config, samples.insert(c0, s), d) <==> (touched_by(config, samples, d)
            || touch_set(
            sampled_extent(config, c0, s.offsets@),
            config.chunk_edge as int,
            true,
        ).contains(d)),
{
    let more = samples.insert(c0, s);
    let e = config.chunk_edge as int;
    if touched_by(config, more, d) {
        let c = choose|c: ChunkCoordinate|
            more.dom().contains(c) && #[trigger] touch_set(
                sampled_extent(config, c, more[c].offsets@),
                e,
                true,
            ).contains(d);
        if c != c0 {
            assert(samples.dom().contains(c) && samples[c] == more[c]);
            assert(touch_set(sampled_extent(config, c, samples[c].offsets@), e, true).contains(d));
        }
    }
    if touched_by(config, samples, d) {
        let c = choose|c: ChunkCoordinate|
            samples.dom().contains(c) && #[trigger] touch_set(
                sampled_extent(config, c, samples[c].offsets@),
                e,
                true,
            ).contains(d);
        assert(more.dom().contains(c) && more[c] == samples[c]);
        assert(touch_set(sampled_extent(config, c, more[c].offsets@), e, true).contains(d));
    }
    if touch_set(sampled_extent(config, c0, s.offsets@), e, true).contains(d) {
        assert(more.dom().contains(c0) && more[c0] == s);
        assert(touch_set(sampled_extent(config, c0, more[c0].offsets@), e, true).contains(d));
    }
}

impl VoxelWorld {
    /// Whether column `c` is pending: it must be resident for the observer
    /// and is not generated yet. Without an observer no column is pending.
    pub open spec fn pending(&self, c: ChunkCoordinate) -> bool {
        self.viewpoint() matches Some(p) && in_view(c, p, self.config())
            && !self.generated_set().contains(c)
    }

    /// What the generation of column `c` from `samples` does to a world.
    pub open spec fn column_generated(
        before: &VoxelWorld,
        after: &VoxelWorld,
        c: ChunkCoordinate,
        samples: ColumnSamples,
    ) -> bool {
        let config = before.config();
        let e = config.chunk_edge as int;
        &&& after.wf()
        &&& generated(
            &before.volume(),
            &after.volume(),
            c.x * e,
            c.z * e,
            samples.offsets@,
            config.sea_level as int,
            config.band_thickness as int,
            samples.cave_field(),
        )
        &&& after.generated_set() == before.generated_set().insert(c)
        &&& after.dirty_set() == before.dirty_set().union(
            touch_set(sampled_extent(config, c, samples.offsets@), e, true),
        )
        &&& after.config() == before.config()
        &&& after.palette() == before.palette()
        &&& after.reconciler() == before.reconciler()
        &&& after.viewpoint() == before.viewpoint()
    }

    /// What streaming does to a world, given what was sampled for each
    /// column that was generated: those columns are generated from their
    /// samples, the chunks they touch are hot, those and their face
    /// neighbours are dirty, and nothing else changes.
    pub open spec fn streamed(
        before: &VoxelWorld,
        after: &VoxelWorld,
        samples: Map<ChunkCoordinate, ColumnSamples>,
    ) -> bool {
        let config = before.config();
        let e = config.chunk_edge as int;
        &&& after.wf()
        &&& after.config() == config
        &&& after.palette() == before.palette()
        &&& after.viewpoint() == before.viewpoint()
        &&& after.reconciler() == before.reconciler()
        &&& after.volume().ambient() == before.volume().ambient()
        &&& forall|c: ChunkCoordinate| #[trigger]
            after.generated_set().contains(c) <==> (before.generated_set().contains(c)
                || samples.dom().contains(c))
        &&& forall|q: Point3| #[trigger]
            after.volume().voxel_at(q) == {
                let c = column_of(chunk_of(q, e));
                if samples.dom().contains(c) && sampled_extent(
                    config,
                    c,
                    samples[c].offsets@,
                ).contains(q) {
                    sampled_voxel(config, c, samples[c], q)
                } else {
                    before.volume().voxel_at(q)
                }
            }
        &&& forall|d: ChunkCoordinate| #[trigger]
            after.volume().state(d) == if reached_by(config, samples, d) {
                ChunkState::Hot
            } else {
                before.volume().state(d)
            }
        &&& forall|d: ChunkCoordinate| #[trigger]
            after.dirty_set().contains(d) <==> (before.dirty_set().contains(d) || touched_by(
                config,
                samples,
                d,
            ))
    }

    /// Whether every column that must be resident for the observer is
    /// generated.
    pub open spec fn covered(&self) -> bool {
        forall|c: ChunkCoordinate|
            self.viewpoint() matches Some(p) && in_view(c, p, self.config())
                ==> #[trigger] self.generated_set().contains(c)
    }

    /// A world in which nothing is sampled yet is streamed.
    proof fn lemma_streamed_start(&self)
        requires
            self.wf(),
        ensures
            Self::streamed(self, self, Map::<ChunkCoordinate, ColumnSamples>::empty()),
    {
        let samples = Map::<ChunkCoordinate, ColumnSamples>::empty();
        assert forall|d: ChunkCoordinate| !touched_by(self.config(), samples, d) by {}
        assert forall|d: ChunkCoordinate| !reached_by(self.config(), samples, d) by {}
    }

    /// Generating one more column keeps a world streamed.
    proof fn lemma_streamed_step(
        before: &VoxelWorld,
        mid: &VoxelWorld,
        after: &VoxelWorld,
        samples: Map<ChunkCoordinate, ColumnSamples>,
        c0: ChunkCoordinate,
        s: ColumnSamples,
    )
        requires
            before.wf(),
            Self::streamed(before, mid, samples),
            !samples.dom().contains(c0),
            mid.generate_check(c0, s.offsets@, s.cave_field()) is Ok,
            Self::column_generated(mid, after, c0, s),
        ensures
            Self::streamed(before, after, samples.insert(c0, s)),
    {
        let config = before.config();
        let e = config.chunk_edge as int;
        let more = samples.insert(c0, s);
        let ext = sampled_extent(config, c0, s.offsets@);
        assert forall|q: Point3| #[trigger]
            after.volume().voxel_at(q) == {
                let c = column_of(chunk_of(q, e));
                if more.dom().contains(c) && sampled_extent(config, c, more[c].offsets@).contains(
                    q,
                ) {
                    sampled_voxel(config, c, more[c], q)
                } else {
                    before.volume().voxel_at(q)
                }
            } by {
            let c = column_of(chunk_of(q, e));
            if ext.contains(q) {
                lemma_extent_in_column(config, c0, s.offsets@, q);
                assert(c == c0);
                assert(more[c0] == s);
            } else {
                assert(after.volume().voxel_at(q) == mid.volume().voxel_at(q));
                if c != c0 {
                    assert(more.dom().contains(c) == samples.dom().contains(c));
                    if samples.dom().contains(c) {
                        assert(more[c] == samples[c]);
                    }
                } else {
                    assert(more[c0] == s);
                }
            }
        }
        assert forall|d: ChunkCoordinate| #[trigger]
            after.dirty_set().contains(d) <==> (before.dirty_set().contains(d) || touched_by(
                config,
                more,
                d,
            )) by {
            lemma_touched_insert(config, samples, c0, s, d);
        }
        assert forall|d: ChunkCoordinate| #[trigger]
            after.volume().state(d) == if reached_by(config, more, d) {
                ChunkState::Hot
            } else {
                before.volume().state(d)
            } by {
            lemma_reached_insert(config, samples, c0, s, d);
            assert(after.volume().state(d) == if ext.touches_chunk(d, e) {
                ChunkState::Hot
            } else {
                mid.volume().state(d)
            });
        }
    }

    /// A column that is pending before a tick and not generated in it has
    /// the same check at the end of the tick as before it.
    proof fn lemma_same_check(
        before: &VoxelWorld,
        now: &VoxelWorld,
        samples: Map<ChunkCoordinate, ColumnSamples>,
        c: ChunkCoordinate,
        s: ColumnSamples,
    )
        requires
            Self::streamed(before, now, samples),
            before.pending(c),
            !samples.dom().contains(c),
        ensures
            now.generate_check(c, s.offsets@, s.cave_field()) == before.generate_check(
                c,
                s.offsets@,
                s.cave_field(),
            ),
    {
        assert(now.generated_set().contains(c) <==> (before.generated_set().contains(c)
            || samples.dom().contains(c)));
    }

    /// One tick of the streaming scheduler: generates every pending column,
    /// row by row, from the height offsets that `sampler` gives for it.
    /// Returns the number of columns generated.
    ///
    /// Without an observer, or with nothing pending, the tick does nothing
    /// and returns 0. The tick fails only if the check of a pending column
    /// fails on the offsets that the sampler gave for it; it stops there
    /// with the fault, and the columns generated before stay generated.
    /// After a tick without fault every column that must be resident is
    /// generated.
    pub fn stream<F: Fn(ChunkCoordinate) -> Vec<i32>>(&mut self, sampler: &F) -> (r: Result<
        usize,
        GenerateError,
    >)
        requires
            old(self).wf(),
            forall|c: ChunkCoordinate| call_requires(*sampler, (c,)),
        ensures
            exists|samples: Map<ChunkCoordinate, ColumnSamples>|
                {
                    &&& #[trigger] Self::streamed(old(self), final(self), samples)
                    &&& forall|c: ChunkCoordinate|
                        samples.dom().contains(c) ==> old(self).pending(c) && (
                        #[trigger] samples[c]).caves is None && call_ensures(
                            *sampler,
                            (c,),
                            samples[c].offsets,
                        )
                    &&& r matches Ok(count) ==> samples.dom().finite() && samples.dom().len()
                        == count
                    &&& r matches Err(e) ==> exists|c: ChunkCoordinate, offsets: Vec<i32>|
                        old(self).pending(c) && !samples.dom().contains(c) && call_ensures(
                            *sampler,
                            (c,),
                            offsets,
                        ) && #[trigger] final(self).generate_check(c, offsets@, None) == Err::<
                            (),
                            GenerateError,
                        >(e) && old(self).generate_check(c, offsets@, None) == Err::<
                            (),
                            GenerateError,
                        >(e)
                },
            r is Ok ==> final(self).covered(),
            old(self).viewpoint() is None ==> r == Ok::<usize, GenerateError>(0),
            (forall|c: ChunkCoordinate| !old(self).pending(c)) ==> r == Ok::<usize, GenerateError>(
                0,
            ),
            (forall|c: ChunkCoordinate, offsets: Vec<i32>|
                old(self).pending(c) && call_ensures(*sampler, (c,), offsets) ==> #[trigger] old(
                    self,
                ).generate_check(c, offsets@, None) is Ok) ==> r is Ok,
    {
        let pending = self.pending_chunks();
        let ghost mut samples: Map<ChunkCoordinate, ColumnSamples> = Map::empty();
        let mut i: usize = 0;
        proof {
            self.lemma_streamed_start();
            if forall|c: ChunkCoordinate| !old(self).pending(c) {
                if pending@.len() > 0 {
                    assert(pending@.contains(pending@[0]));
                }
            }
        }
        while i < pending.len()
            invariant
                i <= pending.len(),
                forall|c: ChunkCoordinate| call_requires(*sampler, (c,)),
                old(self).wf(),
                pending@.no_duplicates(),
                forall|c: ChunkCoordinate| pending@.contains(c) <==> old(self).pending(c),
                Self::streamed(old(self), self, samples),
                forall|c: ChunkCoordinate|
                    samples.dom().contains(c) <==> pending@.take(i as int).contains(c),
                forall|c: ChunkCoordinate|
                    samples.dom().contains(c) ==> (#[trigger] samples[c]).caves is None
                        && call_ensures(*sampler, (c,), samples[c].offsets),
                samples.dom().finite(),
                samples.dom().len() == i,
            decreases pending.len() - i,
        {
            let c0 = pending[i];
            let ghost before = pending@.take(i as int);
            let ghost after = pending@.take(i + 1);
            proof {
                assert(after =~= before.push(c0));
                lemma_push_contains(before, c0);
                assert forall|c: ChunkCoordinate| after.contains(c) <==> (before.contains(c) || c
                    == c0) by {
                    assert(before.push(c0).contains(c) <==> (before.contains(c) || c == c0));
                }
                if before.contains(c0) {
                    let j = choose|j: int| 0 <= j < before.len() && before[j] == c0;
                    assert(pending@[j] == c0 && pending@[i as int] == c0);
                }
                assert(pending@.contains(c0)) by {
                    assert(pending@[i as int] == c0);
                }
                assert forall|c: ChunkCoordinate|
                    samples.dom().contains(c) implies old(self).pending(c) by {
                    let j = choose|j: int| 0 <= j < before.len() && before[j] == c;
                    assert(pending@[j] == c);
                    assert(pending@.contains(c));
                }
            }
            let offsets = sampler(c0);
            let ghost mid = *self;
            let ghost s = ColumnSamples { offsets, caves: None };
            proof {
                Self::lemma_same_check(old(self), &mid, samples, c0, s);
            }
            match self.generate(c0, &offsets, None) {
                Ok(()) => {
                    proof {
                        assert(Self::column_generated(&mid, self, c0, s));
                        Self::lemma_streamed_step(old(self), &mid, self, samples, c0, s);
                        let more = samples.insert(c0, s);
                        assert forall|c: ChunkCoordinate|
                            more.dom().contains(c) implies (#[trigger] more[c]).caves is None
                            && call_ensures(*sampler, (c,), more[c].offsets) by {
                            if c != c0 {
                                assert(more[c] == samples[c]);
                            }
                        }
                        samples = more;
                    }
                },
                Err(fault) => {
                    proof {
                        assert(*self == mid);
                        assert(Self::streamed(old(self), self, samples));
                        assert(self.generate_check(c0, offsets@, None) == Err::<
                            (),
                            GenerateError,
                        >(fault));
                        assert(old(self).generate_check(c0, offsets@, None) == Err::<
                            (),
                            GenerateError,
                        >(fault));
                    }
                    return Err(fault);
                },
            }
            i += 1;
        }
        proof {
            assert(pending@.take(i as int) =~= pending@);
            assert forall|c: ChunkCoordinate|
                self.viewpoint() matches Some(p) && in_view(c, p, self.config())
                implies #[trigger] self.generated_set().contains(c) by {
                if !old(self).generated_set().contains(c) {
                    assert(pending@.contains(c));
                }
            }
            assert forall|c: ChunkCoordinate|
                samples.dom().contains(c) implies old(self).pending(c) by {
                assert(pending@.contains(c));
            }
        }
        Ok(i)
    }

    /// One tick of the streaming scheduler with caves: as `stream`, and for
    /// each pending column `carver` is asked, with the column's offsets, for
    /// the cave field that carves it; if it gives none, the column is
    /// generated without caves.
    ///
    /// The tick fails only if the check of a pending column fails on what
    /// the two samplers gave for it.
    pub fn stream_carved<
        F: Fn(ChunkCoordinate) -> Vec<i32>,
        G: Fn(ChunkCoordinate, &Vec<i32>) -> Option<CaveField>,
    >(&mut self, sampler: &F, carver: &G) -> (r: Result<usize, GenerateError>)
        requires
            old(self).wf(),
            forall|c: ChunkCoordinate| call_requires(*sampler, (c,)),
            forall|c: ChunkCoordinate, offsets: &Vec<i32>| call_requires(*carver, (c, offsets)),
        ensures
            exists|samples: Map<ChunkCoordinate, ColumnSamples>|
                {
                    &&& #[trigger] Self::streamed(old(self), final(self), samples)
                    &&& forall|c: ChunkCoordinate|
                        samples.dom().contains(c) ==> old(self).pending(c) && call_ensures(
                            *sampler,
                            (c,),
                            (#[trigger] samples[c]).offsets,
                        ) && call_ensures(*carver, (c, &samples[c].offsets), samples[c].caves)
                    &&& r matches Ok(count) ==> samples.dom().finite() && samples.dom().len()
                        == count
                    &&& r matches Err(e) ==> exists|c: ChunkCoordinate, s: ColumnSamples|
                        old(self).pending(c) && !samples.dom().contains(c) && call_ensures(
                            *sampler,
                            (c,),
                            s.offsets,
                        ) && call_ensures(*carver, (c, &s.offsets), s.caves)
                            && #[trigger] final(self).generate_check(
                            c,
                            s.offsets@,
                            s.cave_field(),
                        ) == Err::<(), GenerateError>(e) && old(self).generate_check(
                            c,
                            s.offsets@,
                            s.cave_field(),
                        ) == Err::<(), GenerateError>(e)
                },
            r is Ok ==> final(self).covered(),
            old(self).viewpoint() is None ==> r == Ok::<usize, GenerateError>(0),
            (forall|c: ChunkCoordinate| !old(self).pending(c)) ==> r == Ok::<usize, GenerateError>(
                0,
            ),
            (forall|c: ChunkCoordinate, s: ColumnSamples|
                old(self).pending(c) && call_ensures(*sampler, (c,), s.offsets) && call_ensures(
                    *carver,
                    (c, &s.offsets),
                    s.caves,
                ) ==> #[trigger] old(self).generate_check(c, s.offsets@, s.cave_field()) is Ok)
                ==> r is Ok,
    {
        let pending = self.pending_chunks();
        let ghost mut samples: Map<ChunkCoordinate, ColumnSamples> = Map::empty();
        let mut i: usize = 0;
        proof {
            self.lemma_streamed_start();
            if forall|c: ChunkCoordinate| !old(self).pending(c) {
                if pending@.len() > 0 {
                    assert(pending@.contains(pending@[0]));
                }
            }
        }
        while i < pending.len()
            invariant
                i <= pending.len(),
                forall|c: ChunkCoordinate| call_requires(*sampler, (c,)),
                forall|c: ChunkCoordinate, offsets: &Vec<i32>|
                    call_requires(*carver, (c, offsets)),
                old(self).wf(),
                pending@.no_duplicates(),
                forall|c: ChunkCoordinate| pending@.contains(c) <==> old(self).pending(c),
                Self::streamed(old(self), self, samples),
                forall|c: ChunkCoordinate|
                    samples.dom().contains(c) <==> pending@.take(i as int).contains(c),
                forall|c: ChunkCoordinate|
                    samples.dom().contains(c) ==> call_ensures(
                        *sampler,
                        (c,),
                        (#[trigger] samples[c]).offsets,
                    ) && call_ensures(*carver, (c, &samples[c].offsets), samples[c].caves),
                samples.dom().finite(),
                samples.dom().len() == i,
            decreases pending.len() - i,
        {
            let c0 = pending[i];
            let ghost before = pending@.take(i as int);
            let ghost after = pending@.take(i + 1);
            proof {
                assert(after =~= before.push(c0));
                lemma_push_contains(before, c0);
                assert forall|c: ChunkCoordinate| after.contains(c) <==> (before.contains(c) || c
                    == c0) by {
                    assert(before.push(c0).contains(c) <==> (before.contains(c) || c == c0));
                }
                if before.contains(c0) {
                    let j = choose|j: int| 0 <= j < before.len() && before[j] == c0;
                    assert(pending@[j] == c0 && pending@[i as int] == c0);
                }
                assert(pending@.contains(c0)) by {
                    assert(pending@[i as int] == c0);
                }
                assert forall|c: ChunkCoordinate|
                    samples.dom().contains(c) implies old(self).pending(c) by {
                    let j = choose|j: int| 0 <= j < before.len() && before[j] == c;
                    assert(pending@[j] == c);
                    assert(pending@.contains(c));
                }
            }
            let offsets = sampler(c0);
            let caves = carver(c0, &offsets);
            let field = caves.as_ref();
            let ghost mid = *self;
            let ghost s = ColumnSamples { offsets, caves };
            proof {
                assert(field == s.cave_field());
                Self::lemma_same_check(old(self), &mid, samples, c0, s);
            }
            match self.generate(c0, &offsets, field) {
                Ok(()) => {
                    proof {
                        assert(Self::column_generated(&mid, self, c0, s));
                        Self::lemma_streamed_step(old(self), &mid, self, samples, c0, s);
                        let more = samples.insert(c0, s);
                        assert forall|c: ChunkCoordinate|
                            more.dom().contains(c) implies call_ensures(
                            *sampler,
                            (c,),
                            (#[trigger] more[c]).offsets,
                        ) && call_ensures(*carver, (c, &more[c].offsets), more[c].caves) by {
                            if c != c0 {
                                assert(more[c] == samples[c]);
                            }
                        }
                        samples = more;
                    }
                },
                Err(fault) => {
                    proof {
                        assert(*self == mid);
                        assert(Self::streamed(old(self), self, samples));
                        assert(self.generate_check(c0, s.offsets@, s.cave_field()) == Err::<
                            (),
                            GenerateError,
                        >(fault));
                        assert(old(self).generate_check(c0, s.offsets@, s.cave_field()) == Err::<
                            (),
                            GenerateError,
                        >(fault));
                    }
                    return Err(fault);
                },
            }
            i += 1;
        }
        proof {
            assert(pending@.take(i as int) =~= pending@);
            assert forall|c: ChunkCoordinate|
                self.viewpoint() matches Some(p) && in_view(c, p, self.config())
                implies #[trigger] self.generated_set().contains(c) by {
                if !old(self).generated_set().contains(c) {
                    assert(pending@.contains(c));
                }
            }
            assert forall|c: ChunkCoordinate|
                samples.dom().contains(c) implies old(self).pending(c) by {
                assert(pending@.contains(c));
            }
        }
        Ok(i)
    }
}

} // verus!
