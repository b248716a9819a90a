//! The geometry reconciler: keeps, for every chunk, the record of the
//! surfaces that are published, and tells the renderer which to take down
//! when fresh geometry arrives.

use crate::lattice::ChunkCoordinate;
use crate::streaming::{lemma_push_contains, ChunkBox};
use crate::surface::{ChunkMesh, SurfaceMesh};
use crate::voxel::VoxelMaterial;
use vstd::prelude::*;

verus! {

/// Names one published surface: the chunk it belongs to and its material.
#[derive(Clone, Copy, Debug, PartialEq, Eq, Hash, Structural)]
pub struct MeshHandle {
    pub chunk: ChunkCoordinate,
    pub material: VoxelMaterial,
}

/// The surfaces published for one chunk, by material.
#[derive(Debug)]
pub struct MeshRecord {
    pub coord: ChunkCoordinate,
    pub materials: Vec<VoxelMaterial>,
}

/// The records of all chunks that have published surfaces.
pub struct GeometryReconciler {
    records: Vec<MeshRecord>,
}

/// Whether `records` holds a record of chunk `c` with materials `ms`.
pub open spec fn holds_record(
    records: Seq<MeshRecord>,
    c: ChunkCoordinate,
    ms: Seq<VoxelMaterial>,
) -> bool {
    exists|i: int|
        0 <= i < records.len() && (#[trigger] records[i]).coord == c && records[i].materials@ == ms
}

/// Whether no two records are of the same chunk.
pub open spec fn distinct_coords(records: Seq<MeshRecord>) -> bool {
    forall|i: int, j: int|
        0 <= i < j < records.len() ==> (#[trigger] records[i]).coord != (#[trigger] records[j]).coord
}

/// The materials recorded for chunk `c`, if it has a record.
pub open spec fn published_in(records: Seq<MeshRecord>, c: ChunkCoordinate) -> Option<
    Seq<VoxelMaterial>,
> {
    if exists|ms: Seq<VoxelMaterial>| holds_record(records, c, ms) {
        Some(choose|ms: Seq<VoxelMaterial>| holds_record(records, c, ms))
    } else {
        None
    }
}

/// With distinct chunks, the record of a chunk is the only one that holds
/// it.
pub proof fn lemma_published(records: Seq<MeshRecord>, c: ChunkCoordinate, ms: Seq<VoxelMaterial>)
    requires
        distinct_coords(records),
    ensures
        published_in(records, c) == Some(ms) <==> holds_record(records, c, ms),
{
    if holds_record(records, c, ms) {
        let i = choose|i: int|
            0 <= i < records.len() && (#[trigger] records[i]).coord == c && records[i].materials@
                == ms;
        let ms2 = choose|ms2: Seq<VoxelMaterial>| holds_record(records, c, ms2);
        let j = choose|j: int|
            0 <= j < records.len() && (#[trigger] records[j]).coord == c && records[j].materials@
                == ms2;
        assert(i == j);
    }
}

/// What one more record adds.
pub proof fn lemma_holds_push(
    records: Seq<MeshRecord>,
    r: MeshRecord,
    c: ChunkCoordinate,
    ms: Seq<VoxelMaterial>,
)
    ensures
        holds_record(records.push(r), c, ms) <==> (holds_record(records, c, ms) || (r.coord == c
            && r.materials@ == ms)),
{
    let longer = records.push(r);
    if holds_record(longer, c, ms) {
        let i = choose|i: int|
            0 <= i < longer.len() && (#[trigger] longer[i]).coord == c && longer[i].materials@
                == ms;
        if i < records.len() {
            assert(records[i] == longer[i]);
        }
    }
    if holds_record(records, c, ms) {
        let i = choose|i: int|
            0 <= i < records.len() && (#[trigger] records[i]).coord == c && records[i].materials@
                == ms;
        assert(longer[i] == records[i]);
    }
    if r.coord == c && r.materials@ == ms {
        assert(longer[records.len() as int] == r);
    }
}

/// The materials of `surfaces`, in order.
pub open spec fn materials_of(surfaces: Seq<SurfaceMesh>) -> Seq<VoxelMaterial> {
    Seq::new(surfaces.len(), |i: int| surfaces[i].material)
}

/// What a fresh mesh leaves published for its chunk: its materials, or
/// nothing if it has no surface.
pub open spec fn outcome(mesh: ChunkMesh) -> Option<Seq<VoxelMaterial>> {
    if mesh.surfaces@.len() == 0 {
        None
    } else {
        Some(materials_of(mesh.surfaces@))
    }
}

/// Whether the batch has a mesh of chunk `c`.
pub open spec fn in_batch(fresh: Seq<ChunkMesh>, c: ChunkCoordinate) -> bool {
    exists|i: int| 0 <= i < fresh.len() && (#[trigger] fresh[i]).coord == c
}

/// Whether the batch has at most one mesh of each chunk.
pub open spec fn batch_distinct(fresh: Seq<ChunkMesh>) -> bool {
    forall|i: int, j: int|
        0 <= i < j < fresh.len() ==> (#[trigger] fresh[i]).coord != (#[trigger] fresh[j]).coord
}

/// Whether chunk `c` lies in the resident region; without a region every
/// chunk counts as resident.
pub open spec fn is_resident(resident: Option<ChunkBox>, c: ChunkCoordinate) -> bool {
    match resident {
        Some(b) => b.contains(c),
        None => true,
    }
}

/// The chunks that are resident under `resident`.
pub open spec fn resident_set(resident: Option<ChunkBox>) -> Set<ChunkCoordinate> {
    Set::new(|c: ChunkCoordinate| is_resident(resident, c))
}

/// Whether a cycle takes down what was published for chunk `c`: the batch
/// has fresh geometry for it, or it has left the resident region.
pub open spec fn taken_down(
    fresh: Seq<ChunkMesh>,
    resident: Option<ChunkBox>,
    c: ChunkCoordinate,
) -> bool {
    in_batch(fresh, c) || !is_resident(resident, c)
}

/// The same, with the resident region as a set.
pub open spec fn leaves(
    fresh: Seq<ChunkMesh>,
    region: Set<ChunkCoordinate>,
    c: ChunkCoordinate,
) -> bool {
    in_batch(fresh, c) || !region.contains(c)
}

impl GeometryReconciler {
    /// No chunk has two records, and no record is empty.
    pub closed spec fn wf(&self) -> bool {
        &&& distinct_coords(self.records@)
        &&& forall|i: int|
            0 <= i < self.records@.len() ==> (#[trigger] self.records@[i]).materials@.len() > 0
    }

    /// The materials of the surfaces published for chunk `c`, if any are.
    pub closed spec fn published(&self, c: ChunkCoordinate) -> Option<Seq<VoxelMaterial>> {
        published_in(self.records@, c)
    }

    /// Whether the surface that `h` names is published.
    pub open spec fn publishes(&self, h: MeshHandle) -> bool {
        self.published(h.chunk) matches Some(ms) && ms.contains(h.material)
    }

    /// What a reconciliation cycle does: a chunk of the batch has exactly
    /// the surfaces of its fresh mesh, a chunk outside the batch keeps its
    /// surfaces if it is resident and loses them if it is not, and the
    /// handles taken down are those of the surfaces that were published
    /// for the chunks that the cycle takes down.
    pub open spec fn reconciled(
        before: &GeometryReconciler,
        after: &GeometryReconciler,
        fresh: Seq<ChunkMesh>,
        region: Set<ChunkCoordinate>,
        despawned: Seq<MeshHandle>,
    ) -> bool {
        &&& after.wf()
        &&& forall|i: int|
            0 <= i < fresh.len() ==> after.published((#[trigger] fresh[i]).coord) == outcome(
                fresh[i],
            )
        &&& forall|c: ChunkCoordinate|
            !in_batch(fresh, c) ==> #[trigger] after.published(c) == if region.contains(c) {
                before.published(c)
            } else {
                None
            }
        &&& forall|h: MeshHandle| #[trigger]
            despawned.contains(h) <==> (leaves(fresh, region, h.chunk) && before.publishes(h))
    }

    /// The record of a chunk names at least one material.
    pub proof fn lemma_record_nonempty(&self, c: ChunkCoordinate)
        requires
            self.wf(),
            self.published(c) is Some,
        ensures
            self.published(c)->0.len() > 0,
    {
        let ms = self.published(c)->0;
        lemma_published(self.records@, c, ms);
        let i = choose|i: int|
            0 <= i < self.records@.len() && (#[trigger] self.records@[i]).coord == c
                && self.records@[i].materials@ == ms;
        assert(self.records@[i].materials@.len() > 0);
    }

    /// A reconciler with nothing published.
    pub fn new() -> (r: GeometryReconciler)
        ensures
            r.wf(),
            forall|c: ChunkCoordinate| #[trigger] r.published(c) is None,
    {
        GeometryReconciler { records: Vec::new() }
    }

    /// The number of chunks that have published surfaces.
    pub fn len(&self) -> (n: usize)
        ensures
            n == self.record_count(),
    {
        self.records.len()
    }

    /// The number of chunks that have published surfaces.
    pub closed spec fn record_count(&self) -> nat {
        self.records@.len()
    }

    /// The materials of the surfaces published for chunk `c`.
    pub fn published_materials(&self, c: ChunkCoordinate) -> (r: Option<Vec<VoxelMaterial>>)
        requires
            self.wf(),
        ensures
            match r {
                Some(ms) => self.published(c) == Some(ms@),
                None => self.published(c) is None,
            },
    {
        let mut i: usize = 0;
        while i < self.records.len()
            invariant
                self.wf(),
                i <= self.records.len(),
                forall|j: int| 0 <= j < i ==> (#[trigger] self.records@[j]).coord != c,
            decreases self.records.len() - i,
        {
            if self.records[i].coord == c {
                let ms = copy_materials(&self.records[i].materials);
                proof {
                    assert(holds_record(self.records@, c, ms@));
                    lemma_published(self.records@, c, ms@);
                }
                return Some(ms);
            }
            i += 1;
        }
        proof {
            assert forall|ms: Seq<VoxelMaterial>| !holds_record(self.records@, c, ms) by {}
        }
        None
    }
}

/// A copy of `materials`.
fn copy_materials(materials: &Vec<VoxelMaterial>) -> (copy: Vec<VoxelMaterial>)
    ensures
        copy@ == materials@,
{
    let mut copy: Vec<VoxelMaterial> = Vec::new();
    let mut i: usize = 0;
    while i < materials.len()
        invariant
            i <= materials.len(),
            copy@.len() == i,
            forall|j: int| 0 <= j < i ==> copy@[j] == materials@[j],
        decreases materials.len() - i,
    {
        copy.push(materials[i]);
        i += 1;
    }
    assert(copy@ =~= materials@);
    copy
}

/// The materials of `surfaces`, in order.
fn surface_materials(surfaces: &Vec<SurfaceMesh>) -> (ms: Vec<VoxelMaterial>)
    ensures
        ms@ == materials_of(surfaces@),
{
    let mut ms: Vec<VoxelMaterial> = Vec::new();
    let mut i: usize = 0;
    while i < surfaces.len()
        invariant
            i <= surfaces.len(),
            ms@.len() == i,
            forall|j: int| 0 <= j < i ==> ms@[j] == surfaces@[j].material,
        decreases surfaces.len() - i,
    {
        ms.push(surfaces[i].material);
        i += 1;
    }
    assert(ms@ =~= materials_of(surfaces@));
    ms
}

/// Whether the batch has a mesh of chunk `c`.
pub fn batch_has(fresh: &Vec<ChunkMesh>, c: ChunkCoordinate) -> (b: bool)
    ensures
        b == in_batch(fresh@, c),
{
    let mut i: usize = 0;
    while i < fresh.len()
        invariant
            i <= fresh.len(),
            forall|j: int| 0 <= j < i ==> (#[trigger] fresh@[j]).coord != c,
        decreases fresh.len() - i,
    {
        if fresh[i].coord == c {
            return true;
        }
        i += 1;
    }
    false
}

/// Whether the batch has at most one mesh of each chunk.
pub fn is_batch_distinct(fresh: &Vec<ChunkMesh>) -> (b: bool)
    ensures
        b == batch_distinct(fresh@),
{
    let mut j: usize = 0;
    while j < fresh.len()
        invariant
            j <= fresh.len(),
            forall|a: int, b: int|
                0 <= a < b < j ==> (#[trigger] fresh@[a]).coord != (#[trigger] fresh@[b]).coord,
        decreases fresh.len() - j,
    {
        let mut i: usize = 0;
        while i < j
            invariant
                i <= j,
                j < fresh.len(),
                forall|a: int| 0 <= a < i ==> (#[trigger] fresh@[a]).coord != fresh@[j as int].coord,
            decreases j - i,
        {
            if fresh[i].coord == fresh[j].coord {
                return false;
            }
            i += 1;
        }
        j += 1;
    }
    true
}

/// Whether a record of `records` holds the surface that `h` names.
pub open spec fn holds_handle(records: Seq<MeshRecord>, h: MeshHandle) -> bool {
    exists|i: int|
        0 <= i < records.len() && (#[trigger] records[i]).coord == h.chunk
            && records[i].materials@.contains(h.material)
}

/// With distinct chunks, the surfaces published are those that the records
/// hold.
pub proof fn lemma_publishes(records: Seq<MeshRecord>, h: MeshHandle)
    requires
        distinct_coords(records),
    ensures
        (published_in(records, h.chunk) matches Some(ms) && ms.contains(h.material))
            <==> holds_handle(records, h),
{
    if holds_handle(records, h) {
        let i = choose|i: int|
            0 <= i < records.len() && (#[trigger] records[i]).coord == h.chunk
                && records[i].materials@.contains(h.material);
        assert(holds_record(records, h.chunk, records[i].materials@));
        lemma_published(records, h.chunk, records[i].materials@);
    }
    if published_in(records, h.chunk) matches Some(ms) && ms.contains(h.material) {
        let ms = published_in(records, h.chunk)->0;
        lemma_published(records, h.chunk, ms);
        let i = choose|i: int|
            0 <= i < records.len() && (#[trigger] records[i]).coord == h.chunk
                && records[i].materials@ == ms;
        assert(records[i].materials@.contains(h.material));
    }
}

/// Whether a mesh of `fresh` leaves materials `ms` published for chunk `c`.
pub open spec fn batch_yields(fresh: Seq<ChunkMesh>, c: ChunkCoordinate, ms: Seq<VoxelMaterial>) -> bool {
    exists|j: int| 0 <= j < fresh.len() && (#[trigger] fresh[j]).coord == c && outcome(fresh[j]) == Some(ms)
}

impl GeometryReconciler {
    /// Takes the records of the chunks that the cycle takes down out of
    /// `self`, and returns the handles of their surfaces.
    fn take_down(&mut self, fresh: &Vec<ChunkMesh>, resident: Option<ChunkBox>) -> (despawned:
        Vec<MeshHandle>)
        requires
            old(self).wf(),
        ensures
            final(self).wf(),
            forall|c: ChunkCoordinate, ms: Seq<VoxelMaterial>|
                #![trigger holds_record(final(self).records@, c, ms)]
                holds_record(final(self).records@, c, ms) <==> (holds_record(
                    old(self).records@,
                    c,
                    ms,
                ) && !taken_down(fresh@, resident, c)),
            forall|h: MeshHandle| #[trigger]
                despawned@.contains(h) <==> (taken_down(fresh@, resident, h.chunk)
                    && holds_handle(old(self).records@, h)),
    {
        let mut records: Vec<MeshRecord> = Vec::new();
        std::mem::swap(&mut records, &mut self.records);
        let mut kept: Vec<MeshRecord> = Vec::new();
        let mut despawned: Vec<MeshHandle> = Vec::new();
        let mut i: usize = 0;
        while i < records.len()
            invariant
                records@ == old(self).records@,
                old(self).wf(),
                i <= records.len(),
                distinct_coords(kept@),
                forall|k: int| 0 <= k < kept@.len() ==> (#[trigger] kept@[k]).materials@.len() > 0,
                forall|c: ChunkCoordinate, ms: Seq<VoxelMaterial>|
                    #![trigger holds_record(kept@, c, ms)]
                    holds_record(kept@, c, ms) <==> (holds_record(records@.take(i as int), c, ms)
                        && !taken_down(fresh@, resident, c)),
                forall|h: MeshHandle| #[trigger]
                    despawned@.contains(h) <==> (taken_down(fresh@, resident, h.chunk)
                        && holds_handle(records@.take(i as int), h)),
            decreases records.len() - i,
        {
            let c = records[i].coord;
            let ghost before = records@.take(i as int);
            let ghost after = records@.take(i + 1);
            let ghost rec = records@[i as int];
            assert(after =~= before.push(rec));
            let in_region = match resident {
                Some(b) => b.holds(c),
                None => true,
            };
            if batch_has(fresh, c) || !in_region {
                let ghost prev = despawned@;
                let mut t: usize = 0;
                while t < records[i].materials.len()
                    invariant
                        i < records.len(),
                        c == records@[i as int].coord,
                        t <= records@[i as int].materials@.len(),
                        forall|h: MeshHandle| #[trigger]
                            despawned@.contains(h) <==> (prev.contains(h) || (h.chunk == c
                                && records@[i as int].materials@.take(t as int).contains(
                                h.material,
                            ))),
                    decreases records@[i as int].materials@.len() - t,
                {
                    let m = records[i].materials[t];
                    let ghost listed = despawned@;
                    let ghost h0 = MeshHandle { chunk: c, material: m };
                    let ghost done = records@[i as int].materials@.take(t as int);
                    despawned.push(MeshHandle { chunk: c, material: m });
                    proof {
                        lemma_push_contains(listed, h0);
                        lemma_push_contains(done, m);
                        assert(records@[i as int].materials@.take(t + 1) =~= done.push(m));
                        assert forall|h: MeshHandle| #[trigger]
                            despawned@.contains(h) <==> (prev.contains(h) || (h.chunk == c
                                && records@[i as int].materials@.take(t + 1).contains(
                                h.material,
                            ))) by {
                            assert(listed.push(h0).contains(h) <==> (listed.contains(h) || h
                                == h0));
                            assert(done.push(m).contains(h.material) <==> (done.contains(
                                h.material,
                            ) || h.material == m));
                        }
                    }
                    t += 1;
                }
                proof {
                    assert(rec.materials@.take(t as int) =~= rec.materials@);
                    assert forall|h: MeshHandle| #[trigger]
                        despawned@.contains(h) <==> (taken_down(fresh@, resident, h.chunk)
                            && holds_handle(after, h)) by {
                        lemma_handle_push(before, rec, h);
                    }
                    assert forall|c2: ChunkCoordinate, ms: Seq<VoxelMaterial>|
                        #![trigger holds_record(kept@, c2, ms)]
                        holds_record(kept@, c2, ms) <==> (holds_record(after, c2, ms)
                            && !taken_down(fresh@, resident, c2)) by {
                        lemma_holds_push(before, rec, c2, ms);
                    }
                }
            } else {
                let materials = copy_materials(&records[i].materials);
                let ghost kept_before = kept@;
                let r = MeshRecord { coord: c, materials };
                kept.push(r);
                proof {
                    assert forall|c2: ChunkCoordinate, ms: Seq<VoxelMaterial>|
                        #![trigger holds_record(kept@, c2, ms)]
                        holds_record(kept@, c2, ms) <==> (holds_record(after, c2, ms)
                            && !taken_down(fresh@, resident, c2)) by {
                        lemma_holds_push(before, rec, c2, ms);
                        lemma_holds_push(kept_before, r, c2, ms);
                    }
                    assert forall|h: MeshHandle| #[trigger]
                        despawned@.contains(h) <==> (taken_down(fresh@, resident, h.chunk)
                            && holds_handle(after, h)) by {
                        lemma_handle_push(before, rec, h);
                    }
                    // The kept records stay distinct: none of them is of chunk `c`.
                    assert forall|a: int, b: int| 0 <= a < b < kept@.len() implies (
                    #[trigger] kept@[a]).coord != (#[trigger] kept@[b]).coord by {
                        if b == kept_before.len() {
                            assert(kept@[a] == kept_before[a]);
                            if kept@[a].coord == c {
                                assert(holds_record(kept_before, c, kept_before[a].materials@));
                                let j = choose|j: int|
                                    0 <= j < before.len() && (#[trigger] before[j]).coord == c
                                        && before[j].materials@ == kept_before[a].materials@;
                                assert(records@[j] == before[j]);
                            }
                        } else {
                            assert(kept@[a] == kept_before[a] && kept@[b] == kept_before[b]);
                        }
                    }
                    assert forall|k: int| 0 <= k < kept@.len() implies (
                    #[trigger] kept@[k]).materials@.len() > 0 by {
                        if k < kept_before.len() {
                            assert(kept@[k] == kept_before[k]);
                        }
                    }
                }
            }
            i += 1;
        }
        proof {
            assert(records@.take(i as int) =~= records@);
        }
        self.records = kept;
        despawned
    }

    /// Records the fresh meshes that have surfaces.
    fn put_up(&mut self, fresh: &Vec<ChunkMesh>)
        requires
            old(self).wf(),
            batch_distinct(fresh@),
            forall|i: int, k: int|
                0 <= i < fresh@.len() && 0 <= k < old(self).records@.len() ==> (
                #[trigger] fresh@[i]).coord != (#[trigger] old(self).records@[k]).coord,
        ensures
            final(self).wf(),
            forall|c: ChunkCoordinate, ms: Seq<VoxelMaterial>|
                #![trigger holds_record(final(self).records@, c, ms)]
                holds_record(final(self).records@, c, ms) <==> (holds_record(
                    old(self).records@,
                    c,
                    ms,
                ) || batch_yields(fresh@, c, ms)),
    {
        let mut i: usize = 0;
        proof {
            assert forall|c: ChunkCoordinate, ms: Seq<VoxelMaterial>|
                !batch_yields(fresh@.take(0), c, ms) by {}
        }
        while i < fresh.len()
            invariant
                i <= fresh.len(),
                batch_distinct(fresh@),
                self.wf(),
                forall|a: int, k: int|
                    i <= a < fresh@.len() && 0 <= k < self.records@.len() ==> (
                    #[trigger] fresh@[a]).coord != (#[trigger] self.records@[k]).coord,
                forall|c: ChunkCoordinate, ms: Seq<VoxelMaterial>|
                    #![trigger holds_record(self.records@, c, ms)]
                    holds_record(self.records@, c, ms) <==> (holds_record(
                        old(self).records@,
                        c,
                        ms,
                    ) || batch_yields(fresh@.take(i as int), c, ms)),
            decreases fresh.len() - i,
        {
            let ghost before = fresh@.take(i as int);
            let ghost after = fresh@.take(i + 1);
            let ghost mesh = fresh@[i as int];
            assert(after =~= before.push(mesh));
            let ghost records_before = self.records@;
            if fresh[i].surfaces.len() > 0 {
                let materials = surface_materials(&fresh[i].surfaces);
                let r = MeshRecord { coord: fresh[i].coord, materials };
                self.records.push(r);
                proof {
                    assert forall|c: ChunkCoordinate, ms: Seq<VoxelMaterial>|
                        #![trigger holds_record(self.records@, c, ms)]
                        holds_record(self.records@, c, ms) <==> (holds_record(
                            old(self).records@,
                            c,
                            ms,
                        ) || batch_yields(after, c, ms)) by {
                        lemma_holds_push(records_before, r, c, ms);
                        lemma_yields_push(before, mesh, c, ms);
                    }
                    assert forall|a: int, b: int| 0 <= a < b < self.records@.len() implies (
                    #[trigger] self.records@[a]).coord != (#[trigger] self.records@[b]).coord by {
                        if b == records_before.len() {
                            assert(self.records@[a] == records_before[a]);
                        } else {
                            assert(self.records@[a] == records_before[a] && self.records@[b]
                                == records_before[b]);
                        }
                    }
                    assert forall|k: int| 0 <= k < self.records@.len() implies (
                    #[trigger] self.records@[k]).materials@.len() > 0 by {
                        if k < records_before.len() {
                            assert(self.records@[k] == records_before[k]);
                        }
                    }
                    assert forall|a: int, k: int|
                        i + 1 <= a < fresh@.len() && 0 <= k < self.records@.len() implies (
                    #[trigger] fresh@[a]).coord != (#[trigger] self.records@[k]).coord by {
                        if k < records_before.len() {
                            assert(self.records@[k] == records_before[k]);
                        }
                    }
                }
            } else {
                proof {
                    assert forall|c: ChunkCoordinate, ms: Seq<VoxelMaterial>|
                        #![trigger holds_record(self.records@, c, ms)]
                        holds_record(self.records@, c, ms) <==> (holds_record(
                            old(self).records@,
                            c,
                            ms,
                        ) || batch_yields(after, c, ms)) by {
                        lemma_yields_push(before, mesh, c, ms);
                    }
                }
            }
            i += 1;
        }
        proof {
            assert(fresh@.take(i as int) =~= fresh@);
        }
    }

    /// Brings the records up to date with a batch of fresh meshes, which
    /// holds at most one mesh of each chunk. What was published for a chunk
    /// of the batch, or for a chunk outside `resident`, is taken down; the
    /// surfaces of the fresh meshes are recorded as published. Returns the
    /// handles to take down; the surfaces to put up are those of `fresh`.
    pub fn reconcile(&mut self, fresh: &Vec<ChunkMesh>, resident: Option<ChunkBox>) -> (despawned:
        Vec<MeshHandle>)
        requires
            old(self).wf(),
            batch_distinct(fresh@),
        ensures
            Self::reconciled(old(self), final(self), fresh@, resident_set(resident), despawned@),
    {
        let despawned = self.take_down(fresh, resident);
        let ghost kept = self.records@;
        proof {
            assert forall|i: int, k: int|
                0 <= i < fresh@.len() && 0 <= k < kept.len() implies (#[trigger] fresh@[i]).coord
                != (#[trigger] kept[k]).coord by {
                if fresh@[i].coord == kept[k].coord {
                    assert(holds_record(kept, kept[k].coord, kept[k].materials@));
                    assert(in_batch(fresh@, fresh@[i].coord));
                }
            }
        }
        self.put_up(fresh);
        proof {
            let before = old(self).records@;
            let now = self.records@;
            assert forall|i: int| 0 <= i < fresh@.len() implies self.published(
                (#[trigger] fresh@[i]).coord,
            ) == outcome(fresh@[i]) by {
                let c = fresh@[i].coord;
                assert(in_batch(fresh@, c));
                match outcome(fresh@[i]) {
                    Some(ms) => {
                        assert(batch_yields(fresh@, c, ms));
                        assert(holds_record(now, c, ms));
                        lemma_published(now, c, ms);
                    },
                    None => {
                        assert forall|ms: Seq<VoxelMaterial>| !holds_record(now, c, ms) by {
                            if batch_yields(fresh@, c, ms) {
                                let j = choose|j: int|
                                    0 <= j < fresh@.len() && (#[trigger] fresh@[j]).coord == c
                                        && outcome(fresh@[j]) == Some(ms);
                                assert(j == i);
                            }
                            assert(holds_record(now, c, ms) <==> (holds_record(kept, c, ms)
                                || batch_yields(fresh@, c, ms)));
                            assert(holds_record(kept, c, ms) <==> (holds_record(before, c, ms)
                                && !taken_down(fresh@, resident, c)));
                        }
                    },
                }
            }
            assert forall|c: ChunkCoordinate| !in_batch(fresh@, c) implies #[trigger]
                self.published(c) == if is_resident(resident, c) {
                old(self).published(c)
            } else {
                None
            } by {
                assert forall|ms: Seq<VoxelMaterial>|
                    holds_record(now, c, ms) <==> (holds_record(before, c, ms) && is_resident(
                        resident,
                        c,
                    )) by {
                    assert(holds_record(now, c, ms) <==> (holds_record(kept, c, ms)
                        || batch_yields(fresh@, c, ms)));
                    assert(holds_record(kept, c, ms) <==> (holds_record(before, c, ms)
                        && !taken_down(fresh@, resident, c)));
                    if batch_yields(fresh@, c, ms) {
                        let j = choose|j: int|
                            0 <= j < fresh@.len() && (#[trigger] fresh@[j]).coord == c && outcome(
                                fresh@[j],
                            ) == Some(ms);
                        assert(in_batch(fresh@, c));
                    }
                }
                lemma_same_published(now, before, c, is_resident(resident, c));
            }
            assert forall|h: MeshHandle| #[trigger]
                despawned@.contains(h) <==> (taken_down(fresh@, resident, h.chunk) && old(
                    self,
                ).publishes(h)) by {
                lemma_publishes(before, h);
            }
        }
        despawned
    }
}

/// What one more record adds to the surfaces held.
pub proof fn lemma_handle_push(records: Seq<MeshRecord>, r: MeshRecord, h: MeshHandle)
    ensures
        holds_handle(records.push(r), h) <==> (holds_handle(records, h) || (r.coord == h.chunk
            && r.materials@.contains(h.material))),
{
    let longer = records.push(r);
    if holds_handle(longer, h) {
        let i = choose|i: int|
            0 <= i < longer.len() && (#[trigger] longer[i]).coord == h.chunk
                && longer[i].materials@.contains(h.material);
        if i < records.len() {
            assert(records[i] == longer[i]);
        }
    }
    if holds_handle(records, h) {
        let i = choose|i: int|
            0 <= i < records.len() && (#[trigger] records[i]).coord == h.chunk
                && records[i].materials@.contains(h.material);
        assert(longer[i] == records[i]);
    }
    if r.coord == h.chunk && r.materials@.contains(h.material) {
        assert(longer[records.len() as int] == r);
    }
}

/// What one more mesh adds to what a batch yields.
pub proof fn lemma_yields_push(
    fresh: Seq<ChunkMesh>,
    mesh: ChunkMesh,
    c: ChunkCoordinate,
    ms: Seq<VoxelMaterial>,
)
    ensures
        batch_yields(fresh.push(mesh), c, ms) <==> (batch_yields(fresh, c, ms) || (mesh.coord == c
            && outcome(mesh) == Some(ms))),
{
    let longer = fresh.push(mesh);
    if batch_yields(longer, c, ms) {
        let j = choose|j: int|
            0 <= j < longer.len() && (#[trigger] longer[j]).coord == c && outcome(longer[j])
                == Some(ms);
        if j < fresh.len() {
            assert(fresh[j] == longer[j]);
        }
    }
    if batch_yields(fresh, c, ms) {
        let j = choose|j: int|
            0 <= j < fresh.len() && (#[trigger] fresh[j]).coord == c && outcome(fresh[j]) == Some(
                ms,
            );
        assert(longer[j] == fresh[j]);
    }
    if mesh.coord == c && outcome(mesh) == Some(ms) {
        assert(longer[fresh.len() as int] == mesh);
    }
}

/// Two lists of records that hold the same records of chunk `c`, the second
/// only if `keep` is set, publish the same for `c`.
pub proof fn lemma_same_published(
    now: Seq<MeshRecord>,
    before: Seq<MeshRecord>,
    c: ChunkCoordinate,
    keep: bool,
)
    requires
        distinct_coords(now),
        distinct_coords(before),
        forall|ms: Seq<VoxelMaterial>|
            holds_record(now, c, ms) <==> (holds_record(before, c, ms) && keep),
    ensures
        published_in(now, c) == if keep {
            published_in(before, c)
        } else {
            None
        },
{
    match published_in(now, c) {
        Some(ms) => {
            lemma_published(now, c, ms);
            lemma_published(before, c, ms);
        },
        None => {
            if keep {
                match published_in(before, c) {
                    Some(ms) => {
                        lemma_published(before, c, ms);
                        lemma_published(now, c, ms);
                    },
                    None => {},
                }
            }
        },
    }
}

/// Whether a mesh of `fresh` has the surface that `h` names.
pub open spec fn batch_puts_up(fresh: Seq<ChunkMesh>, h: MeshHandle) -> bool {
    exists|i: int|
        0 <= i < fresh.len() && (#[trigger] fresh[i]).coord == h.chunk && materials_of(
            fresh[i].surfaces@,
        ).contains(h.material)
}

/// After a cycle the published surfaces are those that were published and
/// not taken down, and those that the batch puts up: no stale surface is
/// left, and a chunk of the batch has the surfaces of its fresh mesh only.
pub proof fn law_reconciler_conservation(
    before: &GeometryReconciler,
    after: &GeometryReconciler,
    fresh: Seq<ChunkMesh>,
    region: Set<ChunkCoordinate>,
    despawned: Seq<MeshHandle>,
    h: MeshHandle,
)
    requires
        before.wf(),
        batch_distinct(fresh),
        GeometryReconciler::reconciled(before, after, fresh, region, despawned),
    ensures
        after.publishes(h) <==> ((before.publishes(h) && !despawned.contains(h)) || batch_puts_up(
            fresh,
            h,
        )),
        batch_puts_up(fresh, h) ==> !before.publishes(h) || despawned.contains(h),
{
    let c = h.chunk;
    if in_batch(fresh, c) {
        let i = choose|i: int| 0 <= i < fresh.len() && (#[trigger] fresh[i]).coord == c;
        assert(after.published(fresh[i].coord) == outcome(fresh[i]));
        if batch_puts_up(fresh, h) {
            let j = choose|j: int|
                0 <= j < fresh.len() && (#[trigger] fresh[j]).coord == h.chunk && materials_of(
                    fresh[j].surfaces@,
                ).contains(h.material);
            assert(i == j);
            assert(fresh[i].surfaces@.len() > 0);
        }
        if after.publishes(h) {
            assert(materials_of(fresh[i].surfaces@).contains(h.material));
        }
    } else {
        assert(after.published(c) == if region.contains(c) {
            before.published(c)
        } else {
            None
        });
        if batch_puts_up(fresh, h) {
            let j = choose|j: int|
                0 <= j < fresh.len() && (#[trigger] fresh[j]).coord == h.chunk && materials_of(
                    fresh[j].surfaces@,
                ).contains(h.material);
            assert(in_batch(fresh, c));
        }
    }
}

/// A chunk of the batch is replaced wholesale: every surface that was
/// published for it is among the handles to take down, and after the cycle
/// its published surfaces are those of its fresh mesh and no other. Taken
/// down first and put up after, no two sets of surfaces of the chunk are
/// published at a time.
pub proof fn law_replaced_wholesale(
    before: &GeometryReconciler,
    after: &GeometryReconciler,
    fresh: Seq<ChunkMesh>,
    region: Set<ChunkCoordinate>,
    despawned: Seq<MeshHandle>,
    i: int,
    h: MeshHandle,
)
    requires
        before.wf(),
        batch_distinct(fresh),
        GeometryReconciler::reconciled(before, after, fresh, region, despawned),
        0 <= i < fresh.len(),
        h.chunk == fresh[i].coord,
    ensures
        before.publishes(h) ==> despawned.contains(h),
        after.publishes(h) <==> materials_of(fresh[i].surfaces@).contains(h.material),
{
    assert(in_batch(fresh, fresh[i].coord));
    assert(after.published(fresh[i].coord) == outcome(fresh[i]));
}

/// A mesh that is the partition of quads by material has one surface for
/// each material: no material is named by two of its surfaces.
pub proof fn law_one_surface_per_material(
    quads: Seq<crate::mesh::Quad>,
    surfaces: Seq<SurfaceMesh>,
)
    requires
        crate::surface::partitioned(quads, surfaces),
    ensures
        materials_of(surfaces).no_duplicates(),
{
    assert forall|i: int, j: int|
        0 <= i < materials_of(surfaces).len() && 0 <= j < materials_of(surfaces).len() && i
            != j implies materials_of(surfaces)[i] != materials_of(surfaces)[j] by {
        if i < j {
            assert(surfaces[i].material.0 < surfaces[j].material.0);
        } else {
            assert(surfaces[j].material.0 < surfaces[i].material.0);
        }
    }
}

} // verus!
