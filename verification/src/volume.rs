//! The sparse voxel store: dense chunks in a hot tier, compressed chunks in
//! a cold tier, and the ambient voxel everywhere else.

use crate::compression::{lz4_compress, lz4_decompress, lz4_payload, MAX_LZ4_LEVEL};
use crate::config::ConfigError;
use crate::dirty::{box_passed, touch_set, DirtyTracker};
use crate::lattice::{
    chunk_key, chunk_of, chunk_volume, containing_chunk, floor_div, index_in_chunk,
    is_valid_chunk_edge, key_of, lemma_component_bounds, lemma_floor_monotonic, lemma_in_chunk,
    lemma_index_bound, lemma_point_determined, lemma_volume_bound, local_index, valid_chunk_edge,
    ChunkCoordinate, Extent3, Point3,
};
use crate::voxel::{decode_voxels, decoded, encode_voxels, lemma_round_trip, Voxel};
use std::collections::HashMap;
use vstd::prelude::*;

verus! {

broadcast use vstd::std_specs::hash::group_hash_axioms;

/// Where the store keeps a chunk.
#[derive(Clone, Copy, Debug, PartialEq, Eq, Structural)]
pub enum ChunkState {
    /// No chunk is allocated: every voxel reads as the ambient voxel.
    Absent,
    /// The chunk is held uncompressed and can be edited in place.
    Hot,
    /// The chunk is held as a compressed payload.
    Cold,
}

/// The voxel world's storage.
pub struct VoxelVolume {
    edge: i32,
    ambient: Voxel,
    level: u32,
    hot: HashMap<u128, Vec<Voxel>>,
    cold: HashMap<u128, Vec<u8>>,
}

/// The map key of chunk `c`.
pub open spec fn map_key(c: ChunkCoordinate) -> u128 {
    chunk_key(c) as u128
}

/// Different chunks have different map keys.
pub proof fn lemma_map_key_injective(a: ChunkCoordinate, b: ChunkCoordinate)
    requires
        map_key(a) == map_key(b),
    ensures
        a == b,
{
    assert(0 <= chunk_key(a) < 0x1_0000_0000_0000_0000_0000_0000);
    assert(0 <= chunk_key(b) < 0x1_0000_0000_0000_0000_0000_0000);
    crate::lattice::lemma_chunk_key_injective(a, b);
}

impl VoxelVolume {
    /// The edge length of the chunks.
    pub closed spec fn edge(&self) -> int {
        self.edge as int
    }

    /// The voxel that unallocated space reads as.
    pub closed spec fn ambient(&self) -> Voxel {
        self.ambient
    }

    /// The invariant of the store: chunks are full, no chunk is in both
    /// tiers, and every cold payload decompresses to a full chunk.
    pub closed spec fn wf(&self) -> bool {
        &&& valid_chunk_edge(self.edge as int)
        &&& self.level <= MAX_LZ4_LEVEL
        &&& forall|k: u128| #[trigger]
            self.hot@.contains_key(k) ==> self.hot@[k]@.len() == chunk_volume(self.edge as int)
                && !self.cold@.contains_key(k)
        &&& forall|k: u128| #[trigger]
            self.cold@.contains_key(k) ==> (lz4_payload(self.cold@[k]@) matches Some(bytes)
                && bytes.len() == 3 * chunk_volume(self.edge as int))
    }

    /// The tier that holds chunk `c`.
    pub closed spec fn state(&self, c: ChunkCoordinate) -> ChunkState {
        if self.hot@.contains_key(map_key(c)) {
            ChunkState::Hot
        } else if self.cold@.contains_key(map_key(c)) {
            ChunkState::Cold
        } else {
            ChunkState::Absent
        }
    }

    /// The voxels of chunk `c` in index order, whichever tier holds them.
    pub closed spec fn chunk_voxels(&self, c: ChunkCoordinate) -> Seq<Voxel> {
        if self.hot@.contains_key(map_key(c)) {
            self.hot@[map_key(c)]@
        } else if self.cold@.contains_key(map_key(c)) {
            decoded(lz4_payload(self.cold@[map_key(c)]@)->0)
        } else {
            Seq::new(chunk_volume(self.edge as int) as nat, |i: int| self.ambient)
        }
    }

    /// The voxel at `p`.
    pub open spec fn voxel_at(&self, p: Point3) -> Voxel {
        self.chunk_voxels(chunk_of(p, self.edge()))[local_index(p, self.edge())]
    }

    /// The size in bytes of the compressed payload of chunk `c`.
    pub closed spec fn payload_len(&self, c: ChunkCoordinate) -> nat {
        self.cold@[map_key(c)]@.len()
    }

    /// A well-formed store has a valid chunk edge, and every chunk has as
    /// many voxels as the edge asks for.
    pub proof fn lemma_shape(&self, c: ChunkCoordinate)
        requires
            self.wf(),
        ensures
            valid_chunk_edge(self.edge()),
            self.chunk_voxels(c).len() == chunk_volume(self.edge()),
    {
        lemma_volume_bound(self.edge as int);
    }

    /// Space in which no chunk is allocated reads as the ambient voxel.
    pub proof fn lemma_absent_reads_ambient(&self, p: Point3)
        requires
            self.wf(),
            self.state(chunk_of(p, self.edge())) == ChunkState::Absent,
        ensures
            self.voxel_at(p) == self.ambient(),
    {
        let e = self.edge as int;
        lemma_component_bounds(p.x as int, e);
        lemma_component_bounds(p.y as int, e);
        lemma_component_bounds(p.z as int, e);
        lemma_index_bound(p.x as int % e, p.y as int % e, p.z as int % e, e);
    }

    /// An empty store with chunks of edge `edge`.
    pub fn new(edge: i32, ambient: Voxel, level: u32) -> (r: Result<VoxelVolume, ConfigError>)
        ensures
            match r {
                Ok(v) => {
                    &&& valid_chunk_edge(edge as int)
                    &&& level <= MAX_LZ4_LEVEL
                    &&& v.wf()
                    &&& v.edge() == edge
                    &&& v.ambient() == ambient
                    &&& forall|c: ChunkCoordinate| #[trigger] v.state(c) == ChunkState::Absent
                    &&& forall|p: Point3| #[trigger] v.voxel_at(p) == ambient
                },
                Err(e) => if !valid_chunk_edge(edge as int) {
                    e == ConfigError::ChunkEdge
                } else {
                    level > MAX_LZ4_LEVEL && e == ConfigError::CompressionLevel
                },
            },
    {
        if !is_valid_chunk_edge(edge) {
            return Err(ConfigError::ChunkEdge);
        }
        if level > MAX_LZ4_LEVEL {
            return Err(ConfigError::CompressionLevel);
        }
        let v = VoxelVolume { edge, ambient, level, hot: HashMap::new(), cold: HashMap::new() };
        proof {
            assert forall|p: Point3| #[trigger] v.voxel_at(p) == ambient by {
                v.lemma_absent_reads_ambient(p);
            }
        }
        Ok(v)
    }

    /// The edge length of the chunks.
    pub fn chunk_edge(&self) -> (e: i32)
        requires
            self.wf(),
        ensures
            e == self.edge(),
            valid_chunk_edge(e as int),
    {
        self.edge
    }

    /// The voxel that unallocated space reads as.
    pub fn ambient_value(&self) -> (v: Voxel)
        ensures
            v == self.ambient(),
    {
        self.ambient
    }

    /// The tier that holds chunk `c`.
    pub fn chunk_state(&self, c: ChunkCoordinate) -> (s: ChunkState)
        requires
            self.wf(),
        ensures
            s == self.state(c),
    {
        let k = key_of(c);
        if self.hot.contains_key(&k) {
            ChunkState::Hot
        } else if self.cold.contains_key(&k) {
            ChunkState::Cold
        } else {
            ChunkState::Absent
        }
    }

    /// The voxel at `p`. A cold chunk is decompressed for the read and stays
    /// cold; space without a chunk reads as the ambient voxel.
    pub fn read(&self, p: Point3) -> (v: Voxel)
        requires
            self.wf(),
        ensures
            v == self.voxel_at(p),
    {
        let c = containing_chunk(p, self.edge);
        let i = index_in_chunk(p, self.edge);
        let k = key_of(c);
        match self.hot.get(&k) {
            Some(voxels) => voxels[i],
            None => match self.cold.get(&k) {
                Some(frame) => {
                    let bytes = lz4_decompress(frame);
                    let voxels = decode_voxels(&bytes);
                    voxels[i]
                },
                None => self.ambient,
            },
        }
    }

    /// What `write` does to a store: the voxel at `p` becomes `v`, the chunk
    /// of `p` becomes hot, and nothing else changes.
    pub open spec fn written(before: &VoxelVolume, after: &VoxelVolume, p: Point3, v: Voxel) -> bool {
        &&& after.wf()
        &&& after.edge() == before.edge()
        &&& after.ambient() == before.ambient()
        &&& forall|q: Point3| #[trigger]
            after.voxel_at(q) == if q == p {
                v
            } else {
                before.voxel_at(q)
            }
        &&& forall|c: ChunkCoordinate| #[trigger]
            after.state(c) == if c == chunk_of(p, before.edge()) {
                ChunkState::Hot
            } else {
                before.state(c)
            }
    }

    /// What `force_compress` of chunk `c` does to a store: a hot chunk
    /// becomes cold, and no voxel changes.
    pub open spec fn compressed(before: &VoxelVolume, after: &VoxelVolume, c: ChunkCoordinate) -> bool {
        &&& after.wf()
        &&& after.edge() == before.edge()
        &&& after.ambient() == before.ambient()
        &&& forall|q: Point3| #[trigger] after.voxel_at(q) == before.voxel_at(q)
        &&& forall|d: ChunkCoordinate| #[trigger]
            after.state(d) == if d == c && before.state(c) == ChunkState::Hot {
                ChunkState::Cold
            } else {
                before.state(d)
            }
    }

    /// What an edit of `extent` with `f` does to a store: every voxel of the
    /// extent becomes what `f` makes of it, every chunk that the extent
    /// touches becomes hot, and nothing else changes.
    pub open spec fn edited<F: Fn(Point3, Voxel) -> Voxel>(
        before: &VoxelVolume,
        after: &VoxelVolume,
        extent: Extent3,
        f: F,
    ) -> bool {
        &&& after.wf()
        &&& after.edge() == before.edge()
        &&& after.ambient() == before.ambient()
        &&& forall|q: Point3|
            extent.contains(q) ==> call_ensures(f, (q, before.voxel_at(q)), #[trigger] after.voxel_at(q))
        &&& forall|q: Point3| !extent.contains(q) ==> #[trigger] after.voxel_at(q) == before.voxel_at(q)
        &&& forall|c: ChunkCoordinate| #[trigger]
            after.state(c) == if extent.touches_chunk(c, before.edge()) {
                ChunkState::Hot
            } else {
                before.state(c)
            }
    }

    /// A chunk of ambient voxels.
    fn ambient_chunk(&self) -> (voxels: Vec<Voxel>)
        requires
            self.wf(),
        ensures
            voxels@ == Seq::new(chunk_volume(self.edge as int) as nat, |i: int| self.ambient),
    {
        proof {
            lemma_volume_bound(self.edge as int);
        }
        let e = self.edge as usize;
        let n: usize = e * e * e;
        let mut voxels: Vec<Voxel> = Vec::new();
        let mut i: usize = 0;
        while i < n
            invariant
                i <= n,
                voxels@.len() == i,
                forall|j: int| 0 <= j < i ==> voxels@[j] == self.ambient,
            decreases n - i,
        {
            voxels.push(self.ambient);
            i += 1;
        }
        assert(voxels@ =~= Seq::new(chunk_volume(self.edge as int) as nat, |i: int| self.ambient));
        voxels
    }

    /// Brings chunk `c` into the hot tier: a cold chunk is decompressed, an
    /// absent one is allocated with ambient voxels. No voxel changes.
    pub fn promote(&mut self, c: ChunkCoordinate)
        requires
            old(self).wf(),
        ensures
            final(self).wf(),
            final(self).edge() == old(self).edge(),
            final(self).ambient() == old(self).ambient(),
            forall|d: ChunkCoordinate| #[trigger]
                final(self).chunk_voxels(d) == old(self).chunk_voxels(d),
            forall|d: ChunkCoordinate| #[trigger]
                final(self).state(d) == if d == c {
                    ChunkState::Hot
                } else {
                    old(self).state(d)
                },
    {
        let k = key_of(c);
        if self.hot.contains_key(&k) {
            return ;
        }
        let voxels = match self.cold.remove(&k) {
            Some(frame) => {
                let bytes = lz4_decompress(&frame);
                decode_voxels(&bytes)
            },
            None => self.ambient_chunk(),
        };
        self.hot.insert(k, voxels);
        proof {
            assert forall|d: ChunkCoordinate| #[trigger]
                self.chunk_voxels(d) == old(self).chunk_voxels(d) && self.state(d) == if d == c {
                    ChunkState::Hot
                } else {
                    old(self).state(d)
                } by {
                if d != c {
                    if map_key(d) == map_key(c) {
                        lemma_map_key_injective(d, c);
                    }
                }
            }
        }
    }

    /// Sets the voxel at `p` to `v`. The chunk of `p` is brought into the hot
    /// tier first.
    pub fn write(&mut self, p: Point3, v: Voxel)
        requires
            old(self).wf(),
        ensures
            Self::written(old(self), final(self), p, v),
    {
        let c = containing_chunk(p, self.edge);
        let i = index_in_chunk(p, self.edge);
        let k = key_of(c);
        self.promote(c);
        let ghost mid = *self;
        match self.hot.remove(&k) {
            Some(mut voxels) => {
                voxels.set(i, v);
                self.hot.insert(k, voxels);
            },
            None => {},
        }
        proof {
            let e = self.edge as int;
            assert forall|d: ChunkCoordinate| #[trigger]
                self.chunk_voxels(d) == if d == c {
                    mid.chunk_voxels(d).update(i as int, v)
                } else {
                    mid.chunk_voxels(d)
                } && self.state(d) == mid.state(d) by {
                if d != c {
                    if map_key(d) == map_key(c) {
                        lemma_map_key_injective(d, c);
                    }
                }
            }
            assert forall|q: Point3| #[trigger]
                self.voxel_at(q) == if q == p {
                    v
                } else {
                    old(self).voxel_at(q)
                } by {
                let d = chunk_of(q, e);
                assert(self.chunk_voxels(d) == if d == c {
                    mid.chunk_voxels(d).update(i as int, v)
                } else {
                    mid.chunk_voxels(d)
                });
                assert(mid.chunk_voxels(d) == old(self).chunk_voxels(d));
                if d == c && q != p {
                    if local_index(q, e) == local_index(p, e) {
                        lemma_point_determined(q, p, e);
                    }
                }
                lemma_component_bounds(q.x as int, e);
                lemma_component_bounds(q.y as int, e);
                lemma_component_bounds(q.z as int, e);
                lemma_index_bound(q.x as int % e, q.y as int % e, q.z as int % e, e);
            }
            assert forall|d: ChunkCoordinate| #[trigger]
                self.state(d) == if d == chunk_of(p, old(self).edge()) {
                    ChunkState::Hot
                } else {
                    old(self).state(d)
                } by {
                assert(self.state(d) == mid.state(d));
            }
        }
    }

    /// Moves chunk `c` from the hot tier to the cold tier, compressing its
    /// voxels. Returns whether the chunk was hot; a chunk in any other state
    /// is left as it is.
    pub fn force_compress(&mut self, c: ChunkCoordinate) -> (was_hot: bool)
        requires
            old(self).wf(),
        ensures
            Self::compressed(old(self), final(self), c),
            was_hot == (old(self).state(c) == ChunkState::Hot),
    {
        let k = key_of(c);
        match self.hot.remove(&k) {
            Some(voxels) => {
                let bytes = encode_voxels(&voxels);
                let frame = lz4_compress(self.level, &bytes);
                proof {
                    lemma_round_trip(voxels@);
                }
                self.cold.insert(k, frame);
                proof {
                    assert forall|d: ChunkCoordinate| #[trigger]
                        self.chunk_voxels(d) == old(self).chunk_voxels(d) && self.state(d) == if d
                            == c {
                            ChunkState::Cold
                        } else {
                            old(self).state(d)
                        } by {
                        if d != c {
                            if map_key(d) == map_key(c) {
                                lemma_map_key_injective(d, c);
                            }
                        }
                    }
                    assert forall|q: Point3| #[trigger]
                        self.voxel_at(q) == old(self).voxel_at(q) by {
                        assert(self.chunk_voxels(chunk_of(q, self.edge())) == old(
                            self,
                        ).chunk_voxels(chunk_of(q, self.edge())));
                    }
                }
                true
            },
            None => {
                proof {
                    assert(self.hot@ =~= old(self).hot@);
                }
                false
            },
        }
    }

    /// A copy of the voxels of chunk `c`, in index order. The store is left
    /// as it is: a cold chunk is decompressed for the copy and stays cold.
    pub fn chunk_snapshot(&self, c: ChunkCoordinate) -> (voxels: Vec<Voxel>)
        requires
            self.wf(),
        ensures
            voxels@ == self.chunk_voxels(c),
            voxels@.len() == chunk_volume(self.edge()),
    {
        let k = key_of(c);
        match self.hot.get(&k) {
            Some(held) => {
                let mut voxels: Vec<Voxel> = Vec::new();
                let mut i: usize = 0;
                while i < held.len()
                    invariant
                        i <= held.len(),
                        voxels@.len() == i,
                        forall|j: int| 0 <= j < i ==> voxels@[j] == held@[j],
                    decreases held.len() - i,
                {
                    voxels.push(held[i]);
                    i += 1;
                }
                assert(voxels@ =~= held@);
                voxels
            },
            None => match self.cold.get(&k) {
                Some(frame) => {
                    let bytes = lz4_decompress(frame);
                    decode_voxels(&bytes)
                },
                None => {
                    proof {
                        lemma_volume_bound(self.edge as int);
                    }
                    self.ambient_chunk()
                },
            },
        }
    }

    /// The size in bytes of the compressed payload of chunk `c`, if the chunk
    /// is cold.
    pub fn compressed_size(&self, c: ChunkCoordinate) -> (r: Option<usize>)
        requires
            self.wf(),
        ensures
            r == if self.state(c) == ChunkState::Cold {
                Some(self.payload_len(c) as usize)
            } else {
                None
            },
    {
        let k = key_of(c);
        if self.hot.contains_key(&k) {
            None
        } else {
            match self.cold.get(&k) {
                Some(frame) => Some(frame.len()),
                None => None,
            }
        }
    }
}

/// Whether an edit that walks `part` row by row, and stands at `(x, y, z)`,
/// has passed `q`.
pub open spec fn edit_passed(part: Extent3, z: int, y: int, x: int, q: Point3) -> bool {
    part.contains(q) && (q.z < z || (q.z == z && (q.y < y || (q.y == y && q.x < x))))
}

/// The voxels of chunk `d` in the middle of an edit of `part`, which lies in
/// that chunk: the voxels passed are edited, the rest is as before.
pub open spec fn chunk_progress<F: Fn(Point3, Voxel) -> Voxel>(
    before: Seq<Voxel>,
    now: Seq<Voxel>,
    part: Extent3,
    f: F,
    d: ChunkCoordinate,
    edge: int,
    z: int,
    y: int,
    x: int,
) -> bool {
    &&& now.len() == before.len()
    &&& forall|q: Point3|
        #![trigger local_index(q, edge)]
        chunk_of(q, edge) == d ==> if edit_passed(part, z, y, x, q) {
            call_ensures(f, (q, before[local_index(q, edge)]), now[local_index(q, edge)])
        } else {
            now[local_index(q, edge)] == before[local_index(q, edge)]
        }
}

/// Two positions of an edit that have passed the same voxels describe the
/// same progress.
proof fn lemma_chunk_same<F: Fn(Point3, Voxel) -> Voxel>(
    before: Seq<Voxel>,
    now: Seq<Voxel>,
    part: Extent3,
    f: F,
    d: ChunkCoordinate,
    edge: int,
    z1: int,
    y1: int,
    x1: int,
    z2: int,
    y2: int,
    x2: int,
)
    requires
        chunk_progress(before, now, part, f, d, edge, z1, y1, x1),
        forall|q: Point3| edit_passed(part, z1, y1, x1, q) == edit_passed(part, z2, y2, x2, q),
    ensures
        chunk_progress(before, now, part, f, d, edge, z2, y2, x2),
{
}

/// Editing the voxel at the edit's position moves the edit one voxel on.
proof fn lemma_chunk_step<F: Fn(Point3, Voxel) -> Voxel>(
    before: Seq<Voxel>,
    now: Seq<Voxel>,
    next: Seq<Voxel>,
    part: Extent3,
    f: F,
    d: ChunkCoordinate,
    edge: int,
    p: Point3,
    w: Voxel,
)
    requires
        edge > 0,
        part.contains(p),
        chunk_of(p, edge) == d,
        now.len() == chunk_volume(edge),
        chunk_progress(before, now, part, f, d, edge, p.z as int, p.y as int, p.x as int),
        call_ensures(f, (p, now[local_index(p, edge)]), w),
        next == now.update(local_index(p, edge), w),
    ensures
        chunk_progress(before, next, part, f, d, edge, p.z as int, p.y as int, p.x as int + 1),
{
    let (z, y, x) = (p.z as int, p.y as int, p.x as int);
    assert(!edit_passed(part, z, y, x, p));
    lemma_component_bounds(p.x as int, edge);
    lemma_component_bounds(p.y as int, edge);
    lemma_component_bounds(p.z as int, edge);
    lemma_index_bound(p.x as int % edge, p.y as int % edge, p.z as int % edge, edge);
    assert forall|q: Point3|
        #![trigger local_index(q, edge)]
        chunk_of(q, edge) == d implies if edit_passed(part, z, y, x + 1, q) {
        call_ensures(f, (q, before[local_index(q, edge)]), next[local_index(q, edge)])
    } else {
        next[local_index(q, edge)] == before[local_index(q, edge)]
    } by {
        lemma_component_bounds(q.x as int, edge);
        lemma_component_bounds(q.y as int, edge);
        lemma_component_bounds(q.z as int, edge);
        lemma_index_bound(q.x as int % edge, q.y as int % edge, q.z as int % edge, edge);
        if q != p {
            if local_index(q, edge) == local_index(p, edge) {
                lemma_point_determined(q, p, edge);
            }
            assert(edit_passed(part, z, y, x + 1, q) == edit_passed(part, z, y, x, q));
        }
    }
}

/// The part of `extent` that lies in chunk `d`.
fn clip_to_chunk(extent: &Extent3, d: ChunkCoordinate, edge: i32) -> (part: Extent3)
    requires
        extent.wf(),
        0 < edge <= 1024,
        extent.chunk_box_contains(d, edge as int),
    ensures
        part.wf(),
        forall|q: Point3|
            part.contains(q) <==> (extent.contains(q) && chunk_of(q, edge as int) == d),
{
    let ghost e = edge as int;
    proof {
        lemma_chunk_span(d.x as int, e);
        lemma_chunk_span(d.y as int, e);
        lemma_chunk_span(d.z as int, e);
        lemma_in_chunk(extent.minimum.x as int, extent.minimum.x as int / e, e);
        lemma_in_chunk(extent.minimum.y as int, extent.minimum.y as int / e, e);
        lemma_in_chunk(extent.minimum.z as int, extent.minimum.z as int / e, e);
        let (lx, ly, lz) = (
            extent.minimum.x + extent.shape.x - 1,
            extent.minimum.y + extent.shape.y - 1,
            extent.minimum.z + extent.shape.z - 1,
        );
        lemma_in_chunk(lx, lx / e, e);
        lemma_in_chunk(ly, ly / e, e);
        lemma_in_chunk(lz, lz / e, e);
        lemma_box_bounds(extent.minimum.x as int, lx, d.x as int, e);
        lemma_box_bounds(extent.minimum.y as int, ly, d.y as int, e);
        lemma_box_bounds(extent.minimum.z as int, lz, d.z as int, e);
    }
    let lo_x = clip_low(extent.minimum.x, d.x, edge);
    let lo_y = clip_low(extent.minimum.y, d.y, edge);
    let lo_z = clip_low(extent.minimum.z, d.z, edge);
    let hi_x = clip_high(extent.minimum.x, extent.shape.x, d.x, edge);
    let hi_y = clip_high(extent.minimum.y, extent.shape.y, d.y, edge);
    let hi_z = clip_high(extent.minimum.z, extent.shape.z, d.z, edge);
    let part = Extent3 {
        minimum: Point3 { x: lo_x, y: lo_y, z: lo_z },
        shape: Point3 { x: hi_x - lo_x, y: hi_y - lo_y, z: hi_z - lo_z },
    };
    proof {
        assert forall|q: Point3|
            part.contains(q) <==> (extent.contains(q) && chunk_of(q, e) == d) by {
            lemma_in_chunk(q.x as int, d.x as int, e);
            lemma_in_chunk(q.y as int, d.y as int, e);
            lemma_in_chunk(q.z as int, d.z as int, e);
            lemma_component_bounds(q.x as int, e);
            lemma_component_bounds(q.y as int, e);
            lemma_component_bounds(q.z as int, e);
        }
    }
    part
}

/// The interval of chunk index `c` fits in 64 bits.
proof fn lemma_chunk_span(c: int, edge: int)
    requires
        0 < edge <= 1024,
        i32::MIN <= c <= i32::MAX,
    ensures
        -0x200_0000_0000 <= c * edge <= 0x200_0000_0000,
{
    assert(-0x200_0000_0000 <= c * edge <= 0x200_0000_0000) by (nonlinear_arith)
        requires
            0 < edge <= 1024,
            -0x8000_0000 <= c <= 0x7fff_ffff,
    ;
}

/// The interval of a chunk index between those of `min` and `last` meets
/// `[min, last]`.
proof fn lemma_box_bounds(min: int, last: int, c: int, edge: int)
    requires
        edge > 0,
        min <= last,
        min / edge <= c <= last / edge,
        (min / edge) * edge <= min < (min / edge) * edge + edge,
        (last / edge) * edge <= last < (last / edge) * edge + edge,
    ensures
        c * edge <= last,
        min < c * edge + edge,
{
    let qa = min / edge;
    let qb = last / edge;
    assert(c * edge <= last) by (nonlinear_arith)
        requires
            edge > 0,
            c <= qb,
            qb * edge <= last,
    ;
    assert(min < c * edge + edge) by (nonlinear_arith)
        requires
            edge > 0,
            qa <= c,
            min < qa * edge + edge,
    ;
}

/// The greater of `min` and the least coordinate of chunk index `c`.
fn clip_low(min: i32, c: i32, edge: i32) -> (lo: i32)
    requires
        0 < edge <= 1024,
        -0x200_0000_0000 <= c * edge <= 0x200_0000_0000,
        c * edge <= i32::MAX,
    ensures
        lo == if min > c * edge {
            min as int
        } else {
            c * edge
        },
{
    let start: i64 = (c as i64) * (edge as i64);
    if (min as i64) > start {
        min
    } else {
        start as i32
    }
}

/// The lesser of the upper bound `min + shape` and the upper bound of chunk
/// index `c`.
fn clip_high(min: i32, shape: i32, c: i32, edge: i32) -> (hi: i32)
    requires
        0 < edge <= 1024,
        0 <= shape,
        min + shape <= i32::MAX,
        -0x200_0000_0000 <= c * edge <= 0x200_0000_0000,
        min < c * edge + edge,
    ensures
        hi == if min + shape < c * edge + edge {
            min + shape
        } else {
            c * edge + edge
        },
{
    let end: i64 = (c as i64) * (edge as i64) + edge as i64;
    let lub: i64 = min as i64 + shape as i64;
    if lub < end {
        lub as i32
    } else {
        end as i32
    }
}

/// The state of a store in the middle of an edit that goes chunk by chunk:
/// the voxels of the chunks passed are edited and those chunks are hot, the
/// rest is as before.
pub open spec fn region_progress<F: Fn(Point3, Voxel) -> Voxel>(
    before: &VoxelVolume,
    now: &VoxelVolume,
    extent: Extent3,
    f: F,
    z: int,
    y: int,
    x: int,
) -> bool {
    let e = before.edge();
    &&& now.wf()
    &&& now.edge() == before.edge()
    &&& now.ambient() == before.ambient()
    &&& forall|q: Point3|
        extent.contains(q) && box_passed(extent, e, z, y, x, chunk_of(q, e)) ==> call_ensures(
            f,
            (q, before.voxel_at(q)),
            #[trigger] now.voxel_at(q),
        )
    &&& forall|q: Point3|
        !(extent.contains(q) && box_passed(extent, e, z, y, x, chunk_of(q, e)))
            ==> #[trigger] now.voxel_at(q) == before.voxel_at(q)
    &&& forall|c: ChunkCoordinate| #[trigger]
        now.state(c) == if box_passed(extent, e, z, y, x, c) {
            ChunkState::Hot
        } else {
            before.state(c)
        }
}

/// Two positions of the walk that have passed the same chunks describe the
/// same progress.
proof fn lemma_region_same<F: Fn(Point3, Voxel) -> Voxel>(
    before: &VoxelVolume,
    now: &VoxelVolume,
    extent: Extent3,
    f: F,
    z1: int,
    y1: int,
    x1: int,
    z2: int,
    y2: int,
    x2: int,
)
    requires
        region_progress(before, now, extent, f, z1, y1, x1),
        forall|c: ChunkCoordinate|
            box_passed(extent, before.edge(), z1, y1, x1, c) == box_passed(
                extent,
                before.edge(),
                z2,
                y2,
                x2,
                c,
            ),
    ensures
        region_progress(before, now, extent, f, z2, y2, x2),
{
}

/// Editing the part of the extent in the chunk at the walk's position moves
/// the walk one chunk on.
proof fn lemma_region_step<F: Fn(Point3, Voxel) -> Voxel>(
    before: &VoxelVolume,
    now: &VoxelVolume,
    next: &VoxelVolume,
    extent: Extent3,
    part: Extent3,
    f: F,
    d: ChunkCoordinate,
)
    requires
        extent.chunk_box_contains(d, before.edge()),
        region_progress(before, now, extent, f, d.z as int, d.y as int, d.x as int),
        forall|q: Point3|
            part.contains(q) <==> (extent.contains(q) && chunk_of(q, before.edge()) == d),
        VoxelVolume::chunk_edited(now, next, part, f, d),
    ensures
        region_progress(before, next, extent, f, d.z as int, d.y as int, d.x as int + 1),
{
    let e = before.edge();
    let (z, y, x) = (d.z as int, d.y as int, d.x as int);
    assert forall|q: Point3|
        extent.contains(q) && box_passed(extent, e, z, y, x + 1, chunk_of(q, e))
        implies call_ensures(f, (q, before.voxel_at(q)), #[trigger] next.voxel_at(q)) by {
        if chunk_of(q, e) == d {
            assert(part.contains(q));
            assert(!box_passed(extent, e, z, y, x, d));
            assert(now.voxel_at(q) == before.voxel_at(q));
        } else {
            assert(!part.contains(q));
            assert(next.voxel_at(q) == now.voxel_at(q));
            assert(box_passed(extent, e, z, y, x, chunk_of(q, e)));
        }
    }
    assert forall|q: Point3|
        !(extent.contains(q) && box_passed(extent, e, z, y, x + 1, chunk_of(q, e)))
        implies #[trigger] next.voxel_at(q) == before.voxel_at(q) by {
        assert(!part.contains(q));
        assert(next.voxel_at(q) == now.voxel_at(q));
        assert(!(extent.contains(q) && box_passed(extent, e, z, y, x, chunk_of(q, e))));
    }
    assert forall|c: ChunkCoordinate| #[trigger]
        next.state(c) == if box_passed(extent, e, z, y, x + 1, c) {
            ChunkState::Hot
        } else {
            before.state(c)
        } by {
        if c != d {
            assert(box_passed(extent, e, z, y, x + 1, c) == box_passed(extent, e, z, y, x, c));
        }
    }
}

/// A walk that has passed the whole chunk box has done what `edited` says.
proof fn lemma_region_end<F: Fn(Point3, Voxel) -> Voxel>(
    before: &VoxelVolume,
    now: &VoxelVolume,
    extent: Extent3,
    f: F,
    z: int,
    y: int,
    x: int,
)
    requires
        before.wf(),
        extent.wf(),
        region_progress(before, now, extent, f, z, y, x),
        forall|c: ChunkCoordinate|
            box_passed(extent, before.edge(), z, y, x, c) == extent.chunk_box_contains(
                c,
                before.edge(),
            ),
    ensures
        VoxelVolume::edited(before, now, extent, f),
{
    let e = before.edge();
    before.lemma_shape(ChunkCoordinate { x: 0, y: 0, z: 0 });
    assert forall|q: Point3| extent.contains(q) implies call_ensures(
        f,
        (q, before.voxel_at(q)),
        #[trigger] now.voxel_at(q),
    ) by {
        extent.lemma_touches_chunk(chunk_of(q, e), e);
        assert(extent.touches_chunk(chunk_of(q, e), e));
        assert(box_passed(extent, e, z, y, x, chunk_of(q, e)));
    }
    assert forall|c: ChunkCoordinate| #[trigger]
        now.state(c) == if extent.touches_chunk(c, e) {
            ChunkState::Hot
        } else {
            before.state(c)
        } by {
        extent.lemma_touches_chunk(c, e);
    }
}

impl VoxelVolume {
    /// What the edit of `part`, which lies in chunk `d`, does to a store:
    /// every voxel of `part` becomes what `f` makes of it, chunk `d` becomes
    /// hot, and nothing else changes.
    pub open spec fn chunk_edited<F: Fn(Point3, Voxel) -> Voxel>(
        before: &VoxelVolume,
        after: &VoxelVolume,
        part: Extent3,
        f: F,
        d: ChunkCoordinate,
    ) -> bool {
        &&& after.wf()
        &&& after.edge() == before.edge()
        &&& after.ambient() == before.ambient()
        &&& forall|q: Point3|
            part.contains(q) ==> call_ensures(
                f,
                (q, before.voxel_at(q)),
                #[trigger] after.voxel_at(q),
            )
        &&& forall|q: Point3| !part.contains(q) ==> #[trigger] after.voxel_at(q) == before.voxel_at(q)
        &&& forall|c: ChunkCoordinate| #[trigger]
            after.state(c) == if c == d {
                ChunkState::Hot
            } else {
                before.state(c)
            }
    }

    /// Replaces every voxel of `part`, which lies in chunk `d`, by what `f`
    /// makes of it. The chunk is brought into the hot tier and edited in
    /// place.
    fn edit_chunk<F: Fn(Point3, Voxel) -> Voxel>(
        &mut self,
        d: ChunkCoordinate,
        part: &Extent3,
        f: &F,
    )
        requires
            old(self).wf(),
            part.wf(),
            forall|q: Point3| part.contains(q) ==> chunk_of(q, old(self).edge()) == d,
            forall|q: Point3, v: Voxel| part.contains(q) ==> call_requires(*f, (q, v)),
        ensures
            Self::chunk_edited(old(self), final(self), *part, *f, d),
    {
        let edge = self.edge;
        let ghost e = edge as int;
        let k = key_of(d);
        self.promote(d);
        let ghost mid = *self;
        let ghost original = old(self).chunk_voxels(d);
        proof {
            old(self).lemma_shape(d);
            lemma_volume_bound(e);
        }
        proof {
            assert(mid.state(d) == ChunkState::Hot);
            assert(mid.chunk_voxels(d) == original);
        }
        match self.hot.remove(&k) {
            Some(mut voxels) => {
                assert(voxels@ == original);
                let lub = part.least_upper_bound();
                let min = part.minimum;
                let ghost ext = *part;
                let mut z: i32 = min.z;
                while z < lub.z
                    invariant
                        ext == *part,
                        part.wf(),
                        0 < edge <= 1024,
                        e == edge as int,
                        original.len() == chunk_volume(e),
                        voxels@.len() == chunk_volume(e),
                        min == part.minimum,
                        lub.x == min.x + part.shape.x,
                        lub.y == min.y + part.shape.y,
                        lub.z == min.z + part.shape.z,
                        min.z <= z,
                        forall|q: Point3| part.contains(q) ==> chunk_of(q, e) == d,
                        forall|q: Point3, v: Voxel| part.contains(q) ==> call_requires(*f, (q, v)),
                        chunk_progress(
                            original,
                            voxels@,
                            ext,
                            *f,
                            d,
                            e,
                            z as int,
                            min.y as int,
                            min.x as int,
                        ),
                    decreases lub.z - z,
                {
                    let mut y: i32 = min.y;
                    while y < lub.y
                        invariant
                            ext == *part,
                            part.wf(),
                            0 < edge <= 1024,
                            e == edge as int,
                            original.len() == chunk_volume(e),
                            voxels@.len() == chunk_volume(e),
                            min == part.minimum,
                            lub.x == min.x + part.shape.x,
                            lub.y == min.y + part.shape.y,
                            lub.z == min.z + part.shape.z,
                            min.z <= z < lub.z,
                            min.y <= y,
                            forall|q: Point3| part.contains(q) ==> chunk_of(q, e) == d,
                            forall|q: Point3, v: Voxel|
                                part.contains(q) ==> call_requires(*f, (q, v)),
                            chunk_progress(
                                original,
                                voxels@,
                                ext,
                                *f,
                                d,
                                e,
                                z as int,
                                y as int,
                                min.x as int,
                            ),
                        decreases lub.y - y,
                    {
                        let mut x: i32 = min.x;
                        while x < lub.x
                            invariant
                                ext == *part,
                                part.wf(),
                                0 < edge <= 1024,
                                e == edge as int,
                                original.len() == chunk_volume(e),
                                voxels@.len() == chunk_volume(e),
                                min == part.minimum,
                                lub.x == min.x + part.shape.x,
                                lub.y == min.y + part.shape.y,
                                lub.z == min.z + part.shape.z,
                                min.z <= z < lub.z,
                                min.y <= y < lub.y,
                                min.x <= x,
                                forall|q: Point3| part.contains(q) ==> chunk_of(q, e) == d,
                                forall|q: Point3, v: Voxel|
                                    part.contains(q) ==> call_requires(*f, (q, v)),
                                chunk_progress(
                                    original,
                                    voxels@,
                                    ext,
                                    *f,
                                    d,
                                    e,
                                    z as int,
                                    y as int,
                                    x as int,
                                ),
                            decreases lub.x - x,
                        {
                            let p = Point3 { x, y, z };
                            let i = index_in_chunk(p, edge);
                            let ghost now = voxels@;
                            let w = f(p, voxels[i]);
                            voxels.set(i, w);
                            proof {
                                lemma_chunk_step(original, now, voxels@, ext, *f, d, e, p, w);
                            }
                            x += 1;
                        }
                        proof {
                            lemma_chunk_same(
                                original,
                                voxels@,
                                ext,
                                *f,
                                d,
                                e,
                                z as int,
                                y as int,
                                x as int,
                                z as int,
                                y as int + 1,
                                min.x as int,
                            );
                        }
                        y += 1;
                    }
                    proof {
                        lemma_chunk_same(
                            original,
                            voxels@,
                            ext,
                            *f,
                            d,
                            e,
                            z as int,
                            y as int,
                            min.x as int,
                            z as int + 1,
                            min.y as int,
                            min.x as int,
                        );
                    }
                    z += 1;
                }
                let ghost edited = voxels@;
                self.hot.insert(k, voxels);
                proof {
                    assert forall|c: ChunkCoordinate| #[trigger]
                        self.chunk_voxels(c) == if c == d {
                            edited
                        } else {
                            old(self).chunk_voxels(c)
                        } && self.state(c) == mid.state(c) by {
                        if c != d {
                            if map_key(c) == map_key(d) {
                                lemma_map_key_injective(c, d);
                            }
                            assert(mid.chunk_voxels(c) == old(self).chunk_voxels(c));
                        }
                    }
                    assert forall|q: Point3| part.contains(q) implies call_ensures(
                        *f,
                        (q, old(self).voxel_at(q)),
                        #[trigger] self.voxel_at(q),
                    ) by {
                        assert(self.chunk_voxels(d) == edited);
                        assert(edit_passed(ext, z as int, min.y as int, min.x as int, q));
                        assert(call_ensures(
                            *f,
                            (q, original[local_index(q, e)]),
                            edited[local_index(q, e)],
                        ));
                    }
                    assert forall|q: Point3| !part.contains(q) implies #[trigger] self.voxel_at(q)
                        == old(self).voxel_at(q) by {
                        let c = chunk_of(q, e);
                        assert(self.chunk_voxels(c) == if c == d {
                            edited
                        } else {
                            old(self).chunk_voxels(c)
                        });
                        if c == d {
                            assert(!edit_passed(ext, z as int, min.y as int, min.x as int, q));
                            assert(edited[local_index(q, e)] == original[local_index(q, e)]);
                        }
                    }
                    assert forall|c: ChunkCoordinate| #[trigger]
                        self.state(c) == if c == d {
                            ChunkState::Hot
                        } else {
                            old(self).state(c)
                        } by {
                        assert(self.state(c) == mid.state(c));
                    }
                }
            },
            None => {},
        }
    }

    /// Replaces every voxel of `extent` by what `f` makes of it and of its
    /// position. The extent is clipped to the chunks that it touches; each
    /// of them is brought into the hot tier and edited in place. The rest
    /// of the store is left as it is.
    pub fn edit_region<F: Fn(Point3, Voxel) -> Voxel>(&mut self, extent: &Extent3, f: &F)
        requires
            old(self).wf(),
            extent.wf(),
            forall|q: Point3, v: Voxel| extent.contains(q) ==> call_requires(*f, (q, v)),
        ensures
            Self::edited(old(self), final(self), *extent, *f),
    {
        let edge = self.edge;
        let ghost ext = *extent;
        let ghost e = edge as int;
        let ghost before = *self;
        if extent.shape.x <= 0 || extent.shape.y <= 0 || extent.shape.z <= 0 {
            proof {
                assert forall|c: ChunkCoordinate| !ext.touches_chunk(c, e) by {
                    ext.lemma_touches_chunk(c, e);
                }
            }
            return ;
        }
        let lo_x = floor_div(extent.minimum.x, edge);
        let lo_y = floor_div(extent.minimum.y, edge);
        let lo_z = floor_div(extent.minimum.z, edge);
        let hi_x = floor_div(extent.minimum.x + (extent.shape.x - 1), edge);
        let hi_y = floor_div(extent.minimum.y + (extent.shape.y - 1), edge);
        let hi_z = floor_div(extent.minimum.z + (extent.shape.z - 1), edge);
        proof {
            lemma_floor_monotonic(
                extent.minimum.x as int,
                extent.minimum.x + extent.shape.x - 1,
                e,
            );
            lemma_floor_monotonic(
                extent.minimum.y as int,
                extent.minimum.y + extent.shape.y - 1,
                e,
            );
            lemma_floor_monotonic(
                extent.minimum.z as int,
                extent.minimum.z + extent.shape.z - 1,
                e,
            );
        }
        let mut z: i64 = lo_z as i64;
        while z <= hi_z as i64
            invariant
                self.wf(),
                before.wf(),
                ext == *extent,
                e == edge as int,
                e == before.edge(),
                0 < edge <= 1024,
                extent.wf(),
                extent.shape.x > 0 && extent.shape.y > 0 && extent.shape.z > 0,
                lo_x == extent.minimum.x as int / e,
                lo_y == extent.minimum.y as int / e,
                lo_z == extent.minimum.z as int / e,
                hi_x == (extent.minimum.x + extent.shape.x - 1) / e,
                hi_y == (extent.minimum.y + extent.shape.y - 1) / e,
                hi_z == (extent.minimum.z + extent.shape.z - 1) / e,
                lo_x <= hi_x && lo_y <= hi_y && lo_z <= hi_z,
                lo_z <= z <= hi_z + 1,
                forall|q: Point3, v: Voxel| extent.contains(q) ==> call_requires(*f, (q, v)),
                region_progress(&before, self, ext, *f, z as int, lo_y as int, lo_x as int),
            decreases hi_z - z + 1,
        {
            let mut y: i64 = lo_y as i64;
            while y <= hi_y as i64
                invariant
                    self.wf(),
                    before.wf(),
                    ext == *extent,
                    e == edge as int,
                    e == before.edge(),
                    0 < edge <= 1024,
                    extent.wf(),
                    extent.shape.x > 0 && extent.shape.y > 0 && extent.shape.z > 0,
                    lo_x == extent.minimum.x as int / e,
                    lo_y == extent.minimum.y as int / e,
                    lo_z == extent.minimum.z as int / e,
                    hi_x == (extent.minimum.x + extent.shape.x - 1) / e,
                    hi_y == (extent.minimum.y + extent.shape.y - 1) / e,
                    hi_z == (extent.minimum.z + extent.shape.z - 1) / e,
                    lo_x <= hi_x && lo_y <= hi_y && lo_z <= hi_z,
                    lo_z <= z <= hi_z,
                    lo_y <= y <= hi_y + 1,
                    forall|q: Point3, v: Voxel| extent.contains(q) ==> call_requires(*f, (q, v)),
                    region_progress(&before, self, ext, *f, z as int, y as int, lo_x as int),
                decreases hi_y - y + 1,
            {
                let mut x: i64 = lo_x as i64;
                while x <= hi_x as i64
                    invariant
                        self.wf(),
                        before.wf(),
                        ext == *extent,
                        e == edge as int,
                        e == before.edge(),
                        0 < edge <= 1024,
                        extent.wf(),
                        extent.shape.x > 0 && extent.shape.y > 0 && extent.shape.z > 0,
                        lo_x == extent.minimum.x as int / e,
                        lo_y == extent.minimum.y as int / e,
                        lo_z == extent.minimum.z as int / e,
                        hi_x == (extent.minimum.x + extent.shape.x - 1) / e,
                        hi_y == (extent.minimum.y + extent.shape.y - 1) / e,
                        hi_z == (extent.minimum.z + extent.shape.z - 1) / e,
                        lo_x <= hi_x && lo_y <= hi_y && lo_z <= hi_z,
                        lo_z <= z <= hi_z,
                        lo_y <= y <= hi_y,
                        lo_x <= x <= hi_x + 1,
                        forall|q: Point3, v: Voxel|
                            extent.contains(q) ==> call_requires(*f, (q, v)),
                        region_progress(&before, self, ext, *f, z as int, y as int, x as int),
                    decreases hi_x - x + 1,
                {
                    let d = ChunkCoordinate { x: x as i32, y: y as i32, z: z as i32 };
                    let part = clip_to_chunk(extent, d, edge);
                    let ghost now = *self;
                    self.edit_chunk(d, &part, f);
                    proof {
                        lemma_region_step(&before, &now, self, ext, part, *f, d);
                    }
                    x += 1;
                }
                proof {
                    lemma_region_same(
                        &before,
                        self,
                        ext,
                        *f,
                        z as int,
                        y as int,
                        x as int,
                        z as int,
                        y as int + 1,
                        lo_x as int,
                    );
                }
                y += 1;
            }
            proof {
                lemma_region_same(
                    &before,
                    self,
                    ext,
                    *f,
                    z as int,
                    y as int,
                    lo_x as int,
                    z as int + 1,
                    lo_y as int,
                    lo_x as int,
                );
            }
            z += 1;
        }
        proof {
            lemma_region_end(&before, self, ext, *f, z as int, lo_y as int, lo_x as int);
        }
    }
}

impl VoxelVolume {
    /// Edits `extent` as `edit_region` does, and records as dirty every chunk
    /// that the extent touches and every chunk that shares a face with one
    /// of those, edited or not: a mesh reads one voxel beyond its chunk.
    pub fn edit_region_and_touch_neighbors<F: Fn(Point3, Voxel) -> Voxel>(
        &mut self,
        extent: &Extent3,
        f: &F,
        tracker: &mut DirtyTracker,
    )
        requires
            old(self).wf(),
            old(tracker).wf(),
            extent.wf(),
            forall|q: Point3, v: Voxel| extent.contains(q) ==> call_requires(*f, (q, v)),
        ensures
            Self::edited(old(self), final(self), *extent, *f),
            final(tracker).wf(),
            final(tracker)@ == old(tracker)@.union(touch_set(*extent, old(self).edge(), true)),
    {
        self.edit_region(extent, f);
        tracker.touch_extent(extent, self.edge, true);
    }
}

/// Writing a voxel, compressing its chunk and reading the voxel back gives
/// the voxel that was written.
pub proof fn law_compression_round_trip(
    before: &VoxelVolume,
    written: &VoxelVolume,
    compressed: &VoxelVolume,
    p: Point3,
    v: Voxel,
)
    requires
        before.wf(),
        VoxelVolume::written(before, written, p, v),
        VoxelVolume::compressed(written, compressed, chunk_of(p, written.edge())),
    ensures
        compressed.voxel_at(p) == v,
        compressed.state(chunk_of(p, before.edge())) == ChunkState::Cold,
{
    assert(written.voxel_at(p) == v);
    assert(written.state(chunk_of(p, before.edge())) == ChunkState::Hot);
}

/// Reading a point whose chunk was never allocated gives the ambient voxel,
/// and a write elsewhere does not change that.
pub proof fn law_untouched_reads_ambient(
    before: &VoxelVolume,
    after: &VoxelVolume,
    p: Point3,
    v: Voxel,
    q: Point3,
)
    requires
        before.wf(),
        VoxelVolume::written(before, after, p, v),
        before.state(chunk_of(q, before.edge())) == ChunkState::Absent,
        q != p,
    ensures
        before.voxel_at(q) == before.ambient(),
        after.voxel_at(q) == after.ambient(),
{
    before.lemma_absent_reads_ambient(q);
    assert(after.voxel_at(q) == before.voxel_at(q));
}

} // verus!
