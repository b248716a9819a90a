//! The record of chunks whose published geometry is stale.

use crate::lattice::{chunk_of, floor_div, lemma_in_chunk, ChunkCoordinate, Extent3, Point3};
use vstd::prelude::*;

verus! {

/// Chunk `c` and the chunks that share a face with it.
pub open spec fn with_face_neighbors(c: ChunkCoordinate) -> Set<ChunkCoordinate> {
    Set::new(|n: ChunkCoordinate| n == c || c.is_face_neighbor(n))
}

/// `marked` with chunk `c` recorded: at the end, unless it is recorded
/// already.
pub open spec fn mark_seq(marked: Seq<ChunkCoordinate>, c: ChunkCoordinate) -> Seq<ChunkCoordinate> {
    if marked.contains(c) {
        marked
    } else {
        marked.push(c)
    }
}

/// `marked` with chunk `c` recorded if `wanted` is set.
pub open spec fn mark_if(wanted: bool, marked: Seq<ChunkCoordinate>, c: ChunkCoordinate) -> Seq<
    ChunkCoordinate,
> {
    if wanted {
        mark_seq(marked, c)
    } else {
        marked
    }
}

/// `marked` with chunk `c` and its face neighbours recorded: `c` first, then
/// the neighbours along `x`, `y` and `z`, on each axis the one above before
/// the one below. Neighbours outside the lattice are left out.
pub open spec fn mark_around(marked: Seq<ChunkCoordinate>, c: ChunkCoordinate) -> Seq<
    ChunkCoordinate,
> {
    let s0 = mark_seq(marked, c);
    let s1 = mark_if(c.x < i32::MAX, s0, ChunkCoordinate { x: (c.x + 1) as i32, y: c.y, z: c.z });
    let s2 = mark_if(c.x > i32::MIN, s1, ChunkCoordinate { x: (c.x - 1) as i32, y: c.y, z: c.z });
    let s3 = mark_if(c.y < i32::MAX, s2, ChunkCoordinate { x: c.x, y: (c.y + 1) as i32, z: c.z });
    let s4 = mark_if(c.y > i32::MIN, s3, ChunkCoordinate { x: c.x, y: (c.y - 1) as i32, z: c.z });
    let s5 = mark_if(c.z < i32::MAX, s4, ChunkCoordinate { x: c.x, y: c.y, z: (c.z + 1) as i32 });
    mark_if(c.z > i32::MIN, s5, ChunkCoordinate { x: c.x, y: c.y, z: (c.z - 1) as i32 })
}

/// The set of chunks that must be meshed again.
pub struct DirtyTracker {
    chunks: Vec<ChunkCoordinate>,
}

impl DirtyTracker {
    /// The dirty chunks in the order in which they became dirty.
    pub closed spec fn marked(&self) -> Seq<ChunkCoordinate> {
        self.chunks@
    }

    /// The dirty chunks.
    pub open spec fn view(&self) -> Set<ChunkCoordinate> {
        Set::new(|c: ChunkCoordinate| self.marked().contains(c))
    }

    /// No chunk is recorded twice.
    pub open spec fn wf(&self) -> bool {
        self.marked().no_duplicates()
    }

    /// A tracker with no dirty chunk.
    pub fn new() -> (t: DirtyTracker)
        ensures
            t.wf(),
            t.marked() == Seq::<ChunkCoordinate>::empty(),
            t@ == Set::<ChunkCoordinate>::empty(),
    {
        let t = DirtyTracker { chunks: Vec::new() };
        assert(t@ =~= Set::<ChunkCoordinate>::empty());
        t
    }

    /// The number of dirty chunks.
    pub fn len(&self) -> (n: usize)
        requires
            self.wf(),
        ensures
            n == self@.len(),
            self@.finite(),
    {
        proof {
            self.chunks@.unique_seq_to_set();
            assert(self@ =~= self.chunks@.to_set());
        }
        self.chunks.len()
    }

    /// Whether chunk `c` is dirty.
    pub fn is_dirty(&self, c: ChunkCoordinate) -> (b: bool)
        ensures
            b == self@.contains(c),
    {
        let mut i: usize = 0;
        while i < self.chunks.len()
            invariant
                i <= self.chunks.len(),
                forall|j: int| 0 <= j < i ==> self.chunks@[j] != c,
            decreases self.chunks.len() - i,
        {
            if self.chunks[i] == c {
                return true;
            }
            i += 1;
        }
        false
    }

    /// Records chunk `c` as dirty.
    pub fn mark(&mut self, c: ChunkCoordinate)
        requires
            old(self).wf(),
        ensures
            final(self).wf(),
            final(self)@ == old(self)@.insert(c),
            final(self).marked() == mark_seq(old(self).marked(), c),
    {
        if !self.is_dirty(c) {
            self.chunks.push(c);
            proof {
                assert forall|d: ChunkCoordinate|
                    self.chunks@.contains(d) <==> (old(self).chunks@.contains(d) || d == c) by {
                    if old(self).chunks@.contains(d) {
                        let j = choose|j: int|
                            0 <= j < old(self).chunks@.len() && old(self).chunks@[j] == d;
                        assert(self.chunks@[j] == d);
                    }
                    if d == c {
                        assert(self.chunks@[self.chunks@.len() - 1] == c);
                    }
                }
            }
        }
        assert(self@ =~= old(self)@.insert(c));
    }

    /// Records chunk `c` and every chunk that shares a face with it as dirty.
    pub fn mark_with_neighbors(&mut self, c: ChunkCoordinate)
        requires
            old(self).wf(),
        ensures
            final(self).wf(),
            final(self)@ == old(self)@.union(with_face_neighbors(c)),
            final(self).marked() == mark_around(old(self).marked(), c),
    {
        self.mark(c);
        if c.x < i32::MAX {
            self.mark(ChunkCoordinate { x: c.x + 1, y: c.y, z: c.z });
        }
        if c.x > i32::MIN {
            self.mark(ChunkCoordinate { x: c.x - 1, y: c.y, z: c.z });
        }
        if c.y < i32::MAX {
            self.mark(ChunkCoordinate { x: c.x, y: c.y + 1, z: c.z });
        }
        if c.y > i32::MIN {
            self.mark(ChunkCoordinate { x: c.x, y: c.y - 1, z: c.z });
        }
        if c.z < i32::MAX {
            self.mark(ChunkCoordinate { x: c.x, y: c.y, z: c.z + 1 });
        }
        if c.z > i32::MIN {
            self.mark(ChunkCoordinate { x: c.x, y: c.y, z: c.z - 1 });
        }
        assert(self@ =~= old(self)@.union(with_face_neighbors(c)));
    }

    /// Hands out the dirty chunks, each once, and forgets them.
    pub fn take(&mut self) -> (chunks: Vec<ChunkCoordinate>)
        requires
            old(self).wf(),
        ensures
            final(self).wf(),
            final(self).marked() == Seq::<ChunkCoordinate>::empty(),
            final(self)@ == Set::<ChunkCoordinate>::empty(),
            chunks@ == old(self).marked(),
            chunks@.no_duplicates(),
            forall|c: ChunkCoordinate| chunks@.contains(c) <==> old(self)@.contains(c),
    {
        let mut chunks: Vec<ChunkCoordinate> = Vec::new();
        std::mem::swap(&mut chunks, &mut self.chunks);
        assert(self@ =~= Set::<ChunkCoordinate>::empty());
        chunks
    }
}

/// Whether marking chunk `d`, with its face neighbours if `neighbors` is set,
/// marks chunk `c`.
pub open spec fn marks(d: ChunkCoordinate, c: ChunkCoordinate, neighbors: bool) -> bool {
    c == d || (neighbors && d.is_face_neighbor(c))
}

/// The chunks that an edit of `extent` makes dirty: every chunk that the
/// extent touches and, if `neighbors` is set, every chunk that shares a face
/// with one of those.
pub open spec fn touch_set(extent: Extent3, edge: int, neighbors: bool) -> Set<ChunkCoordinate> {
    Set::new(
        |c: ChunkCoordinate|
            exists|d: ChunkCoordinate| #[trigger]
                extent.touches_chunk(d, edge) && marks(d, c, neighbors),
    )
}

/// Whether a walk over the chunk box of `extent`, standing at chunk
/// `(x, y, z)`, has passed chunk `d`.
pub open spec fn box_passed(
    extent: Extent3,
    edge: int,
    z: int,
    y: int,
    x: int,
    d: ChunkCoordinate,
) -> bool {
    extent.chunk_box_contains(d, edge) && (d.z < z || (d.z == z && (d.y < y || (d.y == y && d.x
        < x))))
}

/// The chunks marked when the walk stands at `(x, y, z)`.
pub open spec fn marked_upto(
    extent: Extent3,
    edge: int,
    neighbors: bool,
    z: int,
    y: int,
    x: int,
) -> Set<ChunkCoordinate> {
    Set::new(
        |c: ChunkCoordinate|
            exists|d: ChunkCoordinate| #[trigger]
                box_passed(extent, edge, z, y, x, d) && marks(d, c, neighbors),
    )
}

/// Two positions of the walk that have passed the same chunks have marked
/// the same chunks.
proof fn lemma_marked_same(
    extent: Extent3,
    edge: int,
    neighbors: bool,
    z1: int,
    y1: int,
    x1: int,
    z2: int,
    y2: int,
    x2: int,
)
    requires
        forall|d: ChunkCoordinate|
            box_passed(extent, edge, z1, y1, x1, d) == box_passed(extent, edge, z2, y2, x2, d),
    ensures
        marked_upto(extent, edge, neighbors, z1, y1, x1) == marked_upto(
            extent,
            edge,
            neighbors,
            z2,
            y2,
            x2,
        ),
{
    let a = marked_upto(extent, edge, neighbors, z1, y1, x1);
    let b = marked_upto(extent, edge, neighbors, z2, y2, x2);
    assert forall|c: ChunkCoordinate| a.contains(c) == b.contains(c) by {
        if a.contains(c) {
            let d = choose|d: ChunkCoordinate| #[trigger]
                box_passed(extent, edge, z1, y1, x1, d) && marks(d, c, neighbors);
            assert(box_passed(extent, edge, z2, y2, x2, d));
        }
        if b.contains(c) {
            let d = choose|d: ChunkCoordinate| #[trigger]
                box_passed(extent, edge, z2, y2, x2, d) && marks(d, c, neighbors);
            assert(box_passed(extent, edge, z1, y1, x1, d));
        }
    }
    assert(a =~= b);
}

/// Marking the chunk at the walk's position moves the walk one chunk on.
proof fn lemma_marked_step(
    extent: Extent3,
    edge: int,
    neighbors: bool,
    d0: ChunkCoordinate,
)
    requires
        extent.chunk_box_contains(d0, edge),
    ensures
        marked_upto(extent, edge, neighbors, d0.z as int, d0.y as int, d0.x as int + 1)
            == marked_upto(extent, edge, neighbors, d0.z as int, d0.y as int, d0.x as int).union(
            Set::new(|c: ChunkCoordinate| marks(d0, c, neighbors)),
        ),
{
    let (z, y, x) = (d0.z as int, d0.y as int, d0.x as int);
    let a = marked_upto(extent, edge, neighbors, z, y, x + 1);
    let b = marked_upto(extent, edge, neighbors, z, y, x).union(
        Set::new(|c: ChunkCoordinate| marks(d0, c, neighbors)),
    );
    assert forall|c: ChunkCoordinate| a.contains(c) == b.contains(c) by {
        if a.contains(c) {
            let d = choose|d: ChunkCoordinate| #[trigger]
                box_passed(extent, edge, z, y, x + 1, d) && marks(d, c, neighbors);
            if d != d0 {
                assert(box_passed(extent, edge, z, y, x, d));
            }
        }
        if marked_upto(extent, edge, neighbors, z, y, x).contains(c) {
            let d = choose|d: ChunkCoordinate| #[trigger]
                box_passed(extent, edge, z, y, x, d) && marks(d, c, neighbors);
            assert(box_passed(extent, edge, z, y, x + 1, d));
        }
        if marks(d0, c, neighbors) {
            assert(box_passed(extent, edge, z, y, x + 1, d0));
        }
    }
    assert(a =~= b);
}

/// A walk that has passed the whole chunk box has marked the touch set.
proof fn lemma_marked_end(extent: Extent3, edge: int, neighbors: bool, z: int, y: int, x: int)
    requires
        extent.wf(),
        edge > 0,
        forall|d: ChunkCoordinate|
            box_passed(extent, edge, z, y, x, d) == extent.chunk_box_contains(d, edge),
    ensures
        marked_upto(extent, edge, neighbors, z, y, x) == touch_set(extent, edge, neighbors),
{
    let a = marked_upto(extent, edge, neighbors, z, y, x);
    let b = touch_set(extent, edge, neighbors);
    assert forall|c: ChunkCoordinate| a.contains(c) == b.contains(c) by {
        if a.contains(c) {
            let d = choose|d: ChunkCoordinate| #[trigger]
                box_passed(extent, edge, z, y, x, d) && marks(d, c, neighbors);
            extent.lemma_touches_chunk(d, edge);
            assert(extent.touches_chunk(d, edge) && marks(d, c, neighbors));
        }
        if b.contains(c) {
            let d = choose|d: ChunkCoordinate| #[trigger]
                extent.touches_chunk(d, edge) && marks(d, c, neighbors);
            extent.lemma_touches_chunk(d, edge);
            assert(box_passed(extent, edge, z, y, x, d));
        }
    }
    assert(a =~= b);
}

impl DirtyTracker {
    /// Records as dirty every chunk that `extent` touches and, if `neighbors`
    /// is set, every chunk that shares a face with one of them.
    pub fn touch_extent(&mut self, extent: &Extent3, edge: i32, neighbors: bool)
        requires
            old(self).wf(),
            extent.wf(),
            edge > 0,
        ensures
            final(self).wf(),
            final(self)@ == old(self)@.union(touch_set(*extent, edge as int, neighbors)),
    {
        let ghost ext = *extent;
        let ghost e = edge as int;
        if extent.shape.x <= 0 || extent.shape.y <= 0 || extent.shape.z <= 0 {
            proof {
                assert forall|c: ChunkCoordinate| !touch_set(ext, e, neighbors).contains(c) by {
                    if touch_set(ext, e, neighbors).contains(c) {
                        let d = choose|d: ChunkCoordinate| #[trigger]
                            ext.touches_chunk(d, e) && marks(d, c, neighbors);
                        ext.lemma_touches_chunk(d, e);
                    }
                }
                assert(self@ =~= old(self)@.union(touch_set(ext, e, neighbors)));
            }
            return ;
        }
        let lo_x = floor_div(extent.minimum.x, edge);
        let lo_y = floor_div(extent.minimum.y, edge);
        let lo_z = floor_div(extent.minimum.z, edge);
        let hi_x = floor_div(extent.minimum.x + (extent.shape.x - 1), edge);
        let hi_y = floor_div(extent.minimum.y + (extent.shape.y - 1), edge);
        let hi_z = floor_div(extent.minimum.z + (extent.shape.z - 1), edge);
        proof {
            crate::lattice::lemma_floor_monotonic(
                extent.minimum.x as int,
                extent.minimum.x + extent.shape.x - 1,
                e,
            );
            crate::lattice::lemma_floor_monotonic(
                extent.minimum.y as int,
                extent.minimum.y + extent.shape.y - 1,
                e,
            );
            crate::lattice::lemma_floor_monotonic(
                extent.minimum.z as int,
                extent.minimum.z + extent.shape.z - 1,
                e,
            );
            assert(marked_upto(ext, e, neighbors, lo_z as int, lo_y as int, lo_x as int)
                =~= Set::<ChunkCoordinate>::empty());
            assert(self@ =~= old(self)@.union(
                marked_upto(ext, e, neighbors, lo_z as int, lo_y as int, lo_x as int),
            ));
        }
        let mut z: i64 = lo_z as i64;
        while z <= hi_z as i64
            invariant
                self.wf(),
                ext == *extent,
                e == edge as int,
                extent.wf(),
                edge > 0,
                extent.shape.x > 0 && extent.shape.y > 0 && extent.shape.z > 0,
                lo_x == extent.minimum.x as int / e,
                lo_y == extent.minimum.y as int / e,
                lo_z == extent.minimum.z as int / e,
                hi_x == (extent.minimum.x + extent.shape.x - 1) / e,
                hi_y == (extent.minimum.y + extent.shape.y - 1) / e,
                hi_z == (extent.minimum.z + extent.shape.z - 1) / e,
                lo_x <= hi_x && lo_y <= hi_y && lo_z <= hi_z,
                lo_z <= z <= hi_z + 1,
                self@ == old(self)@.union(
                    marked_upto(ext, e, neighbors, z as int, lo_y as int, lo_x as int),
                ),
            decreases hi_z - z + 1,
        {
            let mut y: i64 = lo_y as i64;
            while y <= hi_y as i64
                invariant
                    self.wf(),
                    ext == *extent,
                    e == edge as int,
                    extent.wf(),
                    edge > 0,
                    extent.shape.x > 0 && extent.shape.y > 0 && extent.shape.z > 0,
                    lo_x == extent.minimum.x as int / e,
                    lo_y == extent.minimum.y as int / e,
                    lo_z == extent.minimum.z as int / e,
                    hi_x == (extent.minimum.x + extent.shape.x - 1) / e,
                    hi_y == (extent.minimum.y + extent.shape.y - 1) / e,
                    hi_z == (extent.minimum.z + extent.shape.z - 1) / e,
                    lo_x <= hi_x && lo_y <= hi_y && lo_z <= hi_z,
                lo_x <= hi_x && lo_y <= hi_y && lo_z <= hi_z,
                    lo_z <= z <= hi_z,
                    lo_y <= y <= hi_y + 1,
                    self@ == old(self)@.union(
                        marked_upto(ext, e, neighbors, z as int, y as int, lo_x as int),
                    ),
                decreases hi_y - y + 1,
            {
                let mut x: i64 = lo_x as i64;
                while x <= hi_x as i64
                    invariant
                        self.wf(),
                        ext == *extent,
                        e == edge as int,
                        extent.wf(),
                        edge > 0,
                        extent.shape.x > 0 && extent.shape.y > 0 && extent.shape.z > 0,
                        lo_x == extent.minimum.x as int / e,
                        lo_y == extent.minimum.y as int / e,
                        lo_z == extent.minimum.z as int / e,
                        hi_x == (extent.minimum.x + extent.shape.x - 1) / e,
                        hi_y == (extent.minimum.y + extent.shape.y - 1) / e,
                        hi_z == (extent.minimum.z + extent.shape.z - 1) / e,
                        lo_x <= hi_x && lo_y <= hi_y && lo_z <= hi_z,
                    lo_x <= hi_x && lo_y <= hi_y && lo_z <= hi_z,
                lo_x <= hi_x && lo_y <= hi_y && lo_z <= hi_z,
                        lo_z <= z <= hi_z,
                        lo_y <= y <= hi_y,
                        lo_x <= x <= hi_x + 1,
                        self@ == old(self)@.union(
                            marked_upto(ext, e, neighbors, z as int, y as int, x as int),
                        ),
                    decreases hi_x - x + 1,
                {
                    let d = ChunkCoordinate { x: x as i32, y: y as i32, z: z as i32 };
                    let ghost prev = self@;
                    if neighbors {
                        self.mark_with_neighbors(d);
                    } else {
                        self.mark(d);
                    }
                    proof {
                        assert(self@ =~= prev.union(
                            Set::new(|c: ChunkCoordinate| marks(d, c, neighbors)),
                        ));
                        lemma_marked_step(ext, e, neighbors, d);
                        assert(self@ =~= old(self)@.union(
                            marked_upto(ext, e, neighbors, z as int, y as int, x as int + 1),
                        ));
                    }
                    x += 1;
                }
                proof {
                    lemma_marked_same(
                        ext,
                        e,
                        neighbors,
                        z as int,
                        y as int,
                        x as int,
                        z as int,
                        y as int + 1,
                        lo_x as int,
                    );
                }
                y += 1;
            }
            proof {
                lemma_marked_same(
                    ext,
                    e,
                    neighbors,
                    z as int,
                    y as int,
                    lo_x as int,
                    z as int + 1,
                    lo_y as int,
                    lo_x as int,
                );
            }
            z += 1;
        }
        proof {
            lemma_marked_end(ext, e, neighbors, z as int, lo_y as int, lo_x as int);
        }
    }
}

/// Whether voxels `p` and `q` share a face: they are one step apart along
/// exactly one axis.
pub open spec fn voxels_adjacent(p: Point3, q: Point3) -> bool {
    let dx = q.x - p.x;
    let dy = q.y - p.y;
    let dz = q.z - p.z;
    ||| (dy == 0 && dz == 0 && (dx == 1 || dx == -1))
    ||| (dx == 0 && dz == 0 && (dy == 1 || dy == -1))
    ||| (dx == 0 && dy == 0 && (dz == 1 || dz == -1))
}

/// A value one step from `v` lies in the interval of `v` or in the one next
/// to it.
proof fn lemma_step_chunk(v: int, w: int, edge: int)
    requires
        edge > 0,
        w == v + 1 || w == v - 1,
    ensures
        w / edge == v / edge || (w == v + 1 && w / edge == v / edge + 1) || (w == v - 1 && w
            / edge == v / edge - 1),
{
    let c = v / edge;
    lemma_in_chunk(v, c, edge);
    lemma_in_chunk(w, c, edge);
    lemma_in_chunk(w, c + 1, edge);
    lemma_in_chunk(w, c - 1, edge);
    assert((c + 1) * edge == c * edge + edge && (c - 1) * edge == c * edge - edge)
        by (nonlinear_arith);
}

/// Marking the chunk of an edited voxel with its face neighbours marks the
/// chunk of every voxel that shares a face with the edited one: an edit on a
/// boundary face of a chunk makes the chunk across that face dirty too.
pub proof fn law_neighbor_touch(p: Point3, q: Point3, edge: int)
    requires
        edge > 0,
        voxels_adjacent(p, q),
    ensures
        with_face_neighbors(chunk_of(p, edge)).contains(chunk_of(p, edge)),
        with_face_neighbors(chunk_of(p, edge)).contains(chunk_of(q, edge)),
{
    crate::lattice::lemma_component_bounds(p.x as int, edge);
    crate::lattice::lemma_component_bounds(p.y as int, edge);
    crate::lattice::lemma_component_bounds(p.z as int, edge);
    crate::lattice::lemma_component_bounds(q.x as int, edge);
    crate::lattice::lemma_component_bounds(q.y as int, edge);
    crate::lattice::lemma_component_bounds(q.z as int, edge);
    if q.x != p.x {
        lemma_step_chunk(p.x as int, q.x as int, edge);
    }
    if q.y != p.y {
        lemma_step_chunk(p.y as int, q.y as int, edge);
    }
    if q.z != p.z {
        lemma_step_chunk(p.z as int, q.z as int, edge);
    }
}

/// The extent that holds the voxel `p` alone.
pub open spec fn single_voxel(p: Point3) -> Extent3 {
    Extent3 { minimum: p, shape: Point3 { x: 1, y: 1, z: 1 } }
}

/// An edit of one voxel touches the chunk of that voxel and no other; with
/// neighbours, it makes that chunk and the six chunks around it dirty.
pub proof fn law_single_voxel_touch(p: Point3, edge: int)
    requires
        edge > 0,
    ensures
        touch_set(single_voxel(p), edge, false) == Set::<ChunkCoordinate>::empty().insert(
            chunk_of(p, edge),
        ),
        touch_set(single_voxel(p), edge, true) == with_face_neighbors(chunk_of(p, edge)),
{
    let ext = single_voxel(p);
    let c0 = chunk_of(p, edge);
    assert(ext.contains(p));
    assert forall|d: ChunkCoordinate| ext.touches_chunk(d, edge) <==> d == c0 by {
        if ext.touches_chunk(d, edge) {
            let q = choose|q: Point3| #[trigger] ext.contains(q) && chunk_of(q, edge) == d;
            assert(q == p);
        }
    }
    assert forall|c: ChunkCoordinate|
        touch_set(ext, edge, false).contains(c) <==> c == c0 by {
        if touch_set(ext, edge, false).contains(c) {
            let d = choose|d: ChunkCoordinate| #[trigger]
                ext.touches_chunk(d, edge) && marks(d, c, false);
        }
        if c == c0 {
            assert(ext.touches_chunk(c0, edge) && marks(c0, c, false));
        }
    }
    assert forall|c: ChunkCoordinate|
        touch_set(ext, edge, true).contains(c) <==> with_face_neighbors(c0).contains(c) by {
        if touch_set(ext, edge, true).contains(c) {
            let d = choose|d: ChunkCoordinate| #[trigger]
                ext.touches_chunk(d, edge) && marks(d, c, true);
        }
        if with_face_neighbors(c0).contains(c) {
            assert(ext.touches_chunk(c0, edge) && marks(c0, c, true));
        }
    }
    assert(touch_set(ext, edge, false) =~= Set::<ChunkCoordinate>::empty().insert(c0));
    assert(touch_set(ext, edge, true) =~= with_face_neighbors(c0));
}

/// What an edit makes dirty, chunk by chunk: every chunk that the extent
/// touches is dirty, and with neighbours every chunk that shares a face with
/// one of those is dirty too, whether it was edited or not.
pub proof fn law_touch_covers(
    extent: Extent3,
    edge: int,
    d: ChunkCoordinate,
    n: ChunkCoordinate,
)
    requires
        extent.touches_chunk(d, edge),
    ensures
        touch_set(extent, edge, false).contains(d),
        touch_set(extent, edge, true).contains(d),
        d.is_face_neighbor(n) ==> touch_set(extent, edge, true).contains(n),
{
    assert(extent.touches_chunk(d, edge) && marks(d, d, false));
    assert(extent.touches_chunk(d, edge) && marks(d, d, true));
    if d.is_face_neighbor(n) {
        assert(extent.touches_chunk(d, edge) && marks(d, n, true));
    }
}

} // verus!
