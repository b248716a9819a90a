//! Points, extents and chunk arithmetic on the integer lattice.

use vstd::prelude::*;

verus! {

/// A point of the integer lattice, in voxel units.
#[derive(Clone, Copy, Debug, PartialEq, Eq, Hash, Structural)]
pub struct Point3 {
    pub x: i32,
    pub y: i32,
    pub z: i32,
}

/// The position of a chunk in chunk units: the chunk at coordinate `c` holds
/// the voxels whose coordinates lie in `[c * edge, c * edge + edge)` on each
/// axis.
#[derive(Clone, Copy, Debug, PartialEq, Eq, Hash, Structural)]
pub struct ChunkCoordinate {
    pub x: i32,
    pub y: i32,
    pub z: i32,
}

/// An axis-aligned box of lattice points: the half-open interval
/// `[minimum, minimum + shape)` on each axis.
#[derive(Clone, Copy, Debug, PartialEq, Eq, Hash, Structural)]
pub struct Extent3 {
    pub minimum: Point3,
    pub shape: Point3,
}

/// The largest chunk edge length the store accepts.
pub const MAX_CHUNK_EDGE: i32 = 1024;

/// Chunk edges are powers of two up to `MAX_CHUNK_EDGE`.
pub open spec fn valid_chunk_edge(edge: int) -> bool {
    edge == 1 || edge == 2 || edge == 4 || edge == 8 || edge == 16 || edge == 32 || edge == 64
        || edge == 128 || edge == 256 || edge == 512 || edge == 1024
}

/// Whether `edge` is a valid chunk edge.
pub fn is_valid_chunk_edge(edge: i32) -> (ok: bool)
    ensures
        ok == valid_chunk_edge(edge as int),
{
    edge == 1 || edge == 2 || edge == 4 || edge == 8 || edge == 16 || edge == 32 || edge == 64
        || edge == 128 || edge == 256 || edge == 512 || edge == 1024
}

/// The largest multiple of `modulo` that is at most `v`.
pub open spec fn round_down(v: int, modulo: int) -> int {
    (v / modulo) * modulo
}

/// The smallest multiple of `modulo` that is at least `v`.
pub open spec fn round_up(v: int, modulo: int) -> int {
    -((-v) / modulo) * modulo
}

/// `round_down` is the greatest multiple of `modulo` below or at `v`, and
/// `round_up` the least one at or above it.
pub proof fn lemma_rounding(v: int, modulo: int)
    requires
        modulo > 0,
    ensures
        round_down(v, modulo) <= v < round_down(v, modulo) + modulo,
        round_up(v, modulo) - modulo < v <= round_up(v, modulo),
        round_down(v, modulo) % modulo == 0,
        round_up(v, modulo) % modulo == 0,
        v % modulo == 0 ==> round_down(v, modulo) == v && round_up(v, modulo) == v,
{
    vstd::arithmetic::div_mod::lemma_fundamental_div_mod(v, modulo);
    vstd::arithmetic::div_mod::lemma_fundamental_div_mod(-v, modulo);
    vstd::arithmetic::div_mod::lemma_mod_bound(v, modulo);
    vstd::arithmetic::div_mod::lemma_mod_bound(-v, modulo);
    vstd::arithmetic::div_mod::lemma_mod_multiples_basic(v / modulo, modulo);
    vstd::arithmetic::div_mod::lemma_mod_multiples_basic(-((-v) / modulo), modulo);
    assert(modulo * (v / modulo) == (v / modulo) * modulo) by (nonlinear_arith);
    assert(modulo * ((-v) / modulo) == ((-v) / modulo) * modulo) by (nonlinear_arith);
    assert(-((-v) / modulo) * modulo == -(((-v) / modulo) * modulo)) by (nonlinear_arith);
    if v % modulo == 0 {
        assert((-v) % modulo == 0) by {
            vstd::arithmetic::div_mod::lemma_mod_multiples_basic(-(v / modulo), modulo);
            assert(-v == (-(v / modulo)) * modulo) by (nonlinear_arith)
                requires
                    v == modulo * (v / modulo) + v % modulo,
                    v % modulo == 0,
            ;
        }
    }
}

/// Floor division by a positive divisor.
pub fn floor_div(v: i32, modulo: i32) -> (q: i32)
    requires
        modulo > 0,
    ensures
        q == v as int / modulo as int,
{
    assert(i32::MIN <= v as int / modulo as int <= i32::MAX) by (nonlinear_arith)
        requires
            modulo > 0,
            i32::MIN <= v <= i32::MAX,
    ;
    match v.checked_div_euclid(modulo) {
        Some(q) => q,
        None => 0,
    }
}

/// The remainder of floor division by a positive divisor, in `[0, modulo)`.
pub fn floor_mod(v: i32, modulo: i32) -> (r: i32)
    requires
        modulo > 0,
    ensures
        r == v as int % modulo as int,
        0 <= r < modulo,
{
    proof {
        vstd::arithmetic::div_mod::lemma_mod_bound(v as int, modulo as int);
    }
    match v.checked_rem_euclid(modulo) {
        Some(r) => r,
        None => 0,
    }
}

/// Rounds `v` down to a multiple of `modulo`.
pub fn modulo_down(v: i32, modulo: i32) -> (r: i32)
    requires
        modulo > 0,
        round_down(v as int, modulo as int) >= i32::MIN,
    ensures
        r == round_down(v as int, modulo as int),
{
    proof {
        lemma_rounding(v as int, modulo as int);
    }
    let q = floor_div(v, modulo);
    q * modulo
}

/// Rounds `v` up to a multiple of `modulo`.
pub fn modulo_up(v: i32, modulo: i32) -> (r: i32)
    requires
        modulo > 0,
        round_up(v as int, modulo as int) <= i32::MAX,
    ensures
        r == round_up(v as int, modulo as int),
{
    proof {
        lemma_rounding(v as int, modulo as int);
        vstd::arithmetic::div_mod::lemma_fundamental_div_mod(v as int, modulo as int);
        vstd::arithmetic::div_mod::lemma_mod_bound(v as int, modulo as int);
    }
    let q = floor_div(v, modulo);
    let m = floor_mod(v, modulo);
    assert(q as int * modulo as int == modulo as int * q as int) by (nonlinear_arith);
    let down: i64 = (q as i64) * (modulo as i64);
    if m == 0 {
        assert(down == v);
        v
    } else {
        proof {
            // v lies strictly between two multiples, so the upper one is round_up.
            let up = down as int + modulo as int;
            let ru = round_up(v as int, modulo as int);
            assert(down as int % modulo as int == 0) by {
                vstd::arithmetic::div_mod::lemma_mod_multiples_basic(q as int, modulo as int);
            }
            assert(up % (modulo as int) == 0) by {
                vstd::arithmetic::div_mod::lemma_mod_multiples_basic(q as int + 1, modulo as int);
                assert((q as int + 1) * modulo as int == up) by (nonlinear_arith)
                    requires
                        up == down as int + modulo as int,
                        down as int == q as int * modulo as int,
                ;
            }
            lemma_multiples_apart(ru, up, modulo as int);
        }
        (down + modulo as i64) as i32
    }
}

/// Two multiples of `modulo` less than `modulo` apart are equal.
pub proof fn lemma_multiples_apart(a: int, b: int, modulo: int)
    requires
        modulo > 0,
        a % modulo == 0,
        b % modulo == 0,
        -modulo < a - b < modulo,
    ensures
        a == b,
{
    vstd::arithmetic::div_mod::lemma_fundamental_div_mod(a, modulo);
    vstd::arithmetic::div_mod::lemma_fundamental_div_mod(b, modulo);
    let qa = a / modulo;
    let qb = b / modulo;
    assert(a - b == modulo * (qa - qb)) by (nonlinear_arith)
        requires
            a == modulo * qa,
            b == modulo * qb,
    ;
    assert(qa == qb) by (nonlinear_arith)
        requires
            modulo > 0,
            -modulo < modulo * (qa - qb) < modulo,
    ;
}


impl Point3 {
    /// The point `(x, y, z)`.
    pub fn new(x: i32, y: i32, z: i32) -> (p: Point3)
        ensures
            p == (Point3 { x, y, z }),
    {
        Point3 { x, y, z }
    }
}

impl ChunkCoordinate {
    /// The chunk coordinate `(x, y, z)`.
    pub fn new(x: i32, y: i32, z: i32) -> (c: ChunkCoordinate)
        ensures
            c == (ChunkCoordinate { x, y, z }),
    {
        ChunkCoordinate { x, y, z }
    }

    /// Whether `other` shares a face with this chunk: it is one step away
    /// along exactly one axis.
    pub open spec fn is_face_neighbor(self, other: ChunkCoordinate) -> bool {
        let dx = other.x - self.x;
        let dy = other.y - self.y;
        let dz = other.z - self.z;
        ||| (dy == 0 && dz == 0 && (dx == 1 || dx == -1))
        ||| (dx == 0 && dz == 0 && (dy == 1 || dy == -1))
        ||| (dx == 0 && dy == 0 && (dz == 1 || dz == -1))
    }
}

/// The chunk that holds point `p` when chunks have edge length `edge`.
pub open spec fn chunk_of(p: Point3, edge: int) -> ChunkCoordinate {
    ChunkCoordinate {
        x: (p.x as int / edge) as i32,
        y: (p.y as int / edge) as i32,
        z: (p.z as int / edge) as i32,
    }
}

/// The number of voxels in a chunk.
pub open spec fn chunk_volume(edge: int) -> int {
    edge * edge * edge
}

/// The position of `p` inside the dense array of its chunk; `x` varies
/// fastest, then `y`, then `z`.
pub open spec fn local_index(p: Point3, edge: int) -> int {
    ((p.z as int % edge) * edge + (p.y as int % edge)) * edge + (p.x as int % edge)
}

/// The index of offsets `(lx, ly, lz)`, each in `[0, edge)`, is below the
/// chunk volume.
pub proof fn lemma_index_bound(lx: int, ly: int, lz: int, edge: int)
    requires
        0 <= lx < edge,
        0 <= ly < edge,
        0 <= lz < edge,
    ensures
        0 <= lz * edge + ly < edge * edge,
        0 <= (lz * edge + ly) * edge + lx < chunk_volume(edge),
{
    assert(0 <= lz * edge + ly < edge * edge) by (nonlinear_arith)
        requires
            0 <= ly < edge,
            0 <= lz < edge,
    ;
    let row = lz * edge + ly;
    assert(0 <= row * edge + lx < edge * edge * edge) by (nonlinear_arith)
        requires
            0 <= lx < edge,
            0 <= row < edge * edge,
    ;
}

/// Distinct offsets have distinct indices.
pub proof fn lemma_index_injective(
    ax: int,
    ay: int,
    az: int,
    bx: int,
    by: int,
    bz: int,
    edge: int,
)
    requires
        0 <= ax < edge,
        0 <= ay < edge,
        0 <= az < edge,
        0 <= bx < edge,
        0 <= by < edge,
        0 <= bz < edge,
        (az * edge + ay) * edge + ax == (bz * edge + by) * edge + bx,
    ensures
        ax == bx,
        ay == by,
        az == bz,
{
    let ra = az * edge + ay;
    let rb = bz * edge + by;
    assert(ra == rb && ax == bx) by (nonlinear_arith)
        requires
            0 <= ax < edge,
            0 <= bx < edge,
            ra * edge + ax == rb * edge + bx,
    ;
    assert(az == bz && ay == by) by (nonlinear_arith)
        requires
            0 <= ay < edge,
            0 <= by < edge,
            az * edge + ay == bz * edge + by,
    ;
}

/// A point is determined by its chunk and its index inside the chunk.
pub proof fn lemma_point_determined(p: Point3, q: Point3, edge: int)
    requires
        edge > 0,
        chunk_of(p, edge) == chunk_of(q, edge),
        local_index(p, edge) == local_index(q, edge),
    ensures
        p == q,
{
    lemma_component_bounds(p.x as int, edge);
    lemma_component_bounds(p.y as int, edge);
    lemma_component_bounds(p.z as int, edge);
    lemma_component_bounds(q.x as int, edge);
    lemma_component_bounds(q.y as int, edge);
    lemma_component_bounds(q.z as int, edge);
    lemma_index_injective(
        p.x as int % edge,
        p.y as int % edge,
        p.z as int % edge,
        q.x as int % edge,
        q.y as int % edge,
        q.z as int % edge,
        edge,
    );
}

/// Quotient and remainder of a 32-bit value by a positive divisor: the
/// quotient fits in 32 bits and the two give the value back.
pub proof fn lemma_component_bounds(v: int, edge: int)
    requires
        edge > 0,
        i32::MIN <= v <= i32::MAX,
    ensures
        i32::MIN <= v / edge <= i32::MAX,
        0 <= v % edge < edge,
        v == (v / edge) * edge + v % edge,
{
    vstd::arithmetic::div_mod::lemma_fundamental_div_mod(v, edge);
    vstd::arithmetic::div_mod::lemma_mod_bound(v, edge);
    assert(edge * (v / edge) == (v / edge) * edge) by (nonlinear_arith);
    assert(i32::MIN <= v / edge <= i32::MAX) by (nonlinear_arith)
        requires
            edge > 0,
            i32::MIN <= v <= i32::MAX,
    ;
}

/// The chunk that holds `p`.
pub fn containing_chunk(p: Point3, edge: i32) -> (c: ChunkCoordinate)
    requires
        edge > 0,
    ensures
        c == chunk_of(p, edge as int),
{
    ChunkCoordinate {
        x: floor_div(p.x, edge),
        y: floor_div(p.y, edge),
        z: floor_div(p.z, edge),
    }
}

/// The position of `p` inside its chunk's dense array.
pub fn index_in_chunk(p: Point3, edge: i32) -> (i: usize)
    requires
        0 < edge <= MAX_CHUNK_EDGE,
    ensures
        i == local_index(p, edge as int),
        i < chunk_volume(edge as int),
{
    let lx = floor_mod(p.x, edge) as u64;
    let ly = floor_mod(p.y, edge) as u64;
    let lz = floor_mod(p.z, edge) as u64;
    let e = edge as u64;
    proof {
        lemma_index_bound(lx as int, ly as int, lz as int, edge as int);
        lemma_volume_bound(edge as int);
    }
    ((lz * e + ly) * e + lx) as usize
}

/// A chunk of the largest edge still has fewer than 2^31 voxels.
pub proof fn lemma_volume_bound(edge: int)
    requires
        0 < edge <= MAX_CHUNK_EDGE,
    ensures
        0 < edge * edge <= 0x10_0000,
        0 < chunk_volume(edge) <= 0x4000_0000,
{
    assert(0 < edge * edge <= 0x10_0000) by (nonlinear_arith)
        requires
            0 < edge <= 1024,
    ;
    let sq = edge * edge;
    assert(0 < sq * edge <= 0x4000_0000) by (nonlinear_arith)
        requires
            0 < edge <= 1024,
            0 < sq <= 0x10_0000,
    ;
}

/// A number that identifies a chunk coordinate: its three components, each
/// shifted to be non-negative, as digits in base 2^32.
pub open spec fn chunk_key(c: ChunkCoordinate) -> int {
    ((c.x + 0x8000_0000) * 0x1_0000_0000 + (c.y + 0x8000_0000)) * 0x1_0000_0000 + (c.z
        + 0x8000_0000)
}

/// Different coordinates have different keys.
pub proof fn lemma_chunk_key_injective(a: ChunkCoordinate, b: ChunkCoordinate)
    requires
        chunk_key(a) == chunk_key(b),
    ensures
        a == b,
{
}

/// The key of a chunk coordinate.
pub fn key_of(c: ChunkCoordinate) -> (k: u128)
    ensures
        k == chunk_key(c),
{
    let x = (c.x as i64 + 0x8000_0000) as u128;
    let y = (c.y as i64 + 0x8000_0000) as u128;
    let z = (c.z as i64 + 0x8000_0000) as u128;
    (x * 0x1_0000_0000 + y) * 0x1_0000_0000 + z
}

impl Extent3 {
    /// The extent is representable: no side is negative and the upper bound
    /// fits in 32 bits.
    pub open spec fn wf(self) -> bool {
        &&& self.shape.x >= 0
        &&& self.shape.y >= 0
        &&& self.shape.z >= 0
        &&& self.minimum.x + self.shape.x <= i32::MAX
        &&& self.minimum.y + self.shape.y <= i32::MAX
        &&& self.minimum.z + self.shape.z <= i32::MAX
    }

    /// Whether `p` lies in the extent.
    pub open spec fn contains(self, p: Point3) -> bool {
        &&& self.minimum.x <= p.x < self.minimum.x + self.shape.x
        &&& self.minimum.y <= p.y < self.minimum.y + self.shape.y
        &&& self.minimum.z <= p.z < self.minimum.z + self.shape.z
    }

    /// Whether the extent holds a voxel of chunk `c`.
    pub open spec fn touches_chunk(self, c: ChunkCoordinate, edge: int) -> bool {
        exists|p: Point3| #[trigger] self.contains(p) && chunk_of(p, edge) == c
    }

    /// The extent with least point `minimum` and side lengths `shape`.
    pub fn from_min_and_shape(minimum: Point3, shape: Point3) -> (e: Extent3)
        ensures
            e == (Extent3 { minimum, shape }),
    {
        Extent3 { minimum, shape }
    }

    /// The extent `[minimum, least_upper_bound)`; a side on which the bound
    /// lies below the minimum is empty.
    pub fn from_min_and_lub(minimum: Point3, least_upper_bound: Point3) -> (e: Extent3)
        requires
            least_upper_bound.x - minimum.x <= i32::MAX,
            least_upper_bound.y - minimum.y <= i32::MAX,
            least_upper_bound.z - minimum.z <= i32::MAX,
        ensures
            e.wf(),
            e.minimum == minimum,
            e.shape.x == if least_upper_bound.x > minimum.x {
                least_upper_bound.x - minimum.x
            } else {
                0
            },
            e.shape.y == if least_upper_bound.y > minimum.y {
                least_upper_bound.y - minimum.y
            } else {
                0
            },
            e.shape.z == if least_upper_bound.z > minimum.z {
                least_upper_bound.z - minimum.z
            } else {
                0
            },
    {
        let sx: i32 = if least_upper_bound.x > minimum.x {
            (least_upper_bound.x as i64 - minimum.x as i64) as i32
        } else {
            0
        };
        let sy: i32 = if least_upper_bound.y > minimum.y {
            (least_upper_bound.y as i64 - minimum.y as i64) as i32
        } else {
            0
        };
        let sz: i32 = if least_upper_bound.z > minimum.z {
            (least_upper_bound.z as i64 - minimum.z as i64) as i32
        } else {
            0
        };
        Extent3 { minimum, shape: Point3 { x: sx, y: sy, z: sz } }
    }

    /// The extent whose least point is `minimum` and whose greatest is `max`.
    pub fn from_min_and_max(minimum: Point3, max: Point3) -> (e: Extent3)
        requires
            max.x < i32::MAX,
            max.y < i32::MAX,
            max.z < i32::MAX,
            max.x - minimum.x < i32::MAX,
            max.y - minimum.y < i32::MAX,
            max.z - minimum.z < i32::MAX,
        ensures
            e.wf(),
            e.minimum == minimum,
            e.shape.x == if max.x >= minimum.x {
                max.x - minimum.x + 1
            } else {
                0
            },
            e.shape.y == if max.y >= minimum.y {
                max.y - minimum.y + 1
            } else {
                0
            },
            e.shape.z == if max.z >= minimum.z {
                max.z - minimum.z + 1
            } else {
                0
            },
            forall|p: Point3|
                e.contains(p) <==> (minimum.x <= p.x <= max.x && minimum.y <= p.y <= max.y
                    && minimum.z <= p.z <= max.z),
    {
        Extent3::from_min_and_lub(
            minimum,
            Point3 { x: max.x + 1, y: max.y + 1, z: max.z + 1 },
        )
    }

    /// The least point above every point of the extent.
    pub fn least_upper_bound(&self) -> (lub: Point3)
        requires
            self.wf(),
        ensures
            lub.x == self.minimum.x + self.shape.x,
            lub.y == self.minimum.y + self.shape.y,
            lub.z == self.minimum.z + self.shape.z,
    {
        Point3 {
            x: self.minimum.x + self.shape.x,
            y: self.minimum.y + self.shape.y,
            z: self.minimum.z + self.shape.z,
        }
    }

    /// Whether the extent holds no point.
    pub fn is_empty(&self) -> (b: bool)
        ensures
            b == (self.shape.x <= 0 || self.shape.y <= 0 || self.shape.z <= 0),
            b <==> forall|p: Point3| !self.contains(p),
    {
        let b = self.shape.x <= 0 || self.shape.y <= 0 || self.shape.z <= 0;
        proof {
            if !b {
                assert(self.contains(self.minimum));
            }
        }
        b
    }

    /// Whether `p` lies in the extent.
    pub fn contains_point(&self, p: Point3) -> (b: bool)
        ensures
            b == self.contains(p),
    {
        let px = p.x as i64;
        let py = p.y as i64;
        let pz = p.z as i64;
        self.minimum.x <= p.x && px < self.minimum.x as i64 + self.shape.x as i64
            && self.minimum.y <= p.y && py < self.minimum.y as i64 + self.shape.y as i64
            && self.minimum.z <= p.z && pz < self.minimum.z as i64 + self.shape.z as i64
    }

    /// The extent grown by `pad` voxels on every face.
    pub fn padded(&self, pad: i32) -> (e: Extent3)
        requires
            self.wf(),
            pad >= 0,
            self.minimum.x - pad >= i32::MIN,
            self.minimum.y - pad >= i32::MIN,
            self.minimum.z - pad >= i32::MIN,
            self.minimum.x + self.shape.x + pad <= i32::MAX,
            self.minimum.y + self.shape.y + pad <= i32::MAX,
            self.minimum.z + self.shape.z + pad <= i32::MAX,
            self.shape.x + 2 * pad <= i32::MAX,
            self.shape.y + 2 * pad <= i32::MAX,
            self.shape.z + 2 * pad <= i32::MAX,
        ensures
            e.wf(),
            e.minimum.x == self.minimum.x - pad,
            e.minimum.y == self.minimum.y - pad,
            e.minimum.z == self.minimum.z - pad,
            e.shape.x == self.shape.x + 2 * pad,
            e.shape.y == self.shape.y + 2 * pad,
            e.shape.z == self.shape.z + 2 * pad,
    {
        Extent3 {
            minimum: Point3 {
                x: self.minimum.x - pad,
                y: self.minimum.y - pad,
                z: self.minimum.z - pad,
            },
            shape: Point3 {
                x: self.shape.x + pad + pad,
                y: self.shape.y + pad + pad,
                z: self.shape.z + pad + pad,
            },
        }
    }
}

/// The voxels of chunk `c`, as an extent.
pub fn chunk_extent(c: ChunkCoordinate, edge: i32) -> (e: Extent3)
    requires
        0 < edge <= MAX_CHUNK_EDGE,
        i32::MIN <= c.x * edge && c.x * edge + edge <= i32::MAX,
        i32::MIN <= c.y * edge && c.y * edge + edge <= i32::MAX,
        i32::MIN <= c.z * edge && c.z * edge + edge <= i32::MAX,
    ensures
        e.wf(),
        e.minimum.x == c.x * edge,
        e.minimum.y == c.y * edge,
        e.minimum.z == c.z * edge,
        e.shape == (Point3 { x: edge, y: edge, z: edge }),
        forall|p: Point3| e.contains(p) <==> chunk_of(p, edge as int) == c,
{
    let e = Extent3 {
        minimum: Point3 { x: c.x * edge, y: c.y * edge, z: c.z * edge },
        shape: Point3 { x: edge, y: edge, z: edge },
    };
    proof {
        assert forall|p: Point3| e.contains(p) <==> chunk_of(p, edge as int) == c by {
            lemma_in_chunk(p.x as int, c.x as int, edge as int);
            lemma_in_chunk(p.y as int, c.y as int, edge as int);
            lemma_in_chunk(p.z as int, c.z as int, edge as int);
            lemma_component_bounds(p.x as int, edge as int);
            lemma_component_bounds(p.y as int, edge as int);
            lemma_component_bounds(p.z as int, edge as int);
        }
    }
    e
}

/// `v` lies in the `c`-th interval of length `edge` exactly when its floor
/// quotient by `edge` is `c`.
pub proof fn lemma_in_chunk(v: int, c: int, edge: int)
    requires
        edge > 0,
    ensures
        (c * edge <= v < c * edge + edge) <==> v / edge == c,
{
    vstd::arithmetic::div_mod::lemma_fundamental_div_mod(v, edge);
    vstd::arithmetic::div_mod::lemma_mod_bound(v, edge);
    let q = v / edge;
    assert(edge * q == q * edge) by (nonlinear_arith);
    if c * edge <= v < c * edge + edge {
        assert(q == c) by (nonlinear_arith)
            requires
                edge > 0,
                c * edge <= v < c * edge + edge,
                q * edge <= v < q * edge + edge,
        ;
    }
}

/// Floor division by a positive divisor is monotonic.
pub proof fn lemma_floor_monotonic(a: int, b: int, edge: int)
    requires
        edge > 0,
        a <= b,
    ensures
        a / edge <= b / edge,
{
    lemma_in_chunk(a, a / edge, edge);
    lemma_in_chunk(b, b / edge, edge);
    let qa = a / edge;
    let qb = b / edge;
    assert(qa <= qb) by (nonlinear_arith)
        requires
            edge > 0,
            a <= b,
            qa * edge <= a,
            b < qb * edge + edge,
    ;
}

/// A value of `[min, ..)` that lies in the `c`-th interval of length `edge`,
/// where there is one.
pub open spec fn axis_witness(min: int, c: int, edge: int) -> int {
    if min > c * edge {
        min
    } else {
        c * edge
    }
}

/// The intervals of length `edge` that meet `[min, lub)` are those from the
/// one of `min` to the one of `lub - 1`, and `axis_witness` lies in both.
pub proof fn lemma_axis_witness(min: int, lub: int, c: int, edge: int)
    requires
        edge > 0,
        min < lub,
        min / edge <= c <= (lub - 1) / edge,
    ensures
        min <= axis_witness(min, c, edge) < lub,
        axis_witness(min, c, edge) / edge == c,
{
    let w = axis_witness(min, c, edge);
    lemma_in_chunk(min, min / edge, edge);
    lemma_in_chunk(lub - 1, (lub - 1) / edge, edge);
    let qa = min / edge;
    let qb = (lub - 1) / edge;
    assert(c * edge <= lub - 1) by (nonlinear_arith)
        requires
            edge > 0,
            c <= qb,
            qb * edge <= lub - 1,
    ;
    assert(min < c * edge + edge) by (nonlinear_arith)
        requires
            edge > 0,
            qa <= c,
            min < qa * edge + edge,
    ;
    lemma_in_chunk(w, c, edge);
}

impl Extent3 {
    /// Whether chunk `c` lies in the box of chunks between the chunk of the
    /// extent's least point and the chunk of its greatest.
    pub open spec fn chunk_box_contains(self, c: ChunkCoordinate, edge: int) -> bool {
        &&& self.shape.x > 0 && self.shape.y > 0 && self.shape.z > 0
        &&& self.minimum.x as int / edge <= c.x <= (self.minimum.x + self.shape.x - 1) / edge
        &&& self.minimum.y as int / edge <= c.y <= (self.minimum.y + self.shape.y - 1) / edge
        &&& self.minimum.z as int / edge <= c.z <= (self.minimum.z + self.shape.z - 1) / edge
    }

    /// The chunks that an extent touches are those of its chunk box.
    pub proof fn lemma_touches_chunk(self, c: ChunkCoordinate, edge: int)
        requires
            self.wf(),
            edge > 0,
        ensures
            self.touches_chunk(c, edge) <==> self.chunk_box_contains(c, edge),
    {
        if self.touches_chunk(c, edge) {
            let p = choose|p: Point3| #[trigger] self.contains(p) && chunk_of(p, edge) == c;
            lemma_floor_monotonic(self.minimum.x as int, p.x as int, edge);
            lemma_floor_monotonic(p.x as int, self.minimum.x + self.shape.x - 1, edge);
            lemma_floor_monotonic(self.minimum.y as int, p.y as int, edge);
            lemma_floor_monotonic(p.y as int, self.minimum.y + self.shape.y - 1, edge);
            lemma_floor_monotonic(self.minimum.z as int, p.z as int, edge);
            lemma_floor_monotonic(p.z as int, self.minimum.z + self.shape.z - 1, edge);
            lemma_component_bounds(p.x as int, edge);
            lemma_component_bounds(p.y as int, edge);
            lemma_component_bounds(p.z as int, edge);
        }
        if self.chunk_box_contains(c, edge) {
            let wx = axis_witness(self.minimum.x as int, c.x as int, edge);
            let wy = axis_witness(self.minimum.y as int, c.y as int, edge);
            let wz = axis_witness(self.minimum.z as int, c.z as int, edge);
            lemma_axis_witness(
                self.minimum.x as int,
                self.minimum.x + self.shape.x,
                c.x as int,
                edge,
            );
            lemma_axis_witness(
                self.minimum.y as int,
                self.minimum.y + self.shape.y,
                c.y as int,
                edge,
            );
            lemma_axis_witness(
                self.minimum.z as int,
                self.minimum.z + self.shape.z,
                c.z as int,
                edge,
            );
            let p = Point3 { x: wx as i32, y: wy as i32, z: wz as i32 };
            assert(self.contains(p) && chunk_of(p, edge) == c);
        }
    }
}

} // verus!
