//! The streaming scheduler: which chunk columns must be resident around a
//! viewpoint, and which of them are still to be generated.

use crate::config::WorldConfig;
use crate::lattice::{
    floor_div, key_of, lemma_in_chunk, lemma_rounding, modulo_down, modulo_up, round_down,
    round_up, ChunkCoordinate, Extent3, Point3,
};
use crate::volume::{lemma_map_key_injective, map_key};
use std::collections::HashSet;
use vstd::prelude::*;

verus! {

broadcast use vstd::std_specs::hash::group_hash_axioms;

/// The chunk columns that the region generator has filled. It only grows.
pub struct GeneratedSet {
    keys: HashSet<u128>,
}

impl GeneratedSet {
    /// The coordinates recorded.
    pub closed spec fn view(&self) -> Set<ChunkCoordinate> {
        Set::new(|c: ChunkCoordinate| self.keys@.contains(map_key(c)))
    }

    /// A set with no coordinate.
    pub fn new() -> (s: GeneratedSet)
        ensures
            s@ == Set::<ChunkCoordinate>::empty(),
    {
        let s = GeneratedSet { keys: HashSet::new() };
        assert(s@ =~= Set::<ChunkCoordinate>::empty());
        s
    }

    /// Whether `c` is recorded.
    pub fn contains(&self, c: ChunkCoordinate) -> (b: bool)
        ensures
            b == self@.contains(c),
    {
        let k = key_of(c);
        self.keys.contains(&k)
    }

    /// Records `c`; returns whether it was not recorded before.
    pub fn insert(&mut self, c: ChunkCoordinate) -> (fresh: bool)
        ensures
            final(self)@ == old(self)@.insert(c),
            fresh == !old(self)@.contains(c),
    {
        let k = key_of(c);
        let fresh = self.keys.insert(k);
        proof {
            assert forall|d: ChunkCoordinate|
                self@.contains(d) == old(self)@.insert(c).contains(d) by {
                if map_key(d) == map_key(c) {
                    lemma_map_key_injective(d, c);
                }
            }
            assert(self@ =~= old(self)@.insert(c));
        }
        fresh
    }
}

/// The horizontal square of half-width `view_distance` around `cam_pos`, as
/// an extent without height at `y = 0`.
pub fn transform_to_extent(cam_pos: Point3, view_distance: i32) -> (e: Extent3)
    requires
        view_distance >= 0,
        cam_pos.x - view_distance >= i32::MIN,
        cam_pos.x + view_distance <= i32::MAX,
        cam_pos.z - view_distance >= i32::MIN,
        cam_pos.z + view_distance <= i32::MAX,
        2 * view_distance <= i32::MAX,
    ensures
        e.wf(),
        e == (Extent3 {
            minimum: Point3 {
                x: (cam_pos.x - view_distance) as i32,
                y: 0,
                z: (cam_pos.z - view_distance) as i32,
            },
            shape: Point3 {
                x: (2 * view_distance) as i32,
                y: 0,
                z: (2 * view_distance) as i32,
            },
        }),
{
    Extent3::from_min_and_lub(
        Point3 { x: cam_pos.x - view_distance, y: 0, z: cam_pos.z - view_distance },
        Point3 { x: cam_pos.x + view_distance, y: 0, z: cam_pos.z + view_distance },
    )
}

/// Whether rounding the bounds of `extent` to multiples of `modulo` stays
/// inside the lattice.
pub open spec fn expand_in_range(extent: Extent3, modulo: int) -> bool {
    &&& round_down(extent.minimum.x as int, modulo) >= i32::MIN
    &&& round_down(extent.minimum.y as int, modulo) >= i32::MIN
    &&& round_down(extent.minimum.z as int, modulo) >= i32::MIN
    &&& round_up(extent.minimum.x + extent.shape.x, modulo) <= i32::MAX
    &&& round_up(extent.minimum.y + extent.shape.y, modulo) <= i32::MAX
    &&& round_up(extent.minimum.z + extent.shape.z, modulo) <= i32::MAX
    &&& round_up(extent.minimum.x + extent.shape.x, modulo) - round_down(
        extent.minimum.x as int,
        modulo,
    ) <= i32::MAX
    &&& round_up(extent.minimum.y + extent.shape.y, modulo) - round_down(
        extent.minimum.y as int,
        modulo,
    ) <= i32::MAX
    &&& round_up(extent.minimum.z + extent.shape.z, modulo) - round_down(
        extent.minimum.z as int,
        modulo,
    ) <= i32::MAX
}

/// The smallest extent with bounds at multiples of `modulo` that encloses
/// `extent`: the minimum is rounded down and the upper bound is rounded up.
pub fn extent_modulo_expand(extent: Extent3, modulo: i32) -> (e: Extent3)
    requires
        extent.wf(),
        modulo > 0,
        expand_in_range(extent, modulo as int),
    ensures
        e.wf(),
        e.minimum.x == round_down(extent.minimum.x as int, modulo as int),
        e.minimum.y == round_down(extent.minimum.y as int, modulo as int),
        e.minimum.z == round_down(extent.minimum.z as int, modulo as int),
        e.minimum.x + e.shape.x == round_up(extent.minimum.x + extent.shape.x, modulo as int),
        e.minimum.y + e.shape.y == round_up(extent.minimum.y + extent.shape.y, modulo as int),
        e.minimum.z + e.shape.z == round_up(extent.minimum.z + extent.shape.z, modulo as int),
{
    let min = extent.minimum;
    let max = extent.least_upper_bound();
    proof {
        lemma_rounding(min.x as int, modulo as int);
        lemma_rounding(min.y as int, modulo as int);
        lemma_rounding(min.z as int, modulo as int);
        lemma_rounding(max.x as int, modulo as int);
        lemma_rounding(max.y as int, modulo as int);
        lemma_rounding(max.z as int, modulo as int);
    }
    Extent3::from_min_and_lub(
        Point3 {
            x: modulo_down(min.x, modulo),
            y: modulo_down(min.y, modulo),
            z: modulo_down(min.z, modulo),
        },
        Point3 {
            x: modulo_up(max.x, modulo),
            y: modulo_up(max.y, modulo),
            z: modulo_up(max.z, modulo),
        },
    )
}

/// The half-width of the resident square, in voxels.
pub open spec fn view_radius(config: WorldConfig) -> int {
    config.view_distance * config.chunk_edge
}

/// Whether the interval of chunk index `c` meets `[p - r, p + r]`, the
/// bounds included: a chunk that starts at `p + r` is in view.
pub open spec fn axis_in_view(c: int, p: int, r: int, edge: int) -> bool {
    c * edge <= p + r && c * edge + edge > p - r
}

/// Whether the column of chunk `c` must be resident for `viewpoint`: `c` is
/// a column coordinate, and the footprint of its chunk meets the square of
/// the view radius around the viewpoint, the square's boundary included.
pub open spec fn in_view(c: ChunkCoordinate, viewpoint: Point3, config: WorldConfig) -> bool {
    &&& c.y == 0
    &&& axis_in_view(
        c.x as int,
        viewpoint.x as int,
        view_radius(config),
        config.chunk_edge as int,
    )
    &&& axis_in_view(
        c.z as int,
        viewpoint.z as int,
        view_radius(config),
        config.chunk_edge as int,
    )
}

/// Whether the resident square around `viewpoint`, widened to whole chunks,
/// lies inside the lattice.
pub open spec fn viewpoint_in_range(viewpoint: Point3, config: WorldConfig) -> bool {
    let reach = view_radius(config) + config.chunk_edge;
    &&& viewpoint.x - reach >= i32::MIN
    &&& viewpoint.x + reach <= i32::MAX
    &&& viewpoint.z - reach >= i32::MIN
    &&& viewpoint.z + reach <= i32::MAX
}

/// The chunk indices whose intervals meet `[p - r, p + r]` are those from
/// the rounded-down lower bound to the rounded-up bound above `p + r`.
pub proof fn lemma_axis_in_view(c: int, p: int, r: int, edge: int)
    requires
        edge > 0,
    ensures
        axis_in_view(c, p, r, edge) <==> (round_down(p - r, edge) / edge <= c < round_up(
            p + r + 1,
            edge,
        ) / edge),
{
    let rd = round_down(p - r, edge);
    let ru = round_up(p + r + 1, edge);
    lemma_rounding(p - r, edge);
    lemma_rounding(p + r + 1, edge);
    // rd and ru are multiples of edge: rd == (rd / edge) * edge.
    lemma_in_chunk(rd, rd / edge, edge);
    lemma_in_chunk(ru, ru / edge, edge);
    vstd::arithmetic::div_mod::lemma_fundamental_div_mod(rd, edge);
    vstd::arithmetic::div_mod::lemma_fundamental_div_mod(ru, edge);
    let qd = rd / edge;
    let qu = ru / edge;
    assert(rd == qd * edge) by (nonlinear_arith)
        requires
            rd == edge * qd + rd % edge,
            rd % edge == 0,
    ;
    assert(ru == qu * edge) by (nonlinear_arith)
        requires
            ru == edge * qu + ru % edge,
            ru % edge == 0,
    ;
    assert((c * edge + edge > p - r) <==> qd <= c) by (nonlinear_arith)
        requires
            edge > 0,
            rd == qd * edge,
            rd <= p - r < rd + edge,
    ;
    assert((c * edge <= p + r) <==> c < qu) by (nonlinear_arith)
        requires
            edge > 0,
            ru == qu * edge,
            ru - edge < p + r + 1 <= ru,
    ;
}

/// Whether a walk over the columns, row by row, standing at `(x, z)`, has
/// passed column `c`.
pub open spec fn column_passed(z: int, x: int, c: ChunkCoordinate) -> bool {
    c.z < z || (c.z == z && c.x < x)
}

/// Whether `columns` is in the order of a walk row by row: ascending in `z`,
/// and in `x` within a row.
pub open spec fn row_by_row(columns: Seq<ChunkCoordinate>) -> bool {
    forall|i: int, j: int|
        0 <= i < j < columns.len() ==> column_passed(
            columns[j].z as int,
            columns[j].x as int,
            columns[i],
        )
}

/// Pushing `a` onto `s` adds `a` to what `s` contains, and nothing else.
pub proof fn lemma_push_contains<T>(s: Seq<T>, a: T)
    ensures
        forall|b: T| s.push(a).contains(b) <==> (s.contains(b) || b == a),
{
    assert forall|b: T| s.push(a).contains(b) <==> (s.contains(b) || b == a) by {
        if s.contains(b) {
            let j = choose|j: int| 0 <= j < s.len() && s[j] == b;
            assert(s.push(a)[j] == b);
        }
        if b == a {
            assert(s.push(a)[s.len() as int] == a);
        }
    }
}

/// A box of chunk columns: those with `lo_x <= x < hi_x` and
/// `lo_z <= z < hi_z`, at every height.
#[derive(Clone, Copy, Debug, PartialEq, Eq, Structural)]
pub struct ChunkBox {
    pub lo_x: i32,
    pub hi_x: i32,
    pub lo_z: i32,
    pub hi_z: i32,
}

impl ChunkBox {
    /// Whether the column of chunk `c` lies in the box.
    pub open spec fn contains(self, c: ChunkCoordinate) -> bool {
        self.lo_x <= c.x < self.hi_x && self.lo_z <= c.z < self.hi_z
    }

    /// Whether the column of chunk `c` lies in the box.
    pub fn holds(&self, c: ChunkCoordinate) -> (b: bool)
        ensures
            b == self.contains(c),
    {
        self.lo_x <= c.x && c.x < self.hi_x && self.lo_z <= c.z && c.z < self.hi_z
    }
}

/// The column coordinate of chunk `c`: `c` at height 0.
pub open spec fn column_of(c: ChunkCoordinate) -> ChunkCoordinate {
    ChunkCoordinate { x: c.x, y: 0, z: c.z }
}

/// The columns that must be resident for `viewpoint`: the view square with
/// its boundary, widened to whole chunks, in chunk units.
pub fn resident_box(viewpoint: Point3, config: &WorldConfig) -> (b: ChunkBox)
    requires
        config.valid(),
        viewpoint_in_range(viewpoint, *config),
    ensures
        forall|c: ChunkCoordinate| b.contains(c) <==> in_view(column_of(c), viewpoint, *config),
        b.lo_x <= b.hi_x,
        b.lo_z <= b.hi_z,
{
    let edge = config.chunk_edge;
    let ghost e = edge as int;
    let ghost r = view_radius(*config);
    assert(0 < view_radius(*config) <= 1024 * 1024) by (nonlinear_arith)
        requires
            0 < config.view_distance <= 1024,
            0 < config.chunk_edge <= 1024,
    ;
    let radius: i32 = config.view_distance * edge;
    let square = transform_to_extent(viewpoint, radius);
    let bound = square.least_upper_bound();
    let closed = Extent3::from_min_and_max(
        square.minimum,
        Point3 { x: bound.x, y: 0, z: bound.z },
    );
    proof {
        lemma_rounding(viewpoint.x - r, e);
        lemma_rounding(viewpoint.x + r + 1, e);
        lemma_rounding(viewpoint.z - r, e);
        lemma_rounding(viewpoint.z + r + 1, e);
        lemma_rounding(0, e);
        lemma_rounding(1, e);
    }
    let resident = extent_modulo_expand(closed, edge);
    let lub = resident.least_upper_bound();
    let b = ChunkBox {
        lo_x: floor_div(resident.minimum.x, edge),
        hi_x: floor_div(lub.x, edge),
        lo_z: floor_div(resident.minimum.z, edge),
        hi_z: floor_div(lub.z, edge),
    };
    proof {
        assert forall|c: ChunkCoordinate|
            b.contains(c) <==> in_view(column_of(c), viewpoint, *config) by {
            lemma_axis_in_view(c.x as int, viewpoint.x as int, r, e);
            lemma_axis_in_view(c.z as int, viewpoint.z as int, r, e);
        }
        crate::lattice::lemma_floor_monotonic(resident.minimum.x as int, lub.x as int, e);
        crate::lattice::lemma_floor_monotonic(resident.minimum.z as int, lub.z as int, e);
    }
    b
}

/// The chunk columns that must be resident for `viewpoint` and are not in
/// `generated`, each once, row by row.
pub fn pending_chunks(viewpoint: Point3, config: &WorldConfig, generated: &GeneratedSet) -> (out:
    Vec<ChunkCoordinate>)
    requires
        config.valid(),
        viewpoint_in_range(viewpoint, *config),
    ensures
        out@.no_duplicates(),
        forall|c: ChunkCoordinate|
            out@.contains(c) <==> (in_view(c, viewpoint, *config) && !generated@.contains(c)),
        row_by_row(out@),
{
    let b = resident_box(viewpoint, config);
    proof {
        assert forall|c: ChunkCoordinate|
            in_view(c, viewpoint, *config) <==> (c.y == 0 && b.lo_x <= c.x < b.hi_x && b.lo_z <= c.z
                < b.hi_z) by {
            if c.y == 0 {
                assert(column_of(c) == c);
                assert(b.contains(c) <==> in_view(column_of(c), viewpoint, *config));
            }
        }
    }
    let mut out: Vec<ChunkCoordinate> = Vec::new();
    let mut z: i32 = b.lo_z;
    while z < b.hi_z
        invariant
            b.lo_z <= z,
            forall|c: ChunkCoordinate|
                in_view(c, viewpoint, *config) <==> (c.y == 0 && b.lo_x <= c.x < b.hi_x && b.lo_z
                        <= c.z < b.hi_z),
            out@.no_duplicates(),
            row_by_row(out@),
            forall|c: ChunkCoordinate|
                out@.contains(c) <==> (in_view(c, viewpoint, *config) && !generated@.contains(c)
                    && column_passed(z as int, b.lo_x as int, c)),
        decreases b.hi_z - z,
    {
        let mut x: i32 = b.lo_x;
        while x < b.hi_x
            invariant
                b.lo_z <= z < b.hi_z,
                b.lo_x <= x,
                forall|c: ChunkCoordinate|
                    in_view(c, viewpoint, *config) <==> (c.y == 0 && b.lo_x <= c.x < b.hi_x && b.lo_z
                        <= c.z < b.hi_z),
                out@.no_duplicates(),
                row_by_row(out@),
                forall|c: ChunkCoordinate|
                    out@.contains(c) <==> (in_view(c, viewpoint, *config) && !generated@.contains(
                        c,
                    ) && column_passed(z as int, x as int, c)),
            decreases b.hi_x - x,
        {
            let c0 = ChunkCoordinate { x, y: 0, z };
            if !generated.contains(c0) {
                let ghost listed = out@;
                proof {
                    lemma_push_contains(out@, c0);
                }
                out.push(c0);
                proof {
                    assert forall|i: int, j: int| 0 <= i < j < out@.len() implies column_passed(
                        out@[j].z as int,
                        out@[j].x as int,
                        out@[i],
                    ) by {
                        assert(out@[i] == listed[i]);
                        if j < listed.len() {
                            assert(out@[j] == listed[j]);
                        } else {
                            assert(listed.contains(listed[i]));
                        }
                    }
                }
            }
            x += 1;
        }
        z += 1;
    }
    out
}

/// Once every pending column has been generated, every column that must be
/// resident for the viewpoint is generated.
pub proof fn law_streaming_coverage(
    viewpoint: Point3,
    config: WorldConfig,
    before: Set<ChunkCoordinate>,
    pending: Seq<ChunkCoordinate>,
    after: Set<ChunkCoordinate>,
)
    requires
        forall|c: ChunkCoordinate|
            pending.contains(c) <==> (in_view(c, viewpoint, config) && !before.contains(c)),
        before.subset_of(after),
        forall|c: ChunkCoordinate| pending.contains(c) ==> after.contains(c),
    ensures
        forall|c: ChunkCoordinate| in_view(c, viewpoint, config) ==> after.contains(c),
{
    assert forall|c: ChunkCoordinate| in_view(c, viewpoint, config) implies after.contains(c) by {
        if !before.contains(c) {
            assert(pending.contains(c));
        }
    }
}

} // verus!
