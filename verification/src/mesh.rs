//! Greedy surface extraction: the visible faces of a chunk's voxels, merged
//! into rectangles of one material.

use crate::grid::{in_chunk, MaterialGrid};
use crate::lattice::Point3;
use crate::voxel::VoxelMaterial;
use vstd::prelude::*;

verus! {

/// A coordinate axis.
#[derive(Clone, Copy, Debug, PartialEq, Eq, Hash, Structural)]
pub enum Axis {
    X,
    Y,
    Z,
}

/// One of the six faces of a voxel: the axis of its normal and the
/// direction in which the normal points.
#[derive(Clone, Copy, Debug, PartialEq, Eq, Hash, Structural)]
pub struct Face {
    pub axis: Axis,
    pub positive: bool,
}

/// A rectangle of voxel faces of one orientation and one material. It
/// starts at the voxel `minimum`, in local coordinates of the chunk, and
/// spans `width` voxels along the face's first tangent axis and `height`
/// along the second.
#[derive(Clone, Copy, Debug, PartialEq, Eq, Hash, Structural)]
pub struct Quad {
    pub face: Face,
    pub minimum: Point3,
    pub width: i32,
    pub height: i32,
    pub material: VoxelMaterial,
}

/// The coordinate of `(x, y, z)` along the normal axis.
pub open spec fn n_of(axis: Axis, x: int, y: int, z: int) -> int {
    match axis {
        Axis::X => x,
        Axis::Y => y,
        Axis::Z => z,
    }
}

/// The coordinate of `(x, y, z)` along the first tangent axis: `z` for
/// normals along `x` and `y`, `x` for normals along `z`.
pub open spec fn u_of(axis: Axis, x: int, y: int, z: int) -> int {
    match axis {
        Axis::X => z,
        Axis::Y => z,
        Axis::Z => x,
    }
}

/// The coordinate of `(x, y, z)` along the second tangent axis: `y` for
/// normals along `x` and `z`, `x` for normals along `y`.
pub open spec fn v_of(axis: Axis, x: int, y: int, z: int) -> int {
    match axis {
        Axis::X => y,
        Axis::Y => x,
        Axis::Z => y,
    }
}

/// The `x` of the cell with normal coordinate `n` and tangent coordinates
/// `(u, v)`.
pub open spec fn cell_x(axis: Axis, n: int, u: int, v: int) -> int {
    match axis {
        Axis::X => n,
        Axis::Y => v,
        Axis::Z => u,
    }
}

/// The `y` of that cell.
pub open spec fn cell_y(axis: Axis, n: int, u: int, v: int) -> int {
    match axis {
        Axis::X => v,
        Axis::Y => n,
        Axis::Z => v,
    }
}

/// The `z` of that cell.
pub open spec fn cell_z(axis: Axis, n: int, u: int, v: int) -> int {
    match axis {
        Axis::X => u,
        Axis::Y => u,
        Axis::Z => n,
    }
}

/// The step along the normal axis that leads out of a face.
pub open spec fn step(face: Face) -> int {
    if face.positive {
        1
    } else {
        -1
    }
}

/// Whether the face `face` of the voxel at `(x, y, z)` is part of the
/// surface: the voxel belongs to the chunk and is solid, and the voxel
/// beyond the face is empty.
pub open spec fn visible(grid: &MaterialGrid, face: Face, x: int, y: int, z: int) -> bool {
    &&& in_chunk(grid.edge(), x, y, z)
    &&& grid.at(x, y, z) is Some
    &&& match face.axis {
        Axis::X => grid.at(x + step(face), y, z),
        Axis::Y => grid.at(x, y + step(face), z),
        Axis::Z => grid.at(x, y, z + step(face)),
    } is None
}

impl Quad {
    /// Whether the quad holds the face of the voxel at `(x, y, z)`.
    pub open spec fn covers(self, x: int, y: int, z: int) -> bool {
        let a = self.face.axis;
        let (mx, my, mz) = (self.minimum.x as int, self.minimum.y as int, self.minimum.z as int);
        &&& n_of(a, x, y, z) == n_of(a, mx, my, mz)
        &&& u_of(a, mx, my, mz) <= u_of(a, x, y, z) < u_of(a, mx, my, mz) + self.width
        &&& v_of(a, mx, my, mz) <= v_of(a, x, y, z) < v_of(a, mx, my, mz) + self.height
    }
}

/// Whether `q` is a rectangle of visible faces of its own material.
pub open spec fn sound(grid: &MaterialGrid, q: Quad) -> bool {
    &&& q.width >= 1
    &&& q.height >= 1
    &&& forall|x: int, y: int, z: int| #[trigger]
        q.covers(x, y, z) ==> visible(grid, q.face, x, y, z) && grid.at(x, y, z) == Some(
            q.material,
        )
}

/// Whether every quad of `quads` is sound.
pub open spec fn all_sound(grid: &MaterialGrid, quads: Seq<Quad>) -> bool {
    forall|k: int| 0 <= k < quads.len() ==> sound(grid, #[trigger] quads[k])
}

/// Whether some quad of `quads` holds the face `face` of the voxel at
/// `(x, y, z)`.
pub open spec fn covered(quads: Seq<Quad>, face: Face, x: int, y: int, z: int) -> bool {
    exists|k: int| 0 <= k < quads.len() && quads[k].face == face && #[trigger] quads[k].covers(x, y, z)
}

/// Whether no face is held by two quads of `quads`.
pub open spec fn disjoint(quads: Seq<Quad>) -> bool {
    forall|k1: int, k2: int, x: int, y: int, z: int|
        #![trigger quads[k1].covers(x, y, z), quads[k2].covers(x, y, z)]
        0 <= k1 < k2 < quads.len() && quads[k1].face == quads[k2].face && quads[k1].covers(x, y, z)
            ==> !quads[k2].covers(x, y, z)
}

/// Whether every visible face of the chunk is held by a quad of `quads`.
pub open spec fn complete(grid: &MaterialGrid, quads: Seq<Quad>) -> bool {
    forall|face: Face, x: int, y: int, z: int| #[trigger]
        visible(grid, face, x, y, z) ==> covered(quads, face, x, y, z)
}

/// The order in which the faces are meshed.
pub open spec fn face_rank(face: Face) -> int {
    (match face.axis {
        Axis::X => 0int,
        Axis::Y => 1int,
        Axis::Z => 2int,
    }) + if face.positive {
        3int
    } else {
        0int
    }
}

/// Whether `longer` starts with `shorter`.
pub open spec fn extends(shorter: Seq<Quad>, longer: Seq<Quad>) -> bool {
    &&& shorter.len() <= longer.len()
    &&& forall|k: int| 0 <= k < shorter.len() ==> #[trigger] longer[k] == shorter[k]
}

/// What a list covers, every list that extends it covers.
pub proof fn lemma_covered_extends(
    shorter: Seq<Quad>,
    longer: Seq<Quad>,
    face: Face,
    x: int,
    y: int,
    z: int,
)
    requires
        extends(shorter, longer),
        covered(shorter, face, x, y, z),
    ensures
        covered(longer, face, x, y, z),
{
    let k = choose|k: int|
        0 <= k < shorter.len() && shorter[k].face == face && #[trigger] shorter[k].covers(x, y, z);
    assert(longer[k] == shorter[k]);
    assert(longer[k].covers(x, y, z));
}

/// What a list with one more quad covers.
pub proof fn lemma_push_covered(quads: Seq<Quad>, q: Quad, face: Face, x: int, y: int, z: int)
    ensures
        covered(quads.push(q), face, x, y, z) <==> (covered(quads, face, x, y, z) || (q.face
            == face && q.covers(x, y, z))),
{
    let longer = quads.push(q);
    if covered(longer, face, x, y, z) {
        let k = choose|k: int|
            0 <= k < longer.len() && longer[k].face == face && #[trigger] longer[k].covers(
                x,
                y,
                z,
            );
        if k < quads.len() {
            assert(quads[k] == longer[k]);
            assert(quads[k].covers(x, y, z));
        }
    }
    if covered(quads, face, x, y, z) {
        let k = choose|k: int|
            0 <= k < quads.len() && quads[k].face == face && #[trigger] quads[k].covers(x, y, z);
        assert(longer[k] == quads[k]);
        assert(longer[k].covers(x, y, z));
    }
    if q.face == face && q.covers(x, y, z) {
        assert(longer[quads.len() as int] == q);
        assert(longer[quads.len() as int].covers(x, y, z));
    }
}

/// Whether the face at tangent coordinates `(u, v)` of a slice has been
/// merged into a quad.
pub open spec fn seen(visited: Seq<bool>, edge: int, u: int, v: int) -> bool {
    visited[v * edge + u]
}

/// The positions of a slice's faces in its mask are distinct and inside it.
pub proof fn lemma_slot(edge: int, u1: int, v1: int, u2: int, v2: int)
    requires
        0 <= u1 < edge,
        0 <= v1 < edge,
        0 <= u2 < edge,
        0 <= v2 < edge,
    ensures
        0 <= v1 * edge + u1 < edge * edge,
        (v1 * edge + u1 == v2 * edge + u2) ==> (u1 == u2 && v1 == v2),
{
    assert(0 <= v1 * edge + u1 < edge * edge) by (nonlinear_arith)
        requires
            0 <= u1 < edge,
            0 <= v1 < edge,
    ;
    assert((v1 * edge + u1 == v2 * edge + u2) ==> (u1 == u2 && v1 == v2)) by (nonlinear_arith)
        requires
            0 <= u1 < edge,
            0 <= u2 < edge,
    ;
}

/// Whether the face at `(u, v)` of slice `n` can join a quad of material
/// `m`: it is visible, of that material, and not merged yet.
pub open spec fn free_face(
    grid: &MaterialGrid,
    face: Face,
    n: int,
    u: int,
    v: int,
    m: VoxelMaterial,
    visited: Seq<bool>,
) -> bool {
    let a = face.axis;
    &&& !seen(visited, grid.edge(), u, v)
    &&& visible(grid, face, cell_x(a, n, u, v), cell_y(a, n, u, v), cell_z(a, n, u, v))
    &&& grid.at(cell_x(a, n, u, v), cell_y(a, n, u, v), cell_z(a, n, u, v)) == Some(m)
}

/// Whether `(u, v)` lies in the rectangle at `(cu, cv)` of size `w` by `h`.
pub open spec fn in_rect(cu: int, cv: int, w: int, h: int, u: int, v: int) -> bool {
    cu <= u < cu + w && cv <= v < cv + h
}

/// Whether the mask of slice `n` records exactly the faces that `quads`
/// covers.
pub open spec fn mask_tracks(
    quads: Seq<Quad>,
    face: Face,
    n: int,
    visited: Seq<bool>,
    edge: int,
) -> bool {
    forall|u: int, v: int|
        0 <= u < edge && 0 <= v < edge ==> (#[trigger] seen(visited, edge, u, v) <==> covered(
            quads,
            face,
            cell_x(face.axis, n, u, v),
            cell_y(face.axis, n, u, v),
            cell_z(face.axis, n, u, v),
        ))
}

/// The cell with normal coordinate `n` and tangent coordinates `(u, v)`.
fn cell_point(axis: Axis, n: i32, u: i32, v: i32) -> (p: Point3)
    ensures
        p.x == cell_x(axis, n as int, u as int, v as int),
        p.y == cell_y(axis, n as int, u as int, v as int),
        p.z == cell_z(axis, n as int, u as int, v as int),
{
    match axis {
        Axis::X => Point3 { x: n, y: v, z: u },
        Axis::Y => Point3 { x: v, y: n, z: u },
        Axis::Z => Point3 { x: u, y: v, z: n },
    }
}

/// Whether the face `face` of the chunk voxel at `p` is visible, and the
/// material of the voxel.
fn face_material(grid: &MaterialGrid, face: Face, p: Point3) -> (r: Option<VoxelMaterial>)
    requires
        grid.wf(),
        in_chunk(grid.edge(), p.x as int, p.y as int, p.z as int),
    ensures
        r is Some <==> visible(grid, face, p.x as int, p.y as int, p.z as int),
        r is Some ==> r == grid.at(p.x as int, p.y as int, p.z as int),
{
    proof {
        grid.lemma_edge();
    }
    let d: i32 = if face.positive {
        1
    } else {
        -1
    };
    match grid.get(p.x, p.y, p.z) {
        None => None,
        Some(m) => {
            let beyond = match face.axis {
                Axis::X => grid.get(p.x + d, p.y, p.z),
                Axis::Y => grid.get(p.x, p.y + d, p.z),
                Axis::Z => grid.get(p.x, p.y, p.z + d),
            };
            match beyond {
                None => Some(m),
                Some(_) => None,
            }
        },
    }
}

/// The position in a slice's mask of the face at `(u, v)`.
fn slot_index(edge: i32, u: i32, v: i32) -> (i: usize)
    requires
        0 < edge <= 1024,
        0 <= u < edge,
        0 <= v < edge,
    ensures
        i == v * edge + u,
        i < edge * edge,
{
    proof {
        lemma_slot(edge as int, u as int, v as int, u as int, v as int);
        crate::lattice::lemma_volume_bound(edge as int);
        assert(0 <= v * edge <= edge * edge) by (nonlinear_arith)
            requires
                0 <= v < edge,
        ;
    }
    (v as usize) * (edge as usize) + (u as usize)
}

/// Whether the face at `(u, v)` of slice `n` can join a quad of material
/// `m`.
fn is_free(
    grid: &MaterialGrid,
    face: Face,
    n: i32,
    u: i32,
    v: i32,
    m: VoxelMaterial,
    visited: &Vec<bool>,
) -> (b: bool)
    requires
        grid.wf(),
        0 <= n < grid.edge(),
        0 <= u < grid.edge(),
        0 <= v < grid.edge(),
        visited@.len() == grid.edge() * grid.edge(),
    ensures
        b == free_face(grid, face, n as int, u as int, v as int, m, visited@),
{
    let e = grid.chunk_edge();
    if visited[slot_index(e, u, v)] {
        return false;
    }
    let p = cell_point(face.axis, n, u, v);
    match face_material(grid, face, p) {
        Some(m2) => m2 == m,
        None => false,
    }
}

/// How far a quad of material `m` that starts at `(cu, cv)` can reach along
/// the first tangent axis.
fn find_width(
    grid: &MaterialGrid,
    face: Face,
    n: i32,
    cu: i32,
    cv: i32,
    m: VoxelMaterial,
    visited: &Vec<bool>,
) -> (w: i32)
    requires
        grid.wf(),
        0 <= n < grid.edge(),
        0 <= cu < grid.edge(),
        0 <= cv < grid.edge(),
        visited@.len() == grid.edge() * grid.edge(),
        free_face(grid, face, n as int, cu as int, cv as int, m, visited@),
    ensures
        1 <= w <= grid.edge() - cu,
        forall|u: int|
            cu <= u < cu + w ==> #[trigger] free_face(grid, face, n as int, u, cv as int, m, visited@),
        cu + w < grid.edge() ==> !free_face(grid, face, n as int, cu + w, cv as int, m, visited@),
{
    let e = grid.chunk_edge();
    let mut w: i32 = 1;
    while cu + w < e && is_free(grid, face, n, cu + w, cv, m, visited)
        invariant
            grid.wf(),
            e == grid.edge(),
            0 <= n < e,
            0 <= cu < e,
            0 <= cv < e,
            visited@.len() == e * e,
            1 <= w <= e - cu,
            forall|u: int|
                cu <= u < cu + w ==> #[trigger] free_face(
                    grid,
                    face,
                    n as int,
                    u,
                    cv as int,
                    m,
                    visited@,
                ),
        decreases e - w,
    {
        w += 1;
    }
    w
}

/// Whether the quad of width `w` at `cu` can take in row `v`.
fn row_free(
    grid: &MaterialGrid,
    face: Face,
    n: i32,
    cu: i32,
    v: i32,
    w: i32,
    m: VoxelMaterial,
    visited: &Vec<bool>,
) -> (b: bool)
    requires
        grid.wf(),
        0 <= n < grid.edge(),
        0 <= cu,
        1 <= w,
        cu + w <= grid.edge(),
        0 <= v < grid.edge(),
        visited@.len() == grid.edge() * grid.edge(),
    ensures
        b == forall|u: int|
            cu <= u < cu + w ==> #[trigger] free_face(grid, face, n as int, u, v as int, m, visited@),
{
    let e = grid.chunk_edge();
    let mut i: i32 = 0;
    while i < w
        invariant
            grid.wf(),
            e == grid.edge(),
            0 < e <= 1024,
            0 <= n < grid.edge(),
            0 <= cu,
            1 <= w,
            cu + w <= grid.edge(),
            0 <= v < grid.edge(),
            visited@.len() == grid.edge() * grid.edge(),
            0 <= i <= w,
            forall|u: int|
                cu <= u < cu + i ==> #[trigger] free_face(
                    grid,
                    face,
                    n as int,
                    u,
                    v as int,
                    m,
                    visited@,
                ),
        decreases w - i,
    {
        if !is_free(grid, face, n, cu + i, v, m, visited) {
            return false;
        }
        i += 1;
    }
    true
}

/// How far a quad of width `w` that starts at `(cu, cv)` can reach along the
/// second tangent axis.
fn find_height(
    grid: &MaterialGrid,
    face: Face,
    n: i32,
    cu: i32,
    cv: i32,
    w: i32,
    m: VoxelMaterial,
    visited: &Vec<bool>,
) -> (h: i32)
    requires
        grid.wf(),
        0 <= n < grid.edge(),
        0 <= cu,
        1 <= w,
        cu + w <= grid.edge(),
        0 <= cv < grid.edge(),
        visited@.len() == grid.edge() * grid.edge(),
        forall|u: int|
            cu <= u < cu + w ==> #[trigger] free_face(grid, face, n as int, u, cv as int, m, visited@),
    ensures
        1 <= h <= grid.edge() - cv,
        forall|u: int, v: int|
            in_rect(cu as int, cv as int, w as int, h as int, u, v) ==> #[trigger] free_face(
                grid,
                face,
                n as int,
                u,
                v,
                m,
                visited@,
            ),
        cv + h < grid.edge() ==> exists|u: int|
            cu <= u < cu + w && !#[trigger] free_face(grid, face, n as int, u, cv + h, m, visited@),
{
    let e = grid.chunk_edge();
    let mut h: i32 = 1;
    while cv + h < e && row_free(grid, face, n, cu, cv + h, w, m, visited)
        invariant
            grid.wf(),
            e == grid.edge(),
            0 <= n < e,
            0 <= cu,
            1 <= w,
            cu + w <= e,
            0 <= cv < e,
            visited@.len() == e * e,
            1 <= h <= e - cv,
            forall|u: int, v: int|
                in_rect(cu as int, cv as int, w as int, h as int, u, v) ==> #[trigger] free_face(
                    grid,
                    face,
                    n as int,
                    u,
                    v,
                    m,
                    visited@,
                ),
        decreases e - h,
    {
        h += 1;
    }
    h
}

/// Records the faces of the rectangle at `(cu, cv)` as merged.
fn mark_rect(visited: &mut Vec<bool>, edge: i32, cu: i32, cv: i32, w: i32, h: i32)
    requires
        0 < edge <= 1024,
        old(visited)@.len() == edge * edge,
        0 <= cu,
        0 <= cv,
        1 <= w,
        1 <= h,
        cu + w <= edge,
        cv + h <= edge,
    ensures
        final(visited)@.len() == edge * edge,
        forall|u: int, v: int|
            0 <= u < edge && 0 <= v < edge ==> (#[trigger] seen(
                final(visited)@,
                edge as int,
                u,
                v,
            ) <==> (seen(old(visited)@, edge as int, u, v) || in_rect(
                cu as int,
                cv as int,
                w as int,
                h as int,
                u,
                v,
            ))),
{
    let ghost e = edge as int;
    proof {
        crate::lattice::lemma_volume_bound(e);
    }
    let mut j: i32 = 0;
    while j < h
        invariant
            0 < edge <= 1024,
            e == edge as int,
            visited@.len() == e * e,
            0 <= cu,
            0 <= cv,
            1 <= w,
            1 <= h,
            cu + w <= edge,
            cv + h <= edge,
            0 <= j <= h,
            forall|u: int, v: int|
                0 <= u < e && 0 <= v < e ==> (#[trigger] seen(visited@, e, u, v) <==> (seen(
                    old(visited)@,
                    e,
                    u,
                    v,
                ) || in_rect(cu as int, cv as int, w as int, j as int, u, v))),
        decreases h - j,
    {
        let mut i: i32 = 0;
        while i < w
            invariant
                0 < edge <= 1024,
                e == edge as int,
                visited@.len() == e * e,
                0 <= cu,
                0 <= cv,
                1 <= w,
                1 <= h,
                cu + w <= edge,
                cv + h <= edge,
                0 <= j < h,
                0 <= i <= w,
                forall|u: int, v: int|
                    0 <= u < e && 0 <= v < e ==> (#[trigger] seen(visited@, e, u, v) <==> (seen(
                        old(visited)@,
                        e,
                        u,
                        v,
                    ) || in_rect(cu as int, cv as int, w as int, j as int, u, v) || (v == cv + j
                        && cu <= u < cu + i))),
            decreases w - i,
        {
            let u0 = cu + i;
            let v0 = cv + j;
            let ghost prev = visited@;
            let slot = slot_index(edge, u0, v0);
            visited.set(slot, true);
            proof {
                assert forall|u: int, v: int| 0 <= u < e && 0 <= v < e implies (#[trigger] seen(
                    visited@,
                    e,
                    u,
                    v,
                ) <==> (seen(old(visited)@, e, u, v) || in_rect(
                    cu as int,
                    cv as int,
                    w as int,
                    j as int,
                    u,
                    v,
                ) || (v == cv + j && cu <= u < cu + i + 1))) by {
                    lemma_slot(e, u, v, u0 as int, v0 as int);
                    assert(seen(prev, e, u, v) <==> (seen(old(visited)@, e, u, v) || in_rect(
                        cu as int,
                        cv as int,
                        w as int,
                        j as int,
                        u,
                        v,
                    ) || (v == cv + j && cu <= u < cu + i)));
                }
            }
            i += 1;
        }
        j += 1;
    }
}

/// Whether the face at `(u, v)` of slice `n` is visible.
pub open spec fn slice_visible(grid: &MaterialGrid, face: Face, n: int, u: int, v: int) -> bool {
    visible(
        grid,
        face,
        cell_x(face.axis, n, u, v),
        cell_y(face.axis, n, u, v),
        cell_z(face.axis, n, u, v),
    )
}

/// Whether some quad of `quads` holds the face at `(u, v)` of slice `n`.
pub open spec fn slice_covered(quads: Seq<Quad>, face: Face, n: int, u: int, v: int) -> bool {
    covered(
        quads,
        face,
        cell_x(face.axis, n, u, v),
        cell_y(face.axis, n, u, v),
        cell_z(face.axis, n, u, v),
    )
}

/// Whether a walk over a slice, row by row, standing at `(cu, cv)`, has
/// passed `(u, v)`.
pub open spec fn slice_passed(cv: int, cu: int, u: int, v: int) -> bool {
    v < cv || (v == cv && u < cu)
}

/// The normal coordinate of the least voxel of `q`.
pub open spec fn quad_slice(q: Quad) -> int {
    n_of(q.face.axis, q.minimum.x as int, q.minimum.y as int, q.minimum.z as int)
}

/// The first tangent coordinate of the least voxel of `q`.
pub open spec fn quad_u(q: Quad) -> int {
    u_of(q.face.axis, q.minimum.x as int, q.minimum.y as int, q.minimum.z as int)
}

/// The second tangent coordinate of the least voxel of `q`.
pub open spec fn quad_v(q: Quad) -> int {
    v_of(q.face.axis, q.minimum.x as int, q.minimum.y as int, q.minimum.z as int)
}

/// Whether the face at `(u, v)` in the slice of quad `k` could have joined
/// that quad: it is a visible face of the quad's material, and no quad
/// before `k` holds it.
pub open spec fn joinable(grid: &MaterialGrid, quads: Seq<Quad>, k: int, u: int, v: int) -> bool {
    let q = quads[k];
    let a = q.face.axis;
    let n = quad_slice(q);
    &&& visible(grid, q.face, cell_x(a, n, u, v), cell_y(a, n, u, v), cell_z(a, n, u, v))
    &&& grid.at(cell_x(a, n, u, v), cell_y(a, n, u, v), cell_z(a, n, u, v)) == Some(q.material)
    &&& !covered(quads.take(k), q.face, cell_x(a, n, u, v), cell_y(a, n, u, v), cell_z(a, n, u, v))
}

/// Whether quad `k` is as wide as it could be made, and as high as a quad of
/// that width could be made: the face after its first row cannot join it,
/// and neither can some face of the row after its last.
pub open spec fn stretched(grid: &MaterialGrid, quads: Seq<Quad>, k: int) -> bool {
    let q = quads[k];
    &&& quad_u(q) + q.width < grid.edge() ==> !joinable(
        grid,
        quads,
        k,
        quad_u(q) + q.width,
        quad_v(q),
    )
    &&& quad_v(q) + q.height < grid.edge() ==> exists|u: int|
        quad_u(q) <= u < quad_u(q) + q.width && !#[trigger] joinable(
            grid,
            quads,
            k,
            u,
            quad_v(q) + q.height,
        )
}

/// Whether every quad of `quads` is stretched.
pub open spec fn all_stretched(grid: &MaterialGrid, quads: Seq<Quad>) -> bool {
    forall|k: int| 0 <= k < quads.len() ==> #[trigger] stretched(grid, quads, k)
}

/// Whether quad `p` comes before quad `q` in the walk over a face: in an
/// earlier slice, or in the same slice with its least face passed first.
pub open spec fn walked_before(p: Quad, q: Quad) -> bool {
    quad_slice(p) < quad_slice(q) || (quad_slice(p) == quad_slice(q) && slice_passed(
        quad_v(q),
        quad_u(q),
        quad_u(p),
        quad_v(p),
    ))
}

/// Whether the quads of each face stand in the order of the walk.
pub open spec fn in_walk_order(quads: Seq<Quad>) -> bool {
    forall|i: int, j: int|
        0 <= i < j < quads.len() && (#[trigger] quads[i]).face == (#[trigger] quads[j]).face
            ==> walked_before(quads[i], quads[j])
}

/// Whether the quads stand face by face, in the order of `face_rank`.
pub open spec fn faces_in_order(quads: Seq<Quad>) -> bool {
    forall|i: int, j: int|
        0 <= i < j < quads.len() ==> face_rank((#[trigger] quads[i]).face) <= face_rank(
            (#[trigger] quads[j]).face,
        )
}

/// Whether `p` and `q` would make one rectangle of one material: `q` lies
/// directly after `p` along one tangent axis and spans the same faces along
/// the other.
pub open spec fn mergeable(p: Quad, q: Quad) -> bool {
    &&& p.face == q.face
    &&& p.material == q.material
    &&& quad_slice(p) == quad_slice(q)
    &&& {
        ||| (quad_v(p) == quad_v(q) && p.height == q.height && quad_u(q) == quad_u(p) + p.width)
        ||| (quad_u(p) == quad_u(q) && p.width == q.width && quad_v(q) == quad_v(p) + p.height)
    }
}

/// Whether no two quads of `quads` would make one rectangle: every quad is
/// maximal.
pub open spec fn no_mergeable(quads: Seq<Quad>) -> bool {
    forall|i: int, j: int|
        0 <= i < quads.len() && 0 <= j < quads.len() ==> !mergeable(
            #[trigger] quads[i],
            #[trigger] quads[j],
        )
}

/// Whether `quads` is the greedy mesh of the chunk in `grid`: rectangles of
/// visible faces of one material, which hold every visible face once, each
/// stretched as far as the faces not held before allowed, in the order of
/// the walk.
pub open spec fn greedy(grid: &MaterialGrid, quads: Seq<Quad>) -> bool {
    &&& all_sound(grid, quads)
    &&& complete(grid, quads)
    &&& disjoint(quads)
    &&& all_stretched(grid, quads)
    &&& in_walk_order(quads)
    &&& faces_in_order(quads)
}

/// What comes before quad `k` stays the same when the list grows.
proof fn lemma_stretched_extends(grid: &MaterialGrid, shorter: Seq<Quad>, longer: Seq<Quad>, k: int)
    requires
        extends(shorter, longer),
        0 <= k < shorter.len(),
        stretched(grid, shorter, k),
    ensures
        stretched(grid, longer, k),
{
    assert(longer[k] == shorter[k]);
    assert(longer.take(k) =~= shorter.take(k)) by {
        assert forall|i: int| 0 <= i < k implies longer.take(k)[i] == shorter.take(k)[i] by {
            assert(longer[i] == shorter[i]);
        }
    }
    let q = shorter[k];
    assert forall|u: int, v: int| joinable(grid, longer, k, u, v) == joinable(
        grid,
        shorter,
        k,
        u,
        v,
    ) by {}
    if quad_v(q) + q.height < grid.edge() {
        let u0 = choose|u: int|
            quad_u(q) <= u < quad_u(q) + q.width && !#[trigger] joinable(
                grid,
                shorter,
                k,
                u,
                quad_v(q) + q.height,
            );
        assert(!joinable(grid, longer, k, u0, quad_v(q) + q.height));
    }
}

/// A list that extends a stretched list by stretched quads is stretched.
proof fn lemma_all_stretched_extends(grid: &MaterialGrid, shorter: Seq<Quad>, longer: Seq<Quad>)
    requires
        extends(shorter, longer),
        all_stretched(grid, shorter),
        forall|k: int| shorter.len() <= k < longer.len() ==> #[trigger] stretched(grid, longer, k),
    ensures
        all_stretched(grid, longer),
{
    assert forall|k: int| 0 <= k < longer.len() implies #[trigger] stretched(grid, longer, k) by {
        if k < shorter.len() {
            lemma_stretched_extends(grid, shorter, longer, k);
        }
    }
}

/// The quad of the free rectangle at `(cu, cv)`, made as wide and then as
/// high as the free faces allow, is stretched, and comes after the quads
/// made before it.
proof fn lemma_emit_stretched(
    grid: &MaterialGrid,
    face: Face,
    n: int,
    quads: Seq<Quad>,
    visited: Seq<bool>,
    cu: int,
    cv: int,
    w: int,
    h: int,
    m: VoxelMaterial,
    q: Quad,
)
    requires
        grid.wf(),
        0 <= n < grid.edge(),
        0 <= cu,
        0 <= cv,
        1 <= w,
        1 <= h,
        cu + w <= grid.edge(),
        cv + h <= grid.edge(),
        mask_tracks(quads, face, n, visited, grid.edge()),
        all_stretched(grid, quads),
        in_walk_order(quads),
        forall|k: int|
            0 <= k < quads.len() && (#[trigger] quads[k]).face == face ==> quad_slice(quads[k]) < n
                || (quad_slice(quads[k]) == n && slice_passed(
                cv,
                cu,
                quad_u(quads[k]),
                quad_v(quads[k]),
            )),
        cu + w < grid.edge() ==> !free_face(grid, face, n, cu + w, cv, m, visited),
        cv + h < grid.edge() ==> exists|u: int|
            cu <= u < cu + w && !#[trigger] free_face(grid, face, n, u, cv + h, m, visited),
        q.face == face,
        q.minimum.x == cell_x(face.axis, n, cu, cv),
        q.minimum.y == cell_y(face.axis, n, cu, cv),
        q.minimum.z == cell_z(face.axis, n, cu, cv),
        q.width == w,
        q.height == h,
        q.material == m,
    ensures
        all_stretched(grid, quads.push(q)),
        in_walk_order(quads.push(q)),
{
    let e = grid.edge();
    let a = face.axis;
    let longer = quads.push(q);
    let k = quads.len() as int;
    assert(longer[k] == q);
    assert(longer.take(k) =~= quads);
    assert(quad_slice(q) == n && quad_u(q) == cu && quad_v(q) == cv);
    // For faces of the slice, joining the new quad is being free.
    assert forall|u: int, v: int| 0 <= u < e && 0 <= v < e implies (joinable(
        grid,
        longer,
        k,
        u,
        v,
    ) <==> free_face(grid, face, n, u, v, m, visited)) by {
        assert(seen(visited, e, u, v) <==> covered(
            quads,
            face,
            cell_x(a, n, u, v),
            cell_y(a, n, u, v),
            cell_z(a, n, u, v),
        ));
    }
    if cv + h < e {
        let u0 = choose|u: int|
            cu <= u < cu + w && !#[trigger] free_face(grid, face, n, u, cv + h, m, visited);
        assert(!joinable(grid, longer, k, u0, cv + h));
    }
    assert(stretched(grid, longer, k));
    assert(extends(quads, longer));
    lemma_all_stretched_extends(grid, quads, longer);
    assert forall|i: int, j: int|
        0 <= i < j < longer.len() && (#[trigger] longer[i]).face == (#[trigger] longer[j]).face
        implies walked_before(longer[i], longer[j]) by {
        assert(longer[i] == quads[i]);
        if j < quads.len() {
            assert(longer[j] == quads[j]);
        }
    }
}

/// In a greedy mesh no two quads would make one rectangle.
pub proof fn lemma_no_mergeable(grid: &MaterialGrid, quads: Seq<Quad>)
    requires
        grid.wf(),
        all_sound(grid, quads),
        disjoint(quads),
        all_stretched(grid, quads),
        in_walk_order(quads),
    ensures
        no_mergeable(quads),
{
    assert forall|i: int, j: int| 0 <= i < quads.len() && 0 <= j < quads.len() implies !mergeable(
        #[trigger] quads[i],
        #[trigger] quads[j],
    ) by {
        let p = quads[i];
        let q = quads[j];
        if mergeable(p, q) {
            let a = p.face.axis;
            let n = quad_slice(p);
            assert(sound(grid, p) && sound(grid, q));
            assert(stretched(grid, quads, i));
            // The least face of `q` is held by `q`.
            let (qx, qy, qz) = (q.minimum.x as int, q.minimum.y as int, q.minimum.z as int);
            assert(q.covers(qx, qy, qz));
            assert(visible(grid, q.face, qx, qy, qz));
            assert(i != j);
            if j < i {
                assert(walked_before(q, p));
            }
            assert(i < j);
            if quad_v(p) == quad_v(q) && p.height == q.height && quad_u(q) == quad_u(p) + p.width {
                let (u, v) = (quad_u(q), quad_v(q));
                assert(cell_x(a, n, u, v) == qx && cell_y(a, n, u, v) == qy && cell_z(a, n, u, v)
                    == qz);
                assert(!joinable(grid, quads, i, u, v));
                lemma_held_twice(quads, i, j, qx, qy, qz);
            } else {
                let v = quad_v(q);
                let u0 = choose|u: int|
                    quad_u(p) <= u < quad_u(p) + p.width && !#[trigger] joinable(
                        grid,
                        quads,
                        i,
                        u,
                        quad_v(p) + p.height,
                    );
                let (x, y, z) = (cell_x(a, n, u0, v), cell_y(a, n, u0, v), cell_z(a, n, u0, v));
                assert(q.covers(x, y, z));
                lemma_held_twice(quads, i, j, x, y, z);
            }
        }
    }
}

/// A face that a quad before `i` holds is not held by a quad after `i`.
proof fn lemma_held_twice(quads: Seq<Quad>, i: int, j: int, x: int, y: int, z: int)
    requires
        disjoint(quads),
        0 <= i < j < quads.len(),
        covered(quads.take(i), quads[j].face, x, y, z),
    ensures
        !quads[j].covers(x, y, z),
{
    let m = choose|m: int|
        0 <= m < quads.take(i).len() && quads.take(i)[m].face == quads[j].face
            && #[trigger] quads.take(i)[m].covers(x, y, z);
    assert(quads.take(i)[m] == quads[m]);
    assert(quads[m].covers(x, y, z));
}

/// Adding the quad of the free rectangle at `(cu, cv)` keeps the list sound
/// and disjoint, and the mask with the rectangle marked tracks the longer
/// list.
proof fn lemma_emit(
    grid: &MaterialGrid,
    face: Face,
    n: int,
    quads: Seq<Quad>,
    visited: Seq<bool>,
    marked: Seq<bool>,
    cu: int,
    cv: int,
    w: int,
    h: int,
    m: VoxelMaterial,
    q: Quad,
)
    requires
        grid.wf(),
        0 <= n < grid.edge(),
        0 <= cu,
        0 <= cv,
        1 <= w,
        1 <= h,
        cu + w <= grid.edge(),
        cv + h <= grid.edge(),
        all_sound(grid, quads),
        disjoint(quads),
        mask_tracks(quads, face, n, visited, grid.edge()),
        forall|u: int, v: int|
            in_rect(cu, cv, w, h, u, v) ==> #[trigger] free_face(grid, face, n, u, v, m, visited),
        forall|u: int, v: int|
            0 <= u < grid.edge() && 0 <= v < grid.edge() ==> (#[trigger] seen(
                marked,
                grid.edge(),
                u,
                v,
            ) <==> (seen(visited, grid.edge(), u, v) || in_rect(cu, cv, w, h, u, v))),
        q.face == face,
        q.minimum.x == cell_x(face.axis, n, cu, cv),
        q.minimum.y == cell_y(face.axis, n, cu, cv),
        q.minimum.z == cell_z(face.axis, n, cu, cv),
        q.width == w,
        q.height == h,
        q.material == m,
    ensures
        all_sound(grid, quads.push(q)),
        disjoint(quads.push(q)),
        mask_tracks(quads.push(q), face, n, marked, grid.edge()),
{
    let e = grid.edge();
    let a = face.axis;
    let longer = quads.push(q);
    // What the new quad covers, in slice coordinates.
    assert forall|x: int, y: int, z: int|
        q.covers(x, y, z) <==> (n_of(a, x, y, z) == n && in_rect(
            cu,
            cv,
            w,
            h,
            u_of(a, x, y, z),
            v_of(a, x, y, z),
        )) by {}
    assert forall|x: int, y: int, z: int| #[trigger] q.covers(x, y, z) implies visible(
        grid,
        face,
        x,
        y,
        z,
    ) && grid.at(x, y, z) == Some(m) && !covered(quads, face, x, y, z) by {
        let u = u_of(a, x, y, z);
        let v = v_of(a, x, y, z);
        assert(free_face(grid, face, n, u, v, m, visited));
        assert(cell_x(a, n, u, v) == x && cell_y(a, n, u, v) == y && cell_z(a, n, u, v) == z);
        assert(0 <= u < e && 0 <= v < e);
        assert(!seen(visited, e, u, v));
    }
    assert(sound(grid, q));
    assert forall|k: int| 0 <= k < longer.len() implies sound(grid, #[trigger] longer[k]) by {
        if k < quads.len() {
            assert(longer[k] == quads[k]);
        }
    }
    assert forall|k1: int, k2: int, x: int, y: int, z: int|
        #![trigger longer[k1].covers(x, y, z), longer[k2].covers(x, y, z)]
        0 <= k1 < k2 < longer.len() && longer[k1].face == longer[k2].face && longer[k1].covers(
            x,
            y,
            z,
        ) implies !longer[k2].covers(x, y, z) by {
        assert(longer[k1] == quads[k1]);
        if k2 < quads.len() {
            assert(longer[k2] == quads[k2]);
        } else {
            if q.covers(x, y, z) {
                assert(quads[k1].covers(x, y, z));
                assert(covered(quads, face, x, y, z));
            }
        }
    }
    assert forall|u: int, v: int| 0 <= u < e && 0 <= v < e implies (#[trigger] seen(
        marked,
        e,
        u,
        v,
    ) <==> covered(longer, face, cell_x(a, n, u, v), cell_y(a, n, u, v), cell_z(a, n, u, v))) by {
        let (x, y, z) = (cell_x(a, n, u, v), cell_y(a, n, u, v), cell_z(a, n, u, v));
        lemma_push_covered(quads, q, face, x, y, z);
        assert(seen(visited, e, u, v) <==> covered(quads, face, x, y, z));
        assert(u_of(a, x, y, z) == u && v_of(a, x, y, z) == v && n_of(a, x, y, z) == n);
        assert(q.covers(x, y, z) <==> in_rect(cu, cv, w, h, u, v));
    }
}

/// Merges the visible faces of orientation `face` in slice `n` into quads
/// and appends them to `out`.
fn mesh_slice(grid: &MaterialGrid, face: Face, n: i32, out: &mut Vec<Quad>)
    requires
        grid.wf(),
        0 <= n < grid.edge(),
        all_sound(grid, old(out)@),
        disjoint(old(out)@),
        all_stretched(grid, old(out)@),
        in_walk_order(old(out)@),
        forall|k: int|
            0 <= k < old(out)@.len() && (#[trigger] old(out)@[k]).face == face ==> quad_slice(
                old(out)@[k],
            ) < n,
    ensures
        all_sound(grid, final(out)@),
        disjoint(final(out)@),
        all_stretched(grid, final(out)@),
        in_walk_order(final(out)@),
        extends(old(out)@, final(out)@),
        forall|k: int|
            old(out)@.len() <= k < final(out)@.len() ==> (#[trigger] final(out)@[k]).face == face
                && quad_slice(final(out)@[k]) == n,
        forall|u: int, v: int|
            0 <= u < grid.edge() && 0 <= v < grid.edge() && #[trigger] slice_visible(
                grid,
                face,
                n as int,
                u,
                v,
            ) ==> slice_covered(final(out)@, face, n as int, u, v),
{
    let e = grid.chunk_edge();
    let ghost base = out@;
    let a = face.axis;
    proof {
        crate::lattice::lemma_volume_bound(e as int);
    }
    let cells: usize = (e as usize) * (e as usize);
    let mut visited: Vec<bool> = Vec::new();
    let mut t: usize = 0;
    while t < cells
        invariant
            t <= cells,
            visited@.len() == t,
            forall|i: int| 0 <= i < t ==> !visited@[i],
        decreases cells - t,
    {
        visited.push(false);
        t += 1;
    }
    proof {
        assert forall|u: int, v: int| 0 <= u < e && 0 <= v < e implies (#[trigger] seen(
            visited@,
            e as int,
            u,
            v,
        ) <==> covered(
            out@,
            face,
            cell_x(a, n as int, u, v),
            cell_y(a, n as int, u, v),
            cell_z(a, n as int, u, v),
        )) by {
            lemma_slot(e as int, u, v, u, v);
            let (x, y, z) = (
                cell_x(a, n as int, u, v),
                cell_y(a, n as int, u, v),
                cell_z(a, n as int, u, v),
            );
            if covered(out@, face, x, y, z) {
                let k = choose|k: int|
                    0 <= k < out@.len() && out@[k].face == face && #[trigger] out@[k].covers(
                        x,
                        y,
                        z,
                    );
                assert(quad_slice(out@[k]) == n);
            }
        }
    }
    let mut cv: i32 = 0;
    while cv < e
        invariant
            grid.wf(),
            e == grid.edge(),
            0 < e <= 1024,
            a == face.axis,
            0 <= n < e,
            0 <= cv <= e,
            visited@.len() == e * e,
            all_sound(grid, out@),
            disjoint(out@),
            all_stretched(grid, out@),
            in_walk_order(out@),
            extends(base, out@),
            forall|k: int|
                base.len() <= k < out@.len() ==> (#[trigger] out@[k]).face == face && quad_slice(
                    out@[k],
                ) == n,
            forall|k: int|
                0 <= k < out@.len() && (#[trigger] out@[k]).face == face ==> quad_slice(out@[k])
                    < n || (quad_slice(out@[k]) == n && slice_passed(
                    cv as int,
                    0,
                    quad_u(out@[k]),
                    quad_v(out@[k]),
                )),
            mask_tracks(out@, face, n as int, visited@, e as int),
            forall|u: int, v: int|
                0 <= u < e && 0 <= v < e && slice_passed(cv as int, 0, u, v) && slice_visible(
                    grid,
                    face,
                    n as int,
                    u,
                    v,
                ) ==> #[trigger] seen(visited@, e as int, u, v),
        decreases e - cv,
    {
        let mut cu: i32 = 0;
        while cu < e
            invariant
                grid.wf(),
                e == grid.edge(),
                0 < e <= 1024,
                a == face.axis,
                0 <= n < e,
                0 <= cv < e,
                0 <= cu <= e,
                visited@.len() == e * e,
                all_sound(grid, out@),
                disjoint(out@),
                all_stretched(grid, out@),
                in_walk_order(out@),
                extends(base, out@),
                forall|k: int|
                    base.len() <= k < out@.len() ==> (#[trigger] out@[k]).face == face
                        && quad_slice(out@[k]) == n,
                forall|k: int|
                    0 <= k < out@.len() && (#[trigger] out@[k]).face == face ==> quad_slice(
                        out@[k],
                    ) < n || (quad_slice(out@[k]) == n && slice_passed(
                        cv as int,
                        cu as int,
                        quad_u(out@[k]),
                        quad_v(out@[k]),
                    )),
                mask_tracks(out@, face, n as int, visited@, e as int),
                forall|u: int, v: int|
                    0 <= u < e && 0 <= v < e && slice_passed(cv as int, cu as int, u, v)
                        && slice_visible(grid, face, n as int, u, v) ==> #[trigger] seen(
                        visited@,
                        e as int,
                        u,
                        v,
                    ),
            decreases e - cu,
        {
            let slot = slot_index(e, cu, cv);
            if !visited[slot] {
                let p = cell_point(a, n, cu, cv);
                match face_material(grid, face, p) {
                    Some(m) => {
                        assert(free_face(grid, face, n as int, cu as int, cv as int, m, visited@));
                        let w = find_width(grid, face, n, cu, cv, m, &visited);
                        let h = find_height(grid, face, n, cu, cv, w, m, &visited);
                        let ghost before_mask = visited@;
                        let ghost before_out = out@;
                        mark_rect(&mut visited, e, cu, cv, w, h);
                        let q = Quad { face, minimum: p, width: w, height: h, material: m };
                        proof {
                            lemma_emit(
                                grid,
                                face,
                                n as int,
                                before_out,
                                before_mask,
                                visited@,
                                cu as int,
                                cv as int,
                                w as int,
                                h as int,
                                m,
                                q,
                            );
                            lemma_emit_stretched(
                                grid,
                                face,
                                n as int,
                                before_out,
                                before_mask,
                                cu as int,
                                cv as int,
                                w as int,
                                h as int,
                                m,
                                q,
                            );
                        }
                        out.push(q);
                        proof {
                            assert forall|k: int|
                                0 <= k < out@.len() && (#[trigger] out@[k]).face
                                    == face implies quad_slice(out@[k]) < n || (quad_slice(out@[k])
                                == n && slice_passed(
                                cv as int,
                                cu as int + 1,
                                quad_u(out@[k]),
                                quad_v(out@[k]),
                            )) by {
                                if k < before_out.len() {
                                    assert(out@[k] == before_out[k]);
                                } else {
                                    assert(quad_u(q) == cu && quad_v(q) == cv);
                                }
                            }
                            assert(in_rect(
                                cu as int,
                                cv as int,
                                w as int,
                                h as int,
                                cu as int,
                                cv as int,
                            ));
                            assert(seen(visited@, e as int, cu as int, cv as int));
                            assert(quad_slice(q) == n);
                        }
                    },
                    None => {},
                }
            } else {
                assert(seen(visited@, e as int, cu as int, cv as int));
            }
            cu += 1;
        }
        cv += 1;
    }
    proof {
        assert forall|u: int, v: int|
            0 <= u < e && 0 <= v < e && #[trigger] slice_visible(
                grid,
                face,
                n as int,
                u,
                v,
            ) implies slice_covered(out@, face, n as int, u, v) by {
            assert(slice_passed(cv as int, 0, u, v));
            assert(seen(visited@, e as int, u, v));
        }
    }
}

/// Merges the visible faces of orientation `face` into quads and appends
/// them to `out`.
fn mesh_face(grid: &MaterialGrid, face: Face, out: &mut Vec<Quad>)
    requires
        grid.wf(),
        all_sound(grid, old(out)@),
        disjoint(old(out)@),
        all_stretched(grid, old(out)@),
        in_walk_order(old(out)@),
        forall|k: int|
            0 <= k < old(out)@.len() ==> face_rank((#[trigger] old(out)@[k]).face) < face_rank(
                face,
            ),
    ensures
        all_sound(grid, final(out)@),
        disjoint(final(out)@),
        all_stretched(grid, final(out)@),
        in_walk_order(final(out)@),
        extends(old(out)@, final(out)@),
        faces_in_order(old(out)@) ==> faces_in_order(final(out)@),
        forall|k: int|
            old(out)@.len() <= k < final(out)@.len() ==> (#[trigger] final(out)@[k]).face == face,
        forall|x: int, y: int, z: int| #[trigger]
            visible(grid, face, x, y, z) ==> covered(final(out)@, face, x, y, z),
{
    let e = grid.chunk_edge();
    let ghost base = out@;
    let ghost a = face.axis;
    let mut n: i32 = 0;
    while n < e
        invariant
            grid.wf(),
            e == grid.edge(),
            a == face.axis,
            0 <= n <= e,
            all_sound(grid, out@),
            disjoint(out@),
            all_stretched(grid, out@),
            in_walk_order(out@),
            extends(base, out@),
            forall|k: int|
                0 <= k < base.len() ==> face_rank((#[trigger] base[k]).face) < face_rank(face),
            forall|k: int|
                base.len() <= k < out@.len() ==> (#[trigger] out@[k]).face == face && 0
                    <= quad_slice(out@[k]) < n,
            forall|x: int, y: int, z: int|
                n_of(a, x, y, z) < n && #[trigger] visible(grid, face, x, y, z) ==> covered(
                    out@,
                    face,
                    x,
                    y,
                    z,
                ),
        decreases e - n,
    {
        let ghost prev = out@;
        proof {
            assert forall|k: int|
                0 <= k < out@.len() && (#[trigger] out@[k]).face == face implies quad_slice(
                out@[k],
            ) < n by {
                if k < base.len() {
                    assert(out@[k] == base[k]);
                }
            }
        }
        mesh_slice(grid, face, n, out);
        proof {
            assert forall|k: int| 0 <= k < base.len() implies #[trigger] out@[k] == base[k] by {
                assert(prev[k] == base[k]);
                assert(out@[k] == prev[k]);
            }
            assert forall|k: int| base.len() <= k < out@.len() implies (#[trigger] out@[k]).face
                == face && 0 <= quad_slice(out@[k]) < n + 1 by {
                if k < prev.len() {
                    assert(out@[k] == prev[k]);
                }
            }
            assert forall|x: int, y: int, z: int|
                n_of(a, x, y, z) < n + 1 && #[trigger] visible(
                    grid,
                    face,
                    x,
                    y,
                    z,
                ) implies covered(out@, face, x, y, z) by {
                if n_of(a, x, y, z) < n {
                    lemma_covered_extends(prev, out@, face, x, y, z);
                } else {
                    let u = u_of(a, x, y, z);
                    let v = v_of(a, x, y, z);
                    assert(cell_x(a, n as int, u, v) == x && cell_y(a, n as int, u, v) == y
                        && cell_z(a, n as int, u, v) == z);
                    assert(slice_visible(grid, face, n as int, u, v));
                    assert(slice_covered(out@, face, n as int, u, v));
                }
            }
        }
        n += 1;
    }
    proof {
        assert forall|x: int, y: int, z: int| #[trigger]
            visible(grid, face, x, y, z) implies covered(out@, face, x, y, z) by {
            assert(n_of(a, x, y, z) < n);
        }
        if faces_in_order(base) {
            assert forall|i: int, j: int| 0 <= i < j < out@.len() implies face_rank(
                (#[trigger] out@[i]).face,
            ) <= face_rank((#[trigger] out@[j]).face) by {
                if i < base.len() {
                    assert(out@[i] == base[i]);
                }
                if j < base.len() {
                    assert(out@[j] == base[j]);
                }
            }
        }
    }
}

/// The face that is meshed in place `rank`.
fn face_of_rank(rank: u8) -> (face: Face)
    requires
        rank < 6,
    ensures
        face_rank(face) == rank,
{
    let axis = if rank % 3 == 0 {
        Axis::X
    } else if rank % 3 == 1 {
        Axis::Y
    } else {
        Axis::Z
    };
    Face { axis, positive: rank >= 3 }
}

/// The surface of the chunk in `grid` as quads: every quad is a rectangle
/// of visible faces of one orientation and one material, every visible face
/// of the chunk lies in a quad, and no face lies in two. The faces are
/// walked orientation by orientation, slice by slice and row by row; at
/// each face that no quad holds yet a quad is started, made as wide as the
/// faces allow that can still join it, and then as high. No two quads of
/// the result would make one rectangle.
pub fn greedy_quads(grid: &MaterialGrid) -> (quads: Vec<Quad>)
    requires
        grid.wf(),
    ensures
        greedy(grid, quads@),
        no_mergeable(quads@),
{
    let mut out: Vec<Quad> = Vec::new();
    let mut rank: u8 = 0;
    while rank < 6
        invariant
            grid.wf(),
            rank <= 6,
            all_sound(grid, out@),
            disjoint(out@),
            all_stretched(grid, out@),
            in_walk_order(out@),
            faces_in_order(out@),
            forall|k: int| 0 <= k < out@.len() ==> face_rank((#[trigger] out@[k]).face) < rank,
            forall|face: Face, x: int, y: int, z: int|
                face_rank(face) < rank && #[trigger] visible(grid, face, x, y, z) ==> covered(
                    out@,
                    face,
                    x,
                    y,
                    z,
                ),
        decreases 6 - rank,
    {
        let face = face_of_rank(rank);
        let ghost prev = out@;
        mesh_face(grid, face, &mut out);
        proof {
            assert forall|k: int| 0 <= k < out@.len() implies face_rank(
                (#[trigger] out@[k]).face,
            ) < rank + 1 by {
                if k < prev.len() {
                    assert(out@[k] == prev[k]);
                }
            }
            assert forall|f: Face, x: int, y: int, z: int|
                face_rank(f) < rank + 1 && #[trigger] visible(grid, f, x, y, z) implies covered(
                out@,
                f,
                x,
                y,
                z,
            ) by {
                if face_rank(f) < rank {
                    lemma_covered_extends(prev, out@, f, x, y, z);
                } else {
                    assert(f == face);
                }
            }
        }
        rank += 1;
    }
    proof {
        assert forall|face: Face, x: int, y: int, z: int| #[trigger]
            visible(grid, face, x, y, z) implies covered(out@, face, x, y, z) by {
            assert(face_rank(face) < 6);
        }
        lemma_no_mergeable(grid, out@);
    }
    out
}

} // verus!
