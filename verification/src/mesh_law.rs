//! The greedy mesh of a chunk is unique: what `greedy` says of a list of
//! quads, it says of one list only.

use crate::grid::MaterialGrid;
use crate::mesh::{
    cell_x, cell_y, cell_z, covered, disjoint, face_rank, greedy, joinable, n_of, quad_slice,
    quad_u, quad_v, slice_passed, sound, stretched, u_of, v_of, visible, walked_before, Face,
    Quad,
};
use vstd::prelude::*;

verus! {

/// Whether the face `f1` of the voxel at `(x1, y1, z1)` comes before the
/// face `f2` of the voxel at `(x2, y2, z2)` in the walk: in an earlier
/// orientation, or in the same orientation in an earlier slice, or in the
/// same slice in an earlier row, or in the same row further to the front.
pub open spec fn walk_before(
    f1: Face,
    x1: int,
    y1: int,
    z1: int,
    f2: Face,
    x2: int,
    y2: int,
    z2: int,
) -> bool {
    let a = f1.axis;
    face_rank(f1) < face_rank(f2) || (face_rank(f1) == face_rank(f2) && (n_of(a, x1, y1, z1)
        < n_of(a, x2, y2, z2) || (n_of(a, x1, y1, z1) == n_of(a, x2, y2, z2) && slice_passed(
        v_of(a, x2, y2, z2),
        u_of(a, x2, y2, z2),
        u_of(a, x1, y1, z1),
        v_of(a, x1, y1, z1),
    ))))
}

/// Whether the least face of `p` comes before the face `f` of the voxel at
/// `(x, y, z)`, or is that face.
pub open spec fn starts_by(p: Quad, f: Face, x: int, y: int, z: int) -> bool {
    !walk_before(f, x, y, z, p.face, p.minimum.x as int, p.minimum.y as int, p.minimum.z as int)
}

/// No face that a quad holds comes before the quad's least face.
proof fn lemma_least_face(q: Quad, x: int, y: int, z: int)
    requires
        q.covers(x, y, z),
    ensures
        starts_by(q, q.face, x, y, z),
{
}

/// In a greedy mesh the least faces of the quads come in the order of the
/// walk.
proof fn lemma_quads_in_order(grid: &MaterialGrid, quads: Seq<Quad>, i: int, j: int)
    requires
        greedy(grid, quads),
        0 <= i < j < quads.len(),
    ensures
        walk_before(
            quads[i].face,
            quads[i].minimum.x as int,
            quads[i].minimum.y as int,
            quads[i].minimum.z as int,
            quads[j].face,
            quads[j].minimum.x as int,
            quads[j].minimum.y as int,
            quads[j].minimum.z as int,
        ),
{
    assert(face_rank(quads[i].face) <= face_rank(quads[j].face));
    if face_rank(quads[i].face) == face_rank(quads[j].face) {
        assert(quads[i].face == quads[j].face);
        assert(walked_before(quads[i], quads[j]));
    }
}

/// No quad before quad `k` holds a face that quad `k` holds.
proof fn lemma_fresh_faces(quads: Seq<Quad>, k: int, x: int, y: int, z: int)
    requires
        disjoint(quads),
        0 <= k < quads.len(),
        quads[k].covers(x, y, z),
    ensures
        !covered(quads.take(k), quads[k].face, x, y, z),
{
    if covered(quads.take(k), quads[k].face, x, y, z) {
        let m = choose|m: int|
            0 <= m < quads.take(k).len() && quads.take(k)[m].face == quads[k].face
                && #[trigger] quads.take(k)[m].covers(x, y, z);
        assert(quads.take(k)[m] == quads[m]);
        assert(quads[m].covers(x, y, z));
    }
}

/// Quad `k` of a greedy mesh starts at the first visible face, in the order
/// of the walk, that no quad before it holds.
proof fn lemma_starts_first(
    grid: &MaterialGrid,
    quads: Seq<Quad>,
    k: int,
    f: Face,
    x: int,
    y: int,
    z: int,
)
    requires
        greedy(grid, quads),
        0 <= k < quads.len(),
        visible(grid, f, x, y, z),
        !covered(quads.take(k), f, x, y, z),
    ensures
        starts_by(quads[k], f, x, y, z),
{
    assert(covered(quads, f, x, y, z));
    let m = choose|m: int|
        0 <= m < quads.len() && quads[m].face == f && #[trigger] quads[m].covers(x, y, z);
    if m < k {
        assert(quads.take(k)[m] == quads[m]);
        assert(quads.take(k)[m].covers(x, y, z));
        assert(false);
    }
    lemma_least_face(quads[m], x, y, z);
    if m > k {
        lemma_quads_in_order(grid, quads, k, m);
    }
}

/// Two greedy meshes of one grid that agree on their first `k` quads agree
/// on the next.
proof fn lemma_next_quad(grid: &MaterialGrid, a: Seq<Quad>, b: Seq<Quad>, k: int)
    requires
        grid.wf(),
        greedy(grid, a),
        greedy(grid, b),
        0 <= k < a.len(),
        k < b.len(),
        a.take(k) == b.take(k),
    ensures
        a[k] == b[k],
{
    let p = a[k];
    let q = b[k];
    let (px, py, pz) = (p.minimum.x as int, p.minimum.y as int, p.minimum.z as int);
    let (qx, qy, qz) = (q.minimum.x as int, q.minimum.y as int, q.minimum.z as int);
    assert(sound(grid, p) && sound(grid, q));
    assert(stretched(grid, a, k) && stretched(grid, b, k));
    assert(p.covers(px, py, pz) && q.covers(qx, qy, qz));
    lemma_fresh_faces(a, k, px, py, pz);
    lemma_fresh_faces(b, k, qx, qy, qz);
    lemma_starts_first(grid, b, k, p.face, px, py, pz);
    lemma_starts_first(grid, a, k, q.face, qx, qy, qz);
    // Neither least face comes before the other: they are one face.
    assert(face_rank(p.face) == face_rank(q.face));
    assert(p.face == q.face);
    assert(px == qx && py == qy && pz == qz);
    assert(p.minimum == q.minimum);
    assert(p.material == q.material);
    let f = p.face;
    let ax = f.axis;
    let n = quad_slice(p);
    let (u, v) = (quad_u(p), quad_v(p));
    assert(cell_x(ax, n, u, v) == px && cell_y(ax, n, u, v) == py && cell_z(ax, n, u, v) == pz);
    lemma_as_wide(grid, a, b, k);
    lemma_as_wide(grid, b, a, k);
    assert(p.width == q.width);
    lemma_as_high(grid, a, b, k);
    lemma_as_high(grid, b, a, k);
    assert(p.height == q.height);
}

/// A stretched quad is as wide as any quad of the same start.
proof fn lemma_as_wide(grid: &MaterialGrid, a: Seq<Quad>, b: Seq<Quad>, k: int)
    requires
        grid.wf(),
        greedy(grid, a),
        greedy(grid, b),
        0 <= k < a.len(),
        k < b.len(),
        a.take(k) == b.take(k),
        a[k].face == b[k].face,
        a[k].minimum == b[k].minimum,
        a[k].material == b[k].material,
    ensures
        a[k].width >= b[k].width,
{
    let p = a[k];
    let q = b[k];
    if p.width < q.width {
        let ax = p.face.axis;
        let n = quad_slice(p);
        let (u, v) = (quad_u(p) + p.width, quad_v(p));
        let (x, y, z) = (cell_x(ax, n, u, v), cell_y(ax, n, u, v), cell_z(ax, n, u, v));
        assert(sound(grid, p) && sound(grid, q));
        assert(stretched(grid, a, k));
        assert(q.covers(x, y, z));
        lemma_fresh_faces(b, k, x, y, z);
        assert(visible(grid, q.face, x, y, z));
        assert(joinable(grid, a, k, u, v));
    }
}

/// A stretched quad is as high as any quad of the same start and width.
proof fn lemma_as_high(grid: &MaterialGrid, a: Seq<Quad>, b: Seq<Quad>, k: int)
    requires
        grid.wf(),
        greedy(grid, a),
        greedy(grid, b),
        0 <= k < a.len(),
        k < b.len(),
        a.take(k) == b.take(k),
        a[k].face == b[k].face,
        a[k].minimum == b[k].minimum,
        a[k].material == b[k].material,
        a[k].width == b[k].width,
    ensures
        a[k].height >= b[k].height,
{
    let p = a[k];
    let q = b[k];
    if p.height < q.height {
        let ax = p.face.axis;
        let n = quad_slice(p);
        let v = quad_v(p) + p.height;
        assert(sound(grid, p) && sound(grid, q));
        assert(stretched(grid, a, k));
        // The first face of the row after `p` lies in `q`, and so in the chunk.
        let u1 = quad_u(p);
        let (x1, y1, z1) = (cell_x(ax, n, u1, v), cell_y(ax, n, u1, v), cell_z(ax, n, u1, v));
        assert(q.covers(x1, y1, z1));
        assert(visible(grid, q.face, x1, y1, z1));
        assert(v < grid.edge());
        let u0 = choose|u: int|
            quad_u(p) <= u < quad_u(p) + p.width && !#[trigger] joinable(grid, a, k, u, v);
        let (x, y, z) = (cell_x(ax, n, u0, v), cell_y(ax, n, u0, v), cell_z(ax, n, u0, v));
        assert(q.covers(x, y, z));
        lemma_fresh_faces(b, k, x, y, z);
        assert(visible(grid, q.face, x, y, z));
        assert(joinable(grid, a, k, u0, v));
    }
}

/// Two greedy meshes of one grid agree on their first `k` quads.
proof fn lemma_same_prefix(grid: &MaterialGrid, a: Seq<Quad>, b: Seq<Quad>, k: nat)
    requires
        grid.wf(),
        greedy(grid, a),
        greedy(grid, b),
        k <= a.len(),
        k <= b.len(),
    ensures
        a.take(k as int) == b.take(k as int),
    decreases k,
{
    if k == 0 {
        assert(a.take(0) =~= b.take(0));
    } else {
        let j = (k - 1) as nat;
        lemma_same_prefix(grid, a, b, j);
        lemma_next_quad(grid, a, b, j as int);
        assert(a.take(k as int) =~= a.take(j as int).push(a[j as int]));
        assert(b.take(k as int) =~= b.take(j as int).push(b[j as int]));
    }
}

/// A greedy mesh that starts with a greedy mesh has no quad beyond it.
proof fn lemma_no_more(grid: &MaterialGrid, a: Seq<Quad>, b: Seq<Quad>)
    requires
        grid.wf(),
        greedy(grid, a),
        greedy(grid, b),
        a.len() >= b.len(),
        a.take(b.len() as int) == b,
    ensures
        a.len() == b.len(),
{
    if a.len() > b.len() {
        let k = b.len() as int;
        let p = a[k];
        let (x, y, z) = (p.minimum.x as int, p.minimum.y as int, p.minimum.z as int);
        assert(sound(grid, p));
        assert(p.covers(x, y, z));
        lemma_fresh_faces(a, k, x, y, z);
        assert(visible(grid, p.face, x, y, z));
        assert(covered(b, p.face, x, y, z));
    }
}

/// The greedy mesh of a chunk is unique: two lists of quads that are both
/// greedy meshes of one grid are the same list.
pub proof fn law_greedy_unique(grid: &MaterialGrid, a: Seq<Quad>, b: Seq<Quad>)
    requires
        grid.wf(),
        greedy(grid, a),
        greedy(grid, b),
    ensures
        a == b,
{
    if a.len() <= b.len() {
        lemma_same_prefix(grid, a, b, a.len());
        assert(a.take(a.len() as int) =~= a);
        lemma_no_more(grid, b, a);
        assert(b.take(b.len() as int) =~= b);
    } else {
        lemma_same_prefix(grid, a, b, b.len());
        assert(b.take(b.len() as int) =~= b);
        lemma_no_more(grid, a, b);
        assert(a.take(a.len() as int) =~= a);
    }
}

} // verus!
