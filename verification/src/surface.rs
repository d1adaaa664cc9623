//! What a mesh is, in terms of distances, coordinates and indices.
//!
//! The distances at the corners of `r` cells along each axis are in the order of the
//! corners: the one at corner `(x, y, z)` is at place `(x * (r + 1) + y) * (r + 1) + z`.
//! A distance below zero has a bit pattern above `0x8000_0000` and up to `0xff80_0000`,
//! one above zero has a pattern above zero and up to `0x7f80_0000`. Patterns behind
//! these are no numbers.

use crate::buffer::{placed, placed_in, sampled, MeshBuffer, Vertex};
use crate::cell::{
    corners, crosses, crossing_on, crossings, lemma_edges, lemma_even_weight, on_surface,
    partially_in, touched_corners, Cell, Weight, EDGES,
};
use crate::exchange::{
    around, face_along, has_face, index_of, lemma_around, lemma_face_along, next_along, Axis,
};
use crate::grid::{in_cube, lemma_offset, lemma_point_at, offset, point_at, volume};
use crate::nets::{
    corner_distances, crossed, distance_at, face, faces, faces_at, faces_before, gets_vertex,
    lemma_cell_of_vertex, lemma_crossed_cells_len, lemma_vertex_of_cell, vertex_cells,
    vertex_index,
};
use crate::places::lemma_places;
use crate::single::{lemma_bits, lemma_order_of_bits, Single};
use crate::span::Span;
use vstd::prelude::*;

verus! {

/// The bits of the distance at a corner.
spec fn bits_at(d: Seq<Single>, r: int, x: int, y: int, z: int) -> u32 {
    d[(x * (r + 1) + y) * (r + 1) + z].bits
}

/// Whether two patterns differ in sign, or one of them is no number.
spec fn unlike(a: u32, b: u32) -> bool {
    ||| 0x7f80_0000 < a < 0x8000_0000
    ||| 0xff80_0000 < a
    ||| 0x7f80_0000 < b < 0x8000_0000
    ||| 0xff80_0000 < b
    ||| (a < 0x8000_0000) != (b < 0x8000_0000)
}

proof fn lemma_unlike(d: Seq<Single>, r: int, axis: Axis, p: (int, int, int))
    ensures
        has_face(d, r, axis, p) <==> {
            let (x, y, z) = p;
            let q = next_along(axis, p);
            &&& axis is X || x > 0
            &&& axis is Y || y > 0
            &&& axis is Z || z > 0
            &&& unlike(bits_at(d, r, x, y, z), bits_at(d, r, q.0, q.1, q.2))
        },
{
    let q = next_along(axis, p);
    lemma_order_of_bits(
        distance_at(d, r, p.0, p.1, p.2),
        distance_at(d, r, q.0, q.1, q.2),
    );
}

spec fn axis_of(k: int) -> Axis {
    if k == 0 {
        Axis::X
    } else if k == 1 {
        Axis::Y
    } else {
        Axis::Z
    }
}

/// The edges with a face that lead from a corner along the first `k` axes.
spec fn edges_at(d: Seq<Single>, r: int, p: (int, int, int), k: int) -> Seq<(int, int, int, int)>
    decreases k,
{
    if k <= 0 {
        Seq::empty()
    } else if has_face(d, r, axis_of(k - 1), p) {
        edges_at(d, r, p, k - 1).push((k - 1, p.0, p.1, p.2))
    } else {
        edges_at(d, r, p, k - 1)
    }
}

/// The edges with a face at the first `n` corners of the walk.
spec fn edges_before(d: Seq<Single>, r: int, n: int) -> Seq<(int, int, int, int)>
    decreases n,
{
    if n <= 0 {
        Seq::empty()
    } else {
        edges_before(d, r, n - 1) + edges_at(d, r, point_at(r, n - 1), 3)
    }
}

/// The place of an edge in the order of the faces.
spec fn rank(r: int, edge: (int, int, int, int)) -> int {
    offset(r, edge.1, edge.2, edge.3) * 3 + edge.0
}

/// Whether an edge is one with a face.
spec fn faced(d: Seq<Single>, r: int, edge: (int, int, int, int)) -> bool {
    &&& 0 <= edge.0 < 3
    &&& in_cube(r, edge.1, edge.2, edge.3)
    &&& has_face(d, r, axis_of(edge.0), (edge.1, edge.2, edge.3))
}

proof fn lemma_edges_at(d: Seq<Single>, r: int, p: (int, int, int), k: int)
    requires
        in_cube(r, p.0, p.1, p.2),
        0 <= k <= 3,
    ensures
        forall|i: int|
            0 <= i < edges_at(d, r, p, k).len() ==> {
                let edge = #[trigger] edges_at(d, r, p, k)[i];
                faced(d, r, edge) && (edge.1, edge.2, edge.3) == p && edge.0 < k
            },
        forall|i: int, j: int|
            0 <= i < j < edges_at(d, r, p, k).len() ==> (#[trigger] edges_at(d, r, p, k)[i]).0 < (
            #[trigger] edges_at(d, r, p, k)[j]).0,
        forall|a: int|
            0 <= a < k && has_face(d, r, #[trigger] axis_of(a), p) ==> edges_at(
                d,
                r,
                p,
                k,
            ).contains((a, p.0, p.1, p.2)),
    decreases k,
{
    if k > 0 {
        lemma_edges_at(d, r, p, k - 1);
        let before = edges_at(d, r, p, k - 1);
        let here = edges_at(d, r, p, k);
        assert forall|a: int|
            0 <= a < k && has_face(d, r, #[trigger] axis_of(a), p) implies here.contains(
            (a, p.0, p.1, p.2),
        ) by {
            if a < k - 1 {
                let i = choose|i: int| 0 <= i < before.len() && before[i] == (a, p.0, p.1, p.2);
                assert(here[i] == (a, p.0, p.1, p.2));
            } else {
                assert(here[before.len() as int] == (a, p.0, p.1, p.2));
            }
        }
    }
}

proof fn lemma_edges_before(d: Seq<Single>, r: int, n: int)
    requires
        0 <= r,
        n <= volume(r),
    ensures
        forall|i: int|
            0 <= i < edges_before(d, r, n).len() ==> {
                let edge = #[trigger] edges_before(d, r, n)[i];
                faced(d, r, edge) && 0 <= rank(r, edge) < 3 * n
            },
        forall|i: int, j: int|
            0 <= i < j < edges_before(d, r, n).len() ==> rank(
                r,
                #[trigger] edges_before(d, r, n)[i],
            ) < rank(r, #[trigger] edges_before(d, r, n)[j]),
    decreases n,
{
    if n > 0 {
        lemma_edges_before(d, r, n - 1);
        lemma_point_at(r, n - 1);
        let p = point_at(r, n - 1);
        lemma_edges_at(d, r, p, 3);
        let before = edges_before(d, r, n - 1);
        let here = edges_at(d, r, p, 3);
        let all = edges_before(d, r, n);
        assert forall|i: int| before.len() <= i < all.len() implies {
            &&& faced(d, r, #[trigger] all[i])
            &&& 3 * (n - 1) <= rank(r, all[i]) < 3 * n
            &&& all[i] == here[i - before.len()]
        } by {
            assert(all[i] == here[i - before.len()]);
        }
        assert forall|i: int| 0 <= i < before.len() implies #[trigger] all[i] == before[i] by {}
        assert forall|i: int, j: int| 0 <= i < j < all.len() implies rank(r, #[trigger] all[i])
            < rank(r, #[trigger] all[j]) by {
            if j < before.len() {
                assert(all[i] == before[i] && all[j] == before[j]);
            } else if i < before.len() {
                assert(all[i] == before[i]);
            } else {
                assert(here[i - before.len()].0 < here[j - before.len()].0);
            }
        }
    }
}

proof fn lemma_edge_listed(d: Seq<Single>, r: int, n: int, edge: (int, int, int, int))
    requires
        0 <= r,
        n <= volume(r),
        faced(d, r, edge),
        offset(r, edge.1, edge.2, edge.3) < n,
    ensures
        edges_before(d, r, n).contains(edge),
    decreases n,
{
    let p = (edge.1, edge.2, edge.3);
    lemma_offset(r, p.0, p.1, p.2);
    lemma_point_at(r, n - 1);
    let before = edges_before(d, r, n - 1);
    let all = edges_before(d, r, n);
    if offset(r, p.0, p.1, p.2) < n - 1 {
        lemma_edge_listed(d, r, n - 1, edge);
        let i = choose|i: int| 0 <= i < before.len() && before[i] == edge;
        assert(all[i] == edge);
    } else {
        assert(point_at(r, n - 1) == p);
        lemma_edges_at(d, r, p, 3);
        let here = edges_at(d, r, p, 3);
        assert(has_face(d, r, axis_of(edge.0), p));
        let i = choose|i: int| 0 <= i < here.len() && here[i] == (edge.0, p.0, p.1, p.2);
        assert(all[before.len() + i] == edge);
    }
}

/// Whether the six indices from a place on join the vertices of the cells around an
/// edge.
spec fn joins_around(
    indices: Seq<u32>,
    i: int,
    cells: Seq<(int, int, int)>,
    edge: (int, int, int, int),
) -> bool {
    let (c0, c1, c2, c3) = around(axis_of(edge.0), (edge.1, edge.2, edge.3));
    &&& 0 <= i && i + 6 <= indices.len()
    &&& indices[i] < cells.len() && cells[indices[i] as int] == c0
    &&& indices[i + 1] < cells.len() && cells[indices[i + 1] as int] == c1
    &&& indices[i + 2] < cells.len() && cells[indices[i + 2] as int] == c2
    &&& indices[i + 3] == indices[i + 1]
    &&& indices[i + 4] == indices[i + 2]
    &&& indices[i + 5] < cells.len() && cells[indices[i + 5] as int] == c3
}

proof fn lemma_face_around(d: Seq<Single>, r: int, k: int, p: (int, int, int))
    requires
        0 <= k < 3,
        in_cube(r, p.0, p.1, p.2),
        vertex_cells(d, r).len() <= u32::MAX,
    ensures
        has_face(d, r, axis_of(k), p) ==> face_along(d, r, axis_of(k), p).len() == 6
            && joins_around(
            face_along(d, r, axis_of(k), p),
            0,
            vertex_cells(d, r),
            (k, p.0, p.1, p.2),
        ),
        !has_face(d, r, axis_of(k), p) ==> face_along(d, r, axis_of(k), p).len() == 0,
{
    lemma_face_along(d, r, axis_of(k), p);
    if has_face(d, r, axis_of(k), p) {
        lemma_around(d, r, axis_of(k), p);
        let (c0, c1, c2, c3) = around(axis_of(k), p);
        lemma_face_entries(
            index_of(d, r, c0),
            index_of(d, r, c1),
            index_of(d, r, c2),
            index_of(d, r, c3),
        );
    }
}

proof fn lemma_face_entries(v0: int, v1: int, v2: int, v3: int)
    requires
        0 <= v0 <= u32::MAX,
        0 <= v1 <= u32::MAX,
        0 <= v2 <= u32::MAX,
        0 <= v3 <= u32::MAX,
    ensures
        face(v0, v1, v2, v3).len() == 6,
        face(v0, v1, v2, v3)[0] == v0,
        face(v0, v1, v2, v3)[1] == v1,
        face(v0, v1, v2, v3)[2] == v2,
        face(v0, v1, v2, v3)[3] == v1,
        face(v0, v1, v2, v3)[4] == v2,
        face(v0, v1, v2, v3)[5] == v3,
{
}

/// Whether the indices are those of the faces of the edges, in order.
spec fn faces_of(
    indices: Seq<u32>,
    cells: Seq<(int, int, int)>,
    edges: Seq<(int, int, int, int)>,
) -> bool {
    &&& indices.len() == 6 * edges.len()
    &&& forall|k: int|
        0 <= k < edges.len() ==> joins_around(indices, 6 * k, cells, #[trigger] edges[k])
}

proof fn lemma_faces_of_added(
    a: Seq<u32>,
    b: Seq<u32>,
    cells: Seq<(int, int, int)>,
    e: Seq<(int, int, int, int)>,
    f: Seq<(int, int, int, int)>,
)
    requires
        faces_of(a, cells, e),
        faces_of(b, cells, f),
    ensures
        faces_of(a + b, cells, e + f),
{
    assert forall|k: int| 0 <= k < (e + f).len() implies joins_around(
        a + b,
        6 * k,
        cells,
        #[trigger] (e + f)[k],
    ) by {
        if k < e.len() {
            assert((e + f)[k] == e[k]);
            assert(joins_around(a, 6 * k, cells, e[k]));
        } else {
            assert((e + f)[k] == f[k - e.len()]);
            assert(joins_around(b, 6 * (k - e.len()), cells, f[k - e.len()]));
        }
    }
}

proof fn lemma_one_face(d: Seq<Single>, r: int, k: int, p: (int, int, int))
    requires
        0 <= k < 3,
        in_cube(r, p.0, p.1, p.2),
        vertex_cells(d, r).len() <= u32::MAX,
    ensures
        faces_of(
            face_along(d, r, axis_of(k), p),
            vertex_cells(d, r),
            if has_face(d, r, axis_of(k), p) {
                seq![(k, p.0, p.1, p.2)]
            } else {
                Seq::empty()
            },
        ),
{
    lemma_face_around(d, r, k, p);
}

proof fn lemma_faces_of_corner_edges(d: Seq<Single>, r: int, p: (int, int, int))
    requires
        in_cube(r, p.0, p.1, p.2),
        vertex_cells(d, r).len() <= u32::MAX,
    ensures
        faces_of(faces_at(d, r, p.0, p.1, p.2), vertex_cells(d, r), edges_at(d, r, p, 3)),
{
    let cells = vertex_cells(d, r);
    let none = Seq::<(int, int, int, int)>::empty();
    let ex = if has_face(d, r, Axis::X, p) {
        seq![(0int, p.0, p.1, p.2)]
    } else {
        none
    };
    let ey = if has_face(d, r, Axis::Y, p) {
        seq![(1int, p.0, p.1, p.2)]
    } else {
        none
    };
    let ez = if has_face(d, r, Axis::Z, p) {
        seq![(2int, p.0, p.1, p.2)]
    } else {
        none
    };
    let fx = face_along(d, r, Axis::X, p);
    let fy = face_along(d, r, Axis::Y, p);
    let fz = face_along(d, r, Axis::Z, p);
    lemma_one_face(d, r, 0, p);
    lemma_one_face(d, r, 1, p);
    lemma_one_face(d, r, 2, p);
    lemma_faces_of_added(fx, fy, cells, ex, ey);
    lemma_faces_of_added(fx + fy, fz, cells, ex + ey, ez);
    reveal_with_fuel(edges_at, 4);
    assert(edges_at(d, r, p, 3) =~= ex + ey + ez);
    assert(faces_at(d, r, p.0, p.1, p.2) == fx + fy + fz);
}

proof fn lemma_faces_of_edges(d: Seq<Single>, r: int, n: int)
    requires
        0 <= r,
        n <= volume(r),
        vertex_cells(d, r).len() <= u32::MAX,
    ensures
        faces_of(faces_before(d, r, n), vertex_cells(d, r), edges_before(d, r, n)),
    decreases n,
{
    if n > 0 {
        lemma_faces_of_edges(d, r, n - 1);
        lemma_point_at(r, n - 1);
        let p = point_at(r, n - 1);
        lemma_faces_of_corner_edges(d, r, p);
        lemma_faces_of_added(
            faces_before(d, r, n - 1),
            faces_at(d, r, p.0, p.1, p.2),
            vertex_cells(d, r),
            edges_before(d, r, n - 1),
            edges_at(d, r, p, 3),
        );
    }
}

/// The edge that leads from corner `(x, y, z)` along x, with both other coordinates
/// above zero, has a face if its ends differ in sign: six indices of the vertices of
/// the four cells around the edge, wherever along x the edge lies. Gives the place of
/// the first of them.
pub proof fn lemma_face_of_edge_along_x(d: Seq<Single>, r: int, x: int, y: int, z: int) -> (i: int)
    requires
        vertex_cells(d, r).len() <= u32::MAX,
        0 <= x < r,
        0 < y < r,
        0 < z < r,
        ({
            let a = d[(x * (r + 1) + y) * (r + 1) + z].bits;
            let b = d[((x + 1) * (r + 1) + y) * (r + 1) + z].bits;
            ||| 0x7f80_0000 < a < 0x8000_0000
            ||| 0xff80_0000 < a
            ||| 0x7f80_0000 < b < 0x8000_0000
            ||| 0xff80_0000 < b
            ||| (a < 0x8000_0000) != (b < 0x8000_0000)
        }),
    ensures
        0 <= i,
        i + 6 <= faces(d, r).len(),
        i % 6 == 0,
        forall|j: int|
            i <= j < i + 6 ==> (#[trigger] faces(d, r)[j]) < vertex_cells(d, r).len(),
        vertex_cells(d, r)[faces(d, r)[i] as int] == (x, y - 1, z - 1),
        vertex_cells(d, r)[faces(d, r)[i + 1] as int] == (x, y - 1, z),
        vertex_cells(d, r)[faces(d, r)[i + 2] as int] == (x, y, z - 1),
        vertex_cells(d, r)[faces(d, r)[i + 3] as int] == (x, y - 1, z),
        vertex_cells(d, r)[faces(d, r)[i + 4] as int] == (x, y, z - 1),
        vertex_cells(d, r)[faces(d, r)[i + 5] as int] == (x, y, z),
{
    lemma_unlike(d, r, Axis::X, (x, y, z));
    lemma_face_place(d, r, (0, x, y, z))
}

/// The edge that leads from corner `(x, y, z)` along y, with both other coordinates
/// above zero, has a face if its ends differ in sign: six indices of the vertices of
/// the four cells around the edge, wherever along y the edge lies. Gives the place of
/// the first of them.
pub proof fn lemma_face_of_edge_along_y(d: Seq<Single>, r: int, x: int, y: int, z: int) -> (i: int)
    requires
        vertex_cells(d, r).len() <= u32::MAX,
        0 < x < r,
        0 <= y < r,
        0 < z < r,
        ({
            let a = d[(x * (r + 1) + y) * (r + 1) + z].bits;
            let b = d[(x * (r + 1) + (y + 1)) * (r + 1) + z].bits;
            ||| 0x7f80_0000 < a < 0x8000_0000
            ||| 0xff80_0000 < a
            ||| 0x7f80_0000 < b < 0x8000_0000
            ||| 0xff80_0000 < b
            ||| (a < 0x8000_0000) != (b < 0x8000_0000)
        }),
    ensures
        0 <= i,
        i + 6 <= faces(d, r).len(),
        i % 6 == 0,
        forall|j: int|
            i <= j < i + 6 ==> (#[trigger] faces(d, r)[j]) < vertex_cells(d, r).len(),
        vertex_cells(d, r)[faces(d, r)[i] as int] == (x - 1, y, z - 1),
        vertex_cells(d, r)[faces(d, r)[i + 1] as int] == (x - 1, y, z),
        vertex_cells(d, r)[faces(d, r)[i + 2] as int] == (x, y, z - 1),
        vertex_cells(d, r)[faces(d, r)[i + 3] as int] == (x - 1, y, z),
        vertex_cells(d, r)[faces(d, r)[i + 4] as int] == (x, y, z - 1),
        vertex_cells(d, r)[faces(d, r)[i + 5] as int] == (x, y, z),
{
    lemma_unlike(d, r, Axis::Y, (x, y, z));
    lemma_face_place(d, r, (1, x, y, z))
}

/// The edge that leads from corner `(x, y, z)` along z, with both other coordinates
/// above zero, has a face if its ends differ in sign: six indices of the vertices of
/// the four cells around the edge, wherever along z the edge lies. Gives the place of
/// the first of them.
pub proof fn lemma_face_of_edge_along_z(d: Seq<Single>, r: int, x: int, y: int, z: int) -> (i: int)
    requires
        vertex_cells(d, r).len() <= u32::MAX,
        0 < x < r,
        0 < y < r,
        0 <= z < r,
        ({
            let a = d[(x * (r + 1) + y) * (r + 1) + z].bits;
            let b = d[(x * (r + 1) + y) * (r + 1) + (z + 1)].bits;
            ||| 0x7f80_0000 < a < 0x8000_0000
            ||| 0xff80_0000 < a
            ||| 0x7f80_0000 < b < 0x8000_0000
            ||| 0xff80_0000 < b
            ||| (a < 0x8000_0000) != (b < 0x8000_0000)
        }),
    ensures
        0 <= i,
        i + 6 <= faces(d, r).len(),
        i % 6 == 0,
        forall|j: int|
            i <= j < i + 6 ==> (#[trigger] faces(d, r)[j]) < vertex_cells(d, r).len(),
        vertex_cells(d, r)[faces(d, r)[i] as int] == (x - 1, y - 1, z),
        vertex_cells(d, r)[faces(d, r)[i + 1] as int] == (x - 1, y, z),
        vertex_cells(d, r)[faces(d, r)[i + 2] as int] == (x, y - 1, z),
        vertex_cells(d, r)[faces(d, r)[i + 3] as int] == (x - 1, y, z),
        vertex_cells(d, r)[faces(d, r)[i + 4] as int] == (x, y - 1, z),
        vertex_cells(d, r)[faces(d, r)[i + 5] as int] == (x, y, z),
{
    lemma_unlike(d, r, Axis::Z, (x, y, z));
    lemma_face_place(d, r, (2, x, y, z))
}

/// Finds the face of an edge.
proof fn lemma_face_place(d: Seq<Single>, r: int, edge: (int, int, int, int)) -> (i: int)
    requires
        vertex_cells(d, r).len() <= u32::MAX,
        faced(d, r, edge),
    ensures
        i % 6 == 0,
        joins_around(faces(d, r), i, vertex_cells(d, r), edge),
        forall|j: int|
            i <= j < i + 6 ==> (#[trigger] faces(d, r)[j]) < vertex_cells(d, r).len(),
{
    let n = volume(r);
    let edges = edges_before(d, r, n);
    lemma_offset(r, edge.1, edge.2, edge.3);
    lemma_edge_listed(d, r, n, edge);
    lemma_faces_of_edges(d, r, n);
    let k = choose|k: int| 0 <= k < edges.len() && edges[k] == edge;
    assert(joins_around(faces(d, r), 6 * k, vertex_cells(d, r), edges[k]));
    6 * k
}

/// The edges with a face, in the order of their faces. Each is given by the number of
/// its axis (0 for x, 1 for y, 2 for z) and the corner from which it leads along it.
pub closed spec fn mesh_edges(d: Seq<Single>, r: int) -> Seq<(int, int, int, int)> {
    edges_before(d, r, volume(r))
}

/// A mesh has no faces but those of edges between corners whose distances differ in
/// sign, and no face but one for each: six indices belong to each of the edges, in
/// order. The other two coordinates of the edge are above zero, and its indices join
/// the vertices of the four cells around it.
pub proof fn lemma_edge_of_face(d: Seq<Single>, r: int, k: int)
    requires
        0 <= r,
        vertex_cells(d, r).len() <= u32::MAX,
        0 <= 6 * k < faces(d, r).len(),
    ensures
        faces(d, r).len() == 6 * mesh_edges(d, r).len(),
        ({
            let (axis, x, y, z) = mesh_edges(d, r)[k];
            let (u, v, w) = if axis == 0 {
                (x + 1, y, z)
            } else if axis == 1 {
                (x, y + 1, z)
            } else {
                (x, y, z + 1)
            };
            let a = d[(x * (r + 1) + y) * (r + 1) + z].bits;
            let b = d[(u * (r + 1) + v) * (r + 1) + w].bits;
            &&& 0 <= axis < 3
            &&& 0 <= x < r && 0 <= y < r && 0 <= z < r
            &&& axis == 0 || x > 0
            &&& axis == 1 || y > 0
            &&& axis == 2 || z > 0
            &&& {
                ||| 0x7f80_0000 < a < 0x8000_0000
                ||| 0xff80_0000 < a
                ||| 0x7f80_0000 < b < 0x8000_0000
                ||| 0xff80_0000 < b
                ||| (a < 0x8000_0000) != (b < 0x8000_0000)
            }
        }),
        ({
            let (axis, x, y, z) = mesh_edges(d, r)[k];
            let cells = vertex_cells(d, r);
            let indices = faces(d, r);
            let c0 = cells[indices[6 * k] as int];
            let c1 = cells[indices[6 * k + 1] as int];
            let c2 = cells[indices[6 * k + 2] as int];
            &&& indices[6 * k] < cells.len()
            &&& indices[6 * k + 1] < cells.len()
            &&& indices[6 * k + 2] < cells.len()
            &&& indices[6 * k + 3] == indices[6 * k + 1]
            &&& indices[6 * k + 4] == indices[6 * k + 2]
            &&& indices[6 * k + 5] < cells.len()
            &&& axis == 0 ==> c0 == (x, y - 1, z - 1) && c1 == (x, y - 1, z) && c2 == (x, y, z - 1)
            &&& axis == 1 ==> c0 == (x - 1, y, z - 1) && c1 == (x - 1, y, z) && c2 == (x, y, z - 1)
            &&& axis == 2 ==> c0 == (x - 1, y - 1, z) && c1 == (x - 1, y, z) && c2 == (x, y - 1, z)
            &&& cells[indices[6 * k + 5] as int] == (x, y, z)
        }),
{
    let n = volume(r);
    let edges = edges_before(d, r, n);
    lemma_edges_before(d, r, n);
    lemma_faces_of_edges(d, r, n);
    let (axis, x, y, z) = edges[k];
    assert(faced(d, r, edges[k]));
    lemma_unlike(d, r, axis_of(axis), (x, y, z));
    assert(joins_around(faces(d, r), 6 * k, vertex_cells(d, r), edges[k]));
}

/// The faces are in the order of the walk over the corners from which their edges lead,
/// and at one corner in the order of the axes. So no edge has two faces.
pub proof fn lemma_faces_in_order(d: Seq<Single>, r: int, j: int, k: int)
    requires
        0 <= r,
        0 <= j < k < mesh_edges(d, r).len(),
    ensures
        ({
            let (axis, x, y, z) = mesh_edges(d, r)[j];
            let (other, u, v, w) = mesh_edges(d, r)[k];
            ((x * r + y) * r + z) * 3 + axis < ((u * r + v) * r + w) * 3 + other
        }),
{
    lemma_edges_before(d, r, volume(r));
    let edges = edges_before(d, r, volume(r));
    assert(rank(r, edges[j]) < rank(r, edges[k]));
}

/// A cell has a vertex exactly if its eight corners are neither all inside the shape
/// nor all outside of it, going by the bits of the distances.
pub proof fn lemma_cell_with_vertex(d: Seq<Single>, r: int, x: int, y: int, z: int)
    requires
        0 <= x < r,
        0 <= y < r,
        0 <= z < r,
    ensures
        ({
            let n = r + 1;
            let a = d[(x * n + y) * n + z].bits;
            let b = d[(x * n + y) * n + (z + 1)].bits;
            let c = d[(x * n + (y + 1)) * n + z].bits;
            let e = d[(x * n + (y + 1)) * n + (z + 1)].bits;
            let f = d[((x + 1) * n + y) * n + z].bits;
            let g = d[((x + 1) * n + y) * n + (z + 1)].bits;
            let h = d[((x + 1) * n + (y + 1)) * n + z].bits;
            let i = d[((x + 1) * n + (y + 1)) * n + (z + 1)].bits;
            vertex_cells(d, r).contains((x, y, z)) <==> {
                &&& !(0x8000_0000 < a <= 0xff80_0000 && 0x8000_0000 < b <= 0xff80_0000
                    && 0x8000_0000 < c <= 0xff80_0000 && 0x8000_0000 < e <= 0xff80_0000
                    && 0x8000_0000 < f <= 0xff80_0000 && 0x8000_0000 < g <= 0xff80_0000
                    && 0x8000_0000 < h <= 0xff80_0000 && 0x8000_0000 < i <= 0xff80_0000)
                &&& !(0 < a <= 0x7f80_0000 && 0 < b <= 0x7f80_0000 && 0 < c <= 0x7f80_0000 && 0 < e
                    <= 0x7f80_0000 && 0 < f <= 0x7f80_0000 && 0 < g <= 0x7f80_0000 && 0 < h
                    <= 0x7f80_0000 && 0 < i <= 0x7f80_0000)
            }
        }),
{
    let corners = corner_distances(d, r, x, y, z);
    let all = vertex_cells(d, r);
    if crossed(d, r, x, y, z) {
        lemma_vertex_of_cell(d, r, x, y, z);
        assert(all[vertex_index(d, r, x, y, z)] == (x, y, z));
    }
    if all.contains((x, y, z)) {
        let k = choose|k: int| 0 <= k < all.len() && all[k] == (x, y, z);
        lemma_cell_of_vertex(d, r, k);
    }
    lemma_bits(corners[0]);
    lemma_bits(corners[1]);
    lemma_bits(corners[2]);
    lemma_bits(corners[3]);
    lemma_bits(corners[4]);
    lemma_bits(corners[5]);
    lemma_bits(corners[6]);
    lemma_bits(corners[7]);
    assert((forall|i: int| 0 <= i < 8 ==> (#[trigger] corners[i]).below_zero()) <==> (
    corners[0].below_zero() && corners[1].below_zero() && corners[2].below_zero()
        && corners[3].below_zero() && corners[4].below_zero() && corners[5].below_zero()
        && corners[6].below_zero() && corners[7].below_zero()));
    assert((forall|i: int| 0 <= i < 8 ==> (#[trigger] corners[i]).above_zero()) <==> (
    corners[0].above_zero() && corners[1].above_zero() && corners[2].above_zero()
        && corners[3].above_zero() && corners[4].above_zero() && corners[5].above_zero()
        && corners[6].above_zero() && corners[7].above_zero()));
}

/// The vertices are those of cells of the box, in the order of the walk over the cells,
/// so that no cell has two.
pub proof fn lemma_vertices_in_order(d: Seq<Single>, r: int, j: int, k: int)
    requires
        0 <= r,
        0 <= j < k < vertex_cells(d, r).len(),
    ensures
        ({
            let (x, y, z) = vertex_cells(d, r)[j];
            let (u, v, w) = vertex_cells(d, r)[k];
            &&& 0 <= x < r && 0 <= y < r && 0 <= z < r
            &&& 0 <= u < r && 0 <= v < r && 0 <= w < r
            &&& (x * r + y) * r + z < (u * r + v) * r + w
        }),
{
    lemma_cell_of_vertex(d, r, j);
    lemma_cell_of_vertex(d, r, k);
    let (x, y, z) = vertex_cells(d, r)[j];
    let (u, v, w) = vertex_cells(d, r)[k];
    let m = offset(r, x, y, z);
    let n = offset(r, u, v, w);
    lemma_offset(r, x, y, z);
    lemma_offset(r, u, v, w);
    if n <= m {
        lemma_crossed_cells_len(d, r, n, m);
    }
}

/// The weight of an edge between two distances with the given bits.
spec fn weight_of(a: u32, b: u32) -> Weight {
    let (f, t) = if 0x8000_0000 < a <= 0xff80_0000 {
        (a, b)
    } else {
        (flipped(a), flipped(b))
    };
    if (a == 0 || a == 0x8000_0000) && (b == 0 || b == 0x8000_0000) {
        Weight::Even
    } else {
        Weight::Distances { from: Single { bits: f }, to: Single { bits: t } }
    }
}

/// A pattern with the other sign bit.
spec fn flipped(a: u32) -> u32 {
    if a < 0x8000_0000 {
        (a + 0x8000_0000) as u32
    } else {
        (a - 0x8000_0000) as u32
    }
}

proof fn lemma_weight(distances: Seq<Single>, edge: (usize, usize))
    requires
        crosses(distances, edge),
    ensures
        crossing_on(distances, edge).from == edge.0,
        crossing_on(distances, edge).to == edge.1,
        crossing_on(distances, edge).weight == weight_of(
            distances[edge.0 as int].bits,
            distances[edge.1 as int].bits,
        ),
        unlike(distances[edge.0 as int].bits, distances[edge.1 as int].bits),
{
    let from = distances[edge.0 as int];
    let to = distances[edge.1 as int];
    lemma_bits(from);
    lemma_bits(to);
    lemma_bits(from.negative());
    lemma_bits(to.negative());
    lemma_order_of_bits(from, to);
    lemma_even_weight(distances, edge);
}

/// Every edge of a cell whose ends differ in sign has a crossing. The first four edges
/// lead along x, the next four along y and the last four along z, each four in the
/// order of their lower corners.
///
/// The ends count the same if both are zero. Else the crossing carries the distances of
/// both ends, with the other sign unless the first one is below zero. Gives the place
/// of the crossing.
pub proof fn lemma_crossing_of_edge(distances: Seq<Single>, e: int) -> (k: int)
    requires
        0 <= e < 12,
        ({
            let (from, to) = if e < 4 {
                (e, e + 4)
            } else if e < 8 {
                ((e - 4) / 2 * 4 + e % 2, (e - 4) / 2 * 4 + e % 2 + 2)
            } else {
                (2 * (e - 8), 2 * (e - 8) + 1)
            };
            let a = distances[from].bits;
            let b = distances[to].bits;
            ||| 0x7f80_0000 < a < 0x8000_0000
            ||| 0xff80_0000 < a
            ||| 0x7f80_0000 < b < 0x8000_0000
            ||| 0xff80_0000 < b
            ||| (a < 0x8000_0000) != (b < 0x8000_0000)
        }),
    ensures
        0 <= k < crossings(distances).len(),
        ({
            let (from, to) = if e < 4 {
                (e, e + 4)
            } else if e < 8 {
                ((e - 4) / 2 * 4 + e % 2, (e - 4) / 2 * 4 + e % 2 + 2)
            } else {
                (2 * (e - 8), 2 * (e - 8) + 1)
            };
            let a = distances[from].bits;
            let b = distances[to].bits;
            let other_a = if a < 0x8000_0000 {
                a + 0x8000_0000
            } else {
                a - 0x8000_0000
            };
            let other_b = if b < 0x8000_0000 {
                b + 0x8000_0000
            } else {
                b - 0x8000_0000
            };
            &&& crossings(distances)[k].from == from
            &&& crossings(distances)[k].to == to
            &&& match crossings(distances)[k].weight {
                Weight::Even => (a == 0 || a == 0x8000_0000) && (b == 0 || b == 0x8000_0000),
                Weight::Distances { from: f, to: t } => {
                    &&& !((a == 0 || a == 0x8000_0000) && (b == 0 || b == 0x8000_0000))
                    &&& 0x8000_0000 < a <= 0xff80_0000 ==> f.bits == a && t.bits == b
                    &&& !(0x8000_0000 < a <= 0xff80_0000) ==> f.bits == other_a && t.bits == other_b
                },
            }
        }),
{
    lemma_edge_ends(e);
    let edge = EDGES@[e];
    lemma_order_of_bits(distances[edge.0 as int], distances[edge.1 as int]);
    let k = lemma_crossing_place(distances, e);
    lemma_weight(distances, edge);
    k
}

/// The ends of the edges of a cell.
proof fn lemma_edge_ends(e: int)
    requires
        0 <= e < 12,
    ensures
        EDGES@[e].0 == if e < 4 {
            e
        } else if e < 8 {
            (e - 4) / 2 * 4 + e % 2
        } else {
            2 * (e - 8)
        },
        EDGES@[e].1 == EDGES@[e].0 + if e < 4 {
            4int
        } else if e < 8 {
            2
        } else {
            1
        },
{
    assert(e == 0 || e == 1 || e == 2 || e == 3 || e == 4 || e == 5 || e == 6 || e == 7 || e == 8
        || e == 9 || e == 10 || e == 11);
}

/// Finds the crossing of an edge.
proof fn lemma_crossing_place(distances: Seq<Single>, e: int) -> (k: int)
    requires
        0 <= e < 12,
        crosses(distances, EDGES@[e]),
    ensures
        0 <= k < crossings(distances).len(),
        crossings(distances)[k] == crossing_on(distances, EDGES@[e]),
{
    let pred = |edge: (usize, usize)| crosses(distances, edge);
    lemma_edges();
    assert(pred(EDGES@[e]));
    let at = lemma_places(EDGES@, pred);
    let k = choose|k: int| 0 <= k < at.len() && at[k] == e;
    assert(EDGES@.filter(pred)[k] == EDGES@[at[k]]);
    k
}

/// Every crossing of a cell is that of an edge whose ends differ in sign, and the
/// crossings are in the order of the edges, so that no edge has two.
pub proof fn lemma_crossings_in_order(distances: Seq<Single>, j: int, k: int)
    requires
        0 <= j < k < crossings(distances).len() || 0 <= j == k < crossings(distances).len(),
    ensures
        ({
            let c = crossings(distances)[j];
            let a = distances[c.from as int].bits;
            let b = distances[c.to as int].bits;
            &&& c.from < 8 && c.to < 8
            &&& {
                ||| 0x7f80_0000 < a < 0x8000_0000
                ||| 0xff80_0000 < a
                ||| 0x7f80_0000 < b < 0x8000_0000
                ||| 0xff80_0000 < b
                ||| (a < 0x8000_0000) != (b < 0x8000_0000)
            }
        }),
        j < k ==> ({
            let c = crossings(distances)[j];
            let e = crossings(distances)[k];
            ||| c.to - c.from > e.to - e.from
            ||| c.to - c.from == e.to - e.from && c.from < e.from
        }),
{
    let pred = |edge: (usize, usize)| crosses(distances, edge);
    lemma_edges();
    let at = lemma_places(EDGES@, pred);
    let (m, n) = (at[j], at[k]);
    assert(EDGES@.filter(pred)[j] == EDGES@[m]);
    assert(EDGES@.filter(pred)[k] == EDGES@[n]);
    assert(crossings(distances)[j] == crossing_on(distances, EDGES@[m]));
    assert(crossings(distances)[k] == crossing_on(distances, EDGES@[n]));
    lemma_weight(distances, EDGES@[m]);
    lemma_weight(distances, EDGES@[n]);
    assert(m == 0 || m == 1 || m == 2 || m == 3 || m == 4 || m == 5 || m == 6 || m == 7 || m == 8
        || m == 9 || m == 10 || m == 11);
    assert(n == 0 || n == 1 || n == 2 || n == 3 || n == 4 || n == 5 || n == 6 || n == 7 || n == 8
        || n == 9 || n == 10 || n == 11);
}

/// The touched corners of a cell are, in order, the corners that are zero, if no edge of
/// the cell is crossed, and else there is none.
pub proof fn lemma_touched_in_order(distances: Seq<Single>, c: int, j: int, k: int)
    requires
        0 <= c < 8,
    ensures
        touched_corners(distances).contains(c as usize) <==> crossings(distances).len() == 0 && (
        distances[c].bits == 0 || distances[c].bits == 0x8000_0000),
        crossings(distances).len() > 0 ==> touched_corners(distances).len() == 0,
        0 <= j < touched_corners(distances).len() ==> touched_corners(distances)[j] < 8,
        0 <= j < k < touched_corners(distances).len() ==> touched_corners(distances)[j]
            < touched_corners(distances)[k],
{
    let pred = |corner: usize| distances[corner as int].zero();
    let at = lemma_places(corners(), pred);
    let kept = corners().filter(pred);
    lemma_bits(distances[c]);
    if crossings(distances).len() == 0 {
        if distances[c].zero() {
            assert(pred(corners()[c]));
            let i = choose|i: int| 0 <= i < at.len() && at[i] == c;
            assert(kept[i] == corners()[at[i]]);
            assert(kept[i] == c as usize);
        }
        if kept.contains(c as usize) {
            let i = choose|i: int| 0 <= i < kept.len() && kept[i] == c as usize;
            assert(kept[i] == corners()[at[i]] && pred(corners()[at[i]]));
        }
        if 0 <= j < kept.len() {
            assert(kept[j] == corners()[at[j]]);
        }
        if 0 <= j < k < kept.len() {
            assert(kept[k] == corners()[at[k]]);
            assert(at[j] < at[k]);
        }
    }
}

/// What a generated mesh is made of: the distances that were given for the corners, a
/// vertex for each cell that the surface crosses, placed for what is known of the
/// cell, and the faces. Gives the distances.
pub proof fn lemma_generated<
    D: Fn(Span, u32, u32, u32) -> Single,
    V: Fn(Span, &Cell) -> Vertex,
>(buffer: &MeshBuffer, distance: D, vertex: V, span: Span, resolution: u32) -> (d: Seq<Single>)
    requires
        buffer.generated(distance, vertex, span, resolution),
    ensures
        d.len() == (resolution + 1) * (resolution + 1) * (resolution + 1),
        forall|x: u32, y: u32, z: u32|
            x <= resolution && y <= resolution && z <= resolution ==> #[trigger] call_ensures(
                distance,
                (span, x, y, z),
                d[(x * (resolution + 1) + y) * (resolution + 1) + z],
            ),
        buffer.indices() == faces(d, resolution as int),
        buffer.vertices().len() == vertex_cells(d, resolution as int).len(),
        placed(vertex, span, resolution, d, buffer.vertices()),
{
    let r = resolution as int;
    let d = choose|d: Seq<Single>|
        {
            &&& #[trigger] sampled(distance, span, resolution, d)
            &&& placed(vertex, span, resolution, d, buffer.vertices())
            &&& buffer.indices() == faces(d, r)
        };
    assert forall|x: u32, y: u32, z: u32|
        x <= resolution && y <= resolution && z <= resolution implies #[trigger] call_ensures(
        distance,
        (span, x, y, z),
        d[(x * (resolution + 1) + y) * (resolution + 1) + z],
    ) by {
        assert(in_cube(resolution + 1, x as int, y as int, z as int));
        assert(call_ensures(
            distance,
            (span, x, y, z),
            distance_at(d, r, x as int, y as int, z as int),
        ));
    }
    d
}

/// Each vertex of a generated mesh is placed for the cell that it belongs to, with the
/// crossings and the touched corners that the distances at the eight corners of the
/// cell give. Gives what is known of the cell.
pub proof fn lemma_generated_vertex<V: Fn(Span, &Cell) -> Vertex>(
    vertices: Seq<Vertex>,
    vertex: V,
    span: Span,
    resolution: u32,
    d: Seq<Single>,
    k: int,
) -> (cell: Cell)
    requires
        placed(vertex, span, resolution, d, vertices),
        0 <= k < vertices.len(),
    ensures
        vertices.len() == vertex_cells(d, resolution as int).len(),
        call_ensures(vertex, (span, &cell), vertices[k]),
        ({
            let (x, y, z) = vertex_cells(d, resolution as int)[k];
            let n = resolution + 1;
            let eight = seq![
                d[(x * n + y) * n + z],
                d[(x * n + y) * n + (z + 1)],
                d[(x * n + (y + 1)) * n + z],
                d[(x * n + (y + 1)) * n + (z + 1)],
                d[((x + 1) * n + y) * n + z],
                d[((x + 1) * n + y) * n + (z + 1)],
                d[((x + 1) * n + (y + 1)) * n + z],
                d[((x + 1) * n + (y + 1)) * n + (z + 1)],
            ];
            &&& cell.x == x && cell.y == y && cell.z == z
            &&& cell.crossings@ == crossings(eight)
            &&& cell.touched@ == touched_corners(eight)
        }),
{
    let r = resolution as int;
    let place = vertex_cells(d, r)[k];
    let (x, y, z) = place;
    let n = r + 1;
    assert(placed_in(vertex, span, resolution, d, place, vertices[k]));
    let cell = choose|cell: Cell|
        gets_vertex(cell, d, r, place) && #[trigger] call_ensures(
            vertex,
            (span, &cell),
            vertices[k],
        );
    assert(corner_distances(d, r, x, y, z) =~= seq![
        d[(x * n + y) * n + z],
        d[(x * n + y) * n + (z + 1)],
        d[(x * n + (y + 1)) * n + z],
        d[(x * n + (y + 1)) * n + (z + 1)],
        d[((x + 1) * n + y) * n + z],
        d[((x + 1) * n + y) * n + (z + 1)],
        d[((x + 1) * n + (y + 1)) * n + z],
        d[((x + 1) * n + (y + 1)) * n + (z + 1)],
    ]);
    cell
}

/// The corners right on the surface are, in order, those of the eight whose distance is
/// one of the two zeros.
pub proof fn lemma_on_surface_in_order(distances: Seq<Single>, c: int, j: int, k: int)
    requires
        0 <= c < 8,
    ensures
        on_surface(distances, corners()).contains(c as usize) <==> distances[c].bits == 0
            || distances[c].bits == 0x8000_0000,
        0 <= j < on_surface(distances, corners()).len() ==> on_surface(distances, corners())[j] < 8,
        0 <= j < k < on_surface(distances, corners()).len() ==> on_surface(distances, corners())[j]
            < on_surface(distances, corners())[k],
{
    let pred = |corner: usize| distances[corner as int].zero();
    let at = lemma_places(corners(), pred);
    let kept = corners().filter(pred);
    assert(kept == on_surface(distances, corners()));
    lemma_bits(distances[c]);
    if distances[c].zero() {
        assert(pred(corners()[c]));
        let i = choose|i: int| 0 <= i < at.len() && at[i] == c;
        assert(kept[i] == corners()[at[i]]);
        assert(kept[i] == c as usize);
    }
    if kept.contains(c as usize) {
        let i = choose|i: int| 0 <= i < kept.len() && kept[i] == c as usize;
        assert(kept[i] == corners()[at[i]] && pred(corners()[at[i]]));
    }
    if 0 <= j < kept.len() {
        assert(kept[j] == corners()[at[j]]);
    }
    if 0 <= j < k < kept.len() {
        assert(kept[k] == corners()[at[k]]);
        assert(at[j] < at[k]);
    }
}

/// A cell is partially inside the shape exactly if it has a corner that is not below zero
/// and a corner that is not above zero, going by the bits of the distances.
pub proof fn lemma_partial_by_bits(distances: Seq<Single>)
    ensures
        partially_in(distances) <==> {
            &&& exists|i: int|
                #![trigger distances[i]]
                0 <= i < 8 && !(0x8000_0000 < distances[i].bits <= 0xff80_0000)
            &&& exists|i: int|
                #![trigger distances[i]]
                0 <= i < 8 && !(0 < distances[i].bits <= 0x7f80_0000)
        },
{
    assert forall|i: int| #![trigger distances[i]] 0 <= i < 8 implies (distances[i].below_zero()
        <==> 0x8000_0000 < distances[i].bits <= 0xff80_0000) && (distances[i].above_zero() <==> 0
        < distances[i].bits <= 0x7f80_0000) by {
        lemma_bits(distances[i]);
    }
}

} // verus!
