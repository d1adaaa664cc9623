//! What happens to a mesh when the distances are changed in a regular way.

use crate::cell::{
    corners, crosses, crossing_on, crossings, crossings_on, lemma_edges, on_surface, partially_in,
    touched_corners, turned, Crossing, Weight, EDGES,
};
use crate::grid::{in_cube, lemma_offset, lemma_point_at, offset, point_at, volume};
use crate::nets::{
    corner_distances, crossed, crossed_cells, distance_at, face_along_x, face_along_y,
    face_along_z, faces, faces_at, faces_before, vertex_cells, vertex_index,
};
use crate::single::{lemma_negative, lemma_sign_of_number, Single};
use vstd::prelude::*;

verus! {

/// Whether the distances of the second list are those of the first with the other
/// sign.
pub open spec fn negated(d: Seq<Single>, e: Seq<Single>) -> bool {
    &&& e.len() == d.len()
    &&& forall|n: int| 0 <= n < d.len() ==> #[trigger] e[n] == (#[trigger] d[n]).negative()
}

/// Whether two distances agree in their signs, in being zero and in being no number.
pub open spec fn same_side(a: Single, b: Single) -> bool {
    &&& a.signed() == b.signed()
    &&& a.zero() == b.zero()
    &&& a.is_nan() == b.is_nan()
}

/// Whether the distances of two lists lie on the same sides of the surface.
pub open spec fn same_sides(d: Seq<Single>, e: Seq<Single>) -> bool {
    &&& e.len() == d.len()
    &&& forall|n: int| 0 <= n < d.len() ==> same_side(#[trigger] d[n], #[trigger] e[n])
}

/// Whether the surface crosses the same edges between corners, and the same cells.
spec fn same_net(d: Seq<Single>, e: Seq<Single>, r: int) -> bool {
    &&& forall|x: int, y: int, z: int|
        in_cube(r, x, y, z) ==> #[trigger] crossed(e, r, x, y, z) == crossed(d, r, x, y, z)
    &&& forall|x: int, y: int, z: int, u: int, v: int, w: int|
        in_cube(r + 1, x, y, z) && in_cube(r + 1, u, v, w) ==> (#[trigger] distance_at(
            e,
            r,
            x,
            y,
            z,
        )).sign_differs(#[trigger] distance_at(e, r, u, v, w)) == distance_at(
            d,
            r,
            x,
            y,
            z,
        ).sign_differs(distance_at(d, r, u, v, w))
}

proof fn lemma_same_cells(d: Seq<Single>, e: Seq<Single>, r: int, n: int)
    requires
        0 <= r,
        n <= volume(r),
        same_net(d, e, r),
    ensures
        crossed_cells(e, r, n) == crossed_cells(d, r, n),
    decreases n,
{
    if n > 0 {
        lemma_same_cells(d, e, r, n - 1);
        lemma_point_at(r, n - 1);
        let (x, y, z) = point_at(r, n - 1);
        assert(crossed(e, r, x, y, z) == crossed(d, r, x, y, z));
    }
}

proof fn lemma_same_index(d: Seq<Single>, e: Seq<Single>, r: int, x: int, y: int, z: int)
    requires
        same_net(d, e, r),
        in_cube(r, x, y, z),
    ensures
        vertex_index(e, r, x, y, z) == vertex_index(d, r, x, y, z),
{
    lemma_offset(r, x, y, z);
    lemma_same_cells(d, e, r, offset(r, x, y, z));
}

proof fn lemma_same_face_along_x(d: Seq<Single>, e: Seq<Single>, r: int, x: int, y: int, z: int)
    requires
        same_net(d, e, r),
        in_cube(r, x, y, z),
    ensures
        face_along_x(e, r, x, y, z) == face_along_x(d, r, x, y, z),
{
    if y > 0 && z > 0 {
        lemma_same_index(d, e, r, x, y - 1, z - 1);
        lemma_same_index(d, e, r, x, y - 1, z);
        lemma_same_index(d, e, r, x, y, z - 1);
        lemma_same_index(d, e, r, x, y, z);
    }
}

proof fn lemma_same_face_along_y(d: Seq<Single>, e: Seq<Single>, r: int, x: int, y: int, z: int)
    requires
        same_net(d, e, r),
        in_cube(r, x, y, z),
    ensures
        face_along_y(e, r, x, y, z) == face_along_y(d, r, x, y, z),
{
    if x > 0 && z > 0 {
        lemma_same_index(d, e, r, x - 1, y, z - 1);
        lemma_same_index(d, e, r, x - 1, y, z);
        lemma_same_index(d, e, r, x, y, z - 1);
        lemma_same_index(d, e, r, x, y, z);
    }
}

proof fn lemma_same_face_along_z(d: Seq<Single>, e: Seq<Single>, r: int, x: int, y: int, z: int)
    requires
        same_net(d, e, r),
        in_cube(r, x, y, z),
    ensures
        face_along_z(e, r, x, y, z) == face_along_z(d, r, x, y, z),
{
    if x > 0 && y > 0 {
        lemma_same_index(d, e, r, x - 1, y - 1, z);
        lemma_same_index(d, e, r, x - 1, y, z);
        lemma_same_index(d, e, r, x, y - 1, z);
        lemma_same_index(d, e, r, x, y, z);
    }
}

proof fn lemma_same_faces(d: Seq<Single>, e: Seq<Single>, r: int, n: int)
    requires
        0 <= r,
        n <= volume(r),
        same_net(d, e, r),
    ensures
        faces_before(e, r, n) == faces_before(d, r, n),
    decreases n,
{
    if n > 0 {
        lemma_same_faces(d, e, r, n - 1);
        lemma_point_at(r, n - 1);
        let (x, y, z) = point_at(r, n - 1);
        lemma_same_face_along_x(d, e, r, x, y, z);
        lemma_same_face_along_y(d, e, r, x, y, z);
        lemma_same_face_along_z(d, e, r, x, y, z);
        assert(faces_at(e, r, x, y, z) == faces_at(d, r, x, y, z));
    }
}

proof fn lemma_negated_cell(a: Seq<Single>, b: Seq<Single>)
    requires
        forall|i: int| 0 <= i < 8 ==> #[trigger] b[i] == (#[trigger] a[i]).negative(),
    ensures
        partially_in(b) == partially_in(a),
{
    assert forall|i: int|
        #![trigger a[i]]
        #![trigger b[i]]
        0 <= i < 8 implies b[i].below_zero() == a[i].above_zero() && b[i].above_zero()
        == a[i].below_zero() by {
        lemma_negative(a[i]);
    }
}

proof fn lemma_cell_on_same_sides(a: Seq<Single>, b: Seq<Single>)
    requires
        forall|i: int| 0 <= i < 8 ==> same_side(#[trigger] a[i], #[trigger] b[i]),
    ensures
        partially_in(b) == partially_in(a),
{
    assert forall|i: int|
        #![trigger a[i]]
        #![trigger b[i]]
        0 <= i < 8 implies b[i].below_zero() == a[i].below_zero() && b[i].above_zero()
        == a[i].above_zero() by {
        if !a[i].is_nan() {
            lemma_sign_of_number(a[i]);
            lemma_sign_of_number(b[i]);
        }
    }
}

/// The corners of a cell are among the corners of all cells.
proof fn lemma_corner_sampled(d: Seq<Single>, r: int, x: int, y: int, z: int, i: int)
    requires
        in_cube(r, x, y, z),
        d.len() == volume(r + 1),
        0 <= i < 8,
    ensures
        0 <= offset(r + 1, x + i / 4, y + i / 2 % 2, z + i % 2) < d.len(),
        corner_distances(d, r, x, y, z)[i] == d[offset(
            r + 1,
            x + i / 4,
            y + i / 2 % 2,
            z + i % 2,
        )],
{
    lemma_offset(r + 1, x + i / 4, y + i / 2 % 2, z + i % 2);
}

/// To turn a shape inside out leaves its mesh as it is: where every distance takes
/// the other sign, the same cells get vertices and the same vertices are joined.
pub proof fn lemma_negated_mesh(d: Seq<Single>, e: Seq<Single>, r: int)
    requires
        0 <= r,
        d.len() == volume(r + 1),
        negated(d, e),
    ensures
        vertex_cells(e, r) == vertex_cells(d, r),
        faces(e, r) == faces(d, r),
{
    assert forall|x: int, y: int, z: int| in_cube(r, x, y, z) implies #[trigger] crossed(
        e,
        r,
        x,
        y,
        z,
    ) == crossed(d, r, x, y, z) by {
        let a = corner_distances(d, r, x, y, z);
        let b = corner_distances(e, r, x, y, z);
        assert forall|i: int| 0 <= i < 8 implies #[trigger] b[i]
            == (#[trigger] a[i]).negative() by {
            lemma_corner_sampled(d, r, x, y, z, i);
            lemma_corner_sampled(e, r, x, y, z, i);
        }
        lemma_negated_cell(a, b);
    }
    assert forall|x: int, y: int, z: int, u: int, v: int, w: int|
        in_cube(r + 1, x, y, z) && in_cube(r + 1, u, v, w) implies (#[trigger] distance_at(
        e,
        r,
        x,
        y,
        z,
    )).sign_differs(#[trigger] distance_at(e, r, u, v, w)) == distance_at(
        d,
        r,
        x,
        y,
        z,
    ).sign_differs(distance_at(d, r, u, v, w)) by {
        lemma_offset(r + 1, x, y, z);
        lemma_offset(r + 1, u, v, w);
        lemma_negative(distance_at(d, r, x, y, z));
        lemma_negative(distance_at(d, r, u, v, w));
    }
    lemma_same_cells(d, e, r, volume(r));
    lemma_same_faces(d, e, r, volume(r));
}

/// The mesh is decided by the sides of the surface on which the corners lie. Where
/// distances change without leaving their side, as they do when each of them is
/// doubled, the same cells get vertices and the same vertices are joined.
pub proof fn lemma_mesh_by_sides(d: Seq<Single>, e: Seq<Single>, r: int)
    requires
        0 <= r,
        d.len() == volume(r + 1),
        same_sides(d, e),
    ensures
        vertex_cells(e, r) == vertex_cells(d, r),
        faces(e, r) == faces(d, r),
{
    assert forall|x: int, y: int, z: int| in_cube(r, x, y, z) implies #[trigger] crossed(
        e,
        r,
        x,
        y,
        z,
    ) == crossed(d, r, x, y, z) by {
        let a = corner_distances(d, r, x, y, z);
        let b = corner_distances(e, r, x, y, z);
        assert forall|i: int| 0 <= i < 8 implies same_side(#[trigger] a[i], #[trigger] b[i]) by {
            lemma_corner_sampled(d, r, x, y, z, i);
            lemma_corner_sampled(e, r, x, y, z, i);
        }
        lemma_cell_on_same_sides(a, b);
    }
    assert forall|x: int, y: int, z: int, u: int, v: int, w: int|
        in_cube(r + 1, x, y, z) && in_cube(r + 1, u, v, w) implies (#[trigger] distance_at(
        e,
        r,
        x,
        y,
        z,
    )).sign_differs(#[trigger] distance_at(e, r, u, v, w)) == distance_at(
        d,
        r,
        x,
        y,
        z,
    ).sign_differs(distance_at(d, r, u, v, w)) by {
        lemma_offset(r + 1, x, y, z);
        lemma_offset(r + 1, u, v, w);
    }
    lemma_same_cells(d, e, r, volume(r));
    lemma_same_faces(d, e, r, volume(r));
}

/// To scale all distances by a factor leaves the mesh as it is: the same cells get
/// vertices and the same vertices are joined.
pub proof fn lemma_scaled_mesh(d: Seq<Single>, e: Seq<Single>, r: int, factor: int)
    requires
        0 <= r,
        d.len() == volume(r + 1),
        e.len() == d.len(),
        factor > 0,
        forall|n: int|
            0 <= n < d.len() ==> {
                &&& (#[trigger] e[n]).signed() == (#[trigger] d[n]).signed()
                &&& e[n].is_nan() == d[n].is_nan()
                &&& e[n].units() == factor * d[n].units()
            },
    ensures
        vertex_cells(e, r) == vertex_cells(d, r),
        faces(e, r) == faces(d, r),
{
    assert forall|n: int| 0 <= n < d.len() implies same_side(#[trigger] d[n], #[trigger] e[n]) by {
        let units = d[n].units();
        assert(factor * units == 0 <==> units == 0) by (nonlinear_arith)
            requires
                factor > 0,
        ;
    }
    lemma_mesh_by_sides(d, e, r);
}

/// Whether two crossings are at the same place: on the same edge, with the same share
/// of each of its ends.
pub open spec fn same_place(a: Crossing, b: Crossing) -> bool {
    &&& a.from == b.from
    &&& a.to == b.to
    &&& match (a.weight, b.weight) {
        (Weight::Even, Weight::Even) => true,
        (Weight::Distances { from, to }, Weight::Distances { from: other_from, to: other_to }) => {
            let delta = to.units() - from.units();
            let other_delta = other_to.units() - other_from.units();
            (from.units() + delta) * other_delta == (other_from.units() + other_delta) * delta
        },
        _ => false,
    }
}

/// Whether crossings are at the same places, one by one.
pub open spec fn same_places(a: Seq<Crossing>, b: Seq<Crossing>) -> bool {
    &&& a.len() == b.len()
    &&& forall|k: int| 0 <= k < a.len() ==> same_place(#[trigger] a[k], #[trigger] b[k])
}

/// Two cells whose edges are crossed at the same places, as far as the first `k` of
/// their edges go.
proof fn lemma_same_places(a: Seq<Single>, b: Seq<Single>, k: int)
    requires
        0 <= k <= 12,
        forall|i: int|
            0 <= i < 12 ==> {
                &&& crosses(b, #[trigger] EDGES@[i]) == crosses(a, EDGES@[i])
                &&& crosses(a, EDGES@[i]) ==> same_place(
                    crossing_on(a, EDGES@[i]),
                    crossing_on(b, EDGES@[i]),
                )
            },
    ensures
        same_places(crossings_on(a, EDGES@.take(k)), crossings_on(b, EDGES@.take(k))),
    decreases k,
{
    reveal(Seq::filter);
    lemma_edges();
    if k > 0 {
        lemma_same_places(a, b, k - 1);
        assert(EDGES@.take(k).drop_last() =~= EDGES@.take(k - 1));
        let edge = EDGES@[k - 1];
        assert(EDGES@.take(k).last() == edge);
        assert(crosses(b, edge) == crosses(a, edge));
        assert(crossings_on(a, EDGES@.take(k)) =~= if crosses(a, edge) {
            crossings_on(a, EDGES@.take(k - 1)).push(crossing_on(a, edge))
        } else {
            crossings_on(a, EDGES@.take(k - 1))
        });
        assert(crossings_on(b, EDGES@.take(k)) =~= if crosses(b, edge) {
            crossings_on(b, EDGES@.take(k - 1)).push(crossing_on(b, edge))
        } else {
            crossings_on(b, EDGES@.take(k - 1))
        });
    }
}

/// Two cells with the same corners right on the surface.
proof fn lemma_same_on_surface(a: Seq<Single>, b: Seq<Single>, k: int)
    requires
        0 <= k <= 8,
        forall|i: int| 0 <= i < 8 ==> (#[trigger] b[i]).zero() == (#[trigger] a[i]).zero(),
    ensures
        on_surface(b, corners().take(k)) == on_surface(a, corners().take(k)),
    decreases k,
{
    reveal(Seq::filter);
    if k > 0 {
        lemma_same_on_surface(a, b, k - 1);
        assert(corners().take(k).drop_last() =~= corners().take(k - 1));
        assert(corners().take(k).last() == k - 1);
        assert(b[k - 1].zero() == a[k - 1].zero());
    }
}

/// To turn a shape inside out leaves a crossing where it is. What is known of it does
/// not change at all, unless the first end of its edge is zero or has no distance.
pub proof fn lemma_negated_crossing(a: Seq<Single>, b: Seq<Single>, edge: (usize, usize))
    requires
        b[edge.0 as int] == a[edge.0 as int].negative(),
        b[edge.1 as int] == a[edge.1 as int].negative(),
    ensures
        crosses(b, edge) == crosses(a, edge),
        same_place(crossing_on(a, edge), crossing_on(b, edge)),
        !a[edge.0 as int].zero() && !a[edge.0 as int].is_nan() ==> crossing_on(b, edge)
            == crossing_on(a, edge),
{
    let from = a[edge.0 as int];
    let to = a[edge.1 as int];
    lemma_negative(from);
    lemma_negative(to);
    let (p, q) = turned(a, edge);
    let (s, t) = turned(b, edge);
    let (u, v) = (p.units(), q.units());
    let (su, sv) = (s.units(), t.units());
    assert((su == u && sv == v) || (su == -u && sv == -v));
    assert((u + (v - u)) * (sv - su) == (su + (sv - su)) * (v - u)) by (nonlinear_arith)
        requires
            (su == u && sv == v) || (su == -u && sv == -v),
    ;
}

/// To turn a shape inside out leaves in its place what the vertex of a cell is placed
/// by: the crossings of the cell, and the corners at which the surface touches it.
pub proof fn lemma_negated_crossings(a: Seq<Single>, b: Seq<Single>)
    requires
        forall|i: int| 0 <= i < 8 ==> #[trigger] b[i] == (#[trigger] a[i]).negative(),
    ensures
        same_places(crossings(a), crossings(b)),
        touched_corners(b) == touched_corners(a),
{
    lemma_edges();
    assert forall|i: int| 0 <= i < 12 implies {
        &&& crosses(b, #[trigger] EDGES@[i]) == crosses(a, EDGES@[i])
        &&& crosses(a, EDGES@[i]) ==> same_place(
            crossing_on(a, EDGES@[i]),
            crossing_on(b, EDGES@[i]),
        )
    } by {
        lemma_negated_crossing(a, b, EDGES@[i]);
    }
    lemma_same_places(a, b, 12);
    assert(EDGES@.take(12) =~= EDGES@);
    assert forall|i: int| 0 <= i < 8 implies (#[trigger] b[i]).zero() == (
    #[trigger] a[i]).zero() by {
        lemma_negative(a[i]);
    }
    lemma_same_on_surface(a, b, 8);
    assert(corners().take(8) =~= corners());
}

/// To turn a shape inside out leaves in its place what each vertex of the mesh is
/// placed by.
pub proof fn lemma_negated_places(
    d: Seq<Single>,
    e: Seq<Single>,
    r: int,
    x: int,
    y: int,
    z: int,
)
    requires
        d.len() == volume(r + 1),
        negated(d, e),
        in_cube(r, x, y, z),
    ensures
        ({
            let a = corner_distances(d, r, x, y, z);
            let b = corner_distances(e, r, x, y, z);
            same_places(crossings(a), crossings(b)) && touched_corners(b) == touched_corners(a)
        }),
{
    let a = corner_distances(d, r, x, y, z);
    let b = corner_distances(e, r, x, y, z);
    assert forall|i: int| 0 <= i < 8 implies #[trigger] b[i] == (#[trigger] a[i]).negative() by {
        lemma_corner_sampled(d, r, x, y, z, i);
        lemma_corner_sampled(e, r, x, y, z, i);
    }
    lemma_negated_crossings(a, b);
}

/// To scale the distances by a factor leaves a crossing where it is.
pub proof fn lemma_scaled_crossing(
    a: Seq<Single>,
    b: Seq<Single>,
    edge: (usize, usize),
    factor: int,
)
    requires
        factor > 0,
        same_side(a[edge.0 as int], b[edge.0 as int]),
        same_side(a[edge.1 as int], b[edge.1 as int]),
        b[edge.0 as int].units() == factor * a[edge.0 as int].units(),
        b[edge.1 as int].units() == factor * a[edge.1 as int].units(),
    ensures
        crosses(b, edge) == crosses(a, edge),
        same_place(crossing_on(a, edge), crossing_on(b, edge)),
{
    let from = a[edge.0 as int];
    let to = a[edge.1 as int];
    lemma_negative(from);
    lemma_negative(to);
    lemma_negative(b[edge.0 as int]);
    lemma_negative(b[edge.1 as int]);
    let f = from.units();
    let t = to.units();
    assert(factor * f < 0 <==> f < 0) by (nonlinear_arith)
        requires
            factor > 0,
    ;
    assert(factor * f == factor * t <==> f == t) by (nonlinear_arith)
        requires
            factor > 0,
    ;
    assert(-(factor * f) == factor * (-f) && -(factor * t) == factor * (-t)) by (nonlinear_arith);
    let (p, q) = turned(a, edge);
    let (u, v) = (p.units(), q.units());
    let (su, sv) = (turned(b, edge).0.units(), turned(b, edge).1.units());
    assert(su == factor * u && sv == factor * v);
    assert((u + (v - u)) * (sv - su) == (su + (sv - su)) * (v - u)) by (nonlinear_arith)
        requires
            su == factor * u,
            sv == factor * v,
    ;
}

/// To scale the distances of a cell by a factor leaves in its place what its vertex is
/// placed by.
pub proof fn lemma_scaled_crossings(a: Seq<Single>, b: Seq<Single>, factor: int)
    requires
        factor > 0,
        forall|i: int|
            0 <= i < 8 ==> {
                &&& same_side(#[trigger] a[i], #[trigger] b[i])
                &&& b[i].units() == factor * a[i].units()
            },
    ensures
        same_places(crossings(a), crossings(b)),
        touched_corners(b) == touched_corners(a),
{
    lemma_edges();
    assert forall|i: int| 0 <= i < 12 implies {
        &&& crosses(b, #[trigger] EDGES@[i]) == crosses(a, EDGES@[i])
        &&& crosses(a, EDGES@[i]) ==> same_place(
            crossing_on(a, EDGES@[i]),
            crossing_on(b, EDGES@[i]),
        )
    } by {
        let edge = EDGES@[i];
        assert(same_side(a[edge.0 as int], b[edge.0 as int]));
        assert(same_side(a[edge.1 as int], b[edge.1 as int]));
        lemma_scaled_crossing(a, b, edge, factor);
    }
    lemma_same_places(a, b, 12);
    assert(EDGES@.take(12) =~= EDGES@);
    assert forall|i: int| 0 <= i < 8 implies (#[trigger] b[i]).zero() == (
    #[trigger] a[i]).zero() by {
        assert(same_side(a[i], b[i]));
    }
    lemma_same_on_surface(a, b, 8);
    assert(corners().take(8) =~= corners());
}

} // verus!
