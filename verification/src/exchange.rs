//! What happens to a mesh when two axes are exchanged.

use crate::cell::partially_in;
use crate::grid::{in_cube, lemma_offset, lemma_point_at, offset, point_at, volume};
use crate::nets::{
    corner_distances, crossed, crossed_cells, distance_at, face, face_along_x, face_along_y,
    face_along_z, faces, faces_at, faces_before, lemma_cells_around_edge, lemma_vertex_of_cell,
    vertex_cells, vertex_index,
};
use crate::single::Single;
use vstd::prelude::*;
use vstd::relations::injective_on;
use vstd::set_lib::lemma_map_size;

verus! {

/// Two of the three axes.
#[derive(Clone, Copy, Debug, PartialEq, Eq, Structural)]
pub enum Pair {
    XY,
    XZ,
    YZ,
}

/// One of the three axes.
#[derive(Clone, Copy, Debug, PartialEq, Eq, Structural)]
pub enum Axis {
    X,
    Y,
    Z,
}

impl Pair {
    /// A point with the coordinates of the two axes exchanged.
    pub open spec fn point(self, p: (int, int, int)) -> (int, int, int) {
        match self {
            Pair::XY => (p.1, p.0, p.2),
            Pair::XZ => (p.2, p.1, p.0),
            Pair::YZ => (p.0, p.2, p.1),
        }
    }

    /// The axis that takes the place of an axis.
    pub open spec fn axis(self, axis: Axis) -> Axis {
        match (self, axis) {
            (Pair::XY, Axis::X) => Axis::Y,
            (Pair::XY, Axis::Y) => Axis::X,
            (Pair::XZ, Axis::X) => Axis::Z,
            (Pair::XZ, Axis::Z) => Axis::X,
            (Pair::YZ, Axis::Y) => Axis::Z,
            (Pair::YZ, Axis::Z) => Axis::Y,
            _ => axis,
        }
    }
}

/// Whether a point lies in the cube.
pub open spec fn within(size: int, p: (int, int, int)) -> bool {
    in_cube(size, p.0, p.1, p.2)
}

/// The distance at a corner.
pub open spec fn distance_of(d: Seq<Single>, r: int, p: (int, int, int)) -> Single {
    distance_at(d, r, p.0, p.1, p.2)
}

/// Whether the surface crosses the cell at a place.
pub open spec fn crossed_at(d: Seq<Single>, r: int, p: (int, int, int)) -> bool {
    crossed(d, r, p.0, p.1, p.2)
}

/// Whether the second distances are the first ones with two axes exchanged.
pub open spec fn exchanged(pair: Pair, d: Seq<Single>, e: Seq<Single>, r: int) -> bool {
    forall|p: (int, int, int)|
        within(r + 1, p) ==> #[trigger] distance_of(d, r, p) == distance_of(e, r, pair.point(p))
}

/// To exchange two axes twice changes nothing.
pub proof fn lemma_exchanged_back(pair: Pair, d: Seq<Single>, e: Seq<Single>, r: int)
    ensures
        forall|p: (int, int, int)| #[trigger] pair.point(pair.point(p)) == p,
        forall|axis: Axis| #[trigger] pair.axis(pair.axis(axis)) == axis,
        exchanged(pair, d, e, r) ==> exchanged(pair, e, d, r),
{
    assert forall|p: (int, int, int)| #[trigger] pair.point(pair.point(p)) == p by {}
    if exchanged(pair, d, e, r) {
        assert forall|p: (int, int, int)| within(r + 1, p) implies #[trigger] distance_of(e, r, p)
            == distance_of(d, r, pair.point(p)) by {
            let q = pair.point(p);
            assert(within(r + 1, q));
            assert(distance_of(d, r, q) == distance_of(e, r, pair.point(q)));
        }
    }
}

/// Two lists of eight distances in another order are crossed alike.
proof fn lemma_permuted(a: Seq<Single>, b: Seq<Single>, pair: Pair)
    requires
        a[0] == b[0] && a[7] == b[7],
        pair is XY ==> a[1] == b[1] && a[2] == b[4] && a[3] == b[5] && a[4] == b[2] && a[5] == b[3]
            && a[6] == b[6],
        pair is XZ ==> a[1] == b[4] && a[2] == b[2] && a[3] == b[6] && a[4] == b[1] && a[5] == b[5]
            && a[6] == b[3],
        pair is YZ ==> a[1] == b[2] && a[2] == b[1] && a[3] == b[3] && a[4] == b[4] && a[5] == b[6]
            && a[6] == b[5],
    ensures
        partially_in(a) == partially_in(b),
{
    assert((forall|i: int| 0 <= i < 8 ==> (#[trigger] a[i]).below_zero()) <==> a[0].below_zero()
        && a[1].below_zero() && a[2].below_zero() && a[3].below_zero() && a[4].below_zero()
        && a[5].below_zero() && a[6].below_zero() && a[7].below_zero());
    assert((forall|i: int| 0 <= i < 8 ==> (#[trigger] a[i]).above_zero()) <==> a[0].above_zero()
        && a[1].above_zero() && a[2].above_zero() && a[3].above_zero() && a[4].above_zero()
        && a[5].above_zero() && a[6].above_zero() && a[7].above_zero());
    assert((forall|i: int| 0 <= i < 8 ==> (#[trigger] b[i]).below_zero()) <==> b[0].below_zero()
        && b[1].below_zero() && b[2].below_zero() && b[3].below_zero() && b[4].below_zero()
        && b[5].below_zero() && b[6].below_zero() && b[7].below_zero());
    assert((forall|i: int| 0 <= i < 8 ==> (#[trigger] b[i]).above_zero()) <==> b[0].above_zero()
        && b[1].above_zero() && b[2].above_zero() && b[3].above_zero() && b[4].above_zero()
        && b[5].above_zero() && b[6].above_zero() && b[7].above_zero());
}

/// To exchange two axes is to exchange them in the cells that the surface crosses.
pub proof fn lemma_exchanged_crossed(
    pair: Pair,
    d: Seq<Single>,
    e: Seq<Single>,
    r: int,
    p: (int, int, int),
)
    requires
        exchanged(pair, d, e, r),
        within(r, p),
    ensures
        crossed_at(e, r, pair.point(p)) == crossed_at(d, r, p),
{
    let (x, y, z) = p;
    let (u, v, w) = pair.point(p);
    let a = corner_distances(d, r, x, y, z);
    let b = corner_distances(e, r, u, v, w);
    assert(a[0] == distance_of(d, r, (x, y, z)) && b[0] == distance_of(e, r, (u, v, w)));
    assert(a[1] == distance_of(d, r, (x, y, z + 1)) && b[1] == distance_of(e, r, (u, v, w + 1)));
    assert(a[2] == distance_of(d, r, (x, y + 1, z)) && b[2] == distance_of(e, r, (u, v + 1, w)));
    assert(a[3] == distance_of(d, r, (x, y + 1, z + 1)));
    assert(b[3] == distance_of(e, r, (u, v + 1, w + 1)));
    assert(a[4] == distance_of(d, r, (x + 1, y, z)) && b[4] == distance_of(e, r, (u + 1, v, w)));
    assert(a[5] == distance_of(d, r, (x + 1, y, z + 1)));
    assert(b[5] == distance_of(e, r, (u + 1, v, w + 1)));
    assert(a[6] == distance_of(d, r, (x + 1, y + 1, z)));
    assert(b[6] == distance_of(e, r, (u + 1, v + 1, w)));
    assert(a[7] == distance_of(d, r, (x + 1, y + 1, z + 1)));
    assert(b[7] == distance_of(e, r, (u + 1, v + 1, w + 1)));
    lemma_permuted(a, b, pair);
}

/// The next corner along an axis.
pub open spec fn next_along(axis: Axis, p: (int, int, int)) -> (int, int, int) {
    match axis {
        Axis::X => (p.0 + 1, p.1, p.2),
        Axis::Y => (p.0, p.1 + 1, p.2),
        Axis::Z => (p.0, p.1, p.2 + 1),
    }
}

/// Whether the edge that leads from a corner along an axis has a face: the surface
/// crosses it, and four cells of the box lie around it.
pub open spec fn has_face(d: Seq<Single>, r: int, axis: Axis, p: (int, int, int)) -> bool {
    &&& axis is X || p.0 > 0
    &&& axis is Y || p.1 > 0
    &&& axis is Z || p.2 > 0
    &&& distance_of(d, r, p).sign_differs(distance_of(d, r, next_along(axis, p)))
}

/// The face of the edge that leads from a corner along an axis.
pub open spec fn face_along(d: Seq<Single>, r: int, axis: Axis, p: (int, int, int)) -> Seq<u32> {
    match axis {
        Axis::X => face_along_x(d, r, p.0, p.1, p.2),
        Axis::Y => face_along_y(d, r, p.0, p.1, p.2),
        Axis::Z => face_along_z(d, r, p.0, p.1, p.2),
    }
}

/// To exchange two axes is to exchange them in the edges that have a face.
pub proof fn lemma_exchanged_face(
    pair: Pair,
    d: Seq<Single>,
    e: Seq<Single>,
    r: int,
    axis: Axis,
    p: (int, int, int),
)
    requires
        exchanged(pair, d, e, r),
        within(r, p),
    ensures
        has_face(e, r, pair.axis(axis), pair.point(p)) == has_face(d, r, axis, p),
{
    let q = next_along(axis, p);
    assert(pair.point(q) == next_along(pair.axis(axis), pair.point(p)));
    assert(distance_of(d, r, p) == distance_of(e, r, pair.point(p)));
    assert(distance_of(d, r, q) == distance_of(e, r, pair.point(q)));
}

/// The number of points with a mark, among the first `n` points of the walk.
spec fn tally(size: int, marked: spec_fn((int, int, int)) -> bool, n: int) -> nat
    decreases n,
{
    if n <= 0 {
        0
    } else if marked(point_at(size, n - 1)) {
        tally(size, marked, n - 1) + 1
    } else {
        tally(size, marked, n - 1)
    }
}

/// The points of a cube with a mark, among the first `n` points of the walk.
spec fn marks(size: int, marked: spec_fn((int, int, int)) -> bool, n: int) -> Set<
    (int, int, int),
> {
    Set::new(|p: (int, int, int)| within(size, p) && offset(size, p.0, p.1, p.2) < n && marked(p))
}

proof fn lemma_tally(size: int, marked: spec_fn((int, int, int)) -> bool, n: int)
    requires
        0 <= size,
        n <= volume(size),
    ensures
        marks(size, marked, n).finite(),
        marks(size, marked, n).len() == tally(size, marked, n),
    decreases n,
{
    let here = marks(size, marked, n);
    if n <= 0 {
        assert forall|p: (int, int, int)| !here.contains(p) by {
            if within(size, p) {
                lemma_offset(size, p.0, p.1, p.2);
            }
        }
        assert(here =~= Set::empty());
    } else {
        lemma_tally(size, marked, n - 1);
        lemma_point_at(size, n - 1);
        let before = marks(size, marked, n - 1);
        let last = point_at(size, n - 1);
        assert forall|p: (int, int, int)|
            within(size, p) && offset(size, p.0, p.1, p.2) == n - 1 implies p == last by {
            lemma_offset(size, p.0, p.1, p.2);
        }
        if marked(last) {
            assert(here =~= before.insert(last));
        } else {
            assert(here =~= before);
        }
    }
}

/// As many points are marked before an exchange as after it.
proof fn lemma_exchanged_tally(
    size: int,
    pair: Pair,
    before: spec_fn((int, int, int)) -> bool,
    after: spec_fn((int, int, int)) -> bool,
)
    requires
        0 <= size,
        forall|p: (int, int, int)| within(size, p) ==> #[trigger] before(p) == after(pair.point(p)),
    ensures
        tally(size, before, volume(size)) == tally(size, after, volume(size)),
{
    let n = volume(size);
    let a = marks(size, before, n);
    let b = marks(size, after, n);
    let f = |p: (int, int, int)| pair.point(p);
    lemma_tally(size, before, n);
    lemma_tally(size, after, n);
    assert(injective_on(f, a));
    assert forall|p: (int, int, int)| within(size, p) implies 0 <= #[trigger] offset(
        size,
        p.0,
        p.1,
        p.2,
    ) < n by {
        lemma_offset(size, p.0, p.1, p.2);
    }
    assert forall|q: (int, int, int)| a.map(f).contains(q) == #[trigger] b.contains(q) by {
        let p = pair.point(q);
        assert(pair.point(p) == q);
        assert(f(p) == q);
        if within(size, q) {
            assert(within(size, p));
            assert(before(p) == after(q));
            lemma_offset(size, p.0, p.1, p.2);
            lemma_offset(size, q.0, q.1, q.2);
        }
        if b.contains(q) {
            assert(a.contains(p));
        }
        if a.map(f).contains(q) {
            let s = choose|s: (int, int, int)| a.contains(s) && q == f(s);
            assert(a.contains(s));
            assert(before(s) == after(pair.point(s)));
        }
    }
    assert(a.map(f) =~= b);
    lemma_map_size(a, b, f);
}

proof fn lemma_vertices_tallied(d: Seq<Single>, r: int, n: int)
    ensures
        crossed_cells(d, r, n).len() == tally(r, |p: (int, int, int)| crossed_at(d, r, p), n),
    decreases n,
{
    if n > 0 {
        lemma_vertices_tallied(d, r, n - 1);
    }
}

proof fn lemma_faces_tallied(d: Seq<Single>, r: int, n: int)
    ensures
        faces_before(d, r, n).len() == 6 * tally(
            r,
            |p: (int, int, int)| has_face(d, r, Axis::X, p),
            n,
        ) + 6 * tally(r, |p: (int, int, int)| has_face(d, r, Axis::Y, p), n) + 6 * tally(
            r,
            |p: (int, int, int)| has_face(d, r, Axis::Z, p),
            n,
        ),
    decreases n,
{
    if n > 0 {
        lemma_faces_tallied(d, r, n - 1);
        let p = point_at(r, n - 1);
        assert(face_along(d, r, Axis::X, p).len() == if has_face(d, r, Axis::X, p) {
            6nat
        } else {
            0
        });
        assert(face_along(d, r, Axis::Y, p).len() == if has_face(d, r, Axis::Y, p) {
            6nat
        } else {
            0
        });
        assert(face_along(d, r, Axis::Z, p).len() == if has_face(d, r, Axis::Z, p) {
            6nat
        } else {
            0
        });
        assert(faces_at(d, r, p.0, p.1, p.2).len() == face_along(d, r, Axis::X, p).len()
            + face_along(d, r, Axis::Y, p).len() + face_along(d, r, Axis::Z, p).len());
    }
}

/// To exchange two axes changes neither the number of vertices nor the number of
/// faces.
pub proof fn lemma_exchanged_mesh(pair: Pair, d: Seq<Single>, e: Seq<Single>, r: int)
    requires
        0 <= r,
        exchanged(pair, d, e, r),
    ensures
        vertex_cells(e, r).len() == vertex_cells(d, r).len(),
        faces(e, r).len() == faces(d, r).len(),
{
    let n = volume(r);
    let crossed_d = |p: (int, int, int)| crossed_at(d, r, p);
    let crossed_e = |p: (int, int, int)| crossed_at(e, r, p);
    assert forall|p: (int, int, int)| within(r, p) implies #[trigger] crossed_d(p) == crossed_e(
        pair.point(p),
    ) by {
        lemma_exchanged_crossed(pair, d, e, r, p);
    }
    lemma_exchanged_tally(r, pair, crossed_d, crossed_e);
    lemma_vertices_tallied(d, r, n);
    lemma_vertices_tallied(e, r, n);
    lemma_faces_tallied(d, r, n);
    lemma_faces_tallied(e, r, n);
    lemma_exchanged_edges(pair, d, e, r, Axis::X);
    lemma_exchanged_edges(pair, d, e, r, Axis::Y);
    lemma_exchanged_edges(pair, d, e, r, Axis::Z);
}

proof fn lemma_exchanged_edges(pair: Pair, d: Seq<Single>, e: Seq<Single>, r: int, axis: Axis)
    requires
        0 <= r,
        exchanged(pair, d, e, r),
    ensures
        tally(r, |p: (int, int, int)| has_face(d, r, axis, p), volume(r)) == tally(
            r,
            |p: (int, int, int)| has_face(e, r, pair.axis(axis), p),
            volume(r),
        ),
{
    let before = |p: (int, int, int)| has_face(d, r, axis, p);
    let after = |p: (int, int, int)| has_face(e, r, pair.axis(axis), p);
    assert forall|p: (int, int, int)| within(r, p) implies #[trigger] before(p) == after(
        pair.point(p),
    ) by {
        lemma_exchanged_face(pair, d, e, r, axis, p);
    }
    lemma_exchanged_tally(r, pair, before, after);
}

/// The four cells around the edge that leads from a corner along an axis.
pub open spec fn around(axis: Axis, p: (int, int, int)) -> (
    (int, int, int),
    (int, int, int),
    (int, int, int),
    (int, int, int),
) {
    let (x, y, z) = p;
    match axis {
        Axis::X => ((x, y - 1, z - 1), (x, y - 1, z), (x, y, z - 1), p),
        Axis::Y => ((x - 1, y, z - 1), (x - 1, y, z), (x, y, z - 1), p),
        Axis::Z => ((x - 1, y - 1, z), (x - 1, y, z), (x, y - 1, z), p),
    }
}

/// The cells of a triangle, in no order.
pub open spec fn triangle(a: (int, int, int), b: (int, int, int), c: (int, int, int)) -> Set<
    (int, int, int),
> {
    Set::empty().insert(a).insert(b).insert(c)
}

/// The triangles in a list of indices, each as the cells whose vertices it joins.
pub open spec fn triangles_in(cells: Seq<(int, int, int)>, indices: Seq<u32>) -> Set<
    Set<(int, int, int)>,
> {
    Set::new(
        |s: Set<(int, int, int)>|
            exists|t: int| 0 <= t && 3 * t + 3 <= indices.len() && s == nth(cells, indices, t),
    )
}

/// One of the triangles in a list of indices, as the cells whose vertices it joins.
pub open spec fn nth(cells: Seq<(int, int, int)>, indices: Seq<u32>, t: int) -> Set<
    (int, int, int),
> {
    triangle(
        cells[indices[3 * t] as int],
        cells[indices[3 * t + 1] as int],
        cells[indices[3 * t + 2] as int],
    )
}

/// The triangles of the whole mesh, each as the cells whose vertices it joins.
pub open spec fn triangles(d: Seq<Single>, r: int) -> Set<Set<(int, int, int)>> {
    triangles_in(vertex_cells(d, r), faces(d, r))
}

/// Whether a triangle is one of the two of the face of an edge.
spec fn on_face(s: Set<(int, int, int)>, axis: Axis, p: (int, int, int)) -> bool {
    let (a, b, c, d) = around(axis, p);
    s == triangle(a, b, c) || s == triangle(b, c, d)
}

/// Whether a triangle is one of the faces at a corner.
#[verifier::opaque]
spec fn at_corner(d: Seq<Single>, r: int, s: Set<(int, int, int)>, p: (int, int, int)) -> bool {
    ||| has_face(d, r, Axis::X, p) && on_face(s, Axis::X, p)
    ||| has_face(d, r, Axis::Y, p) && on_face(s, Axis::Y, p)
    ||| has_face(d, r, Axis::Z, p) && on_face(s, Axis::Z, p)
}

proof fn lemma_triangles_added(cells: Seq<(int, int, int)>, a: Seq<u32>, b: Seq<u32>)
    requires
        a.len() % 3 == 0,
    ensures
        triangles_in(cells, a + b) == triangles_in(cells, a).union(triangles_in(cells, b)),
{
    let both = triangles_in(cells, a + b);
    let k = a.len() as int / 3;
    assert forall|t: int| 0 <= t && 3 * t + 3 <= a.len() implies #[trigger] nth(cells, a, t) == nth(
        cells,
        a + b,
        t,
    ) by {}
    assert forall|t: int| 0 <= t && 3 * t + 3 <= b.len() implies #[trigger] nth(cells, b, t) == nth(
        cells,
        a + b,
        t + k,
    ) by {
        assert(3 * (t + k) == 3 * t + a.len());
    }
    assert forall|s: Set<(int, int, int)>| #[trigger] both.contains(s) implies triangles_in(
        cells,
        a,
    ).union(triangles_in(cells, b)).contains(s) by {
        let t = choose|t: int| 0 <= t && 3 * t + 3 <= (a + b).len() && s == nth(cells, a + b, t);
        if t < k {
            assert(s == nth(cells, a, t));
        } else {
            assert(s == nth(cells, b, t - k));
        }
    }
    assert forall|s: Set<(int, int, int)>|
        triangles_in(cells, a).contains(s) implies #[trigger] both.contains(s) by {
        let t = choose|t: int| 0 <= t && 3 * t + 3 <= a.len() && s == nth(cells, a, t);
        assert(s == nth(cells, a + b, t));
    }
    assert forall|s: Set<(int, int, int)>|
        triangles_in(cells, b).contains(s) implies #[trigger] both.contains(s) by {
        let t = choose|t: int| 0 <= t && 3 * t + 3 <= b.len() && s == nth(cells, b, t);
        assert(s == nth(cells, a + b, t + k));
    }
    assert(both =~= triangles_in(cells, a).union(triangles_in(cells, b)));
}

/// The two triangles of a face.
proof fn lemma_two_triangles(
    cells: Seq<(int, int, int)>,
    v0: int,
    v1: int,
    v2: int,
    v3: int,
    s: Set<(int, int, int)>,
)
    requires
        0 <= v0 <= u32::MAX,
        0 <= v1 <= u32::MAX,
        0 <= v2 <= u32::MAX,
        0 <= v3 <= u32::MAX,
    ensures
        triangles_in(cells, face(v0, v1, v2, v3)).contains(s) <==> s == triangle(
            cells[v0],
            cells[v1],
            cells[v2],
        ) || s == triangle(cells[v1], cells[v2], cells[v3]),
{
    let here = face(v0, v1, v2, v3);
    assert(nth(cells, here, 0) == triangle(cells[v0], cells[v1], cells[v2]));
    assert(nth(cells, here, 1) == triangle(cells[v1], cells[v2], cells[v3]));
    if triangles_in(cells, here).contains(s) {
        let t = choose|t: int| 0 <= t && 3 * t + 3 <= here.len() && s == nth(cells, here, t);
        assert(t == 0 || t == 1);
    }
}

/// The index of the vertex of the cell at a place.
pub open spec fn index_of(d: Seq<Single>, r: int, p: (int, int, int)) -> int {
    vertex_index(d, r, p.0, p.1, p.2)
}

/// The face of an edge joins the vertices of the cells around it.
pub proof fn lemma_face_along(d: Seq<Single>, r: int, axis: Axis, p: (int, int, int))
    ensures
        face_along(d, r, axis, p) == if has_face(d, r, axis, p) {
            let (c0, c1, c2, c3) = around(axis, p);
            face(index_of(d, r, c0), index_of(d, r, c1), index_of(d, r, c2), index_of(d, r, c3))
        } else {
            Seq::empty()
        },
{
}

/// The cells around an edge with a face have vertices.
pub proof fn lemma_around(d: Seq<Single>, r: int, axis: Axis, p: (int, int, int))
    requires
        within(r, p),
        has_face(d, r, axis, p),
    ensures
        ({
            let (c0, c1, c2, c3) = around(axis, p);
            let cells = vertex_cells(d, r);
            &&& 0 <= index_of(d, r, c0) < cells.len() && cells[index_of(d, r, c0)] == c0
            &&& 0 <= index_of(d, r, c1) < cells.len() && cells[index_of(d, r, c1)] == c1
            &&& 0 <= index_of(d, r, c2) < cells.len() && cells[index_of(d, r, c2)] == c2
            &&& 0 <= index_of(d, r, c3) < cells.len() && cells[index_of(d, r, c3)] == c3
        }),
{
    let (c0, c1, c2, c3) = around(axis, p);
    lemma_cells_around_edge(d, r, p.0, p.1, p.2);
    lemma_vertex_of_cell(d, r, c0.0, c0.1, c0.2);
    lemma_vertex_of_cell(d, r, c1.0, c1.1, c1.2);
    lemma_vertex_of_cell(d, r, c2.0, c2.1, c2.2);
    lemma_vertex_of_cell(d, r, c3.0, c3.1, c3.2);
}

/// The face of an edge joins the vertices of the cells around it, in two triangles.
proof fn lemma_face_triangles(
    d: Seq<Single>,
    r: int,
    axis: Axis,
    p: (int, int, int),
    s: Set<(int, int, int)>,
)
    requires
        within(r, p),
        vertex_cells(d, r).len() <= u32::MAX,
    ensures
        face_along(d, r, axis, p).len() % 3 == 0,
        triangles_in(vertex_cells(d, r), face_along(d, r, axis, p)).contains(s) <==> has_face(
            d,
            r,
            axis,
            p,
        ) && on_face(s, axis, p),
{
    lemma_face_along(d, r, axis, p);
    if has_face(d, r, axis, p) {
        let (c0, c1, c2, c3) = around(axis, p);
        lemma_around(d, r, axis, p);
        lemma_two_triangles(
            vertex_cells(d, r),
            index_of(d, r, c0),
            index_of(d, r, c1),
            index_of(d, r, c2),
            index_of(d, r, c3),
            s,
        );
    }
}

/// The faces at a corner join the vertices of the cells around its edges.
proof fn lemma_triangles_at(d: Seq<Single>, r: int, p: (int, int, int), s: Set<(int, int, int)>)
    requires
        within(r, p),
        vertex_cells(d, r).len() <= u32::MAX,
    ensures
        faces_at(d, r, p.0, p.1, p.2).len() % 3 == 0,
        triangles_in(vertex_cells(d, r), faces_at(d, r, p.0, p.1, p.2)).contains(s) <==> at_corner(
            d,
            r,
            s,
            p,
        ),
{
    reveal(at_corner);
    let cells = vertex_cells(d, r);
    let fx = face_along(d, r, Axis::X, p);
    let fy = face_along(d, r, Axis::Y, p);
    let fz = face_along(d, r, Axis::Z, p);
    lemma_face_triangles(d, r, Axis::X, p, s);
    lemma_face_triangles(d, r, Axis::Y, p, s);
    lemma_face_triangles(d, r, Axis::Z, p, s);
    lemma_triangles_added(cells, fx, fy);
    lemma_triangles_added(cells, fx + fy, fz);
    assert(faces_at(d, r, p.0, p.1, p.2) == fx + fy + fz);
}

/// Whether a triangle is one of the faces at the first `n` corners of the walk.
spec fn at_corners(d: Seq<Single>, r: int, s: Set<(int, int, int)>, n: int) -> bool {
    exists|p: (int, int, int)|
        within(r, p) && offset(r, p.0, p.1, p.2) < n && #[trigger] at_corner(d, r, s, p)
}

proof fn lemma_at_corners(d: Seq<Single>, r: int, s: Set<(int, int, int)>, n: int)
    requires
        0 <= r,
        n <= volume(r),
    ensures
        at_corners(d, r, s, n) <==> n > 0 && (at_corners(d, r, s, n - 1) || at_corner(
            d,
            r,
            s,
            point_at(r, n - 1),
        )),
{
    if at_corners(d, r, s, n) {
        let p = choose|p: (int, int, int)|
            within(r, p) && offset(r, p.0, p.1, p.2) < n && #[trigger] at_corner(d, r, s, p);
        lemma_offset(r, p.0, p.1, p.2);
        assert(at_corner(d, r, s, p));
    }
    if n > 0 {
        lemma_point_at(r, n - 1);
        let q = point_at(r, n - 1);
        if at_corner(d, r, s, q) {
            assert(within(r, q) && offset(r, q.0, q.1, q.2) < n);
        }
        if at_corners(d, r, s, n - 1) {
            let p = choose|p: (int, int, int)|
                within(r, p) && offset(r, p.0, p.1, p.2) < n - 1 && #[trigger] at_corner(
                    d,
                    r,
                    s,
                    p,
                );
            assert(within(r, p) && offset(r, p.0, p.1, p.2) < n && at_corner(d, r, s, p));
        }
    }
}

proof fn lemma_triangles_before(d: Seq<Single>, r: int, n: int, s: Set<(int, int, int)>)
    requires
        0 <= r,
        n <= volume(r),
        vertex_cells(d, r).len() <= u32::MAX,
    ensures
        faces_before(d, r, n).len() % 3 == 0,
        triangles_in(vertex_cells(d, r), faces_before(d, r, n)).contains(s) <==> at_corners(
            d,
            r,
            s,
            n,
        ),
    decreases n,
{
    let cells = vertex_cells(d, r);
    lemma_at_corners(d, r, s, n);
    if n <= 0 {
        assert(!triangles_in(cells, faces_before(d, r, n)).contains(s));
    } else {
        lemma_triangles_before(d, r, n - 1, s);
        lemma_point_at(r, n - 1);
        let q = point_at(r, n - 1);
        lemma_triangles_at(d, r, q, s);
        lemma_triangles_added(
            cells,
            faces_before(d, r, n - 1),
            faces_at(d, r, q.0, q.1, q.2),
        );
    }
}

/// A set of cells with two axes exchanged in each of them.
pub open spec fn cells_exchanged(pair: Pair, s: Set<(int, int, int)>) -> Set<(int, int, int)> {
    Set::new(|p: (int, int, int)| s.contains(pair.point(p)))
}

proof fn lemma_exchanged_on_face(
    pair: Pair,
    s: Set<(int, int, int)>,
    axis: Axis,
    p: (int, int, int),
)
    requires
        on_face(s, axis, p),
    ensures
        on_face(cells_exchanged(pair, s), pair.axis(axis), pair.point(p)),
{
    let (a, b, c, d) = around(axis, p);
    let (e, f, g, h) = around(pair.axis(axis), pair.point(p));
    let t = cells_exchanged(pair, s);
    assert(e == pair.point(a) && h == pair.point(d));
    assert((f == pair.point(b) && g == pair.point(c)) || (f == pair.point(c) && g == pair.point(
        b,
    )));
    assert forall|q: (int, int, int)| #[trigger] pair.point(pair.point(q)) == q by {}
    if s == triangle(a, b, c) {
        assert forall|q: (int, int, int)| t.contains(q) == #[trigger] triangle(e, f, g).contains(
            q,
        ) by {}
        assert(t =~= triangle(e, f, g));
    } else {
        assert forall|q: (int, int, int)| t.contains(q) == #[trigger] triangle(f, g, h).contains(
            q,
        ) by {}
        assert(t =~= triangle(f, g, h));
    }
}

proof fn lemma_exchanged_at_corner(
    pair: Pair,
    d: Seq<Single>,
    e: Seq<Single>,
    r: int,
    s: Set<(int, int, int)>,
    p: (int, int, int),
)
    requires
        exchanged(pair, d, e, r),
        within(r, p),
        at_corner(d, r, s, p),
    ensures
        at_corner(e, r, cells_exchanged(pair, s), pair.point(p)),
{
    reveal(at_corner);
    lemma_exchanged_face(pair, d, e, r, Axis::X, p);
    lemma_exchanged_face(pair, d, e, r, Axis::Y, p);
    lemma_exchanged_face(pair, d, e, r, Axis::Z, p);
    if has_face(d, r, Axis::X, p) && on_face(s, Axis::X, p) {
        lemma_exchanged_on_face(pair, s, Axis::X, p);
    } else if has_face(d, r, Axis::Y, p) && on_face(s, Axis::Y, p) {
        lemma_exchanged_on_face(pair, s, Axis::Y, p);
    } else {
        lemma_exchanged_on_face(pair, s, Axis::Z, p);
    }
}

proof fn lemma_triangle_exchanged(
    pair: Pair,
    d: Seq<Single>,
    e: Seq<Single>,
    r: int,
    s: Set<(int, int, int)>,
)
    requires
        0 <= r,
        exchanged(pair, d, e, r),
        vertex_cells(d, r).len() <= u32::MAX,
        triangles(d, r).contains(s),
    ensures
        triangles(e, r).contains(cells_exchanged(pair, s)),
{
    let n = volume(r);
    let t = cells_exchanged(pair, s);
    lemma_exchanged_mesh(pair, d, e, r);
    lemma_triangles_before(d, r, n, s);
    lemma_triangles_before(e, r, n, t);
    let p = choose|p: (int, int, int)|
        within(r, p) && offset(r, p.0, p.1, p.2) < n && #[trigger] at_corner(d, r, s, p);
    let q = pair.point(p);
    lemma_exchanged_at_corner(pair, d, e, r, s, p);
    lemma_offset(r, q.0, q.1, q.2);
    assert(within(r, q) && offset(r, q.0, q.1, q.2) < n && at_corner(e, r, t, q));
}

/// To exchange two axes is to exchange them in the triangles of the mesh: three cells
/// are joined before exactly if the exchanged cells are joined after.
pub proof fn lemma_exchanged_triangles(
    pair: Pair,
    d: Seq<Single>,
    e: Seq<Single>,
    r: int,
    s: Set<(int, int, int)>,
)
    requires
        0 <= r,
        exchanged(pair, d, e, r),
        vertex_cells(d, r).len() <= u32::MAX,
    ensures
        triangles(e, r).contains(cells_exchanged(pair, s)) <==> triangles(d, r).contains(s),
{
    lemma_exchanged_back(pair, d, e, r);
    lemma_exchanged_mesh(pair, d, e, r);
    let t = cells_exchanged(pair, s);
    if triangles(d, r).contains(s) {
        lemma_triangle_exchanged(pair, d, e, r, s);
    }
    if triangles(e, r).contains(t) {
        lemma_triangle_exchanged(pair, e, d, r, t);
        assert(cells_exchanged(pair, t) =~= s);
    }
}

} // verus!
