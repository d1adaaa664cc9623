//! Surface nets: which cells of a grid get a vertex, and how vertices form faces.
//!
//! The distance from a shape is taken at every corner in between the cells of a
//! box. Each cell that the surface crosses gets one vertex. Each edge between two
//! corners that the surface crosses gets one face, whose vertices are those of the
//! four cells around the edge.

use crate::cell::{
    between_ends, crossings, find_crossings, find_on_surface, finite, is_partially_in,
    lemma_crossed_cell_is_partial, lemma_crossing_exists, lemma_crossings_on_edges,
    lemma_crossings_within_cell, lemma_partial_cell, lemma_touched_corners, partially_in,
    touched_corners, Cell,
};
use crate::grid::{
    cube, in_cube, lemma_offset, lemma_point_at, offset, point_at, volume, GridTable,
};
use crate::single::Single;
use vstd::prelude::*;

verus! {

/// The distance at a corner, out of the distances at all corners of the cells.
pub open spec fn distance_at(
    distances: Seq<Single>,
    resolution: int,
    x: int,
    y: int,
    z: int,
) -> Single {
    distances[offset(resolution + 1, x, y, z)]
}

/// The distances at the eight corners of a cell.
pub open spec fn corner_distances(
    distances: Seq<Single>,
    resolution: int,
    x: int,
    y: int,
    z: int,
) -> Seq<Single> {
    Seq::new(
        8,
        |i: int| distance_at(distances, resolution, x + i / 4, y + i / 2 % 2, z + i % 2),
    )
}

/// Whether the surface crosses a cell.
pub open spec fn crossed(
    distances: Seq<Single>,
    resolution: int,
    x: int,
    y: int,
    z: int,
) -> bool {
    partially_in(corner_distances(distances, resolution, x, y, z))
}

/// Whether the surface crosses a cell, and an edge of the cell.
pub open spec fn edge_crossed(
    distances: Seq<Single>,
    resolution: int,
    x: int,
    y: int,
    z: int,
) -> bool {
    &&& crossed(distances, resolution, x, y, z)
    &&& crossings(corner_distances(distances, resolution, x, y, z)).len() > 0
}

/// The cells that the surface crosses, among the first `n` cells of the walk.
pub open spec fn crossed_cells(distances: Seq<Single>, resolution: int, n: int) -> Seq<
    (int, int, int),
>
    decreases n,
{
    if n <= 0 {
        Seq::empty()
    } else {
        let (x, y, z) = point_at(resolution, n - 1);
        let before = crossed_cells(distances, resolution, n - 1);
        if crossed(distances, resolution, x, y, z) {
            before.push((x, y, z))
        } else {
            before
        }
    }
}

/// All cells that the surface crosses. Each of them has a vertex, in this order.
pub open spec fn vertex_cells(distances: Seq<Single>, resolution: int) -> Seq<(int, int, int)> {
    crossed_cells(distances, resolution, volume(resolution))
}

/// The index of the vertex of a cell: the number of vertices before it.
pub open spec fn vertex_index(
    distances: Seq<Single>,
    resolution: int,
    x: int,
    y: int,
    z: int,
) -> int {
    crossed_cells(distances, resolution, offset(resolution, x, y, z)).len() as int
}

/// The two triangles of a face.
pub open spec fn face(v0: int, v1: int, v2: int, v3: int) -> Seq<u32> {
    seq![v0 as u32, v1 as u32, v2 as u32, v1 as u32, v2 as u32, v3 as u32]
}

/// The face of the edge that leads from a corner along x, where there is one.
pub open spec fn face_along_x(
    distances: Seq<Single>,
    resolution: int,
    x: int,
    y: int,
    z: int,
) -> Seq<u32> {
    if y > 0 && z > 0 && distance_at(distances, resolution, x, y, z).sign_differs(
        distance_at(distances, resolution, x + 1, y, z),
    ) {
        face(
            vertex_index(distances, resolution, x, y - 1, z - 1),
            vertex_index(distances, resolution, x, y - 1, z),
            vertex_index(distances, resolution, x, y, z - 1),
            vertex_index(distances, resolution, x, y, z),
        )
    } else {
        Seq::empty()
    }
}

/// The face of the edge that leads from a corner along y, where there is one.
pub open spec fn face_along_y(
    distances: Seq<Single>,
    resolution: int,
    x: int,
    y: int,
    z: int,
) -> Seq<u32> {
    if x > 0 && z > 0 && distance_at(distances, resolution, x, y, z).sign_differs(
        distance_at(distances, resolution, x, y + 1, z),
    ) {
        face(
            vertex_index(distances, resolution, x - 1, y, z - 1),
            vertex_index(distances, resolution, x - 1, y, z),
            vertex_index(distances, resolution, x, y, z - 1),
            vertex_index(distances, resolution, x, y, z),
        )
    } else {
        Seq::empty()
    }
}

/// The face of the edge that leads from a corner along z, where there is one.
pub open spec fn face_along_z(
    distances: Seq<Single>,
    resolution: int,
    x: int,
    y: int,
    z: int,
) -> Seq<u32> {
    if x > 0 && y > 0 && distance_at(distances, resolution, x, y, z).sign_differs(
        distance_at(distances, resolution, x, y, z + 1),
    ) {
        face(
            vertex_index(distances, resolution, x - 1, y - 1, z),
            vertex_index(distances, resolution, x - 1, y, z),
            vertex_index(distances, resolution, x, y - 1, z),
            vertex_index(distances, resolution, x, y, z),
        )
    } else {
        Seq::empty()
    }
}

/// The faces of the three edges that lead from a corner along the axes.
pub open spec fn faces_at(
    distances: Seq<Single>,
    resolution: int,
    x: int,
    y: int,
    z: int,
) -> Seq<u32> {
    face_along_x(distances, resolution, x, y, z) + face_along_y(distances, resolution, x, y, z)
        + face_along_z(distances, resolution, x, y, z)
}

/// The faces at the first `n` lower corners of cells in the walk.
pub open spec fn faces_before(distances: Seq<Single>, resolution: int, n: int) -> Seq<u32>
    decreases n,
{
    if n <= 0 {
        Seq::empty()
    } else {
        let (x, y, z) = point_at(resolution, n - 1);
        faces_before(distances, resolution, n - 1) + faces_at(distances, resolution, x, y, z)
    }
}

/// The faces of the whole mesh, as indices of vertices.
pub open spec fn faces(distances: Seq<Single>, resolution: int) -> Seq<u32> {
    faces_before(distances, resolution, volume(resolution))
}

/// Whether a table holds the distances at all corners of the cells.
pub open spec fn samples(table: &GridTable<Single>, resolution: int) -> bool {
    table.wf() && table.size() == resolution + 1
}

/// Whether the cell is the one at the given place, with what its vertex is placed by.
pub open spec fn describes(
    cell: Cell,
    distances: Seq<Single>,
    resolution: int,
    place: (int, int, int),
) -> bool {
    &&& (cell.x as int, cell.y as int, cell.z as int) == place
    &&& cell.crossings@ == crossings(
        corner_distances(distances, resolution, place.0, place.1, place.2),
    )
    &&& cell.touched@ == touched_corners(
        corner_distances(distances, resolution, place.0, place.1, place.2),
    )
}

/// Whether the cell is one of those of the box that get a vertex.
pub open spec fn gets_vertex(
    cell: Cell,
    distances: Seq<Single>,
    resolution: int,
    place: (int, int, int),
) -> bool {
    &&& in_cube(resolution, place.0, place.1, place.2)
    &&& crossed(distances, resolution, place.0, place.1, place.2)
    &&& describes(cell, distances, resolution, place)
}

/// A cell that the surface crosses has crossings, or corners at which the surface
/// touches it, but not both. They are on edges, and at corners, of the cell.
pub proof fn lemma_gets_vertex(
    cell: Cell,
    distances: Seq<Single>,
    resolution: int,
    place: (int, int, int),
)
    requires
        gets_vertex(cell, distances, resolution, place),
    ensures
        cell.crossings@.len() > 0 <==> cell.touched@.len() == 0,
        forall|j: int|
            0 <= j < cell.crossings@.len() ==> (#[trigger] cell.crossings@[j]).from
                < cell.crossings@[j].to < 8,
        forall|j: int| 0 <= j < cell.touched@.len() ==> (#[trigger] cell.touched@[j]) < 8,
{
    let corners = corner_distances(distances, resolution, place.0, place.1, place.2);
    lemma_partial_cell(corners);
    lemma_touched_corners(corners);
    lemma_crossings_on_edges(corners);
}

/// There are no more crossed cells than cells.
pub proof fn lemma_crossed_cells_len(distances: Seq<Single>, resolution: int, n: int, m: int)
    requires
        0 <= n <= m,
    ensures
        crossed_cells(distances, resolution, n).len() <= crossed_cells(
            distances,
            resolution,
            m,
        ).len() <= crossed_cells(distances, resolution, n).len() + (m - n),
    decreases m,
{
    if n < m {
        lemma_crossed_cells_len(distances, resolution, n, m - 1);
    }
}

/// Reads the distances at the eight corners of a cell.
fn get_corner_distances(table: &GridTable<Single>, resolution: u32, x: u32, y: u32, z: u32) -> (d:
    [Single; 8])
    requires
        samples(table, resolution as int),
        in_cube(resolution as int, x as int, y as int, z as int),
    ensures
        d@ == corner_distances(
            table.entries(),
            resolution as int,
            x as int,
            y as int,
            z as int,
        ),
{
    let d = [
        *table.get(x, y, z),
        *table.get(x, y, z + 1),
        *table.get(x, y + 1, z),
        *table.get(x, y + 1, z + 1),
        *table.get(x + 1, y, z),
        *table.get(x + 1, y, z + 1),
        *table.get(x + 1, y + 1, z),
        *table.get(x + 1, y + 1, z + 1),
    ];
    assert(d@ =~= corner_distances(
        table.entries(),
        resolution as int,
        x as int,
        y as int,
        z as int,
    ));
    d
}

/// Finds the cells that the surface crosses, in the order of the walk, and tells
/// for each cell of the box the index of its vertex, if it has one.
pub fn find_cells(table: &GridTable<Single>, resolution: u32) -> (found: (
    GridTable<Option<u32>>,
    Vec<Cell>,
))
    requires
        samples(table, resolution as int),
        vertex_cells(table.entries(), resolution as int).len() <= u32::MAX,
    ensures
        found.0.wf(),
        found.0.size() == resolution,
        forall|x: int, y: int, z: int|
            in_cube(resolution as int, x, y, z) ==> #[trigger] found.0.at(x, y, z) == if crossed(
                table.entries(),
                resolution as int,
                x,
                y,
                z,
            ) {
                Some(vertex_index(table.entries(), resolution as int, x, y, z) as u32)
            } else {
                None
            },
        found.1@.len() == vertex_cells(table.entries(), resolution as int).len(),
        forall|k: int|
            0 <= k < found.1@.len() ==> describes(
                #[trigger] found.1@[k],
                table.entries(),
                resolution as int,
                vertex_cells(table.entries(), resolution as int)[k],
            ),
{
    let ghost d = table.entries();
    let ghost r = resolution as int;
    let mut points: Vec<Option<u32>> = Vec::new();
    let mut cells: Vec<Cell> = Vec::new();
    let mut walk = cube(resolution);
    loop
        invariant
            d == table.entries(),
            r == resolution,
            samples(table, r),
            vertex_cells(d, r).len() <= u32::MAX,
            walk.wf(),
            walk.size() == r,
            walk.position() == points@.len(),
            points@.len() <= volume(r),
            forall|n: int|
                #![trigger points@[n]]
                0 <= n < points@.len() ==> points@[n] == {
                    let (x, y, z) = point_at(r, n);
                    if crossed(d, r, x, y, z) {
                        Some(crossed_cells(d, r, n).len() as u32)
                    } else {
                        None
                    }
                },
            cells@.len() == crossed_cells(d, r, points@.len() as int).len(),
            forall|k: int|
                0 <= k < cells@.len() ==> describes(
                    #[trigger] cells@[k],
                    d,
                    r,
                    crossed_cells(d, r, points@.len() as int)[k],
                ),
        ensures
            points@.len() == volume(r),
        decreases volume(r) - points@.len(),
    {
        match walk.next() {
            Some((x, y, z)) => {
                proof {
                    lemma_offset(r, x as int, y as int, z as int);
                    lemma_crossed_cells_len(d, r, points@.len() as int + 1, volume(r));
                }
                let distances = get_corner_distances(table, resolution, x, y, z);
                if is_partially_in(&distances) {
                    let crossings = find_crossings(&distances);
                    let touched = if crossings.len() == 0 {
                        find_on_surface(&distances)
                    } else {
                        Vec::new()
                    };
                    cells.push(Cell { x, y, z, crossings, touched });
                    points.push(Some((cells.len() - 1) as u32));
                } else {
                    points.push(None);
                }
            },
            None => {
                break;
            },
        }
    }
    let points = GridTable::from_entries(resolution, points);
    proof {
        assert forall|x: int, y: int, z: int| in_cube(r, x, y, z) implies #[trigger] points.at(
            x,
            y,
            z,
        ) == if crossed(d, r, x, y, z) {
            Some(vertex_index(d, r, x, y, z) as u32)
        } else {
            None
        } by {
            lemma_offset(r, x, y, z);
        }
    }
    (points, cells)
}

/// The surface crosses a cell with two corners whose signs differ, and an edge of it.
proof fn lemma_crossed(
    distances: Seq<Single>,
    resolution: int,
    x: int,
    y: int,
    z: int,
    a: int,
    b: int,
)
    requires
        0 <= a < 8,
        0 <= b < 8,
        distance_at(distances, resolution, x + a / 4, y + a / 2 % 2, z + a % 2).sign_differs(
            distance_at(distances, resolution, x + b / 4, y + b / 2 % 2, z + b % 2),
        ),
    ensures
        edge_crossed(distances, resolution, x, y, z),
{
    let corners = corner_distances(distances, resolution, x, y, z);
    lemma_crossed_cell_is_partial(corners, a, b);
    lemma_crossing_exists(corners);
    assert(corners[a].sign_differs(corners[b]));
}

/// If the surface crosses an edge between two corners, then it crosses each of the
/// four cells around the edge, so that each of them has a vertex and a crossing to
/// place it by.
pub proof fn lemma_cells_around_edge(
    distances: Seq<Single>,
    resolution: int,
    x: int,
    y: int,
    z: int,
)
    ensures
        distance_at(distances, resolution, x, y, z).sign_differs(
            distance_at(distances, resolution, x + 1, y, z),
        ) ==> {
            &&& edge_crossed(distances, resolution, x, y - 1, z - 1)
            &&& edge_crossed(distances, resolution, x, y - 1, z)
            &&& edge_crossed(distances, resolution, x, y, z - 1)
            &&& edge_crossed(distances, resolution, x, y, z)
        },
        distance_at(distances, resolution, x, y, z).sign_differs(
            distance_at(distances, resolution, x, y + 1, z),
        ) ==> {
            &&& edge_crossed(distances, resolution, x - 1, y, z - 1)
            &&& edge_crossed(distances, resolution, x - 1, y, z)
            &&& edge_crossed(distances, resolution, x, y, z - 1)
            &&& edge_crossed(distances, resolution, x, y, z)
        },
        distance_at(distances, resolution, x, y, z).sign_differs(
            distance_at(distances, resolution, x, y, z + 1),
        ) ==> {
            &&& edge_crossed(distances, resolution, x - 1, y - 1, z)
            &&& edge_crossed(distances, resolution, x - 1, y, z)
            &&& edge_crossed(distances, resolution, x, y - 1, z)
            &&& edge_crossed(distances, resolution, x, y, z)
        },
{
    let here = distance_at(distances, resolution, x, y, z);
    if here.sign_differs(distance_at(distances, resolution, x + 1, y, z)) {
        lemma_crossed(distances, resolution, x, y - 1, z - 1, 3, 7);
        lemma_crossed(distances, resolution, x, y - 1, z, 2, 6);
        lemma_crossed(distances, resolution, x, y, z - 1, 1, 5);
        lemma_crossed(distances, resolution, x, y, z, 0, 4);
    }
    if here.sign_differs(distance_at(distances, resolution, x, y + 1, z)) {
        lemma_crossed(distances, resolution, x - 1, y, z - 1, 5, 7);
        lemma_crossed(distances, resolution, x - 1, y, z, 4, 6);
        lemma_crossed(distances, resolution, x, y, z - 1, 1, 3);
        lemma_crossed(distances, resolution, x, y, z, 0, 2);
    }
    if here.sign_differs(distance_at(distances, resolution, x, y, z + 1)) {
        lemma_crossed(distances, resolution, x - 1, y - 1, z, 6, 7);
        lemma_crossed(distances, resolution, x - 1, y, z, 4, 5);
        lemma_crossed(distances, resolution, x, y - 1, z, 2, 3);
        lemma_crossed(distances, resolution, x, y, z, 0, 1);
    }
}

/// Adds the two triangles of a face.
fn push_face(indices: &mut Vec<u32>, v0: u32, v1: u32, v2: u32, v3: u32)
    ensures
        final(indices)@ == old(indices)@ + face(v0 as int, v1 as int, v2 as int, v3 as int),
{
    indices.push(v0);
    indices.push(v1);
    indices.push(v2);
    indices.push(v1);
    indices.push(v2);
    indices.push(v3);
    assert(indices@ =~= old(indices)@ + face(v0 as int, v1 as int, v2 as int, v3 as int));
}

/// Whether the table gives the index of its vertex for each cell that the surface
/// crosses.
pub open spec fn numbers(
    points: &GridTable<Option<u32>>,
    distances: Seq<Single>,
    resolution: int,
) -> bool {
    &&& points.wf()
    &&& points.size() == resolution
    &&& forall|x: int, y: int, z: int|
        in_cube(resolution, x, y, z) && crossed(distances, resolution, x, y, z)
            ==> #[trigger] points.at(x, y, z) == Some(
            vertex_index(distances, resolution, x, y, z) as u32,
        )
}

/// Adds the face of the edge that leads from a corner along x, where there is one.
fn push_face_along_x(
    table: &GridTable<Single>,
    points: &GridTable<Option<u32>>,
    resolution: u32,
    x: u32,
    y: u32,
    z: u32,
    indices: &mut Vec<u32>,
)
    requires
        samples(table, resolution as int),
        numbers(points, table.entries(), resolution as int),
        in_cube(resolution as int, x as int, y as int, z as int),
    ensures
        final(indices)@ == old(indices)@ + face_along_x(
            table.entries(),
            resolution as int,
            x as int,
            y as int,
            z as int,
        ),
{
    proof {
        lemma_cells_around_edge(
            table.entries(),
            resolution as int,
            x as int,
            y as int,
            z as int,
        );
    }
    if y > 0 && z > 0 && table.get(x, y, z).signum_differs(*table.get(x + 1, y, z)) {
        let v0: u32 = points.get(x, y - 1, z - 1).unwrap();
        let v1: u32 = points.get(x, y - 1, z).unwrap();
        let v2: u32 = points.get(x, y, z - 1).unwrap();
        let v3: u32 = points.get(x, y, z).unwrap();
        push_face(indices, v0, v1, v2, v3);
    }
    assert(indices@ =~= old(indices)@ + face_along_x(
        table.entries(),
        resolution as int,
        x as int,
        y as int,
        z as int,
    ));
}

/// Adds the face of the edge that leads from a corner along y, where there is one.
fn push_face_along_y(
    table: &GridTable<Single>,
    points: &GridTable<Option<u32>>,
    resolution: u32,
    x: u32,
    y: u32,
    z: u32,
    indices: &mut Vec<u32>,
)
    requires
        samples(table, resolution as int),
        numbers(points, table.entries(), resolution as int),
        in_cube(resolution as int, x as int, y as int, z as int),
    ensures
        final(indices)@ == old(indices)@ + face_along_y(
            table.entries(),
            resolution as int,
            x as int,
            y as int,
            z as int,
        ),
{
    proof {
        lemma_cells_around_edge(
            table.entries(),
            resolution as int,
            x as int,
            y as int,
            z as int,
        );
    }
    if x > 0 && z > 0 && table.get(x, y, z).signum_differs(*table.get(x, y + 1, z)) {
        let v0: u32 = points.get(x - 1, y, z - 1).unwrap();
        let v1: u32 = points.get(x - 1, y, z).unwrap();
        let v2: u32 = points.get(x, y, z - 1).unwrap();
        let v3: u32 = points.get(x, y, z).unwrap();
        push_face(indices, v0, v1, v2, v3);
    }
    assert(indices@ =~= old(indices)@ + face_along_y(
        table.entries(),
        resolution as int,
        x as int,
        y as int,
        z as int,
    ));
}

/// Adds the face of the edge that leads from a corner along z, where there is one.
fn push_face_along_z(
    table: &GridTable<Single>,
    points: &GridTable<Option<u32>>,
    resolution: u32,
    x: u32,
    y: u32,
    z: u32,
    indices: &mut Vec<u32>,
)
    requires
        samples(table, resolution as int),
        numbers(points, table.entries(), resolution as int),
        in_cube(resolution as int, x as int, y as int, z as int),
    ensures
        final(indices)@ == old(indices)@ + face_along_z(
            table.entries(),
            resolution as int,
            x as int,
            y as int,
            z as int,
        ),
{
    proof {
        lemma_cells_around_edge(
            table.entries(),
            resolution as int,
            x as int,
            y as int,
            z as int,
        );
    }
    if x > 0 && y > 0 && table.get(x, y, z).signum_differs(*table.get(x, y, z + 1)) {
        let v0: u32 = points.get(x - 1, y - 1, z).unwrap();
        let v1: u32 = points.get(x - 1, y, z).unwrap();
        let v2: u32 = points.get(x, y - 1, z).unwrap();
        let v3: u32 = points.get(x, y, z).unwrap();
        push_face(indices, v0, v1, v2, v3);
    }
    assert(indices@ =~= old(indices)@ + face_along_z(
        table.entries(),
        resolution as int,
        x as int,
        y as int,
        z as int,
    ));
}

/// Finds the faces of the mesh, given the index of the vertex of each cell that
/// the surface crosses.
pub fn find_faces(
    table: &GridTable<Single>,
    points: &GridTable<Option<u32>>,
    resolution: u32,
) -> (indices: Vec<u32>)
    requires
        samples(table, resolution as int),
        numbers(points, table.entries(), resolution as int),
    ensures
        indices@ == faces(table.entries(), resolution as int),
{
    let ghost d = table.entries();
    let ghost r = resolution as int;
    let mut indices: Vec<u32> = Vec::new();
    let mut walk = cube(resolution);
    loop
        invariant
            d == table.entries(),
            r == resolution,
            samples(table, r),
            numbers(points, d, r),
            walk.wf(),
            walk.size() == r,
            0 <= walk.position() <= volume(r),
            indices@ == faces_before(d, r, walk.position()),
        ensures
            indices@ == faces(d, r),
        decreases volume(r) - walk.position(),
    {
        match walk.next() {
            Some((x, y, z)) => {
                let ghost before = indices@;
                proof {
                    lemma_offset(r, x as int, y as int, z as int);
                }
                push_face_along_x(table, points, resolution, x, y, z, &mut indices);
                push_face_along_y(table, points, resolution, x, y, z, &mut indices);
                push_face_along_z(table, points, resolution, x, y, z, &mut indices);
                assert(indices@ =~= before + faces_at(d, r, x as int, y as int, z as int));
            },
            None => {
                break;
            },
        }
    }
    indices
}

/// The cells that are found early stay in their places when more are found.
proof fn lemma_crossed_cells_prefix(distances: Seq<Single>, resolution: int, n: int, m: int)
    requires
        0 <= n <= m,
    ensures
        crossed_cells(distances, resolution, n).len() <= crossed_cells(
            distances,
            resolution,
            m,
        ).len(),
        forall|k: int|
            0 <= k < crossed_cells(distances, resolution, n).len() ==> crossed_cells(
                distances,
                resolution,
                n,
            )[k] == #[trigger] crossed_cells(distances, resolution, m)[k],
    decreases m,
{
    if n < m {
        lemma_crossed_cells_prefix(distances, resolution, n, m - 1);
    }
}

/// A cell that the surface crosses has a vertex, and it is the one at the cell's
/// index. So no two cells share a vertex.
pub proof fn lemma_vertex_of_cell(
    distances: Seq<Single>,
    resolution: int,
    x: int,
    y: int,
    z: int,
)
    requires
        in_cube(resolution, x, y, z),
        crossed(distances, resolution, x, y, z),
    ensures
        0 <= vertex_index(distances, resolution, x, y, z) < vertex_cells(
            distances,
            resolution,
        ).len(),
        vertex_cells(distances, resolution)[vertex_index(distances, resolution, x, y, z)] == (
            x,
            y,
            z,
        ),
{
    lemma_offset(resolution, x, y, z);
    let n = offset(resolution, x, y, z);
    lemma_crossed_cells_prefix(distances, resolution, n + 1, volume(resolution));
    let k = crossed_cells(distances, resolution, n).len() as int;
    assert(crossed_cells(distances, resolution, n + 1)[k] == (x, y, z));
}

/// Every vertex belongs to a cell of the box that the surface crosses, and it is
/// the vertex of that cell.
pub proof fn lemma_cell_of_vertex(distances: Seq<Single>, resolution: int, k: int)
    requires
        0 <= resolution,
        0 <= k < vertex_cells(distances, resolution).len(),
    ensures
        ({
            let (x, y, z) = vertex_cells(distances, resolution)[k];
            &&& in_cube(resolution, x, y, z)
            &&& crossed(distances, resolution, x, y, z)
            &&& vertex_index(distances, resolution, x, y, z) == k
        }),
{
    lemma_cell_found(distances, resolution, volume(resolution), k);
}

proof fn lemma_cell_found(distances: Seq<Single>, resolution: int, n: int, k: int)
    requires
        0 <= resolution,
        n <= volume(resolution),
        0 <= k < crossed_cells(distances, resolution, n).len(),
    ensures
        ({
            let (x, y, z) = crossed_cells(distances, resolution, n)[k];
            &&& in_cube(resolution, x, y, z)
            &&& crossed(distances, resolution, x, y, z)
            &&& vertex_index(distances, resolution, x, y, z) == k
        }),
    decreases n,
{
    lemma_point_at(resolution, n - 1);
    if k < crossed_cells(distances, resolution, n - 1).len() {
        lemma_cell_found(distances, resolution, n - 1, k);
    }
}

/// Whether every index is that of one of the vertices.
pub open spec fn in_range(indices: Seq<u32>, vertices: int) -> bool {
    forall|i: int| 0 <= i < indices.len() ==> (#[trigger] indices[i]) < vertices
}

/// Whether the index is that of the vertex of a cell with a crossed edge.
pub open spec fn on_crossed_edge(index: u32, distances: Seq<Single>, resolution: int) -> bool {
    let cells = vertex_cells(distances, resolution);
    let (x, y, z) = cells[index as int];
    index < cells.len() && edge_crossed(distances, resolution, x, y, z)
}

/// Whether every index is that of the vertex of a cell with a crossed edge.
pub open spec fn joins_crossed(
    indices: Seq<u32>,
    distances: Seq<Single>,
    resolution: int,
) -> bool {
    forall|i: int|
        0 <= i < indices.len() ==> on_crossed_edge(#[trigger] indices[i], distances, resolution)
}

proof fn lemma_joins_added(a: Seq<u32>, b: Seq<u32>, distances: Seq<Single>, resolution: int)
    requires
        joins_crossed(a, distances, resolution),
        joins_crossed(b, distances, resolution),
    ensures
        joins_crossed(a + b, distances, resolution),
        a.len() % 6 == 0 && b.len() % 6 == 0 ==> (a + b).len() % 6 == 0,
{
    assert forall|i: int| 0 <= i < (a + b).len() implies on_crossed_edge(
        #[trigger] (a + b)[i],
        distances,
        resolution,
    ) by {
        if i < a.len() {
            assert((a + b)[i] == a[i]);
        } else {
            assert((a + b)[i] == b[i - a.len()]);
        }
    }
}

/// Every face of a mesh joins vertices of the mesh, and has two triangles. The
/// vertices are those of cells with a crossed edge: no face joins the vertex of a
/// cell that the surface only touches.
pub proof fn lemma_faces_in_range(distances: Seq<Single>, resolution: int)
    requires
        0 <= resolution,
        vertex_cells(distances, resolution).len() <= u32::MAX,
    ensures
        in_range(faces(distances, resolution), vertex_cells(distances, resolution).len() as int),
        joins_crossed(faces(distances, resolution), distances, resolution),
        faces(distances, resolution).len() % 6 == 0,
{
    lemma_faces_before_join(distances, resolution, volume(resolution));
}

proof fn lemma_faces_before_join(distances: Seq<Single>, resolution: int, n: int)
    requires
        0 <= resolution,
        n <= volume(resolution),
        vertex_cells(distances, resolution).len() <= u32::MAX,
    ensures
        joins_crossed(faces_before(distances, resolution, n), distances, resolution),
        faces_before(distances, resolution, n).len() % 6 == 0,
    decreases n,
{
    if n > 0 {
        lemma_faces_before_join(distances, resolution, n - 1);
        lemma_point_at(resolution, n - 1);
        let (x, y, z) = point_at(resolution, n - 1);
        let before = faces_before(distances, resolution, n - 1);
        lemma_faces_at_join(distances, resolution, x, y, z);
        lemma_joins_added(
            before,
            faces_at(distances, resolution, x, y, z),
            distances,
            resolution,
        );
    }
}

proof fn lemma_three_joined(
    a: Seq<u32>,
    b: Seq<u32>,
    c: Seq<u32>,
    distances: Seq<Single>,
    resolution: int,
)
    requires
        joins_crossed(a, distances, resolution) && a.len() % 6 == 0,
        joins_crossed(b, distances, resolution) && b.len() % 6 == 0,
        joins_crossed(c, distances, resolution) && c.len() % 6 == 0,
    ensures
        joins_crossed(a + b + c, distances, resolution),
        (a + b + c).len() % 6 == 0,
{
    lemma_joins_added(a, b, distances, resolution);
    lemma_joins_added(a + b, c, distances, resolution);
}

proof fn lemma_faces_at_join(distances: Seq<Single>, resolution: int, x: int, y: int, z: int)
    requires
        in_cube(resolution, x, y, z),
        vertex_cells(distances, resolution).len() <= u32::MAX,
    ensures
        joins_crossed(faces_at(distances, resolution, x, y, z), distances, resolution),
        faces_at(distances, resolution, x, y, z).len() % 6 == 0,
{
    lemma_face_along_x_joins(distances, resolution, x, y, z);
    lemma_face_along_y_joins(distances, resolution, x, y, z);
    lemma_face_along_z_joins(distances, resolution, x, y, z);
    lemma_three_joined(
        face_along_x(distances, resolution, x, y, z),
        face_along_y(distances, resolution, x, y, z),
        face_along_z(distances, resolution, x, y, z),
        distances,
        resolution,
    );
}

proof fn lemma_face_along_x_joins(
    distances: Seq<Single>,
    resolution: int,
    x: int,
    y: int,
    z: int,
)
    requires
        in_cube(resolution, x, y, z),
        vertex_cells(distances, resolution).len() <= u32::MAX,
    ensures
        joins_crossed(face_along_x(distances, resolution, x, y, z), distances, resolution),
        face_along_x(distances, resolution, x, y, z).len() % 6 == 0,
{
    if face_along_x(distances, resolution, x, y, z).len() > 0 {
        lemma_cells_around_edge(distances, resolution, x, y, z);
        lemma_vertex_of_cell(distances, resolution, x, y - 1, z - 1);
        lemma_vertex_of_cell(distances, resolution, x, y - 1, z);
        lemma_vertex_of_cell(distances, resolution, x, y, z - 1);
        lemma_vertex_of_cell(distances, resolution, x, y, z);
    }
}

proof fn lemma_face_along_y_joins(
    distances: Seq<Single>,
    resolution: int,
    x: int,
    y: int,
    z: int,
)
    requires
        in_cube(resolution, x, y, z),
        vertex_cells(distances, resolution).len() <= u32::MAX,
    ensures
        joins_crossed(face_along_y(distances, resolution, x, y, z), distances, resolution),
        face_along_y(distances, resolution, x, y, z).len() % 6 == 0,
{
    if face_along_y(distances, resolution, x, y, z).len() > 0 {
        lemma_cells_around_edge(distances, resolution, x, y, z);
        lemma_vertex_of_cell(distances, resolution, x - 1, y, z - 1);
        lemma_vertex_of_cell(distances, resolution, x - 1, y, z);
        lemma_vertex_of_cell(distances, resolution, x, y, z - 1);
        lemma_vertex_of_cell(distances, resolution, x, y, z);
    }
}

proof fn lemma_face_along_z_joins(
    distances: Seq<Single>,
    resolution: int,
    x: int,
    y: int,
    z: int,
)
    requires
        in_cube(resolution, x, y, z),
        vertex_cells(distances, resolution).len() <= u32::MAX,
    ensures
        joins_crossed(face_along_z(distances, resolution, x, y, z), distances, resolution),
        face_along_z(distances, resolution, x, y, z).len() % 6 == 0,
{
    if face_along_z(distances, resolution, x, y, z).len() > 0 {
        lemma_cells_around_edge(distances, resolution, x, y, z);
        lemma_vertex_of_cell(distances, resolution, x - 1, y - 1, z);
        lemma_vertex_of_cell(distances, resolution, x - 1, y, z);
        lemma_vertex_of_cell(distances, resolution, x, y - 1, z);
        lemma_vertex_of_cell(distances, resolution, x, y, z);
    }
}

/// Every vertex has something to be placed by, and it is within its cell: where the
/// distances at the corners are finite, each crossing lies between the ends of an
/// edge, and where no edge is crossed, the surface touches a corner.
pub proof fn lemma_vertex_within_cell(distances: Seq<Single>, resolution: int, k: int)
    requires
        0 <= resolution,
        0 <= k < vertex_cells(distances, resolution).len(),
    ensures
        ({
            let (x, y, z) = vertex_cells(distances, resolution)[k];
            let corners = corner_distances(distances, resolution, x, y, z);
            &&& crossings(corners).len() > 0 || touched_corners(corners).len() > 0
            &&& finite(corners) ==> forall|j: int|
                0 <= j < crossings(corners).len() ==> between_ends(#[trigger] crossings(corners)[j])
            &&& forall|j: int|
                0 <= j < touched_corners(corners).len() ==> (#[trigger] touched_corners(
                    corners,
                )[j]) < 8
        }),
{
    let (x, y, z) = vertex_cells(distances, resolution)[k];
    let corners = corner_distances(distances, resolution, x, y, z);
    lemma_cell_of_vertex(distances, resolution, k);
    lemma_partial_cell(corners);
    lemma_touched_corners(corners);
    if finite(corners) {
        lemma_crossings_within_cell(corners);
    }
}

/// The mesh holds the faces of the edges that lead from each corner, in one piece.
pub proof fn lemma_faces_of_corner(
    distances: Seq<Single>,
    resolution: int,
    x: int,
    y: int,
    z: int,
)
    requires
        in_cube(resolution, x, y, z),
    ensures
        ({
            let start = faces_before(
                distances,
                resolution,
                offset(resolution, x, y, z),
            ).len() as int;
            let here = faces_at(distances, resolution, x, y, z);
            &&& start + here.len() <= faces(distances, resolution).len()
            &&& faces(distances, resolution).subrange(start, start + here.len()) == here
        }),
{
    let n = offset(resolution, x, y, z);
    let start = faces_before(distances, resolution, n).len() as int;
    let here = faces_at(distances, resolution, x, y, z);
    let all = faces(distances, resolution);
    lemma_offset(resolution, x, y, z);
    lemma_faces_prefix(distances, resolution, n + 1, volume(resolution));
    let through = faces_before(distances, resolution, n + 1);
    assert(through == faces_before(distances, resolution, n) + here);
    assert(all.subrange(start, start + here.len()) =~= here) by {
        assert forall|i: int| 0 <= i < here.len() implies all[start + i] == here[i] by {
            assert(through[start + i] == here[i]);
        }
    }
}

/// The faces that are found early stay in their places when more are found.
proof fn lemma_faces_prefix(distances: Seq<Single>, resolution: int, n: int, m: int)
    requires
        0 <= n <= m,
    ensures
        faces_before(distances, resolution, n).len() <= faces_before(
            distances,
            resolution,
            m,
        ).len(),
        forall|i: int|
            0 <= i < faces_before(distances, resolution, n).len() ==> faces_before(
                distances,
                resolution,
                n,
            )[i] == #[trigger] faces_before(distances, resolution, m)[i],
    decreases m,
{
    if n < m {
        lemma_faces_prefix(distances, resolution, n, m - 1);
    }
}

} // verus!
