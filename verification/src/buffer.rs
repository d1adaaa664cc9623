//! Raw meshes, made from distances by the surface nets scheme.

use crate::cell::Cell;
use crate::grid::{in_cube, volume, GridTable};
use crate::nets::{
    describes, distance_at, faces, find_cells, find_faces, gets_vertex, in_range,
    lemma_cell_of_vertex, lemma_crossed_cells_len, lemma_faces_in_range, vertex_cells,
};
use crate::single::Single;
use crate::span::Span;
use vstd::prelude::*;

verus! {

/// A vertex of a mesh.
#[derive(Clone, Copy, Debug, PartialEq, Eq)]
pub struct Vertex {
    pub position: [Single; 3],
    pub normal: [Single; 3],
    pub distance_from_surface: Single,
}

/// Whether `distance` can be asked for the distance at a corner.
pub open spec fn may_ask<D: Fn(Span, u32, u32, u32) -> Single>(
    distance: &D,
    span: Span,
    x: u32,
    y: u32,
    z: u32,
) -> bool {
    call_requires(*distance, (span, x, y, z))
}

/// Whether `distance` may answer with `d` for a corner.
pub open spec fn may_answer<D: Fn(Span, u32, u32, u32) -> Single>(
    distance: &D,
    span: Span,
    x: u32,
    y: u32,
    z: u32,
    d: Single,
) -> bool {
    call_ensures(*distance, (span, x, y, z), d)
}

/// Whether the distances are what `distance` gives for the corners of the cells.
pub open spec fn sampled<D: Fn(Span, u32, u32, u32) -> Single>(
    distance: D,
    span: Span,
    resolution: u32,
    distances: Seq<Single>,
) -> bool {
    &&& distances.len() == volume(resolution + 1)
    &&& forall|x: u32, y: u32, z: u32|
        in_cube(resolution + 1, x as int, y as int, z as int) ==> #[trigger] call_ensures(
            distance,
            (span, x, y, z),
            distance_at(distances, resolution as int, x as int, y as int, z as int),
        )
}

/// Whether `v` is what `vertex` may give for the cell at the given place.
pub open spec fn placed_in<V: Fn(Span, &Cell) -> Vertex>(
    vertex: V,
    span: Span,
    resolution: u32,
    distances: Seq<Single>,
    place: (int, int, int),
    v: Vertex,
) -> bool {
    exists|cell: Cell|
        gets_vertex(cell, distances, resolution as int, place) && #[trigger] call_ensures(
            vertex,
            (span, &cell),
            v,
        )
}

/// Whether the vertices are what `vertex` gives for the cells that the surface
/// crosses.
pub open spec fn placed<V: Fn(Span, &Cell) -> Vertex>(
    vertex: V,
    span: Span,
    resolution: u32,
    distances: Seq<Single>,
    vertices: Seq<Vertex>,
) -> bool {
    let cells = vertex_cells(distances, resolution as int);
    &&& vertices.len() == cells.len()
    &&& forall|k: int|
        0 <= k < cells.len() ==> placed_in(
            vertex,
            span,
            resolution,
            distances,
            cells[k],
            #[trigger] vertices[k],
        )
}

/// Whether the vertices can be counted by their indices, whatever distances are
/// sampled.
pub open spec fn countable<D: Fn(Span, u32, u32, u32) -> Single>(
    distance: D,
    span: Span,
    resolution: u32,
) -> bool {
    ||| volume(resolution as int) <= u32::MAX
    ||| forall|distances: Seq<Single>| #[trigger]
        sampled(distance, span, resolution, distances) ==> vertex_cells(
            distances,
            resolution as int,
        ).len() <= u32::MAX
}

/// A mesh, as vertices and as triangles that are given by the indices of three
/// vertices each.
#[derive(Debug)]
pub struct MeshBuffer {
    raw_vbuf: Vec<Vertex>,
    raw_ibuf: Vec<u32>,
}

impl MeshBuffer {
    pub closed spec fn vertices(&self) -> Seq<Vertex> {
        self.raw_vbuf@
    }

    pub closed spec fn indices(&self) -> Seq<u32> {
        self.raw_ibuf@
    }

    /// Whether this is the mesh for the distances that `distance` may give within a
    /// box, with its vertices where `vertex` may place them.
    pub open spec fn generated<
        D: Fn(Span, u32, u32, u32) -> Single,
        V: Fn(Span, &Cell) -> Vertex,
    >(&self, distance: D, vertex: V, span: Span, resolution: u32) -> bool {
        exists|distances: Seq<Single>|
            {
                &&& #[trigger] sampled(distance, span, resolution, distances)
                &&& placed(vertex, span, resolution, distances, self.vertices())
                &&& self.indices() == faces(distances, resolution as int)
            }
    }

    /// Generates the mesh of a shape within a box that is cut into `resolution`
    /// cells along each axis.
    ///
    /// `distance` gives the distance from the shape at a corner of the cells, and
    /// `vertex` places the vertex of a cell. It is asked for the cells of the box that
    /// the surface crosses. A cell has crossings to place the vertex by, unless the
    /// surface only touches it: it then has no crossing, and the corners at which it
    /// is touched, where the distance is zero, are there instead.
    pub fn generate_for_box<
        D: Fn(Span, u32, u32, u32) -> Single,
        V: Fn(Span, &Cell) -> Vertex,
    >(span: &Span, distance: D, vertex: V, resolution: u32) -> (buffer: MeshBuffer)
        requires
            span.nonempty(),
            resolution != 0,
            volume(resolution + 1) <= usize::MAX,
            countable(distance, *span, resolution),
            forall|x: u32, y: u32, z: u32|
                in_cube(resolution + 1, x as int, y as int, z as int) ==> call_requires(
                    distance,
                    (*span, x, y, z),
                ),
            forall|cell: Cell, distances: Seq<Single>, place: (int, int, int)|
                #[trigger] gets_vertex(cell, distances, resolution as int, place) ==> call_requires(
                    vertex,
                    (*span, &cell),
                ),
        ensures
            buffer.generated(distance, vertex, *span, resolution),
            in_range(buffer.indices(), buffer.vertices().len() as int),
    {
        Self::naive_surface_nets(span, distance, vertex, resolution)
    }

    /// The "surface nets" scheme in its naive form: the vertex of a cell is placed
    /// by the crossings of the cell's own edges alone.
    fn naive_surface_nets<D: Fn(Span, u32, u32, u32) -> Single, V: Fn(Span, &Cell) -> Vertex>(
        span: &Span,
        distance: D,
        vertex: V,
        resolution: u32,
    ) -> (buffer: MeshBuffer)
        requires
            volume(resolution + 1) <= usize::MAX,
            countable(distance, *span, resolution),
            forall|x: u32, y: u32, z: u32|
                in_cube(resolution + 1, x as int, y as int, z as int) ==> call_requires(
                    distance,
                    (*span, x, y, z),
                ),
            forall|cell: Cell, distances: Seq<Single>, place: (int, int, int)|
                #[trigger] gets_vertex(cell, distances, resolution as int, place) ==> call_requires(
                    vertex,
                    (*span, &cell),
                ),
        ensures
            buffer.generated(distance, vertex, *span, resolution),
            in_range(buffer.indices(), buffer.vertices().len() as int),
    {
        let ghost r = resolution as int;
        assert(resolution < u32::MAX) by {
            assert(resolution == u32::MAX ==> (resolution + 1) * (resolution + 1) * (resolution + 1)
                > usize::MAX) by (nonlinear_arith);
        }

        // Take the distance at each corner in between the cells.
        let sample = |x: u32, y: u32, z: u32| -> (d: Single)
            requires
                may_ask(&distance, *span, x, y, z),
            ensures
                may_answer(&distance, *span, x, y, z, d),
        {
            distance(*span, x, y, z)
        };
        let table = GridTable::fill_with(resolution + 1, sample);
        let ghost d = table.entries();
        proof {
            assert forall|x: u32, y: u32, z: u32|
                in_cube(
                resolution + 1,
                x as int,
                y as int,
                z as int,
            ) implies #[trigger] call_ensures(
                distance,
                (*span, x, y, z),
                distance_at(d, r, x as int, y as int, z as int),
            ) by {
                assert(call_ensures(sample, (x, y, z), table.at(x as int, y as int, z as int)));
            }
            assert(sampled(distance, *span, resolution, d));
            lemma_crossed_cells_len(d, r, 0, volume(r));
        }

        // Place one vertex in each cell that the surface crosses.
        let (points, cells) = find_cells(&table, resolution);
        let mut raw_vbuf: Vec<Vertex> = Vec::new();
        let mut k: usize = 0;
        while k < cells.len()
            invariant
                k <= cells@.len(),
                raw_vbuf@.len() == k,
                r == resolution,
                cells@.len() == vertex_cells(d, r).len(),
                forall|j: int|
                    0 <= j < cells@.len() ==> describes(
                        #[trigger] cells@[j],
                        d,
                        r,
                        vertex_cells(d, r)[j],
                    ),
                forall|cell: Cell, distances: Seq<Single>, place: (int, int, int)|
                    #[trigger] gets_vertex(cell, distances, r, place) ==> call_requires(
                        vertex,
                        (*span, &cell),
                    ),
                forall|j: int|
                    0 <= j < k ==> call_ensures(
                        vertex,
                        (*span, &cells@[j]),
                        #[trigger] raw_vbuf@[j],
                    ),
            decreases cells@.len() - k,
        {
            proof {
                lemma_cell_of_vertex(d, r, k as int);
                assert(gets_vertex(cells@[k as int], d, r, vertex_cells(d, r)[k as int]));
            }
            raw_vbuf.push(vertex(*span, &cells[k]));
            k += 1;
        }

        // Join the vertices around each edge that the surface crosses.
        let raw_ibuf = find_faces(&table, &points, resolution);
        proof {
            let places = vertex_cells(d, r);
            assert forall|j: int| 0 <= j < places.len() implies placed_in(
                vertex,
                *span,
                resolution,
                d,
                places[j],
                #[trigger] raw_vbuf@[j],
            ) by {
                lemma_cell_of_vertex(d, r, j);
                assert(describes(cells@[j], d, r, places[j]));
                assert(call_ensures(vertex, (*span, &cells@[j]), raw_vbuf@[j]));
            }
        }
        proof {
            lemma_faces_in_range(d, r);
        }
        MeshBuffer { raw_vbuf, raw_ibuf }
    }

    /// The vertices.
    pub fn raw_vbuf(&self) -> (vertices: &[Vertex])
        ensures
            vertices@ == self.vertices(),
    {
        self.raw_vbuf.as_slice()
    }

    /// The indices of the vertices of the triangles.
    pub fn raw_ibuf(&self) -> (indices: &[u32])
        ensures
            indices@ == self.indices(),
    {
        self.raw_ibuf.as_slice()
    }
}

} // verus!
