# shape_mesh

Triangle meshes of shapes that are known by a signed distance estimate, kept in an
octree that is refined where somebody looks. The library under `src/` is verified
with Verus; `app/` connects it to threads, to `glium` and to floating point
arithmetic.

- `single`: single-precision numbers as bit patterns, compared as numbers.
- `grid`: walks over cubes of points, and tables with one entry per point.
- `cell`: the cells of a grid and where their edges cross the surface.
- `nets`: which cells get a vertex, and how vertices form faces.
- `symmetry`, `exchange`: what becomes of a mesh when distances take the other sign,
  are scaled, or have two axes exchanged.
- `buffer`: the raw mesh of one box.
- `span`, `octree`: boxes on an integer lattice, and trees of them.
- `event`, `threads`, `mesh`: the mesh of a whole shape, its jobs and its input.
- `laws`, `accounts`: what holds over several calls, and which jobs are under way.
