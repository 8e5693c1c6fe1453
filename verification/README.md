# meshbool

Verified index and topology logic of a mesh boolean library, written in
Verus.

`src/` is the verified library:

- `triangulate` — the fan triangulation of cross sections and the
  alternating strip triangulation of convex polygons, with their triangle
  counts and winding.
- `rings` — the circular doubly linked vertex lists of the ear-clipping
  triangulator: building them from polygons, clipping ears, walking a ring,
  and key-holing a hole into an outer contour; every operation keeps the
  lists circular, and keeps the triangles returned so far together with the
  remaining ring edges equal to the input edges, in their directions, plus
  pairs of opposite edges.
- `cross_section` — numbering the intersection points of a cross section so
  that equal points share one index.
- `mesh_layout` — interleaved vertex properties and index buffers, and their
  conversion to and from per-attribute arrays.
- `mesh_stats` — vertex and triangle counts.
- `boolean_state` — the operation, shape and mode choices of the boolean
  demo, and the order of repair attempts for meshes that are not solids.

`app/` holds the floating-point geometry (the ear clipper's predicates and
costs, plane intersections, colours) and the conversions to and from Bevy
meshes, built on the verified library.
