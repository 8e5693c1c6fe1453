//! Size measures of a mesh given as interleaved vertex properties and a
//! triangle index list.
use vstd::prelude::*;

verus! {

/// Number of vertices and of triangles of a mesh whose vertex property array
/// has `vert_properties_len` entries, `num_prop` per vertex, and whose
/// triangle list has `tri_verts_len` indices, three per triangle.
pub fn mesh_counts(vert_properties_len: usize, num_prop: u32, tri_verts_len: usize) -> (counts: (
    usize,
    usize,
))
    requires
        num_prop > 0,
    ensures
        counts.0 == vert_properties_len / (num_prop as usize),
        counts.1 == tri_verts_len / 3,
{
    (vert_properties_len / (num_prop as usize), tri_verts_len / 3)
}

} // verus!
