//! The index side of polygon faces read from a mesh file: which mesh
//! vertices make up each triangle of a triangulated face.
//!
//! Reading and parsing the file is input work that happens outside the
//! library; the faces arrive here as plain index records.

use vstd::prelude::*;

verus! {

/// One corner of a face: the vertex index, and optional texture
/// coordinate and normal indices, all into the mesh's arrays.
#[derive(Clone, Copy, PartialEq, Eq, Structural, Debug)]
pub struct ObjVertex {
    pub vertex: usize,
    pub tex_coord: Option<usize>,
    pub normal: Option<usize>,
}

/// One polygon face: its corners in winding order.
pub struct ObjFace(pub Vec<ObjVertex>);

impl ObjFace {
    pub fn new(corners: Vec<ObjVertex>) -> (r: Self)
        ensures
            r.0 == corners,
    {
        ObjFace(corners)
    }

    /// The vertex indices of the `triangle_idx`-th triangle of the fan
    /// triangulation of this face: corner 0 together with the pair of
    /// adjacent corners starting at `triangle_idx + 1`.
    pub fn vertex_indices_for_triangle(&self, triangle_idx: usize) -> (r: (usize, usize, usize))
        requires
            triangle_idx + 2 < self.0@.len(),
        ensures
            r.0 == self.0@[0].vertex,
            r.1 == self.0@[triangle_idx + 1].vertex,
            r.2 == self.0@[triangle_idx + 2].vertex,
    {
        proof {
            vstd::std_specs::vec::axiom_spec_len(&self.0);
        }
        (self.0[0].vertex, self.0[triangle_idx + 1].vertex, self.0[triangle_idx + 2].vertex)
    }
}

} // verus!
