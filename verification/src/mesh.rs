//! Plain output container for the surface-extraction transform: a vertex
//! list and an index list, freshly allocated, holding no reference back into
//! the tree they were extracted from.

use vstd::prelude::*;

verus! {

use crate::voxel::Id;

/// One emitted face, one entry per exposed unit-cell side. `position` is
/// the cell, `normal` the axis direction of the face, `id` the material tag
/// (the renderer's albedo policy maps it to a color), and `ambient` the
/// four per-corner ambient-occlusion factors, in thirds of full light:
/// 3 means fully lit, 0 fully occluded.
#[derive(Clone, Copy, Debug, PartialEq, Eq)]
pub struct Vertex {
    pub position: [usize; 3],
    pub normal: [i8; 3],
    pub id: Id,
    pub ambient: [u8; 4],
}

pub type Index = u32;

/// Renderable mesh: vertex list plus index list. The surface-extraction
/// transform leaves the index list empty; triangulation order is the
/// consumer's decision.
pub struct Mesh {
    vertices: Vec<Vertex>,
    indices: Vec<Index>,
}

impl Mesh {
    /// The emitted faces.
    pub closed spec fn spec_vertices(self) -> Seq<Vertex> {
        self.vertices@
    }

    /// The index list.
    pub closed spec fn spec_indices(self) -> Seq<Index> {
        self.indices@
    }

    pub fn new(vertices: Vec<Vertex>, indices: Vec<Index>) -> (r: Self)
        ensures
            r.spec_vertices() == vertices@,
            r.spec_indices() == indices@,
    {
        Self { vertices, indices }
    }

    pub fn vertices(&self) -> (r: &[Vertex])
        ensures
            r@ == self.spec_vertices(),
    {
        self.vertices.as_slice()
    }

    pub fn indices(&self) -> (r: &[Index])
        ensures
            r@ == self.spec_indices(),
    {
        self.indices.as_slice()
    }
}

} // verus!
