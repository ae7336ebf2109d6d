//! Sparse voxel octree core: compacted hierarchical storage of per-cell voxel
//! data over a cubic integer domain, together with two read-only transforms
//! that materialize the tree for consumers (a renderable quad mesh with
//! ambient occlusion, and a bit-packed existence map), plus the plain data
//! vocabulary handed to the rendering and networking backends.

pub mod bits;
pub mod convert;
pub mod mesh;
pub mod net;
pub mod octree;
pub mod push;
pub mod render;
pub mod transform;
pub mod voxel;
