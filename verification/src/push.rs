//! Push-constant parameter blocks of the voxel compute and render kernels:
//! each names the buffers and images one GPU dispatch works over. The
//! kernels themselves run on the GPU; these are the plain values handed to
//! them.

use vstd::prelude::*;

verus! {

use crate::render::Buffer;
use crate::render::Image;

/// Luminosity reduction over the prepass image.
#[derive(Clone, Copy, Debug)]
pub struct LuminosityPush {
    pub luminosity_buffer: Buffer,
    pub info_buffer: Buffer,
    pub prepass_image: Image,
}

/// Primary ray traversal of the voxel world.
#[derive(Clone, Copy, Debug)]
pub struct RtxPush {
    pub info_buffer: Buffer,
    pub camera_buffer: Buffer,
    pub transform_buffer: Buffer,
    pub world_buffer: Buffer,
    pub mersenne_buffer: Buffer,
    pub dir_image: Image,
    pub pos_image: Image,
    pub luminosity_buffer: Buffer,
    pub entity_buffer: Buffer,
}

/// Temporal resolve of the current frame against history.
#[derive(Clone, Copy, Debug)]
pub struct ResolvePush {
    pub prepass_image: Image,
    pub history_image: Image,
    pub resolve_image: Image,
    pub dir_image: Image,
    pub pos_image: Image,
    pub history_dir_image: Image,
    pub history_pos_image: Image,
    pub rigidbody_buffer: Buffer,
    pub info_buffer: Buffer,
    pub camera_buffer: Buffer,
    pub transform_buffer: Buffer,
    pub world_buffer: Buffer,
}

/// Copy of the resolved frame into the history image.
#[derive(Clone, Copy, Debug)]
pub struct HistoryPush {
    pub resolve_image: Image,
    pub history_image: Image,
}

/// Upscale of the resolved frame to presentation size.
#[derive(Clone, Copy, Debug)]
pub struct UpscalePush {
    pub from_image: Image,
    pub scale: u32,
    pub luminosity_buffer: Buffer,
}

/// Application of buffered input to the world state.
#[derive(Clone, Copy, Debug)]
pub struct InputPush {
    pub info_buffer: Buffer,
    pub transform_buffer: Buffer,
    pub rigidbody_buffer: Buffer,
    pub input_buffer: Buffer,
    pub sound_buffer: Buffer,
    pub mersenne_buffer: Buffer,
    pub world_buffer: Buffer,
    pub camera_buffer: Buffer,
    pub luminosity_buffer: Buffer,
}

/// Construction of the traversal-aid bitset from the world buffer.
#[derive(Clone, Copy, Debug)]
pub struct BuildBitsetPush {
    pub world_buffer: Buffer,
    pub bitset_buffer: Buffer,
}

/// World generation from the noise images.
#[derive(Clone, Copy, Debug)]
pub struct BuildWorldPush {
    pub world_buffer: Buffer,
    pub transform_buffer: Buffer,
    pub perlin_image: Image,
    pub worley_image: Image,
    pub mersenne_buffer: Buffer,
}

/// Recomputation of bounding volumes from the world buffer.
#[derive(Clone, Copy, Debug)]
pub struct BuildBoundingPush {
    pub world_buffer: Buffer,
    pub bounding_buffer: Buffer,
}

/// Structural compaction of the world buffer at a level of detail.
#[derive(Clone, Copy, Debug)]
pub struct BuildStructPush {
    pub world_buffer: Buffer,
    pub lod: u32,
}

/// Mesh extraction from the world buffer.
#[derive(Clone, Copy, Debug)]
pub struct BuildMeshPush {
    pub world_buffer: Buffer,
    pub vertex_buffer: Buffer,
    pub perlin_image: Image,
}

/// Raw noise generation.
#[derive(Clone, Copy, Debug)]
pub struct BuildNoisePush {
    pub mersenne_buffer: Buffer,
    pub noise_image: Image,
}

/// Perlin gradient pass over the raw noise.
#[derive(Clone, Copy, Debug)]
pub struct BuildPerlinPush {
    pub noise_image: Image,
    pub perlin_image: Image,
}

} // verus!
