//! Voxer's CPU-side bookkeeping for GPU-resident voxel data: virtual memory
//! allocators for GPU buffers, the delta-synchronised vector that mirrors chunk
//! entries on the GPU, chunk face counting and the plain data layouts shared
//! with the shaders.
pub mod math;
pub mod render;
pub mod renderer;
