# voxer

The CPU-side bookkeeping of the Voxer voxel renderer, verified with Verus.

- `src/renderer/gpu/malloc/`: virtual allocators of GPU buffer ranges
  (first fit, best fit, per-mesh vertex and index arenas, several buffers at
  once) and their text views.
- `src/renderer/gpu/virtual_alloc.rs`, `src/render/renderer/allocator.rs`: two
  simpler first-fit allocators.
- `src/renderer/gpu/vx_gpu_delta_vec.rs`: a dense array mirrored on the GPU,
  updated by short lists of slot writes.
- `src/renderer/gpu/chunk_session_mesh_data.rs`: the face count of a chunk,
  from bit-packed rows of solid blocks.
- `src/renderer/gpu/chunk_entry.rs`, `chunk_session_shader_types.rs`,
  `gpu_state_types.rs`, `chunk_session_types.rs`: the records shared with the
  shaders and the mesh state of a chunk.
- `src/render/`: meshes, shader sources, and which chunks stay loaded.
- `app/`: what runs around the library: terminal views, byte layouts for the
  GPU, `glam` conversions and `wgpu` helpers.
