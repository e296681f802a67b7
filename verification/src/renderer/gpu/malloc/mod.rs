pub mod common;
pub mod ff_malloc;
pub mod virtual_malloc;
pub mod mesh_malloc;
pub mod mesh_malloc_multi_buffer;
pub mod multibuffer_malloc;
pub mod bf_malloc;
