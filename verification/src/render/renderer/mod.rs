pub mod allocator;
pub mod chunk_loader;
pub mod helpers;
pub mod resources;
pub mod shader;
