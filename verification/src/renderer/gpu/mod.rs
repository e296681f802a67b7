pub mod vx_gpu_delta_vec;
pub mod malloc;
pub mod virtual_alloc;
pub mod chunk_entry;
pub mod chunk_session_shader_types;
pub mod chunk_session_mesh_data;
pub mod chunk_session_types;
pub mod gpu_state_types;
pub mod chunk_session;
pub mod chunk_manager;
