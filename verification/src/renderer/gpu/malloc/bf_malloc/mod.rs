pub mod bf_malloc;
pub mod types;
