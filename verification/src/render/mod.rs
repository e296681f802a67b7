pub mod renderer;
pub mod types;
