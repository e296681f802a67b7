pub mod global;
pub mod mesh;
