pub mod meshes;
