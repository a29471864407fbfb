//! Breadth-first persistence codec for a sparse voxel octree.
pub mod voxel;
pub mod arena;
pub mod format;
pub mod octree;
pub mod encode;
pub mod decode;
pub mod laws;
pub mod validate;
