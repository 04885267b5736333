pub mod cull;
pub mod greedy;
pub mod group;
pub mod mesh;
pub mod vertex;
pub mod voxel;
