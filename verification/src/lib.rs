//! Voxel storage, addressing and bookkeeping for a voxel world: packed integer arrays,
//! pallet compressed chunks, brick chunks, octrees, padded chunks, chunk coordinate
//! spaces and axis helpers, terrain generation, the integer half of meshing, chunk
//! visibility planning, and the bookkeeping of data sub-allocated in GPU slabs.
pub mod math;
pub mod bits;
pub mod chunk;
pub mod voxel;
pub mod vec3;
pub mod octree;
pub mod buffer;
pub mod utils;
pub mod signed_axis;
pub mod bricks;
pub mod generator;
pub mod viewer;
pub mod volume;
pub mod drain_filter;
pub mod raw_chunk;
pub mod mesher;
pub mod voxel_volume;
pub mod voxel_viewer;
pub mod texture_array;
