//! Verified core of a voxel game engine: octree index arithmetic, the chunk
//! streaming state machine, lattice hashing for terrain noise, marching-cubes
//! bookkeeping and renderer id management.
use vstd::prelude::*;

pub mod pos_map;
pub mod point_map;
pub mod octree;
pub mod walk;
pub mod collision;
pub mod noise;
pub mod world_gen;
pub mod marching_cubes;
pub mod game_object;
pub mod chunk;
pub mod chunk_loader;
pub mod prelude;
pub mod scene;
pub mod renderer;

verus! {

} // verus!
