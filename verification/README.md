# voxel_engine

The logic of a small voxel game engine, verified with Verus, and a headless
program around it.

`src/` is the verified library:

- `octree.rs`, `walk.rs`: index arithmetic of a linear octree, element
  placement, and the depth-first walk over it, with proofs that the walk
  ends, stays in the tree and steps into every node once.
- `collision.rs`: the broad phase of collision detection over the octree;
  the hit-box tests and directions are supplied by the caller, with proofs
  that collisions are recorded for both objects and only for elements that
  share a path from the root.
- `chunk_loader.rs`: the chunk streaming state machine (which chunks to
  generate, read, store, unload and mesh).
- `pos_map.rs`, `point_map.rs`: std `HashMap`s keyed by chunk position and
  by mesh-point key, through packed integer keys.
- `noise.rs`, `world_gen.rs`: floor division, lattice hashing for gradient
  noise, and the grid helpers of terrain generation.
- `marching_cubes.rs`: cube corner and edge numbering, vertex welding keys,
  case indices, voxel lookup across chunk borders and the meshing loop.
- `renderer.rs`: mesh, object and instance bookkeeping and the layout of
  the vertex, index, instance and indirect-draw buffers.
- `scene.rs`, `prelude.rs`, `game_object.rs`, `chunk.rs`: small shared
  pieces.

`app/` runs the engine without a window: chunk generation and meshing on
worker threads, an SQLite chunk store, float terrain noise and hit boxes.
Meshing needs a marching-cubes case table, read from the file named by
`MARCHING_CUBES_TABLE`: for each of the 256 cases, a triangle count byte and
fifteen edge bytes (decoded and checked by `case_table_from_bytes`).

`tests/` exercises the library on concrete values.
