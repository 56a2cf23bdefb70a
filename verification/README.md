# voxel

The data side of a voxel world, written in Verus: every function in `src/` carries a
contract that Verus proves.

- `bits`: integers packed at a chosen bit width into words, resizable in place.
- `chunk`: chunks of `16³` voxels, stored empty, filled, as an array, or as a pallet of
  voxel kinds with packed indices into it (`chunk::pallet`, `chunk::pallet_chunk`); chunk
  and voxel coordinates (`chunk::space`, `chunk::voxel_pos`).
- `bricks`, `generator`, `mesher`: chunks of `2³` bricks of `16³` voxels, the flat
  terrain generator, and the solid-voxel list and index buffer a mesh is built from.
- `octree`: octrees of voxels with get, set and leaf listing.
- `raw_chunk`: padded `32³` chunks laid out as `ndshape` lays out a power-of-two cube,
  their voxels held in an `arc_swap` cell.
- `viewer`, `voxel_viewer`, `volume`, `voxel_volume`: the chunk positions a viewer sees, and which chunks
  a volume generates, meshes and drops.
- `buffer`: data sub-allocated in GPU slabs through `offset_allocator` — queued writes that
  merge when they touch (`buffer::slab`), a growing list of slabs (`buffer::allocator`),
  slabs written directly (`buffer::alloc_buffer`), and what the render side does with each
  synchronisation message (`buffer::gpu_sync`). `buffer::offset` holds the trusted
  description of the allocator.
- `math`, `signed_axis`, `utils`, `vec3`, `voxel`, `drain_filter`: axes and directions,
  index helpers, small vectors, voxels, and draining a vector by a predicate.
- `texture_array`: stacking equally sized images into the layers of a texture array.

`app/` is the bevy program around the library: its systems feed the planners with what
the ECS holds and carry out their decisions; it also holds the copies of library types
that carry serde, enum-map, thiserror and block-mesh impls, and the floating-point half of
meshing.
