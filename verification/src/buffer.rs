//! Bookkeeping for data stored in shared GPU buffers: slabs sub-allocated by an offset
//! allocator, with the writes and frees queued until the next synchronisation.
pub mod offset;
pub mod slab;
pub mod allocator;
pub mod alloc_buffer;
pub mod gpu_sync;
