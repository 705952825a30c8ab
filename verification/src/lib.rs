//! Verified core logic of a GPU rendering backend: memory sub-allocators,
//! resource-access bookkeeping, scheduling of render work and CPU-side staging
//! buffers.

pub mod access;
pub mod access_table;
pub mod accesses;
pub mod backend;
pub mod barriers;
pub mod binding_map;
pub mod block_buffer;
pub mod buddy;
pub mod cleanup;
pub mod commands;
pub mod debug;
pub mod descriptor_pool;
pub mod descriptor_set;
pub mod device;
pub mod dynamic_buffer;
pub mod execute;
pub mod fps;
pub mod graph;
pub mod image;
pub mod memory;
pub mod permutation;
pub mod pipeline;
pub mod pool;
pub mod pow2;
pub mod queries;
pub mod queue_checks;
pub mod range_map;
pub mod region;
pub mod scheduler;
pub mod setup;
pub mod shader;
pub mod resources;
pub mod retain;
pub mod simple_alloc;
pub mod slab_buffer;
pub mod sorted;
pub mod stable_buffer;
pub mod suballocated;
pub mod text;
pub mod word_bytes;
