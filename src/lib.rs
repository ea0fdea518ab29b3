//! A durable-memory allocator with coalescing free segments, the fixed header
//! that locates the persisted root object, and the bookkeeping of a pool of
//! remote storage shards.

pub mod allocator;
pub mod header;
pub mod shards;

pub use allocator::{memory_bytes, pages_to_grow, Allocation, Allocator, INITIAL_OFFSET, PAGE_SIZE};
pub use header::{decode_header, encode_header, u64_from_be, u64_to_be};
pub use header::Storable;
pub use shards::{compare_ids, Bucket, ShardError, Storage};
