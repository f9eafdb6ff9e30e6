//! Block-based storage engine.
//!
//! Every vertex, edge, and token is stored as a serialized payload inside
//! 64-byte chunks within 16 KB blocks. Chunks are tracked via a bitmap in
//! each block's header.

pub mod bitmap_file;
pub mod block_allocator;
pub mod block_cache;
pub mod codec;
pub mod index;
pub mod index_file;
pub mod memory_index;
pub mod memory_index_builder;
pub mod ordered;
pub mod partition;
pub mod redo_log;
pub mod redolog_wal;
pub mod str_map;
pub mod types;
pub mod version_log;
