//! An LSM key-value storage engine: an ordered memtable in front of sorted,
//! immutable segment files, each with a Bloom filter and a sparse index.

pub mod client;
pub mod compaction;
pub mod engine;
pub mod error;
pub mod keys;
pub mod memtable;
pub mod protocol;
pub mod repl;
pub mod segment;
pub mod segment_handle;
pub mod sparse_index;
pub mod store;
pub mod util;
