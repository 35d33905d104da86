//! Core of a chunked n-dimensional array storage engine.
//!
//! An array is a logically contiguous n-dimensional grid of elements of a
//! fixed data type, physically partitioned into fixed-shape chunks. Each
//! chunk is encoded through a codec pipeline and persisted as an opaque byte
//! blob in a key-value store. Arbitrary hyperrectangular subsets can be read
//! and written without materialising the whole array.

pub mod byte_range;
pub mod config;
pub mod array_subset;
pub mod storage;
pub mod shard_index;
pub mod codec;
pub mod array;
pub mod storage_handle;
pub mod http;
