//! Core data structures for a syncing blockchain node:
//!
//! - [`blocks`]: a collection that coordinates parallel, peer-sharded download
//!   of a contiguous range of block heights and hands completed prefixes to
//!   the importer in order.
//! - [`wasm_runtime`]: a cache of instantiated guest runtimes keyed by
//!   execution method and code hash, together with their decoded version
//!   records.
//! - [`scale`]: the little-endian and compact-length byte readers that the
//!   runtime cache uses to decode storage values and version records.

pub mod blocks;
pub mod scale;
pub mod wasm_runtime;
