//! The PADOC template compressor: configuration and the merging of
//! per-rank template tables.

pub mod append;
pub mod config;
pub mod decompress;
pub mod interning;
pub mod finalize;
pub mod flat;
pub mod merge;
pub mod rebuild;
pub mod shards;

pub use config::CompressorConfig;
