//! Baseline trace encodings, for comparison with the template compressor:
//! the compressors themselves, descriptor runs of type ids, and the
//! busy-time sweep shared by their in-situ analyses.

pub mod bubble;
pub mod insitu;
pub mod rsd;
pub mod scalatrace;
pub mod scalatrace_analysis;
pub mod tracezip;
pub mod tracezip_analysis;

use vstd::prelude::*;

use crate::compressor::CompressorConfig;

verus! {

/// The trace as plain JSON.
#[derive(Clone, Copy, Debug, Default)]
pub struct RawJsonCompressor;

/// The trace as plain MessagePack.
#[derive(Clone, Copy, Debug, Default)]
pub struct RawMsgpackCompressor;

/// The trace as gzipped JSON.
#[derive(Clone, Copy, Debug, Default)]
pub struct GzipJsonCompressor;

/// The trace as gzipped MessagePack.
#[derive(Clone, Copy, Debug, Default)]
pub struct GzipMsgpackCompressor;

/// Type-id sequences written as regular section descriptors.
#[derive(Clone, Copy, Debug, Default)]
pub struct ScalaTraceCompressor;

/// Events bucketed by name schema.
#[derive(Clone, Copy, Debug, Default)]
pub struct TraceZipCompressor;

/// The template compressor, under a configuration.
#[derive(Clone, Debug)]
pub struct PadocCompressor {
    pub config: CompressorConfig,
}

impl Default for PadocCompressor {
    /// The default configuration.
    fn default() -> (c: Self)
        ensures
            c.config.enable_structural && c.config.enable_anchor_matching && c.config.enable_args_dedup
                && c.config.enable_kernel_links && c.config.enable_name_pattern,
    {
        PadocCompressor { config: CompressorConfig::default() }
    }
}

impl PadocCompressor {
    /// The compressor under `config`.
    pub fn with_config(config: CompressorConfig) -> (c: Self)
        ensures
            c.config == config,
    {
        PadocCompressor { config }
    }
}

} // verus!
