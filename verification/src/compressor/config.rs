//! Compression policy.

use vstd::prelude::*;

verus! {

/// Which compression techniques are on.
#[derive(Clone, Debug)]
pub struct CompressorConfig {
    /// Sibling sub-tree grouping.
    pub enable_structural: bool,
    /// Anchor extraction inside grouped siblings.
    pub enable_anchor_matching: bool,
    /// Per-template argument column compaction.
    pub enable_args_dedup: bool,
    /// Pairing of CPU launches with GPU kernels by `correlation`.
    pub enable_kernel_links: bool,
    /// Digit collapsing in event names.
    pub enable_name_pattern: bool,
}

impl Default for CompressorConfig {
    /// Every technique on.
    fn default() -> (c: Self)
        ensures
            c.enable_structural && c.enable_anchor_matching && c.enable_args_dedup
                && c.enable_kernel_links && c.enable_name_pattern,
    {
        CompressorConfig {
            enable_structural: true,
            enable_anchor_matching: true,
            enable_args_dedup: true,
            enable_kernel_links: true,
            enable_name_pattern: true,
        }
    }
}

} // verus!
