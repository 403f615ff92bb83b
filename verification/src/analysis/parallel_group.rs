//! Per-rank compute and communication load balance.

use vstd::prelude::*;

verus! {

/// Per-rank GPU compute and NCCL communication busy time.
#[derive(Clone, Copy, Debug, Default)]
pub struct ParallelGroup;

} // verus!
