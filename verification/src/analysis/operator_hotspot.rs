//! Top-N CPU operators by total duration.

use vstd::prelude::*;

verus! {

/// Top operators by total duration; at least 20 are reported.
#[derive(Clone, Copy, Debug, Default)]
pub struct OperatorHotspot {
    pub top_k: usize,
}

} // verus!
