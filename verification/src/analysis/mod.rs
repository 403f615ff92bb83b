//! Analyses over traces and template tables, and the numeric kernels they
//! are built from.

pub mod compute_comm_overlap;
pub mod gpu_bubble;
pub mod kernel_class;
pub mod layer_gpu;
pub mod layer_operator_balance;
pub mod layer_rows;
pub mod layer_slot;
pub mod layer_walk;
pub mod operator_hotspot;
pub mod parallel_group;
pub mod rank;
pub mod stream_load_balance;

pub use compute_comm_overlap::ComputeCommOverlap;
pub use gpu_bubble::GpuBubbleRate;
pub use layer_gpu::{LayerComputeCommOverlap, LayerKernelHotspot, LayerRankBalance};
pub use layer_operator_balance::LayerOperatorBalance;
pub use operator_hotspot::OperatorHotspot;
pub use parallel_group::ParallelGroup;
pub use stream_load_balance::StreamLoadBalance;
