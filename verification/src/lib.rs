//! Template-based compression of chrome-trace event columns, with the
//! interval, layer and baseline-encoding logic that works on them.

pub mod analysis;
pub mod arena;
pub mod baselines;
pub mod codec;
pub mod args;
pub mod compressor;
pub mod dict;
pub mod error;
pub mod event;
pub mod node;
pub mod pattern;
pub mod sort;
pub mod text;

pub use error::Error;
