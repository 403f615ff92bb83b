//! The library's error type.

use vstd::prelude::*;

verus! {

/// Errors reported by the library's own logic.
#[derive(Debug)]
pub enum Error {
    /// A failure reported by an I/O stream (here: a compression codec),
    /// with its message.
    Io(String),
    /// A trace that does not have the expected shape.
    InvalidTrace(String),
    /// A compressed artifact that does not have the expected shape.
    InvalidCompressed(String),
    /// A round-trip check failed.
    Verify(String),
    /// Any other failure, with its message.
    Other(String),
}

} // verus!
