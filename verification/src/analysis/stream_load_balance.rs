//! Busy time per GPU stream.

use vstd::prelude::*;

use crate::event::{NumColumn, StringColumn};

verus! {

/// Busy time per `(pid, stream)`.
#[derive(Clone, Copy, Debug, Default)]
pub struct StreamLoadBalance;

/// The value of a column stored as one repeated value, if it is stored so.
pub fn constant_i64_col(col: &NumColumn) -> (r: Option<i64>)
    ensures
        r == (match col {
            NumColumn::Constant { value, .. } => Some(*value),
            _ => None::<i64>,
        }),
{
    match col {
        NumColumn::Constant { value, .. } => Some(*value),
        _ => None,
    }
}

/// The string of a column stored as one repeated string, if it is stored
/// so.
pub fn constant_str_col(col: &StringColumn) -> (r: Option<&str>)
    ensures
        match col {
            StringColumn::Constant { value, .. } => r matches Some(s) && s@ == value@,
            _ => r is None,
        },
{
    match col {
        StringColumn::Constant { value, .. } => Some(value.as_str()),
        _ => None,
    }
}

} // verus!
