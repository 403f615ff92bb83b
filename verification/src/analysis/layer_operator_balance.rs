//! Per-layer operator duration: the layer is read from the `layers.<N>.`
//! part of operator names.

use vstd::prelude::*;
use vstd::string::StringSliceAdditionalSpecFns;

use crate::analysis::layer_slot::{captured_layer, layer_from_captures, zero_slot, zero_slot_index};
use crate::pattern::{regex_captures, regex_captures_result, regex_find, regex_find_result};

verus! {

/// Per-layer operator duration distribution.
#[derive(Clone, Copy, Debug, Default)]
pub struct LayerOperatorBalance;

/// The layer number of a full operator name: the digits after `.layers.`
/// (or `.layer.`) followed by `.`, or between `/layers/` and `/`.
pub fn layer_from_full_name(name: &str) -> (r: Option<i64>)
    ensures
        r == captured_layer(
            regex_captures_result(r"\.layers?\.(\d+)\.|/layers?/(\d+)/"@, name@),
            name.spec_bytes(),
        ),
{
    let caps = regex_captures(r"\.layers?\.(\d+)\.|/layers?/(\d+)/", name);
    layer_from_captures(name, caps)
}

/// In a digit-collapsed name pattern, the index (among all `0`
/// placeholders) of the `0` that follows `.layers.` or `/layers/`; `None`
/// when the pattern has no layer slot.
pub fn layer_zero_index(pattern: &str) -> (r: Option<usize>)
    ensures
        r == zero_slot(regex_find_result(r"\.layers?\.0(?:\.|$)|/layers?/0(?:/|$)"@, pattern@), pattern.spec_bytes()),
{
    let m = regex_find(r"\.layers?\.0(?:\.|$)|/layers?/0(?:/|$)", pattern);
    zero_slot_index(pattern, m)
}

} // verus!
