//! Locating the layer number in digit-collapsed names.

use vstd::prelude::*;
use vstd::string::StringSliceAdditionalSpecFns;

use crate::pattern::{count_byte, count_byte_prefix, find_byte, first_index_of};
use crate::text::{parse_i64, spec_parse_i64};

verus! {

/// The index, among the `0` placeholders of a digit-collapsed name, of the
/// first `0` inside the regex match `m` of that name's bytes.
pub open spec fn zero_slot(m: Option<(usize, usize)>, bytes: Seq<u8>) -> Option<usize> {
    match m {
        None => None,
        Some(span) => if span.0 <= span.1 <= bytes.len() {
            match first_index_of(bytes.subrange(span.0 as int, span.1 as int), 48u8) {
                None => None,
                Some(z) => Some(count_byte(bytes.take(span.0 + z), 48u8) as usize),
            }
        } else {
            None
        },
    }
}

/// Given the match `m` of a layer-slot pattern in `pattern`, the index of
/// the layer's `0` placeholder among all `0` placeholders of `pattern`.
pub fn zero_slot_index(pattern: &str, m: Option<(usize, usize)>) -> (r: Option<usize>)
    ensures
        r == zero_slot(m, pattern.spec_bytes()),
{
    let bytes = pattern.as_bytes();
    let (start, end) = match m {
        Some(span) => span,
        None => { return None; },
    };
    if !(start <= end && end <= bytes.len()) {
        return None;
    }
    let z = match find_byte(bytes, start, end, 48u8) {
        Some(z) => z,
        None => { return None; },
    };
    Some(count_byte_prefix(bytes, start + z, 48u8))
}

/// The layer number named by capture group 1, or else group 2, of the
/// capture spans `caps` of a name with the bytes `bytes`.
pub open spec fn captured_layer(caps: Option<Seq<Option<(usize, usize)>>>, bytes: Seq<u8>) -> Option<i64> {
    match caps {
        None => None,
        Some(g) => {
            let m = if g.len() > 1 && g[1] is Some {
                g[1]
            } else if g.len() > 2 {
                g[2]
            } else {
                None
            };
            match m {
                None => None,
                Some(span) => if span.0 <= span.1 <= bytes.len() {
                    spec_parse_i64(bytes.subrange(span.0 as int, span.1 as int))
                } else {
                    None
                },
            }
        },
    }
}

/// Given the capture spans of a layer pattern in `name`, the layer number
/// spelled by group 1 (or else group 2), when it parses as an `i64`.
pub fn layer_from_captures(name: &str, caps: Option<Vec<Option<(usize, usize)>>>) -> (r: Option<i64>)
    ensures
        r == captured_layer(
            match caps {
                Some(v) => Some(v@),
                None => None,
            },
            name.spec_bytes(),
        ),
{
    let bytes = name.as_bytes();
    let groups = match caps {
        Some(g) => g,
        None => { return None; },
    };
    let m = if groups.len() > 1 && groups[1].is_some() {
        groups[1]
    } else if groups.len() > 2 {
        groups[2]
    } else {
        None
    };
    match m {
        None => None,
        Some((start, end)) => {
            if start <= end && end <= bytes.len() {
                parse_i64(&bytes[start..end])
            } else {
                None
            }
        },
    }
}

} // verus!
