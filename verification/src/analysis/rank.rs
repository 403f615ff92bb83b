//! Ordering of rank names: numerically when both names are integers,
//! byte-wise otherwise.

use std::cmp::Ordering;

use vstd::prelude::*;
use vstd::string::StringSliceAdditionalSpecFns;

use crate::text::{
    bytes_less, compare_bytes, lemma_bytes_less_irreflexive, lemma_bytes_less_total, lemma_bytes_less_transitive,
    parse_i64, spec_parse_i64, utf8,
};

verus! {

/// The order of two rank names with the bytes `a` and `b`: by value when
/// both parse as `i64`, else byte-wise lexicographic.
pub open spec fn rank_ordering(a: Seq<u8>, b: Seq<u8>) -> Ordering {
    match (spec_parse_i64(a), spec_parse_i64(b)) {
        (Some(x), Some(y)) => if x < y {
            Ordering::Less
        } else if x == y {
            Ordering::Equal
        } else {
            Ordering::Greater
        },
        _ => if bytes_less(a, b) {
            Ordering::Less
        } else if a == b {
            Ordering::Equal
        } else {
            Ordering::Greater
        },
    }
}

/// Orders rank names: numerically when both are integers ("2" < "10"),
/// byte-wise otherwise.
pub fn rank_cmp(a: &str, b: &str) -> (o: Ordering)
    ensures
        o == rank_ordering(a.spec_bytes(), b.spec_bytes()),
{
    let ab = a.as_bytes();
    let bb = b.as_bytes();
    match (parse_i64(ab), parse_i64(bb)) {
        (Some(x), Some(y)) => if x < y {
            Ordering::Less
        } else if x == y {
            Ordering::Equal
        } else {
            Ordering::Greater
        },
        _ => {
            let c = compare_bytes(ab, bb);
            if c == -1 {
                Ordering::Less
            } else if c == 0 {
                Ordering::Equal
            } else {
                proof {
                    assert(!bytes_less(ab@, bb@));
                    assert(ab@ != bb@);
                }
                Ordering::Greater
            }
        },
    }
}

/// The order of two rank names read the other way round is the reverse.
pub proof fn lemma_rank_ordering_flip(a: Seq<u8>, b: Seq<u8>)
    ensures
        (rank_ordering(a, b) == Ordering::Less) == (rank_ordering(b, a) == Ordering::Greater),
        (rank_ordering(a, b) == Ordering::Equal) == (rank_ordering(b, a) == Ordering::Equal),
{
    match (spec_parse_i64(a), spec_parse_i64(b)) {
        (Some(x), Some(y)) => {},
        _ => {
            if bytes_less(a, b) && bytes_less(b, a) {
                lemma_bytes_less_transitive(a, b, a);
                lemma_bytes_less_irreflexive(a);
            }
            if a != b {
                lemma_bytes_less_total(a, b);
            }
        },
    }
}

/// The rank named `a` comes before the rank named `b`.
pub open spec fn rank_before(a: Seq<char>, b: Seq<char>) -> bool {
    rank_ordering(utf8(a), utf8(b)) == Ordering::Less
}

/// The ranks named `a` and `b` hold the same place in the order.
pub open spec fn rank_level(a: Seq<char>, b: Seq<char>) -> bool {
    rank_ordering(utf8(a), utf8(b)) == Ordering::Equal
}

/// Whether the rank named `a` comes before the rank named `b`.
pub fn rank_precedes(a: &str, b: &str) -> (r: bool)
    ensures
        r == rank_before(a@, b@),
{
    match rank_cmp(a, b) {
        Ordering::Less => true,
        _ => false,
    }
}

/// The key `(rank, layer)` `a` comes before `b`: by rank, then by the
/// layer's bytes.
pub open spec fn key_before(a: (Seq<char>, Seq<char>), b: (Seq<char>, Seq<char>)) -> bool {
    rank_before(a.0, b.0) || (rank_level(a.0, b.0) && bytes_less(utf8(a.1), utf8(b.1)))
}

/// Whether the key `(a_rank, a_layer)` comes before `(b_rank, b_layer)`.
pub fn key_precedes(a_rank: &str, a_layer: &str, b_rank: &str, b_layer: &str) -> (r: bool)
    ensures
        r == key_before((a_rank@, a_layer@), (b_rank@, b_layer@)),
{
    match rank_cmp(a_rank, b_rank) {
        Ordering::Less => true,
        Ordering::Greater => false,
        Ordering::Equal => compare_bytes(a_layer.as_bytes(), b_layer.as_bytes()) == -1,
    }
}

/// Of two ranks, at most one comes before the other.
pub proof fn lemma_rank_before_asymmetric(a: Seq<char>, b: Seq<char>)
    requires
        rank_before(a, b),
    ensures
        !rank_before(b, a),
        !rank_level(b, a),
{
    lemma_rank_ordering_flip(utf8(a), utf8(b));
}

/// Of two keys, at most one comes before the other.
pub proof fn lemma_key_before_asymmetric(a: (Seq<char>, Seq<char>), b: (Seq<char>, Seq<char>))
    requires
        key_before(a, b),
    ensures
        !key_before(b, a),
{
    lemma_rank_ordering_flip(utf8(a.0), utf8(b.0));
    if bytes_less(utf8(a.1), utf8(b.1)) && bytes_less(utf8(b.1), utf8(a.1)) {
        lemma_bytes_less_transitive(utf8(a.1), utf8(b.1), utf8(a.1));
        lemma_bytes_less_irreflexive(utf8(a.1));
    }
}

} // verus!
