//! Classification of GPU kernels.

use vstd::prelude::*;

use crate::text::chars_of;

verus! {

/// ASCII lower-casing of one character.
pub open spec fn ascii_lower(c: char) -> char {
    if 'A' <= c <= 'Z' {
        ((c as u8) + 32) as char
    } else {
        c
    }
}

/// ASCII lower-casing of a text.
pub open spec fn ascii_lower_seq(s: Seq<char>) -> Seq<char> {
    s.map(|_i: int, c: char| ascii_lower(c))
}

/// `needle` occurs in `hay` as a contiguous run.
pub open spec fn contains_seq(hay: Seq<char>, needle: Seq<char>) -> bool {
    exists|i: int| 0 <= i <= hay.len() - needle.len() && #[trigger] hay.subrange(i, i + needle.len()) == needle
}

/// The name of an NCCL / collective device kernel: its ASCII lower-case
/// form contains `nccl`, `genericmultishmop` or `genericixccl`.
pub open spec fn spec_is_nccl_kernel(name: Seq<char>) -> bool {
    let lower = ascii_lower_seq(name);
    ||| contains_seq(lower, seq!['n', 'c', 'c', 'l'])
    ||| contains_seq(
        lower,
        seq!['g', 'e', 'n', 'e', 'r', 'i', 'c', 'm', 'u', 'l', 't', 'i', 's', 'h', 'm', 'o', 'p'],
    )
    ||| contains_seq(lower, seq!['g', 'e', 'n', 'e', 'r', 'i', 'c', 'i', 'x', 'c', 'c', 'l'])
}

fn lower_char(c: char) -> (r: char)
    ensures
        r == ascii_lower(c),
{
    if 'A' <= c && c <= 'Z' {
        ((c as u8) + 32) as char
    } else {
        c
    }
}

/// True iff `needle` occurs in `hay`.
pub fn contains_chars(hay: &Vec<char>, needle: &Vec<char>) -> (b: bool)
    requires
        needle@.len() > 0,
    ensures
        b == contains_seq(hay@, needle@),
{
    if needle.len() > hay.len() {
        return false;
    }
    let last = hay.len() - needle.len();
    let mut i: usize = 0;
    while i <= last
        invariant
            needle@.len() > 0,
            needle@.len() <= hay@.len(),
            hay@.len() <= usize::MAX,
            last == hay@.len() - needle@.len(),
            i <= last + 1,
            forall|k: int| 0 <= k < i ==> #[trigger] hay@.subrange(k, k + needle@.len()) != needle@,
        decreases last + 1 - i,
    {
        let mut j: usize = 0;
        let mut matched = true;
        while j < needle.len()
            invariant_except_break
                matched,
                forall|t: int| 0 <= t < j ==> hay@[i + t] == needle@[t],
            invariant
                i <= last,
                needle@.len() <= hay@.len(),
                hay@.len() <= usize::MAX,
                last == hay@.len() - needle@.len(),
                j <= needle@.len(),
            ensures
                matched ==> forall|t: int| 0 <= t < needle@.len() ==> hay@[i + t] == needle@[t],
                !matched ==> exists|t: int| 0 <= t < needle@.len() && hay@[i + t] != needle@[t],
            decreases needle.len() - j,
        {
            if hay[i + j] != needle[j] {
                matched = false;
                break;
            }
            j += 1;
        }
        if matched {
            assert(hay@.subrange(i as int, i + needle@.len()) =~= needle@);
            return true;
        }
        proof {
            let t = choose|t: int| 0 <= t < needle@.len() && hay@[i + t] != needle@[t];
            assert(hay@.subrange(i as int, i + needle@.len())[t] != needle@[t]);
        }
        i += 1;
    }
    false
}

/// True iff `name` looks like an NCCL / collective device kernel.
pub fn is_nccl_kernel(name: &str) -> (b: bool)
    ensures
        b == spec_is_nccl_kernel(name@),
{
    let cs = chars_of(name);
    let mut lower: Vec<char> = Vec::new();
    let mut i: usize = 0;
    while i < cs.len()
        invariant
            i <= cs.len(),
            lower@ == ascii_lower_seq(cs@.take(i as int)),
        decreases cs.len() - i,
    {
        lower.push(lower_char(cs[i]));
        i += 1;
        assert(lower@ =~= ascii_lower_seq(cs@.take(i as int)));
    }
    assert(cs@.take(cs.len() as int) =~= cs@);
    let nccl = vec!['n', 'c', 'c', 'l'];
    let shm = vec!['g', 'e', 'n', 'e', 'r', 'i', 'c', 'm', 'u', 'l', 't', 'i', 's', 'h', 'm', 'o', 'p'];
    let ixccl = vec!['g', 'e', 'n', 'e', 'r', 'i', 'c', 'i', 'x', 'c', 'c', 'l'];
    contains_chars(&lower, &nccl) || contains_chars(&lower, &shm) || contains_chars(&lower, &ixccl)
}

} // verus!
