//! Regular-expression searches, through the `regex` crate.

use vstd::prelude::*;
use vstd::string::StringSliceAdditionalSpecFns;

verus! {

/// Byte span `(start, end)` of the leftmost-first match of the regular
/// expression `pattern` in `hay`, or `None` when there is no match or the
/// pattern does not compile.
pub uninterp spec fn regex_find_result(pattern: Seq<char>, hay: Seq<char>) -> Option<(usize, usize)>;

/// Byte spans of the capture groups (group 0 is the whole match) of the
/// leftmost-first match of `pattern` in `hay`; `None` when there is no match
/// or the pattern does not compile.
pub uninterp spec fn regex_captures_result(pattern: Seq<char>, hay: Seq<char>) -> Option<
    Seq<Option<(usize, usize)>>,
>;

/// `Regex::new(pattern)` then `Regex::find(hay)`: the byte span of the first
/// match.  `regex` documents that a match has `start <= end`, both on
/// character boundaries of `hay`, so the span lies within `hay`'s bytes.
#[verifier::external_body]
pub(crate) fn regex_find(pattern: &str, hay: &str) -> (r: Option<(usize, usize)>)
    ensures
        r == regex_find_result(pattern@, hay@),
        r matches Some(m) ==> m.0 <= m.1 <= hay.spec_bytes().len(),
{
    match regex::Regex::new(pattern) {
        Ok(re) => match re.find(hay) {
            Some(m) => Some((m.start(), m.end())),
            None => None,
        },
        Err(_) => None,
    }
}

/// `Regex::new(pattern)` then `Regex::captures(hay)`: the byte span of
/// each capture group of the first match (`None` for a group that did not
/// take part).  Every span lies within `hay`'s bytes.
#[verifier::external_body]
pub(crate) fn regex_captures(pattern: &str, hay: &str) -> (r: Option<Vec<Option<(usize, usize)>>>)
    ensures
        r is Some <==> regex_captures_result(pattern@, hay@) is Some,
        r matches Some(v) ==> v@ == regex_captures_result(pattern@, hay@)->0,
        r matches Some(v) ==> forall|i: int|
            0 <= i < v@.len() ==> (#[trigger] v@[i] matches Some(m) ==> m.0 <= m.1
                <= hay.spec_bytes().len()),
{
    let re = match regex::Regex::new(pattern) {
        Ok(re) => re,
        Err(_) => return None,
    };
    let caps = re.captures(hay)?;
    let mut out = Vec::with_capacity(caps.len());
    for i in 0..caps.len() {
        out.push(caps.get(i).map(|m| (m.start(), m.end())));
    }
    Some(out)
}

/// Index of the first byte equal to `b` in `s`.
#[verifier::opaque]
pub open spec fn first_index_of(s: Seq<u8>, b: u8) -> Option<int> {
    if exists|i: int| 0 <= i < s.len() && s[i] == b && forall|j: int| 0 <= j < i ==> s[j] != b {
        Some(choose|i: int| 0 <= i < s.len() && s[i] == b && forall|j: int| 0 <= j < i ==> s[j] != b)
    } else {
        None
    }
}

/// The first index of `b` in `s` is `k` when `s[k] == b` and no earlier
/// byte is `b`.
proof fn lemma_first_index_of(s: Seq<u8>, b: u8, k: int)
    requires
        0 <= k < s.len(),
        s[k] == b,
        forall|j: int| 0 <= j < k ==> s[j] != b,
    ensures
        first_index_of(s, b) == Some(k),
{
    reveal(first_index_of);
    let c = choose|i: int| 0 <= i < s.len() && s[i] == b && forall|j: int| 0 <= j < i ==> s[j] != b;
    assert(0 <= c < s.len() && s[c] == b && forall|j: int| 0 <= j < c ==> s[j] != b);
    if c < k {
        assert(s[c] != b);
    } else if c > k {
        assert(s[k] != b);
    }
}

/// Number of bytes of `s` equal to `b`.
pub open spec fn count_byte(s: Seq<u8>, b: u8) -> nat
    decreases s.len(),
{
    if s.len() == 0 {
        0
    } else {
        count_byte(s.drop_last(), b) + if s.last() == b { 1nat } else { 0nat }
    }
}

/// The first position of `b` in `s[start..end]`, relative to `start`.
pub fn find_byte(s: &[u8], start: usize, end: usize, b: u8) -> (r: Option<usize>)
    requires
        start <= end <= s@.len(),
    ensures
        r matches Some(z) ==> z < end - start && first_index_of(
            s@.subrange(start as int, end as int),
            b,
        ) == Some(z as int),
        r is None ==> first_index_of(s@.subrange(start as int, end as int), b) is None,
{
    reveal(first_index_of);
    let ghost sub = s@.subrange(start as int, end as int);
    let mut i = start;
    while i < end
        invariant
            start <= i <= end <= s@.len(),
            sub == s@.subrange(start as int, end as int),
            forall|j: int| 0 <= j < i - start ==> sub[j] != b,
        decreases end - i,
    {
        if s[i] == b {
            proof {
                let k = (i - start) as int;
                assert(sub[k] == b);
                lemma_first_index_of(sub, b, k);
            }
            return Some(i - start);
        }
        i += 1;
    }
    None
}

/// Number of bytes equal to `b` among the first `n` bytes of `s`.
pub fn count_byte_prefix(s: &[u8], n: usize, b: u8) -> (c: usize)
    requires
        n <= s@.len(),
    ensures
        c == count_byte(s@.take(n as int), b),
{
    let mut c: usize = 0;
    let mut i: usize = 0;
    while i < n
        invariant
            i <= n <= s@.len(),
            c == count_byte(s@.take(i as int), b),
            c <= i,
        decreases n - i,
    {
        assert(s@.take(i + 1).drop_last() =~= s@.take(i as int));
        if s[i] == b {
            c += 1;
        }
        i += 1;
    }
    c
}

} // verus!
