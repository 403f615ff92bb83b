//! Character-level helpers over `str` and `String`.

use vstd::prelude::*;

verus! {

broadcast use vstd::string::group_string_axioms;

/// Appends one character to a `String` (`String::push`).
#[verifier::external_body]
pub(crate) fn push_char(s: &mut String, c: char)
    ensures
        final(s)@ == old(s)@.push(c),
{
    s.push(c);
}

/// The characters of `s`, in order.
pub fn chars_of(s: &str) -> (out: Vec<char>)
    ensures
        out@ == s@,
{
    let mut out: Vec<char> = Vec::new();
    for c in it: s.chars()
        invariant
            out@ == it.seq().take(it.index() as int),
    {
        out.push(c);
    }
    out
}


/// The ASCII digit for `d` (`d < 10`).
pub open spec fn digit_char(d: nat) -> char {
    if d == 0 {
        '0'
    } else if d == 1 {
        '1'
    } else if d == 2 {
        '2'
    } else if d == 3 {
        '3'
    } else if d == 4 {
        '4'
    } else if d == 5 {
        '5'
    } else if d == 6 {
        '6'
    } else if d == 7 {
        '7'
    } else if d == 8 {
        '8'
    } else {
        '9'
    }
}

/// Decimal digits of `n`, most significant first, without leading zeros.
pub open spec fn nat_digits(n: nat) -> Seq<char>
    decreases n,
{
    if n < 10 {
        seq![digit_char(n)]
    } else {
        nat_digits(n / 10).push(digit_char(n % 10))
    }
}

/// Decimal representation of `v`, with a leading `-` when negative.
pub open spec fn int_decimal(v: int) -> Seq<char> {
    if v < 0 {
        seq!['-'] + nat_digits((-v) as nat)
    } else {
        nat_digits(v as nat)
    }
}

/// `n` copies of `c`.
pub open spec fn repeat_char(c: char, n: nat) -> Seq<char> {
    Seq::new(n, |_i: int| c)
}

/// `s` padded on the left with `'0'` up to `width` characters.
pub open spec fn zero_pad(s: Seq<char>, width: nat) -> Seq<char> {
    if s.len() >= width {
        s
    } else {
        repeat_char('0', (width - s.len()) as nat) + s
    }
}

fn digit(d: u64) -> (c: char)
    requires
        d < 10,
    ensures
        c == digit_char(d as nat),
{
    match d {
        0 => '0',
        1 => '1',
        2 => '2',
        3 => '3',
        4 => '4',
        5 => '5',
        6 => '6',
        7 => '7',
        8 => '8',
        _ => '9',
    }
}

/// Appends the decimal digits of `n`.
fn push_digits(s: &mut Vec<char>, n: u64)
    ensures
        final(s)@ == old(s)@ + nat_digits(n as nat),
    decreases n,
{
    if n >= 10 {
        push_digits(s, n / 10);
    }
    s.push(digit(n % 10));
    proof {
        if n >= 10 {
            assert(final(s)@ =~= old(s)@ + nat_digits(n as nat));
        } else {
            assert(final(s)@ =~= old(s)@ + nat_digits(n as nat));
        }
    }
}

/// The decimal representation of `v`, as characters.
pub fn decimal_chars(v: i64) -> (out: Vec<char>)
    ensures
        out@ == int_decimal(v as int),
{
    let mut out: Vec<char> = Vec::new();
    if v < 0 {
        out.push('-');
        let m: u64 = ((-(v + 1)) as u64) + 1;
        push_digits(&mut out, m);
        assert(out@ =~= int_decimal(v as int));
    } else {
        push_digits(&mut out, v as u64);
        assert(out@ =~= int_decimal(v as int));
    }
    out
}

/// A `String` holding the characters of `cs`.
pub fn string_from_chars(cs: &Vec<char>) -> (s: String)
    ensures
        s@ == cs@,
{
    let mut s = String::new();
    let mut i: usize = 0;
    while i < cs.len()
        invariant
            i <= cs.len(),
            s@ == cs@.take(i as int),
        decreases cs.len() - i,
    {
        push_char(&mut s, cs[i]);
        i += 1;
        assert(s@ =~= cs@.take(i as int));
    }
    assert(cs@.take(cs.len() as int) =~= cs@);
    s
}

/// The byte is an ASCII decimal digit.
pub open spec fn is_digit_byte(b: u8) -> bool {
    48 <= b <= 57
}

/// The value of a run of ASCII digits, most significant first.
pub open spec fn digits_value(d: Seq<u8>) -> nat
    decreases d.len(),
{
    if d.len() == 0 {
        0
    } else {
        digits_value(d.drop_last()) * 10 + (d.last() - 48) as nat
    }
}

/// Every byte is an ASCII digit, and there is at least one.
pub open spec fn all_digits(d: Seq<u8>) -> bool {
    d.len() > 0 && forall|i: int| 0 <= i < d.len() ==> is_digit_byte(#[trigger] d[i])
}

/// The integer that the text `s` spells in decimal: an optional `+` or `-`
/// followed by at least one ASCII digit.
pub open spec fn spec_decimal_value(s: Seq<u8>) -> Option<int> {
    if s.len() > 0 && s[0] == 45 {
        if all_digits(s.drop_first()) {
            Some(-(digits_value(s.drop_first()) as int))
        } else {
            None
        }
    } else if s.len() > 0 && s[0] == 43 {
        if all_digits(s.drop_first()) {
            Some(digits_value(s.drop_first()) as int)
        } else {
            None
        }
    } else if all_digits(s) {
        Some(digits_value(s) as int)
    } else {
        None
    }
}

/// What parsing the text `s` as an `i64` gives: its decimal value when it
/// spells one that fits.
pub open spec fn spec_parse_i64(s: Seq<u8>) -> Option<i64> {
    match spec_decimal_value(s) {
        Some(v) => if i64::MIN <= v <= i64::MAX {
            Some(v as i64)
        } else {
            None
        },
        None => None,
    }
}

/// Appending a digit never makes the value smaller.
proof fn lemma_digits_value_prefix(d: Seq<u8>, k: int)
    requires
        0 <= k <= d.len(),
        forall|i: int| 0 <= i < d.len() ==> is_digit_byte(#[trigger] d[i]),
    ensures
        digits_value(d.take(k)) <= digits_value(d),
    decreases d.len() - k,
{
    if k < d.len() {
        lemma_digits_value_prefix(d, k + 1);
        assert(d.take(k + 1).drop_last() =~= d.take(k));
    } else {
        assert(d.take(k) =~= d);
    }
}

/// Parses the ASCII text `b` as an `i64` (the rules of `i64::from_str`).
pub fn parse_i64(b: &[u8]) -> (r: Option<i64>)
    ensures
        r == spec_parse_i64(b@),
{
    let n = b.len();
    if n == 0 {
        return None;
    }
    let neg = b[0] == 45u8;
    let start: usize = if b[0] == 45u8 || b[0] == 43u8 { 1 } else { 0 };
    if start == n {
        return None;
    }
    let ghost d = b@.subrange(start as int, n as int);
    proof {
        if start == 1 {
            assert(d =~= b@.drop_first());
        } else {
            assert(d =~= b@);
        }
    }
    // The largest magnitude the sign allows.
    let limit: u64 = if neg { 9223372036854775808u64 } else { 9223372036854775807u64 };
    let mut acc: u64 = 0;
    let mut i: usize = start;
    while i < n
        invariant
            n == b@.len(),
            start <= i <= n,
            d == b@.subrange(start as int, n as int),
            acc as nat == digits_value(d.take(i - start)),
            acc <= limit,
            limit == (if neg { 9223372036854775808u64 } else { 9223372036854775807u64 }),
            neg == (b@[0] == 45),
            start == 1 <==> (b@[0] == 45 || b@[0] == 43),
            start <= 1,
            forall|j: int| 0 <= j < i - start ==> is_digit_byte(#[trigger] d[j]),
        decreases n - i,
    {
        let c = b[i];
        if c < 48u8 || c > 57u8 {
            proof {
                assert(!is_digit_byte(d[i - start]));
                assert(!all_digits(d));
                if start == 1 {
                    assert(d =~= b@.drop_first());
                } else {
                    assert(d =~= b@);
                }
                assert(spec_decimal_value(b@) is None);
            }
            return None;
        }
        let digit = (c - 48u8) as u64;
        proof {
            assert(d.take(i - start + 1).drop_last() =~= d.take(i - start));
            assert(d.take(i - start + 1).last() == c);
        }
        if acc > (limit - digit) / 10 {
            proof {
                assert(acc * 10 + digit > limit) by (nonlinear_arith)
                    requires
                        acc > (limit - digit) / 10,
                        digit <= 9,
                        digit <= limit,
                ;
                assert(digits_value(d.take(i - start + 1)) == acc * 10 + digit);
                if start == 1 {
                    assert(d =~= b@.drop_first());
                } else {
                    assert(d =~= b@);
                }
                if all_digits(d) {
                    lemma_digits_value_prefix(d, i - start + 1);
                    assert(digits_value(d) > limit);
                    if b@[0] == 45 {
                        assert(spec_decimal_value(b@) == Some(-(digits_value(d) as int)));
                    } else if b@[0] == 43 {
                        assert(spec_decimal_value(b@) == Some(digits_value(d) as int));
                    } else {
                        assert(spec_decimal_value(b@) == Some(digits_value(d) as int));
                    }
                } else {
                    assert(spec_decimal_value(b@) is None);
                }
                assert(spec_parse_i64(b@) is None);
            }
            return None;
        }
        proof {
            assert(acc * 10 + digit <= limit) by (nonlinear_arith)
                requires
                    acc <= (limit - digit) / 10,
                    digit <= 9,
                    digit <= limit,
            ;
        }
        acc = acc * 10 + digit;
        i += 1;
    }
    proof {
        assert(d.take(n - start) =~= d);
        assert(all_digits(d));
    }
    if neg {
        if acc == 9223372036854775808u64 {
            Some(i64::MIN)
        } else {
            Some(-(acc as i64))
        }
    } else {
        Some(acc as i64)
    }
}

/// `a` comes strictly before `b` in byte-wise lexicographic order (the
/// order of Rust strings).
pub open spec fn bytes_less(a: Seq<u8>, b: Seq<u8>) -> bool
    decreases a.len(),
{
    if a.len() == 0 {
        b.len() > 0
    } else if b.len() == 0 {
        false
    } else if a[0] != b[0] {
        a[0] < b[0]
    } else {
        bytes_less(a.drop_first(), b.drop_first())
    }
}

/// Byte-wise lexicographic comparison: -1, 0 or 1.
pub fn compare_bytes(a: &[u8], b: &[u8]) -> (r: i8)
    ensures
        r == -1 || r == 0 || r == 1,
        r == -1 <==> bytes_less(a@, b@),
        r == 0 <==> a@ == b@,
        r == 1 <==> bytes_less(b@, a@),
{
    let mut i: usize = 0;
    while i < a.len() && i < b.len()
        invariant
            i <= a.len(),
            i <= b.len(),
            a@.take(i as int) == b@.take(i as int),
        decreases a.len() - i,
    {
        if a[i] != b[i] {
            proof {
                lemma_bytes_less_at(a@, b@, i as int);
                lemma_bytes_less_at(b@, a@, i as int);
                assert(a@[i as int] != b@[i as int]);
            }
            return if a[i] < b[i] { -1 } else { 1 };
        }
        i += 1;
        assert(a@.take(i as int) =~= b@.take(i as int)) by {
            assert(a@.take(i as int) =~= a@.take(i - 1).push(a@[i - 1]));
            assert(b@.take(i as int) =~= b@.take(i - 1).push(b@[i - 1]));
        }
    }
    proof {
        lemma_bytes_less_prefix(a@, b@, i as int);
        lemma_bytes_less_prefix(b@, a@, i as int);
    }
    if a.len() == b.len() {
        proof {
            assert(a@ =~= a@.take(i as int));
            assert(b@ =~= b@.take(i as int));
        }
        0
    } else if a.len() < b.len() {
        proof {
            assert(a@.len() != b@.len());
        }
        -1
    } else {
        1
    }
}

/// Two texts that agree before `i` and differ at `i` compare by that byte.
proof fn lemma_bytes_less_at(a: Seq<u8>, b: Seq<u8>, i: int)
    requires
        0 <= i < a.len(),
        i < b.len(),
        a.take(i) == b.take(i),
        a[i] != b[i],
    ensures
        bytes_less(a, b) == (a[i] < b[i]),
    decreases i,
{
    if i > 0 {
        assert(a[0] == a.take(i)[0]);
        assert(b[0] == b.take(i)[0]);
        assert(a.drop_first().take(i - 1) =~= b.drop_first().take(i - 1)) by {
            assert forall|j: int| 0 <= j < i - 1 implies a.drop_first()[j] == b.drop_first()[j] by {
                assert(a.take(i)[j + 1] == b.take(i)[j + 1]);
                assert(a.take(i)[j + 1] == a[j + 1]);
                assert(b.take(i)[j + 1] == b[j + 1]);
            }
        }
        lemma_bytes_less_at(a.drop_first(), b.drop_first(), i - 1);
    }
}

/// When `a` and `b` agree on their first `i` bytes and one of them has just
/// `i` bytes, the shorter comes first.
proof fn lemma_bytes_less_prefix(a: Seq<u8>, b: Seq<u8>, i: int)
    requires
        0 <= i,
        i == a.len() || i == b.len(),
        i <= a.len(),
        i <= b.len(),
        a.take(i) == b.take(i),
    ensures
        bytes_less(a, b) == (a.len() < b.len()),
    decreases i,
{
    if i > 0 {
        assert(a[0] == a.take(i)[0]);
        assert(b[0] == b.take(i)[0]);
        assert(a.drop_first().take(i - 1) =~= b.drop_first().take(i - 1)) by {
            assert forall|j: int| 0 <= j < i - 1 implies a.drop_first()[j] == b.drop_first()[j] by {
                assert(a.take(i)[j + 1] == b.take(i)[j + 1]);
                assert(a.take(i)[j + 1] == a[j + 1]);
                assert(b.take(i)[j + 1] == b[j + 1]);
            }
        }
        lemma_bytes_less_prefix(a.drop_first(), b.drop_first(), i - 1);
    }
}

/// No text comes before itself.
pub proof fn lemma_bytes_less_irreflexive(a: Seq<u8>)
    ensures
        !bytes_less(a, a),
    decreases a.len(),
{
    if a.len() > 0 {
        lemma_bytes_less_irreflexive(a.drop_first());
    }
}

/// Byte-wise order is transitive.
pub proof fn lemma_bytes_less_transitive(a: Seq<u8>, b: Seq<u8>, c: Seq<u8>)
    requires
        bytes_less(a, b),
        bytes_less(b, c),
    ensures
        bytes_less(a, c),
    decreases a.len(),
{
    if a.len() > 0 && b.len() > 0 && c.len() > 0 && a[0] == b[0] && b[0] == c[0] {
        lemma_bytes_less_transitive(a.drop_first(), b.drop_first(), c.drop_first());
    }
}

/// Of two different texts, one comes before the other.
pub proof fn lemma_bytes_less_total(a: Seq<u8>, b: Seq<u8>)
    requires
        a != b,
    ensures
        bytes_less(a, b) || bytes_less(b, a),
    decreases a.len(),
{
    if a.len() == 0 && b.len() == 0 {
        assert(a =~= b);
    }
    if a.len() > 0 && b.len() > 0 && a[0] == b[0] {
        if a.drop_first() == b.drop_first() {
            assert(a =~= seq![a[0]] + a.drop_first());
            assert(b =~= seq![b[0]] + b.drop_first());
        }
        lemma_bytes_less_total(a.drop_first(), b.drop_first());
    }
}

/// `a` does not come after `b`.
pub open spec fn bytes_le(a: Seq<u8>, b: Seq<u8>) -> bool {
    !bytes_less(b, a)
}

/// "Not after" is transitive.
pub proof fn lemma_bytes_le_transitive(a: Seq<u8>, b: Seq<u8>, c: Seq<u8>)
    requires
        bytes_le(a, b),
        bytes_le(b, c),
    ensures
        bytes_le(a, c),
{
    if bytes_less(c, a) {
        if a == b {
        } else {
            lemma_bytes_less_total(a, b);
            lemma_bytes_less_transitive(c, a, b);
        }
    }
}

/// The UTF-8 bytes of a text.
pub open spec fn utf8(s: Seq<char>) -> Seq<u8> {
    vstd::utf8::encode_utf8(s)
}

/// The strings of `v` in ascending byte order.
pub fn sort_strings(v: Vec<String>) -> (r: Vec<String>)
    ensures
        r@.map(|_i: int, s: String| s@).to_multiset() == v@.map(|_i: int, s: String| s@).to_multiset(),
        forall|i: int, j: int| 0 <= i < j < r@.len() ==> bytes_le(utf8(r@[i]@), utf8(r@[j]@)),
{
    let ghost vv = v@.map(|_i: int, s: String| s@);
    let mut r: Vec<String> = Vec::new();
    let mut src = v;
    let ghost orig = src@;
    let mut k: usize = 0;
    let n = src.len();
    proof {
        assert(r@.map(|_i: int, s: String| s@) =~= Seq::<Seq<char>>::empty());
        assert(vv.take(0) =~= Seq::<Seq<char>>::empty());
    }
    while k < n
        invariant
            n == orig.len(),
            src@ == orig,
            vv == orig.map(|_i: int, s: String| s@),
            k <= n,
            r@.map(|_i: int, s: String| s@).to_multiset() == vv.take(k as int).to_multiset(),
            forall|i: int, j: int| 0 <= i < j < r@.len() ==> bytes_le(utf8(r@[i]@), utf8(r@[j]@)),
        decreases n - k,
    {
        let x = src[k].clone();
        let xb = x.as_str().as_bytes();
        let mut pos: usize = 0;
        loop
            invariant
                pos <= r@.len(),
                xb@ == utf8(x@),
                forall|i: int| 0 <= i < pos ==> bytes_le(utf8(r@[i]@), utf8(x@)),
            ensures
                pos <= r@.len(),
                forall|i: int| 0 <= i < pos ==> bytes_le(utf8(r@[i]@), utf8(x@)),
                pos < r@.len() ==> bytes_less(utf8(x@), utf8(r@[pos as int]@)),
            decreases r@.len() - pos,
        {
            if pos >= r.len() {
                break;
            }
            let c = compare_bytes(r[pos].as_str().as_bytes(), xb);
            if c > 0 {
                break;
            }
            pos += 1;
        }
        let ghost before = r@;
        proof {
            if pos < before.len() {
                assert(bytes_less(utf8(x@), utf8(before[pos as int]@)));
            }
        }
        r.insert(pos, x);
        proof {
            broadcast use vstd::seq_lib::group_to_multiset_ensures;
            let rv = r@.map(|_i: int, s: String| s@);
            let bv = before.map(|_i: int, s: String| s@);
            assert(rv =~= bv.take(pos as int).push(x@) + bv.skip(pos as int));
            assert(bv =~= bv.take(pos as int) + bv.skip(pos as int));
            vstd::seq_lib::lemma_multiset_commutative(bv.take(pos as int).push(x@), bv.skip(pos as int));
            vstd::seq_lib::lemma_multiset_commutative(bv.take(pos as int), bv.skip(pos as int));
            assert(vv.take(k + 1) =~= vv.take(k as int).push(x@));
            assert(rv.to_multiset() =~= bv.to_multiset().insert(x@));
            assert forall|i: int, j: int| 0 <= i < j < r@.len() implies bytes_le(utf8(r@[i]@), utf8(r@[j]@)) by {
                if i < pos && j == pos {
                    assert(r@[i] == before[i]);
                } else if i == pos && j > pos {
                    assert(r@[j] == before[j - 1]);
                    let a = utf8(x@);
                    let b = utf8(before[pos as int]@);
                    let c = utf8(before[j - 1]@);
                    assert(bytes_less(a, b));
                    if j - 1 > pos {
                        assert(bytes_le(b, c));
                    }
                    if bytes_less(c, a) {
                        if j - 1 > pos {
                            lemma_bytes_less_transitive(c, a, b);
                        } else {
                            lemma_bytes_less_transitive(c, a, c);
                            lemma_bytes_less_irreflexive(c);
                        }
                    }
                } else if i < pos && j > pos {
                    assert(r@[i] == before[i] && r@[j] == before[j - 1]);
                } else if i > pos {
                    assert(r@[i] == before[i - 1] && r@[j] == before[j - 1]);
                } else {
                    assert(r@[i] == before[i] && r@[j] == before[j]);
                }
            }
        }
        k += 1;
    }
    proof {
        assert(vv.take(n as int) =~= vv);
    }
    r
}

} // verus!
