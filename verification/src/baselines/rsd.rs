//! Regular section descriptors: a sequence of type ids written as runs of
//! a repeated pattern, found greedily from left to right.

use vstd::prelude::*;

use crate::dict::SeqDict;
use crate::Error;

verus! {

/// A pattern of type ids repeated `repeats` times in a row.
#[derive(Clone, Debug)]
pub struct Rsd {
    pub pattern: Vec<u32>,
    pub repeats: u32,
}

/// `p` repeated `n` times.
pub open spec fn repeat_seq(p: Seq<u32>, n: nat) -> Seq<u32>
    decreases n,
{
    if n == 0 {
        Seq::empty()
    } else {
        repeat_seq(p, (n - 1) as nat) + p
    }
}

/// What a descriptor stands for: its pattern, `repeats` times.
pub open spec fn rsd_expansion(r: Rsd) -> Seq<u32> {
    repeat_seq(r.pattern@, r.repeats as nat)
}

/// What a list of descriptors stands for: their expansions, in order.
pub open spec fn expand_all(rs: Seq<Rsd>) -> Seq<u32>
    decreases rs.len(),
{
    if rs.len() == 0 {
        Seq::empty()
    } else {
        expand_all(rs.drop_last()) + rsd_expansion(rs.last())
    }
}

/// A copy of `s[i..i + p]` (with `p > 0`) stands at position `j`.
#[verifier::opaque]
pub open spec fn copy_at(s: Seq<u32>, i: int, p: int, j: int) -> bool {
    p > 0 && 0 <= j && j + p <= s.len() && s.subrange(j, j + p) == s.subrange(i, i + p)
}

/// The number of further copies of `s[i..i + p]` that follow, back to
/// back, from position `j` on.
pub open spec fn run_count(s: Seq<u32>, i: int, p: int, j: int) -> nat
    decreases s.len() - j,
{
    if copy_at(s, i, p, j) {
        proof {
            reveal(copy_at);
        }
        1 + run_count(s, i, p, j + p)
    } else {
        0
    }
}

/// How many times `s[i..i + p]` occurs back to back from position `i` on.
pub open spec fn runs_at(s: Seq<u32>, i: int, p: int) -> nat {
    1 + run_count(s, i, p, i + p)
}

/// Where the copies of `s[i..i + p]` that follow position `j` end.
pub open spec fn run_end(s: Seq<u32>, i: int, p: int, j: int) -> int
    decreases s.len() - j,
{
    if copy_at(s, i, p, j) {
        proof {
            reveal(copy_at);
        }
        run_end(s, i, p, j + p)
    } else {
        j
    }
}

/// How many elements the copies of `s[i..i + p]` from position `i` on
/// cover.
pub open spec fn run_cover(s: Seq<u32>, i: int, p: int) -> int {
    run_end(s, i, p, i + p) - i
}

/// The longest period tried at position `i`: half of what is left, at
/// most 64.
pub open spec fn max_period(s: Seq<u32>, i: int) -> int {
    let half = (s.len() - i) / 2;
    if half < 64 {
        half
    } else {
        64
    }
}

/// A period that repeats at position `i`.
pub open spec fn is_candidate(s: Seq<u32>, i: int, q: int) -> bool {
    1 <= q <= max_period(s, i) && runs_at(s, i, q) > 1
}

/// The run chosen at position `i`: among the periods that repeat, the one
/// that covers the most elements (the shortest one on a tie); a single
/// element when no period repeats.
pub open spec fn best_run(s: Seq<u32>, i: int, p: int, r: int) -> bool {
    if exists|q: int| is_candidate(s, i, q) {
        &&& is_candidate(s, i, p)
        &&& r == runs_at(s, i, p)
        &&& forall|q: int| #[trigger] is_candidate(s, i, q) ==> run_cover(s, i, q) <= run_cover(s, i, p)
        &&& forall|q: int| #[trigger] is_candidate(s, i, q) && q < p ==> run_cover(s, i, q) < run_cover(s, i, p)
    } else {
        p == 1 && r == 1
    }
}

/// `rs` is the greedy encoding of `s`: it expands to `s`, and each
/// descriptor is the run chosen where it starts.
pub open spec fn greedy_encoding(s: Seq<u32>, rs: Seq<Rsd>) -> bool {
    &&& expand_all(rs) == s
    &&& forall|k: int|
        0 <= k < rs.len() ==> best_run(
            s,
            expand_all(rs.take(k)).len() as int,
            (#[trigger] rs[k]).pattern@.len() as int,
            rs[k].repeats as int,
        )
}

/// True iff `s[a..a + p] == s[b..b + p]`.
fn same_slice(s: &Vec<u32>, a: usize, b: usize, p: usize) -> (r: bool)
    requires
        a + p <= s@.len(),
        b + p <= s@.len(),
    ensures
        r == (s@.subrange(a as int, a + p) == s@.subrange(b as int, b + p)),
{
    let ghost sa = s@.subrange(a as int, a + p);
    let ghost sb = s@.subrange(b as int, b + p);
    let len = s.len();
    let mut t: usize = 0;
    while t < p
        invariant
            t <= p,
            len == s@.len(),
            a + p <= s@.len(),
            b + p <= s@.len(),
            sa == s@.subrange(a as int, a + p),
            sb == s@.subrange(b as int, b + p),
            forall|u: int| 0 <= u < t ==> #[trigger] sa[u] == sb[u],
        decreases p - t,
    {
        if s[a + t] != s[b + t] {
            proof {
                assert(sa[t as int] != sb[t as int]);
            }
            return false;
        }
        proof {
            assert(sa[t as int] == sb[t as int]);
        }
        t += 1;
    }
    assert(s@.subrange(a as int, a + p) =~= s@.subrange(b as int, b + p));
    true
}

/// `repeat_seq(p, n + 1)` is `p` followed by `repeat_seq(p, n)`.
proof fn lemma_repeat_front(p: Seq<u32>, n: nat)
    ensures
        repeat_seq(p, n + 1) == p + repeat_seq(p, n),
    decreases n,
{
    if n > 0 {
        lemma_repeat_front(p, (n - 1) as nat);
        assert(repeat_seq(p, n + 1) =~= p + repeat_seq(p, n));
    } else {
        assert(repeat_seq(p, 0) =~= Seq::<u32>::empty());
        assert(repeat_seq(p, 1) =~= p);
        assert(p + repeat_seq(p, 0) =~= p);
    }
}

/// The length of `repeat_seq(p, n)`.
proof fn lemma_repeat_len(p: Seq<u32>, n: nat)
    ensures
        repeat_seq(p, n).len() == n * p.len(),
    decreases n,
{
    if n > 0 {
        let m = (n - 1) as nat;
        lemma_repeat_len(p, m);
        let l = p.len();
        assert(n * l == m * l + l) by (nonlinear_arith)
            requires
                n == m + 1,
        ;
    } else {
        let l = p.len();
        assert(n * l == 0) by (nonlinear_arith)
            requires
                n == 0,
        ;
    }
}

/// The copies counted by `run_count` are what lies between `j` and
/// `run_end`.
proof fn lemma_run_matches(s: Seq<u32>, i: int, p: int, j: int)
    requires
        p > 0,
        0 <= i,
        i + p <= s.len(),
        0 <= j <= s.len(),
    ensures
        j <= run_end(s, i, p, j) <= s.len(),
        s.subrange(j, run_end(s, i, p, j)) == repeat_seq(s.subrange(i, i + p), run_count(s, i, p, j)),
    decreases s.len() - j,
{
    let pat = s.subrange(i, i + p);
    if copy_at(s, i, p, j) {
        assert(j + p <= s.len() && s.subrange(j, j + p) == pat) by {
            reveal(copy_at);
        }
        lemma_run_matches(s, i, p, j + p);
        let m = run_count(s, i, p, j + p);
        let e = run_end(s, i, p, j + p);
        assert(run_end(s, i, p, j) == e);
        assert(run_count(s, i, p, j) == 1 + m);
        lemma_repeat_front(pat, m);
        assert(s.subrange(j, e) =~= s.subrange(j, j + p) + s.subrange(j + p, e));
    } else {
        assert(run_end(s, i, p, j) == j);
        assert(run_count(s, i, p, j) == 0);
        assert(s.subrange(j, j) =~= Seq::<u32>::empty());
    }
}

/// The descriptors, expanded back into the sequence of type ids.
proof fn lemma_expand_push(rs: Seq<Rsd>, r: Rsd)
    ensures
        expand_all(rs.push(r)) == expand_all(rs) + rsd_expansion(r),
{
    assert(rs.push(r).drop_last() =~= rs);
}

/// The run chosen at position `i` of the sequence, as `(period, repeats,
/// end)`.
fn choose_run(sequence: &Vec<u32>, i: usize) -> (pr: (usize, u32, usize))
    requires
        sequence@.len() <= u32::MAX,
        i < sequence@.len(),
    ensures
        best_run(sequence@, i as int, pr.0 as int, pr.1 as int),
        pr.1 == runs_at(sequence@, i as int, pr.0 as int),
        pr.2 == run_end(sequence@, i as int, pr.0 as int, i + pr.0),
        1 <= pr.0,
        i + pr.0 <= sequence@.len(),
{
    let ghost s = sequence@;
    let n = sequence.len();
    let half = (n - i) / 2;
    let maxp: usize = if half < 64 {
        half
    } else {
        64
    };
    let mut best: Option<(usize, u32, usize)> = None;
    let mut period: usize = 1;
    while period <= maxp
        invariant
            n == s.len(),
            s == sequence@,
            s.len() <= u32::MAX,
            i < n,
            maxp == max_period(s, i as int),
            1 <= period <= maxp + 1,
            best matches Some(b) ==> {
                &&& is_candidate(s, i as int, b.0 as int)
                &&& b.1 == runs_at(s, i as int, b.0 as int)
                &&& b.2 == run_end(s, i as int, b.0 as int, i + b.0)
                &&& i + b.0 <= b.2 <= n
                &&& b.0 < period
                &&& forall|q: int| #[trigger] is_candidate(s, i as int, q) && q < period ==> run_cover(s, i as int, q) <= run_cover(s, i as int, b.0 as int)
                &&& forall|q: int| #[trigger] is_candidate(s, i as int, q) && q < b.0 ==> run_cover(s, i as int, q) < run_cover(s, i as int, b.0 as int)
            },
            best is None ==> forall|q: int| #[trigger] is_candidate(s, i as int, q) ==> q >= period,
        decreases maxp + 1 - period,
    {
        let mut repeats: u32 = 1;
        let mut j: usize = i + period;
        while period <= n - j && same_slice(sequence, j, i, period)
            invariant
                n == s.len(),
                s == sequence@,
                s.len() <= u32::MAX,
                1 <= period,
                i + period <= n,
                i + period <= j,
                j <= n,
                1 <= repeats <= j - i,
                runs_at(s, i as int, period as int) == repeats + run_count(s, i as int, period as int, j as int),
                run_end(s, i as int, period as int, i + period) == run_end(s, i as int, period as int, j as int),
            decreases n - j,
        {
            proof {
                reveal(copy_at);
                assert(copy_at(s, i as int, period as int, j as int));
            }
            repeats += 1;
            j += period;
        }
        proof {
            reveal(copy_at);
            assert(!copy_at(s, i as int, period as int, j as int));
            assert(run_count(s, i as int, period as int, j as int) == 0);
            assert(run_end(s, i as int, period as int, j as int) == j);
            lemma_run_matches(s, i as int, period as int, i + period);
        }
        let cover = j - i;
        let better = match best {
            Some((_, _, bend)) => cover > bend - i,
            None => true,
        };
        if repeats > 1 && better {
            best = Some((period, repeats, j));
        }
        period += 1;
    }
    match best {
        Some(b) => b,
        None => {
            proof {
                assert forall|q: int| !is_candidate(s, i as int, q) by {
                    if is_candidate(s, i as int, q) {
                        assert(q >= period);
                    }
                }
                reveal(copy_at);
                if maxp >= 1 {
                    assert(!is_candidate(s, i as int, 1));
                } else {
                    assert(!copy_at(s, i as int, 1, i + 1));
                    assert(run_count(s, i as int, 1, i + 1) == 0);
                }
                assert(run_end(s, i as int, 1, i + 1) == i + 1) by {
                    if run_end(s, i as int, 1, i + 1) != i + 1 {
                        assert(run_count(s, i as int, 1, i + 1) > 0);
                    }
                }
            }
            (1, 1, i + 1)
        },
    }
}

/// Encodes a sequence of type ids as descriptors: at each position the
/// repeating period (at most 64, at most half of what is left) that covers
/// the most elements wins, the shortest on a tie; with none, one element.
#[verifier::spinoff_prover]
#[verifier::rlimit(40)]
pub fn encode_rsd(sequence: &Vec<u32>) -> (out: Vec<Rsd>)
    requires
        sequence@.len() <= u32::MAX,
    ensures
        greedy_encoding(sequence@, out@),
        out@.len() <= sequence@.len(),
{
    let ghost s = sequence@;
    let n = sequence.len();
    let mut out: Vec<Rsd> = Vec::new();
    let mut i: usize = 0;
    while i < n
        invariant
            n == s.len(),
            s == sequence@,
            s.len() <= u32::MAX,
            i <= n,
            out@.len() <= i,
            expand_all(out@) == s.take(i as int),
            forall|k: int|
                0 <= k < out@.len() ==> best_run(
                    s,
                    expand_all(out@.take(k)).len() as int,
                    (#[trigger] out@[k]).pattern@.len() as int,
                    out@[k].repeats as int,
                ),
        decreases n - i,
    {
        let (p, r, end) = choose_run(sequence, i);
        proof {
            lemma_run_matches(s, i as int, p as int, (i + p) as int);
            lemma_repeat_front(s.subrange(i as int, i + p), run_count(s, i as int, p as int, (i + p) as int));
            assert(s.subrange(i as int, end as int) =~= s.subrange(i as int, i + p) + s.subrange(i + p, end as int));
        }
        let pattern = slice_to_vec(sequence, i, i + p);
        let rsd = Rsd { pattern, repeats: r };
        let ghost old_out = out@;
        out.push(rsd);
        proof {
            lemma_expand_push(old_out, rsd);
            assert(out@.take(old_out.len() as int) =~= old_out);
            assert(s.take(end as int) =~= s.take(i as int) + s.subrange(i as int, end as int));
            assert forall|k: int| 0 <= k < out@.len() implies best_run(
                s,
                expand_all(out@.take(k)).len() as int,
                (#[trigger] out@[k]).pattern@.len() as int,
                out@[k].repeats as int,
            ) by {
                if k < old_out.len() {
                    assert(out@.take(k) =~= old_out.take(k));
                    assert(out@[k] == old_out[k]);
                }
            }
        }
        i = end;
    }
    proof {
        assert(s.take(n as int) =~= s);
    }
    out
}

/// A copy of `s[a..b]`.
fn slice_to_vec(s: &Vec<u32>, a: usize, b: usize) -> (v: Vec<u32>)
    requires
        a <= b <= s@.len(),
    ensures
        v@ == s@.subrange(a as int, b as int),
{
    let mut v: Vec<u32> = Vec::new();
    let mut k: usize = a;
    while k < b
        invariant
            a <= k <= b,
            b <= s@.len(),
            v@ == s@.subrange(a as int, k as int),
        decreases b - k,
    {
        v.push(s[k]);
        k += 1;
        assert(v@ =~= s@.subrange(a as int, k as int));
    }
    v
}

/// A descriptor by value: its pattern and its repeat count.
pub open spec fn rsd_view(r: Rsd) -> (Seq<u32>, u32) {
    (r.pattern@, r.repeats)
}

/// The key under which a descriptor is pooled: its pattern followed by its
/// repeat count.
pub open spec fn rsd_key(r: (Seq<u32>, u32)) -> Seq<u32> {
    r.0.push(r.1)
}

/// Two descriptors with the same key are the same descriptor.
proof fn lemma_rsd_key_injective(a: (Seq<u32>, u32), b: (Seq<u32>, u32))
    requires
        rsd_key(a) == rsd_key(b),
    ensures
        a == b,
{
    assert(a.0 =~= rsd_key(a).drop_last());
    assert(b.0 =~= rsd_key(b).drop_last());
    assert(rsd_key(a).last() == a.1);
    assert(rsd_key(b).last() == b.1);
}

/// A copy of a descriptor.
fn copy_rsd(r: &Rsd) -> (c: Rsd)
    ensures
        rsd_view(c) == rsd_view(*r),
{
    let pattern = slice_to_vec(&r.pattern, 0, r.pattern.len());
    proof {
        assert(r.pattern@.subrange(0, r.pattern@.len() as int) =~= r.pattern@);
    }
    Rsd { pattern, repeats: r.repeats }
}

/// A pool of distinct descriptors, each kept once and referred to by its
/// index.
pub struct RsdPool {
    keys: SeqDict,
    rsds: Vec<Rsd>,
}

impl View for RsdPool {
    type V = Seq<(Seq<u32>, u32)>;

    /// The pooled descriptors, by index.
    closed spec fn view(&self) -> Seq<(Seq<u32>, u32)> {
        self.rsds@.map(|_i: int, r: Rsd| rsd_view(r))
    }
}

impl RsdPool {
    /// The key dictionary lists the keys of the pooled descriptors.
    pub closed spec fn wf(&self) -> bool {
        &&& self.keys.wf()
        &&& self.keys@.len() == self.rsds@.len()
        &&& forall|k: int| 0 <= k < self.rsds@.len() ==> #[trigger] self.keys@[k] == rsd_key(rsd_view(self.rsds@[k]))
    }

    /// An empty pool.
    pub fn new() -> (p: RsdPool)
        ensures
            p.wf(),
            p@ == Seq::<(Seq<u32>, u32)>::empty(),
    {
        let p = RsdPool { keys: SeqDict::new(), rsds: Vec::new() };
        assert(p@ =~= Seq::<(Seq<u32>, u32)>::empty());
        p
    }

    /// The index of `r` in the pool, adding it at the end when it is new.
    pub fn intern(&mut self, r: &Rsd) -> (id: u32)
        requires
            old(self).wf(),
            old(self)@.len() <= u32::MAX,
        ensures
            final(self).wf(),
            old(self)@.contains(rsd_view(*r)) ==> final(self)@ == old(self)@,
            !old(self)@.contains(rsd_view(*r)) ==> final(self)@ == old(self)@.push(rsd_view(*r)),
            id < final(self)@.len(),
            final(self)@[id as int] == rsd_view(*r),
    {
        let mut key = slice_to_vec(&r.pattern, 0, r.pattern.len());
        key.push(r.repeats);
        proof {
            assert(r.pattern@.subrange(0, r.pattern@.len() as int) =~= r.pattern@);
            assert(key@ == rsd_key(rsd_view(*r)));
        }
        let ghost old_keys = self.keys@;
        let ghost old_view = self@;
        let n = self.keys.len();
        let id = self.keys.intern(&key);
        proof {
            assert forall|k: int| 0 <= k < old_view.len() implies (old_keys[k] == key@ <==> #[trigger] old_view[k] == rsd_view(*r)) by {
                assert(old_view[k] == rsd_view(self.rsds@[k]));
                if old_keys[k] == key@ {
                    lemma_rsd_key_injective(old_view[k], rsd_view(*r));
                }
            }
        }
        if id as usize == n {
            let c = copy_rsd(r);
            self.rsds.push(c);
            proof {
                assert(!old_keys.contains(key@));
                if old_view.contains(rsd_view(*r)) {
                    let k = choose|k: int| 0 <= k < old_view.len() && old_view[k] == rsd_view(*r);
                    assert(old_keys[k] == key@);
                }
                assert(self@ =~= old_view.push(rsd_view(*r)));
            }
        } else {
            proof {
                assert(old_keys.contains(key@)) by {
                    if !old_keys.contains(key@) {
                        assert(self.keys@ == old_keys.push(key@));
                    }
                }
                assert(self.keys@ == old_keys);
                assert(self@ =~= old_view);
                assert(old_view[id as int] == rsd_view(*r));
                assert(old_view.contains(rsd_view(*r)));
            }
        }
        id
    }

    /// A well-formed pool holds no descriptor twice.
    pub proof fn lemma_distinct(&self)
        requires
            self.wf(),
        ensures
            self@.no_duplicates(),
    {
        self.keys.lemma_distinct();
        assert forall|i: int, j: int| 0 <= i < self@.len() && 0 <= j < self@.len() && i != j implies self@[i]
            != self@[j] by {
            assert(self@[i] == rsd_view(self.rsds@[i]));
            assert(self@[j] == rsd_view(self.rsds@[j]));
            if self@[i] == self@[j] {
                assert(self.keys@[i] == rsd_key(self@[i]));
                assert(self.keys@[j] == rsd_key(self@[j]));
            }
        }
    }

    /// The pooled descriptors, by index.
    pub fn into_rsds(self) -> (v: Vec<Rsd>)
        ensures
            v@.map(|_i: int, r: Rsd| rsd_view(r)) == self@,
    {
        self.rsds
    }
}

/// Interns each descriptor of a stream into the pool; the stream is then
/// its list of pool indices.
pub fn pool_rsds(pool: &mut RsdPool, local: &Vec<Rsd>) -> (ids: Vec<u32>)
    requires
        old(pool).wf(),
        old(pool)@.len() + local@.len() <= u32::MAX,
    ensures
        final(pool).wf(),
        old(pool)@ == final(pool)@.take(old(pool)@.len() as int),
        old(pool)@.len() <= final(pool)@.len() <= old(pool)@.len() + local@.len(),
        ids@.len() == local@.len(),
        forall|k: int|
            0 <= k < ids@.len() ==> (#[trigger] ids@[k]) < final(pool)@.len() && final(pool)@[ids@[k] as int] == rsd_view(
                local@[k],
            ),
{
    let mut ids: Vec<u32> = Vec::new();
    let mut k: usize = 0;
    while k < local.len()
        invariant
            k <= local@.len(),
            pool.wf(),
            old(pool)@ == pool@.take(old(pool)@.len() as int),
            old(pool)@.len() <= pool@.len() <= old(pool)@.len() + k,
            old(pool)@.len() + local@.len() <= u32::MAX,
            ids@.len() == k,
            forall|t: int| 0 <= t < k ==> (#[trigger] ids@[t]) < pool@.len() && pool@[ids@[t] as int] == rsd_view(local@[t]),
        decreases local@.len() - k,
    {
        let ghost before = pool@;
        let id = pool.intern(&local[k]);
        proof {
            assert(pool@.take(before.len() as int) =~= before);
            assert(pool@.take(old(pool)@.len() as int) =~= before.take(old(pool)@.len() as int));
        }
        ids.push(id);
        k += 1;
    }
    ids
}

/// The pool entries that the ids pick, skipping ids past the pool's end.
pub open spec fn picked(pool: Seq<Rsd>, ids: Seq<u32>) -> Seq<Rsd>
    decreases ids.len(),
{
    if ids.len() == 0 {
        Seq::empty()
    } else if (ids.last() as int) < pool.len() {
        picked(pool, ids.drop_last()).push(pool[ids.last() as int])
    } else {
        picked(pool, ids.drop_last())
    }
}

/// Every id picks a pool entry.
pub open spec fn all_known(pool: Seq<Rsd>, ids: Seq<u32>) -> bool {
    forall|k: int| 0 <= k < ids.len() ==> (#[trigger] ids[k] as int) < pool.len()
}

/// Appends the expansion of one descriptor.
fn push_expansion(out: &mut Vec<u32>, r: &Rsd)
    ensures
        final(out)@ == old(out)@ + rsd_expansion(*r),
{
    let mut t: u32 = 0;
    while t < r.repeats
        invariant
            t <= r.repeats,
            out@ == old(out)@ + repeat_seq(r.pattern@, t as nat),
        decreases r.repeats - t,
    {
        let mut q: usize = 0;
        let ghost base = out@;
        while q < r.pattern.len()
            invariant
                q <= r.pattern@.len(),
                out@ == base + r.pattern@.take(q as int),
            decreases r.pattern@.len() - q,
        {
            out.push(r.pattern[q]);
            q += 1;
            assert(out@ =~= base + r.pattern@.take(q as int));
        }
        proof {
            assert(r.pattern@.take(r.pattern@.len() as int) =~= r.pattern@);
            assert(repeat_seq(r.pattern@, (t + 1) as nat) == repeat_seq(r.pattern@, t as nat) + r.pattern@);
            assert(out@ =~= old(out)@ + repeat_seq(r.pattern@, (t + 1) as nat));
        }
        t += 1;
    }
}

/// The type ids of a stream, re-expanded from its pool ids; ids past the
/// pool's end are skipped.
pub fn expand_known_rsd_ids(pool: &Vec<Rsd>, ids: &Vec<u32>) -> (seq: Vec<u32>)
    ensures
        seq@ == expand_all(picked(pool@, ids@)),
{
    let mut seq: Vec<u32> = Vec::new();
    let mut k: usize = 0;
    while k < ids.len()
        invariant
            k <= ids@.len(),
            seq@ == expand_all(picked(pool@, ids@.take(k as int))),
        decreases ids@.len() - k,
    {
        proof {
            assert(ids@.take(k + 1).drop_last() =~= ids@.take(k as int));
            assert(ids@.take(k + 1).last() == ids@[k as int]);
        }
        let rid = ids[k];
        if (rid as usize) < pool.len() {
            let ghost before = picked(pool@, ids@.take(k as int));
            push_expansion(&mut seq, &pool[rid as usize]);
            proof {
                lemma_expand_push(before, pool@[rid as int]);
            }
        }
        k += 1;
    }
    proof {
        assert(ids@.take(ids@.len() as int) =~= ids@);
    }
    seq
}

/// The message for a pool id past the pool's end.
#[verifier::external_body]
fn rsd_out_of_bounds_message(rid: u32) -> String {
    format!("scalatrace decode: rsd id {rid} out of bounds")
}

/// The type ids of a stream, re-expanded from its pool ids; an id past the
/// pool's end is an error.
pub fn expand_rsd_ids(pool: &Vec<Rsd>, ids: &Vec<u32>) -> (r: Result<Vec<u32>, Error>)
    ensures
        r is Ok <==> all_known(pool@, ids@),
        r matches Ok(seq) ==> seq@ == expand_all(picked(pool@, ids@)),
        r matches Err(e) ==> e is Other,
{
    let mut k: usize = 0;
    while k < ids.len()
        invariant
            k <= ids@.len(),
            forall|t: int| 0 <= t < k ==> (#[trigger] ids@[t] as int) < pool@.len(),
        decreases ids@.len() - k,
    {
        if ids[k] as usize >= pool.len() {
            return Err(Error::Other(rsd_out_of_bounds_message(ids[k])));
        }
        k += 1;
    }
    Ok(expand_known_rsd_ids(pool, ids))
}

/// The pool entries picked by ids that each pick the descriptor of the
/// stream at their position expand like the stream's own descriptors.
proof fn lemma_picked_expands(pool: Seq<Rsd>, ids: Seq<u32>, local: Seq<Rsd>)
    requires
        ids.len() == local.len(),
        forall|k: int| 0 <= k < ids.len() ==> (#[trigger] ids[k] as int) < pool.len() && rsd_view(pool[ids[k] as int]) == rsd_view(local[k]),
    ensures
        expand_all(picked(pool, ids)) == expand_all(local),
    decreases ids.len(),
{
    if ids.len() > 0 {
        let n = ids.len() - 1;
        assert forall|k: int| 0 <= k < ids.drop_last().len() implies (#[trigger] ids.drop_last()[k] as int) < pool.len()
            && rsd_view(pool[ids.drop_last()[k] as int]) == rsd_view(local.drop_last()[k]) by {
            assert(ids.drop_last()[k] == ids[k]);
            assert(rsd_view(pool[ids[k] as int]) == rsd_view(local[k]));
        }
        lemma_picked_expands(pool, ids.drop_last(), local.drop_last());
        assert(ids.last() == ids[n]);
        assert(rsd_view(pool[ids[n] as int]) == rsd_view(local[n]));
        assert(rsd_expansion(pool[ids.last() as int]) == rsd_expansion(local.last()));
        lemma_expand_push(picked(pool, ids.drop_last()), pool[ids.last() as int]);
    }
}

/// Ids that are all known pick one pool entry each, in order.
proof fn lemma_picked_index(pool: Seq<Rsd>, ids: Seq<u32>)
    requires
        all_known(pool, ids),
    ensures
        picked(pool, ids).len() == ids.len(),
        forall|k: int| 0 <= k < ids.len() ==> #[trigger] picked(pool, ids)[k] == pool[ids[k] as int],
        forall|k: int| 0 <= k <= ids.len() ==> #[trigger] picked(pool, ids).take(k) == picked(pool, ids.take(k)),
    decreases ids.len(),
{
    if ids.len() > 0 {
        let d = ids.drop_last();
        assert forall|k: int| 0 <= k < d.len() implies (#[trigger] d[k] as int) < pool.len() by {
            assert(d[k] == ids[k]);
        }
        lemma_picked_index(pool, d);
        let n = ids.len() - 1;
        assert(ids.last() == ids[n]);
        assert forall|k: int| 0 <= k < ids.len() implies #[trigger] picked(pool, ids)[k] == pool[ids[k] as int] by {
            if k < n {
                assert(d[k] == ids[k]);
            }
        }
        assert forall|k: int| 0 <= k <= ids.len() implies #[trigger] picked(pool, ids).take(k) == picked(pool, ids.take(k)) by {
            if k == ids.len() {
                assert(ids.take(k) =~= ids);
                assert(picked(pool, ids).take(k) =~= picked(pool, ids));
            } else {
                assert(ids.take(k) =~= d.take(k));
                assert(picked(pool, ids).take(k) =~= picked(pool, d).take(k));
            }
        }
    }
}

/// A stream's type ids, encoded greedily, pooled, and expanded again from
/// its pool ids, come back unchanged; and the pool entries the ids pick
/// are themselves the greedy encoding of the stream.
pub proof fn lemma_pooled_encoding_round_trip(s: Seq<u32>, local: Seq<Rsd>, pool: Seq<Rsd>, ids: Seq<u32>)
    requires
        greedy_encoding(s, local),
        ids.len() == local.len(),
        forall|k: int| 0 <= k < ids.len() ==> (#[trigger] ids[k] as int) < pool.len() && rsd_view(pool[ids[k] as int]) == rsd_view(local[k]),
    ensures
        all_known(pool, ids),
        expand_all(picked(pool, ids)) == s,
        greedy_encoding(s, picked(pool, ids)),
{
    lemma_picked_expands(pool, ids, local);
    lemma_picked_index(pool, ids);
    let pk = picked(pool, ids);
    assert forall|k: int| 0 <= k < pk.len() implies best_run(
        s,
        expand_all(pk.take(k)).len() as int,
        (#[trigger] pk[k]).pattern@.len() as int,
        pk[k].repeats as int,
    ) by {
        let it = ids.take(k);
        let lt = local.take(k);
        assert forall|q: int| 0 <= q < it.len() implies (#[trigger] it[q] as int) < pool.len() && rsd_view(pool[it[q] as int])
            == rsd_view(lt[q]) by {
            assert(it[q] == ids[q]);
            assert(lt[q] == local[q]);
        }
        lemma_picked_expands(pool, it, lt);
        assert(pk.take(k) == picked(pool, it));
        assert(pk[k] == pool[ids[k] as int]);
        assert(rsd_view(pool[ids[k] as int]) == rsd_view(local[k]));
        assert(best_run(s, expand_all(local.take(k)).len() as int, local[k].pattern@.len() as int, local[k].repeats as int));
    }
}

} // verus!
