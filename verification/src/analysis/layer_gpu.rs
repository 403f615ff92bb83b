//! Layer-aware GPU attribution: the interval arithmetic and layer helpers
//! of the layer analyses.

use vstd::prelude::*;
use vstd::string::StringSliceAdditionalSpecFns;

use vstd::relations::sorted_by;

use crate::analysis::compute_comm_overlap::{fits_i64, max_int, min_int};
use crate::analysis::kernel_class::{contains_chars, contains_seq, is_nccl_kernel, spec_is_nccl_kernel};
use crate::event::{arg_value, find_arg, ArgValue, Template};
use crate::text::chars_of;
use crate::analysis::layer_slot::{zero_slot, zero_slot_index};
use crate::pattern::{regex_find, regex_find_result};
use crate::sort::{lemma_pair_order_total, pair_order, sort_pairs, sorted_pairs};

verus! {

/// Top kernels per model layer.
#[derive(Clone, Copy, Debug, Default)]
pub struct LayerKernelHotspot {
    pub top_k: usize,
}

impl LayerKernelHotspot {
    /// How many kernels the hotspot lists: `top_k`, and at least 20.
    pub fn row_limit(&self) -> (n: usize)
        ensures
            n == if self.top_k >= 20 {
                self.top_k
            } else {
                20
            },
    {
        if self.top_k >= 20 {
            self.top_k
        } else {
            20
        }
    }
}

/// Compute/communication overlap per rank and layer.
#[derive(Clone, Copy, Debug, Default)]
pub struct LayerComputeCommOverlap;

/// Per-layer balance across ranks.
#[derive(Clone, Copy, Debug, Default)]
pub struct LayerRankBalance;

/// In a digit-collapsed name pattern, the index (among all `0`
/// placeholders) of the `0` of the first layer slot: `layers.0`,
/// `layer_0`, `ResBlock0`, `…Layer0`, `…Block-0` and the like, delimited by
/// non-alphanumerics.
pub fn layer_zero_index(pattern: &str) -> (r: Option<usize>)
    ensures
        r == zero_slot(
            regex_find_result(
                r"(?:^|[^A-Za-z0-9])layers?[._/-]0(?:[^0-9]|$)|(?:^|[^A-Za-z0-9])(?:[A-Za-z]*Layer|[A-Za-z]*Block|ResBlock|ViTLayer)[_-]?0(?:[^0-9]|$)"@,
                pattern@,
            ),
            pattern.spec_bytes(),
        ),
{
    let m = regex_find(
        r"(?:^|[^A-Za-z0-9])layers?[._/-]0(?:[^0-9]|$)|(?:^|[^A-Za-z0-9])(?:[A-Za-z]*Layer|[A-Za-z]*Block|ResBlock|ViTLayer)[_-]?0(?:[^0-9]|$)",
        pattern,
    );
    zero_slot_index(pattern, m)
}

/// The larger of two `i64`s.
pub open spec fn max_i64(a: i64, b: i64) -> i64 {
    if a >= b {
        a
    } else {
        b
    }
}

/// One step of the sweep that merges intervals taken in sorted order: an
/// interval that starts inside (or at the end of) the last merged interval
/// extends it; any other opens a new merged interval.
pub open spec fn merge_step(acc: Seq<(i64, i64)>, iv: (i64, i64)) -> Seq<(i64, i64)> {
    if acc.len() > 0 && iv.0 <= acc.last().1 {
        acc.drop_last().push((acc.last().0, max_i64(acc.last().1, iv.1)))
    } else {
        acc.push(iv)
    }
}

/// The merged intervals of `s`, swept in the order given.
pub open spec fn merge_sorted(s: Seq<(i64, i64)>) -> Seq<(i64, i64)>
    decreases s.len(),
{
    if s.len() == 0 {
        Seq::empty()
    } else {
        merge_step(merge_sorted(s.drop_last()), s.last())
    }
}

/// The merged form of a list of intervals: sorted, then swept.
pub open spec fn merged(v: Seq<(i64, i64)>) -> Seq<(i64, i64)> {
    merge_sorted(sorted_pairs(v))
}

/// The length `end - start` of an interval.
pub open spec fn span_len(iv: (i64, i64)) -> int {
    iv.1 - iv.0
}

/// The summed lengths of a list of intervals.
pub open spec fn total_len(s: Seq<(i64, i64)>) -> int
    decreases s.len(),
{
    if s.len() == 0 {
        0
    } else {
        total_len(s.drop_last()) + span_len(s.last())
    }
}

/// Every length and every running sum of lengths fits in an `i64`.
pub open spec fn total_len_fits(s: Seq<(i64, i64)>) -> bool {
    forall|k: int|
        0 <= k < s.len() ==> fits_i64(span_len(#[trigger] s[k])) && fits_i64(total_len(s.take(k + 1)))
}

/// The length of the intersection of two intervals (0 when they are
/// disjoint).
pub open spec fn inter_len(a: (i64, i64), b: (i64, i64)) -> int {
    let st = max_int(a.0 as int, b.0 as int);
    let en = min_int(a.1 as int, b.1 as int);
    if en > st {
        en - st
    } else {
        0
    }
}

/// The two-pointer sweep over merged interval lists: the pair at the heads
/// contributes its intersection, then the list whose head ends first (the
/// second list on a tie) advances.
pub open spec fn sweep_overlap(a: Seq<(i64, i64)>, b: Seq<(i64, i64)>) -> int
    decreases a.len() + b.len(),
{
    if a.len() == 0 || b.len() == 0 {
        0
    } else if a[0].1 < b[0].1 {
        inter_len(a[0], b[0]) + sweep_overlap(a.drop_first(), b)
    } else {
        inter_len(a[0], b[0]) + sweep_overlap(a, b.drop_first())
    }
}

/// Every intersection and every running sum of the sweep, starting from
/// `acc`, fits in an `i64`.
pub open spec fn sweep_fits(a: Seq<(i64, i64)>, b: Seq<(i64, i64)>, acc: int) -> bool
    decreases a.len() + b.len(),
{
    if a.len() == 0 || b.len() == 0 {
        true
    } else {
        let here = inter_len(a[0], b[0]);
        &&& fits_i64(here)
        &&& fits_i64(acc + here)
        &&& if a[0].1 < b[0].1 {
            sweep_fits(a.drop_first(), b, acc + here)
        } else {
            sweep_fits(a, b.drop_first(), acc + here)
        }
    }
}

/// Intervals that are well formed (`start <= end`), sorted and pairwise
/// separated: each ends strictly before the next one starts.
pub open spec fn separated(s: Seq<(i64, i64)>) -> bool {
    &&& forall|k: int| 0 <= k < s.len() ==> (#[trigger] s[k]).0 <= s[k].1
    &&& forall|j: int, k: int| 0 <= j < k < s.len() ==> (#[trigger] s[j]).1 < (#[trigger] s[k]).0
}

/// Every interval has `start <= end`.
pub open spec fn well_formed(s: Seq<(i64, i64)>) -> bool {
    forall|k: int| 0 <= k < s.len() ==> (#[trigger] s[k]).0 <= s[k].1
}

/// The summed intersection of `x` with each interval of `bs`.
pub open spec fn row_overlap(x: (i64, i64), bs: Seq<(i64, i64)>) -> int
    decreases bs.len(),
{
    if bs.len() == 0 {
        0
    } else {
        inter_len(x, bs[0]) + row_overlap(x, bs.drop_first())
    }
}

/// The summed intersection over all pairs of one interval of `a_s` and one
/// of `bs`.
pub open spec fn pairwise_overlap(a_s: Seq<(i64, i64)>, bs: Seq<(i64, i64)>) -> int
    decreases a_s.len(),
{
    if a_s.len() == 0 {
        0
    } else {
        row_overlap(a_s[0], bs) + pairwise_overlap(a_s.drop_first(), bs)
    }
}

/// The intervals merged: sorted, and every run of overlapping or touching
/// intervals joined into one.
pub fn merge_intervals(intervals: Vec<(i64, i64)>) -> (r: Vec<(i64, i64)>)
    ensures
        r@ == merged(intervals@),
{
    let sorted = sort_pairs(intervals);
    let mut out: Vec<(i64, i64)> = Vec::new();
    if sorted.len() == 0 {
        proof {
            assert(sorted@ =~= Seq::<(i64, i64)>::empty());
        }
        return out;
    }
    let (mut cur_s, mut cur_e) = sorted[0];
    proof {
        assert(sorted@.take(1).drop_last() =~= Seq::<(i64, i64)>::empty());
        assert(merge_sorted(sorted@.take(1).drop_last()) =~= Seq::<(i64, i64)>::empty());
        assert(sorted@.take(1).last() == (cur_s, cur_e));
        assert(out@.push((cur_s, cur_e)) =~= merge_sorted(sorted@.take(1)));
    }
    let mut k: usize = 1;
    while k < sorted.len()
        invariant
            1 <= k <= sorted.len(),
            out@.push((cur_s, cur_e)) == merge_sorted(sorted@.take(k as int)),
        decreases sorted.len() - k,
    {
        let (s, e) = sorted[k];
        let ghost acc = out@.push((cur_s, cur_e));
        proof {
            assert(sorted@.take(k + 1).drop_last() =~= sorted@.take(k as int));
            assert(sorted@.take(k + 1).last() == (s, e));
        }
        if s <= cur_e {
            if e > cur_e {
                cur_e = e;
            }
            proof {
                assert(acc.drop_last() =~= out@);
                assert(out@.push((cur_s, cur_e)) =~= merge_step(acc, (s, e)));
            }
        } else {
            out.push((cur_s, cur_e));
            cur_s = s;
            cur_e = e;
            proof {
                assert(out@.push((cur_s, cur_e)) =~= merge_step(acc, (s, e)));
            }
        }
        k += 1;
    }
    proof {
        assert(sorted@.take(sorted.len() as int) =~= sorted@);
    }
    out.push((cur_s, cur_e));
    out
}

/// The union of a list of intervals does not depend on their order: two
/// lists holding the same intervals (as a multiset) have the same merged
/// form, hence the same union length; the empty list has length 0.
pub proof fn lemma_union_len_permutation(a: Seq<(i64, i64)>, b: Seq<(i64, i64)>)
    requires
        a.to_multiset() == b.to_multiset(),
    ensures
        merged(a) == merged(b),
        total_len(merged(a)) == total_len(merged(b)),
        total_len(merged(Seq::<(i64, i64)>::empty())) == 0,
{
    lemma_pair_order_total();
    a.lemma_sort_by_ensures(pair_order());
    b.lemma_sort_by_ensures(pair_order());
    vstd::seq_lib::lemma_sorted_unique(a.sort_by(pair_order()), b.sort_by(pair_order()), pair_order());
    let e = Seq::<(i64, i64)>::empty();
    e.lemma_sort_by_ensures(pair_order());
    vstd::seq_lib::to_multiset_len(e.sort_by(pair_order()));
    vstd::seq_lib::to_multiset_len(e);
    assert(e.sort_by(pair_order()).len() == 0);
    assert(e.sort_by(pair_order()) =~= e);
}

/// The length covered by the union of the intervals.
pub fn union_len(intervals: Vec<(i64, i64)>) -> (total: i64)
    requires
        total_len_fits(merged(intervals@)),
    ensures
        total == total_len(merged(intervals@)),
{
    let m = merge_intervals(intervals);
    let mut total: i64 = 0;
    let mut k: usize = 0;
    while k < m.len()
        invariant
            k <= m.len(),
            total == total_len(m@.take(k as int)),
            total_len_fits(m@),
        decreases m.len() - k,
    {
        proof {
            assert(m@.take(k + 1).drop_last() =~= m@.take(k as int));
            assert(m@.take(k + 1).last() == m@[k as int]);
            assert(fits_i64(span_len(m@[k as int])) && fits_i64(total_len(m@.take(k + 1))));
        }
        total = total + (m[k].1 - m[k].0);
        k += 1;
    }
    proof {
        assert(m@.take(m.len() as int) =~= m@);
    }
    total
}

/// The length during which the merged compute intervals and the merged
/// communication intervals overlap, by a two-pointer sweep.
pub fn overlap_len(compute: Vec<(i64, i64)>, comm: Vec<(i64, i64)>) -> (overlap: i64)
    requires
        sweep_fits(merged(compute@), merged(comm@), 0),
    ensures
        overlap == sweep_overlap(merged(compute@), merged(comm@)),
{
    let a = merge_intervals(compute);
    let b = merge_intervals(comm);
    let mut i: usize = 0;
    let mut j: usize = 0;
    let mut overlap: i64 = 0;
    proof {
        assert(a@.skip(0) =~= a@);
        assert(b@.skip(0) =~= b@);
    }
    while i < a.len() && j < b.len()
        invariant
            i <= a.len(),
            j <= b.len(),
            overlap + sweep_overlap(a@.skip(i as int), b@.skip(j as int)) == sweep_overlap(a@, b@),
            sweep_fits(a@.skip(i as int), b@.skip(j as int), overlap as int),
        decreases a.len() + b.len() - i - j,
    {
        let ghost sa = a@.skip(i as int);
        let ghost sb = b@.skip(j as int);
        proof {
            assert(sa[0] == a@[i as int]);
            assert(sb[0] == b@[j as int]);
            assert(sa.drop_first() =~= a@.skip(i + 1));
            assert(sb.drop_first() =~= b@.skip(j + 1));
        }
        let start = if a[i].0 >= b[j].0 { a[i].0 } else { b[j].0 };
        let end = if a[i].1 <= b[j].1 { a[i].1 } else { b[j].1 };
        if end > start {
            overlap = overlap + (end - start);
        }
        if a[i].1 < b[j].1 {
            i += 1;
        } else {
            j += 1;
        }
    }
    overlap
}

/// The length covered by the union of the intervals, or `None` when a
/// length or a running sum of lengths of the merged intervals leaves `i64`.
pub fn checked_union_len(intervals: Vec<(i64, i64)>) -> (r: Option<i64>)
    ensures
        r is Some <==> total_len_fits(merged(intervals@)),
        r matches Some(t) ==> t == total_len(merged(intervals@)),
{
    let m = merge_intervals(intervals);
    let mut total: i64 = 0;
    let mut k: usize = 0;
    while k < m.len()
        invariant
            m@ == merged(intervals@),
            k <= m.len(),
            total == total_len(m@.take(k as int)),
            forall|q: int|
                0 <= q < k ==> fits_i64(span_len(#[trigger] m@[q])) && fits_i64(total_len(m@.take(q + 1))),
        decreases m.len() - k,
    {
        proof {
            assert(m@.take(k + 1).drop_last() =~= m@.take(k as int));
            assert(m@.take(k + 1).last() == m@[k as int]);
        }
        let span = match m[k].1.checked_sub(m[k].0) {
            Some(d) => d,
            None => {
                proof {
                    assert(!fits_i64(span_len(m@[k as int])));
                    assert(!total_len_fits(m@));
                }
                return None;
            },
        };
        proof {
            assert(total_len(m@.take(k + 1)) == total + span);
        }
        total = match total.checked_add(span) {
            Some(t) => t,
            None => {
                proof {
                    assert(!fits_i64(total_len(m@.take(k + 1))));
                    assert(!(fits_i64(span_len(m@[k as int])) && fits_i64(total_len(m@.take(k + 1)))));
                    assert(!total_len_fits(m@));
                }
                return None;
            },
        };
        k += 1;
    }
    proof {
        assert(m@.take(m.len() as int) =~= m@);
    }
    Some(total)
}

/// The overlap of the merged compute and communication intervals, or
/// `None` when an intersection or a running sum of the sweep leaves `i64`.
pub fn checked_overlap_len(compute: Vec<(i64, i64)>, comm: Vec<(i64, i64)>) -> (r: Option<i64>)
    ensures
        r is Some <==> sweep_fits(merged(compute@), merged(comm@), 0),
        r matches Some(v) ==> v == sweep_overlap(merged(compute@), merged(comm@)),
{
    let a = merge_intervals(compute);
    let b = merge_intervals(comm);
    let mut i: usize = 0;
    let mut j: usize = 0;
    let mut overlap: i64 = 0;
    proof {
        assert(a@.skip(0) =~= a@);
        assert(b@.skip(0) =~= b@);
    }
    while i < a.len() && j < b.len()
        invariant
            a@ == merged(compute@),
            b@ == merged(comm@),
            i <= a.len(),
            j <= b.len(),
            overlap + sweep_overlap(a@.skip(i as int), b@.skip(j as int)) == sweep_overlap(a@, b@),
            sweep_fits(a@, b@, 0) <==> sweep_fits(a@.skip(i as int), b@.skip(j as int), overlap as int),
        decreases a.len() + b.len() - i - j,
    {
        let ghost sa = a@.skip(i as int);
        let ghost sb = b@.skip(j as int);
        proof {
            assert(sa[0] == a@[i as int]);
            assert(sb[0] == b@[j as int]);
            assert(sa.drop_first() =~= a@.skip(i + 1));
            assert(sb.drop_first() =~= b@.skip(j + 1));
        }
        let start = if a[i].0 >= b[j].0 { a[i].0 } else { b[j].0 };
        let end = if a[i].1 <= b[j].1 { a[i].1 } else { b[j].1 };
        proof {
            assert(sa.len() > 0 && sb.len() > 0);
        }
        if end > start {
            proof {
                assert(inter_len(sa[0], sb[0]) == end - start);
            }
            let here = match end.checked_sub(start) {
                Some(d) => d,
                None => {
                    proof {
                        assert(!sweep_fits(sa, sb, overlap as int));
                        assert(!sweep_fits(a@, b@, 0));
                    }
                    return None;
                },
            };
            overlap = match overlap.checked_add(here) {
                Some(t) => t,
                None => {
                    proof {
                        assert(!sweep_fits(sa, sb, overlap as int));
                        assert(!sweep_fits(a@, b@, 0));
                    }
                    return None;
                },
            };
        }
        if a[i].1 < b[j].1 {
            i += 1;
        } else {
            j += 1;
        }
    }
    Some(overlap)
}

/// Two entries of a sorted list, in order.
proof fn lemma_sorted_pair(s: Seq<(i64, i64)>, i: int, j: int)
    requires
        sorted_by(s, pair_order()),
        0 <= i < j < s.len(),
    ensures
        s[i].0 <= s[j].0,
{
    assert(pair_order()(s[i], s[j]));
}

/// Sweeping intervals that are sorted and well formed leaves them
/// separated, each merged interval starting no later than the last input.
proof fn lemma_merge_sorted_separated(s: Seq<(i64, i64)>)
    requires
        sorted_by(s, pair_order()),
        well_formed(s),
    ensures
        separated(merge_sorted(s)),
        s.len() > 0 ==> merge_sorted(s).len() > 0,
        s.len() > 0 ==> forall|k: int|
            0 <= k < merge_sorted(s).len() ==> (#[trigger] merge_sorted(s)[k]).0 <= s.last().0,
    decreases s.len(),
{
    if s.len() > 0 {
        let p = s.drop_last();
        assert forall|i: int, j: int| 0 <= i < j < p.len() implies #[trigger] pair_order()(p[i], p[j]) by {
            assert(pair_order()(s[i], s[j]));
        }
        assert forall|k: int| 0 <= k < p.len() implies (#[trigger] p[k]).0 <= p[k].1 by {
            assert(s[k].0 <= s[k].1);
        }
        lemma_merge_sorted_separated(p);
        let m = merge_sorted(p);
        let iv = s.last();
        assert(iv.0 <= iv.1);
        if p.len() > 0 {
            lemma_sorted_pair(s, s.len() - 2, s.len() - 1);
        }
        let r = merge_sorted(s);
        assert(r == merge_step(m, iv));
        if m.len() > 0 && iv.0 <= m.last().1 {
            let l = m.last();
            assert(r =~= m.drop_last().push((l.0, max_i64(l.1, iv.1))));
            assert forall|j: int, k: int| 0 <= j < k < r.len() implies (#[trigger] r[j]).1 < (#[trigger] r[k]).0 by {
                if k < r.len() - 1 {
                    assert(m[j].1 < m[k].0);
                } else {
                    assert(m[j].1 < m[m.len() - 1].0);
                }
            }
            assert forall|k: int| 0 <= k < r.len() implies (#[trigger] r[k]).0 <= r[k].1 by {
                assert(m[k].0 <= m[k].1);
            }
            assert forall|k: int| 0 <= k < r.len() implies (#[trigger] r[k]).0 <= s.last().0 by {
                assert(m[k].0 <= p.last().0);
            }
        } else {
            assert(r =~= m.push(iv));
            assert forall|j: int, k: int| 0 <= j < k < r.len() implies (#[trigger] r[j]).1 < (#[trigger] r[k]).0 by {
                if k == r.len() - 1 {
                    let lst = m.len() - 1;
                    if j < lst {
                        assert(m[j].1 < m[lst].0);
                        assert(m[lst].0 <= m[lst].1);
                    }
                } else {
                    assert(m[j].1 < m[k].0);
                }
            }
            assert forall|k: int| 0 <= k < r.len() implies (#[trigger] r[k]).0 <= r[k].1 by {
                if k < m.len() {
                    assert(m[k].0 <= m[k].1);
                }
            }
            assert forall|k: int| 0 <= k < r.len() implies (#[trigger] r[k]).0 <= s.last().0 by {
                if k < m.len() {
                    assert(m[k].0 <= p.last().0);
                }
            }
        }
    }
}

/// The merged form of well-formed intervals is separated.
pub proof fn lemma_merged_separated(v: Seq<(i64, i64)>)
    requires
        well_formed(v),
    ensures
        separated(merged(v)),
{
    lemma_pair_order_total();
    v.lemma_sort_by_ensures(pair_order());
    let s = sorted_pairs(v);
    assert forall|k: int| 0 <= k < s.len() implies (#[trigger] s[k]).0 <= s[k].1 by {
        assert(s.contains(s[k]));
        assert(v.contains(s[k]));
        let i = choose|i: int| 0 <= i < v.len() && v[i] == s[k];
        assert(v[i].0 <= v[i].1);
    }
    lemma_merge_sorted_separated(s);
}

/// The point `x` lies in one of the intervals `[start, end)`.
pub open spec fn covers(s: Seq<(i64, i64)>, x: int) -> bool {
    exists|k: int| 0 <= k < s.len() && (#[trigger] s[k]).0 <= x && x < s[k].1
}

/// A pushed interval adds exactly its own points.
proof fn lemma_covers_push(s: Seq<(i64, i64)>, y: (i64, i64), x: int)
    ensures
        covers(s.push(y), x) == (covers(s, x) || (y.0 <= x && x < y.1)),
{
    let t = s.push(y);
    if covers(s, x) {
        let k = choose|k: int| 0 <= k < s.len() && (#[trigger] s[k]).0 <= x && x < s[k].1;
        assert(t[k] == s[k]);
    }
    if y.0 <= x && x < y.1 {
        assert(t[s.len() as int] == y);
    }
    if covers(t, x) {
        let k = choose|k: int| 0 <= k < t.len() && (#[trigger] t[k]).0 <= x && x < t[k].1;
        if k < s.len() {
            assert(s[k] == t[k]);
        }
    }
}

/// Sweeping sorted, well-formed intervals keeps exactly their points.
proof fn lemma_merge_sorted_covers(s: Seq<(i64, i64)>, x: int)
    requires
        sorted_by(s, pair_order()),
        well_formed(s),
    ensures
        covers(merge_sorted(s), x) == covers(s, x),
    decreases s.len(),
{
    if s.len() == 0 {
    } else {
        let p = s.drop_last();
        let iv = s.last();
        assert forall|i: int, j: int| 0 <= i < j < p.len() implies #[trigger] pair_order()(p[i], p[j]) by {
            assert(pair_order()(s[i], s[j]));
        }
        assert forall|k: int| 0 <= k < p.len() implies (#[trigger] p[k]).0 <= p[k].1 by {
            assert(s[k].0 <= s[k].1);
        }
        lemma_merge_sorted_covers(p, x);
        lemma_merge_sorted_separated(p);
        assert(s =~= p.push(iv));
        lemma_covers_push(p, iv, x);
        let m = merge_sorted(p);
        assert(iv.0 <= iv.1) by {
            assert(s[s.len() - 1].0 <= s[s.len() - 1].1);
        }
        if m.len() > 0 && iv.0 <= m.last().1 {
            let l = m.last();
            let l2 = (l.0, max_i64(l.1, iv.1));
            assert(l.0 <= iv.0) by {
                assert(m[m.len() - 1].0 <= p.last().0);
                lemma_sorted_pair(s, s.len() - 2, s.len() - 1);
            }
            assert(m =~= m.drop_last().push(l));
            lemma_covers_push(m.drop_last(), l, x);
            lemma_covers_push(m.drop_last(), l2, x);
        } else {
            lemma_covers_push(m, iv, x);
        }
    }
}

/// Merging keeps exactly the points of the union: for well-formed
/// intervals, the merged list is separated, and a point lies in one of its
/// intervals iff it lies in one of the intervals given.
pub proof fn lemma_merged_is_union(v: Seq<(i64, i64)>)
    requires
        well_formed(v),
    ensures
        separated(merged(v)),
        forall|x: int| #[trigger] covers(merged(v), x) == covers(v, x),
{
    lemma_merged_separated(v);
    lemma_pair_order_total();
    v.lemma_sort_by_ensures(pair_order());
    let s = sorted_pairs(v);
    assert forall|k: int| 0 <= k < s.len() implies (#[trigger] s[k]).0 <= s[k].1 by {
        assert(s.contains(s[k]));
        assert(v.contains(s[k]));
        let i = choose|i: int| 0 <= i < v.len() && v[i] == s[k];
        assert(v[i].0 <= v[i].1);
    }
    assert forall|x: int| #[trigger] covers(merged(v), x) == covers(v, x) by {
        lemma_merge_sorted_covers(s, x);
        if covers(s, x) {
            let k = choose|k: int| 0 <= k < s.len() && (#[trigger] s[k]).0 <= x && x < s[k].1;
            assert(s.contains(s[k]));
            assert(v.contains(s[k]));
            let i = choose|i: int| 0 <= i < v.len() && v[i] == s[k];
            assert(v[i].0 <= x && x < v[i].1);
        }
        if covers(v, x) {
            let k = choose|k: int| 0 <= k < v.len() && (#[trigger] v[k]).0 <= x && x < v[k].1;
            assert(v.contains(v[k]));
            assert(s.contains(v[k])) by {
                v.to_multiset_ensures();
                s.to_multiset_ensures();
                assert(v.to_multiset().count(v[k]) > 0);
            }
            let i = choose|i: int| 0 <= i < s.len() && s[i] == v[k];
            assert(s[i].0 <= x && x < s[i].1);
        }
    }
}

/// The summed intersection of each interval of `a_s` with `x`.
pub open spec fn col_overlap(a_s: Seq<(i64, i64)>, x: (i64, i64)) -> int
    decreases a_s.len(),
{
    if a_s.len() == 0 {
        0
    } else {
        inter_len(a_s[0], x) + col_overlap(a_s.drop_first(), x)
    }
}

proof fn lemma_row_zero(x: (i64, i64), bs: Seq<(i64, i64)>)
    requires
        forall|k: int| 0 <= k < bs.len() ==> (#[trigger] bs[k]).0 >= x.1,
    ensures
        row_overlap(x, bs) == 0,
    decreases bs.len(),
{
    if bs.len() > 0 {
        assert(bs[0].0 >= x.1);
        assert forall|k: int| 0 <= k < bs.drop_first().len() implies (#[trigger] bs.drop_first()[k]).0 >= x.1 by {
            assert(bs[k + 1].0 >= x.1);
        }
        lemma_row_zero(x, bs.drop_first());
    }
}

proof fn lemma_col_zero(a_s: Seq<(i64, i64)>, x: (i64, i64))
    requires
        forall|k: int| 0 <= k < a_s.len() ==> (#[trigger] a_s[k]).0 >= x.1,
    ensures
        col_overlap(a_s, x) == 0,
    decreases a_s.len(),
{
    if a_s.len() > 0 {
        assert(a_s[0].0 >= x.1);
        assert forall|k: int| 0 <= k < a_s.drop_first().len() implies (#[trigger] a_s.drop_first()[k]).0 >= x.1 by {
            assert(a_s[k + 1].0 >= x.1);
        }
        lemma_col_zero(a_s.drop_first(), x);
    }
}

proof fn lemma_pairwise_empty(a_s: Seq<(i64, i64)>, bs: Seq<(i64, i64)>)
    requires
        bs.len() == 0,
    ensures
        pairwise_overlap(a_s, bs) == 0,
    decreases a_s.len(),
{
    if a_s.len() > 0 {
        lemma_pairwise_empty(a_s.drop_first(), bs);
    }
}

proof fn lemma_pairwise_split(a_s: Seq<(i64, i64)>, bs: Seq<(i64, i64)>)
    requires
        bs.len() > 0,
    ensures
        pairwise_overlap(a_s, bs) == col_overlap(a_s, bs[0]) + pairwise_overlap(a_s, bs.drop_first()),
    decreases a_s.len(),
{
    if a_s.len() > 0 {
        lemma_pairwise_split(a_s.drop_first(), bs);
    }
}

proof fn lemma_separated_tail(s: Seq<(i64, i64)>)
    requires
        separated(s),
        s.len() > 0,
    ensures
        separated(s.drop_first()),
        forall|k: int| 0 <= k < s.drop_first().len() ==> (#[trigger] s.drop_first()[k]).0 > s[0].1,
{
    let t = s.drop_first();
    assert forall|k: int| 0 <= k < t.len() implies (#[trigger] t[k]).0 <= t[k].1 by {
        assert(s[k + 1].0 <= s[k + 1].1);
    }
    assert forall|j: int, k: int| 0 <= j < k < t.len() implies (#[trigger] t[j]).1 < (#[trigger] t[k]).0 by {
        assert(s[j + 1].1 < s[k + 1].0);
    }
    assert forall|k: int| 0 <= k < t.len() implies (#[trigger] t[k]).0 > s[0].1 by {
        assert(s[0].1 < s[k + 1].0);
    }
}

/// On separated interval lists the two-pointer sweep adds up exactly the
/// intersections of every pair of intervals.
pub proof fn lemma_sweep_is_pairwise(a: Seq<(i64, i64)>, b: Seq<(i64, i64)>)
    requires
        separated(a),
        separated(b),
    ensures
        sweep_overlap(a, b) == pairwise_overlap(a, b),
    decreases a.len() + b.len(),
{
    if a.len() == 0 {
    } else if b.len() == 0 {
        lemma_pairwise_empty(a, b);
    } else if a[0].1 < b[0].1 {
        lemma_separated_tail(a);
        lemma_separated_tail(b);
        lemma_sweep_is_pairwise(a.drop_first(), b);
        lemma_row_zero(a[0], b.drop_first());
    } else {
        lemma_separated_tail(a);
        lemma_separated_tail(b);
        lemma_sweep_is_pairwise(a, b.drop_first());
        lemma_pairwise_split(a, b);
        lemma_col_zero(a.drop_first(), b[0]);
    }
}

/// For well-formed intervals, the overlap that `overlap_len` measures is
/// the summed intersection of every merged compute interval with every
/// merged communication interval, and both merged lists are separated.
pub proof fn lemma_overlap_is_pairwise(compute: Seq<(i64, i64)>, comm: Seq<(i64, i64)>)
    requires
        well_formed(compute),
        well_formed(comm),
    ensures
        separated(merged(compute)),
        separated(merged(comm)),
        sweep_overlap(merged(compute), merged(comm)) == pairwise_overlap(merged(compute), merged(comm)),
{
    lemma_merged_separated(compute);
    lemma_merged_separated(comm);
    lemma_sweep_is_pairwise(merged(compute), merged(comm));
}

/// The part of `x` from the start of the first of `bs` on (0 when `bs` is
/// empty).
pub open spec fn head_bound(x: (i64, i64), bs: Seq<(i64, i64)>) -> int {
    if bs.len() == 0 {
        0
    } else {
        max_int(0, x.1 - max_int(x.0 as int, bs[0].0 as int))
    }
}

/// The summed intersection of an interval with separated intervals is at
/// most the part of it from the first one's start on.
proof fn lemma_row_bounded(x: (i64, i64), bs: Seq<(i64, i64)>)
    requires
        separated(bs),
        x.0 <= x.1,
    ensures
        0 <= row_overlap(x, bs) <= head_bound(x, bs),
    decreases bs.len(),
{
    if bs.len() > 0 {
        lemma_separated_tail(bs);
        lemma_row_bounded(x, bs.drop_first());
        if bs.len() > 1 {
            assert(bs.drop_first()[0] == bs[1]);
            assert(bs[0].1 < bs[1].0);
        }
    }
}

/// The summed intersection of separated intervals with one interval is at
/// most the part of it from the first one's start on.
proof fn lemma_col_bounded(a_s: Seq<(i64, i64)>, x: (i64, i64))
    requires
        separated(a_s),
        x.0 <= x.1,
    ensures
        0 <= col_overlap(a_s, x) <= head_bound(x, a_s),
    decreases a_s.len(),
{
    if a_s.len() > 0 {
        lemma_separated_tail(a_s);
        lemma_col_bounded(a_s.drop_first(), x);
        if a_s.len() > 1 {
            assert(a_s.drop_first()[0] == a_s[1]);
            assert(a_s[0].1 < a_s[1].0);
        }
    }
}

/// The summed length of intervals, taken from the front.
proof fn lemma_total_len_first(s: Seq<(i64, i64)>)
    requires
        s.len() > 0,
    ensures
        total_len(s) == span_len(s[0]) + total_len(s.drop_first()),
    decreases s.len(),
{
    if s.len() == 1 {
        assert(s.drop_last() =~= Seq::<(i64, i64)>::empty());
        assert(s.drop_first() =~= Seq::<(i64, i64)>::empty());
    } else {
        lemma_total_len_first(s.drop_last());
        assert(s.drop_last().drop_first() =~= s.drop_first().drop_last());
        assert(s.drop_first().last() == s.last());
        assert(s.drop_last()[0] == s[0]);
    }
}

/// Pairwise overlap with separated intervals is at most the summed length
/// of the first list.
proof fn lemma_pairwise_within_first(a_s: Seq<(i64, i64)>, bs: Seq<(i64, i64)>)
    requires
        well_formed(a_s),
        separated(bs),
    ensures
        0 <= pairwise_overlap(a_s, bs) <= total_len(a_s),
    decreases a_s.len(),
{
    if a_s.len() > 0 {
        let t = a_s.drop_first();
        assert forall|k: int| 0 <= k < t.len() implies (#[trigger] t[k]).0 <= t[k].1 by {
            assert(a_s[k + 1].0 <= a_s[k + 1].1);
        }
        lemma_pairwise_within_first(t, bs);
        assert(a_s[0].0 <= a_s[0].1);
        lemma_row_bounded(a_s[0], bs);
        lemma_total_len_first(a_s);
    }
}

/// Pairwise overlap of separated intervals with intervals is at most the
/// summed length of the second list.
proof fn lemma_pairwise_within_second(a_s: Seq<(i64, i64)>, bs: Seq<(i64, i64)>)
    requires
        separated(a_s),
        well_formed(bs),
    ensures
        0 <= pairwise_overlap(a_s, bs) <= total_len(bs),
    decreases bs.len(),
{
    if bs.len() == 0 {
        lemma_pairwise_empty(a_s, bs);
    } else {
        let t = bs.drop_first();
        assert forall|k: int| 0 <= k < t.len() implies (#[trigger] t[k]).0 <= t[k].1 by {
            assert(bs[k + 1].0 <= bs[k + 1].1);
        }
        lemma_pairwise_within_second(a_s, t);
        lemma_pairwise_split(a_s, bs);
        assert(bs[0].0 <= bs[0].1);
        lemma_col_bounded(a_s, bs[0]);
        lemma_total_len_first(bs);
    }
}

/// For well-formed intervals (each `start <= end`), the overlap of the
/// merged compute and communication intervals is never negative and never
/// longer than either merged union: as a fraction of the smaller union it
/// lies between 0 and 1.
pub proof fn lemma_overlap_within_unions(compute: Seq<(i64, i64)>, comm: Seq<(i64, i64)>)
    requires
        well_formed(compute),
        well_formed(comm),
    ensures
        0 <= sweep_overlap(merged(compute), merged(comm)),
        sweep_overlap(merged(compute), merged(comm)) <= total_len(merged(compute)),
        sweep_overlap(merged(compute), merged(comm)) <= total_len(merged(comm)),
{
    lemma_overlap_is_pairwise(compute, comm);
    let a = merged(compute);
    let b = merged(comm);
    assert forall|k: int| 0 <= k < a.len() implies (#[trigger] a[k]).0 <= a[k].1 by {}
    assert forall|k: int| 0 <= k < b.len() implies (#[trigger] b[k]).0 <= b[k].1 by {}
    lemma_pairwise_within_first(a, b);
    lemma_pairwise_within_second(a, b);
}

/// Compute and communication kernel intervals of one rank and layer, with
/// their summed durations.
#[derive(Clone, Debug)]
pub struct IntervalAgg {
    pub compute: Vec<(i64, i64)>,
    pub comm: Vec<(i64, i64)>,
    pub compute_total_us: i64,
    pub comm_total_us: i64,
}

impl Default for IntervalAgg {
    fn default() -> (a: Self)
        ensures
            a.compute@.len() == 0,
            a.comm@.len() == 0,
            a.compute_total_us == 0,
            a.comm_total_us == 0,
    {
        IntervalAgg { compute: Vec::new(), comm: Vec::new(), compute_total_us: 0, comm_total_us: 0 }
    }
}

/// `push_interval` stays within `i64`: the interval's end, and the total
/// that the kernel's duration is added to.
pub open spec fn push_interval_fits(entry: IntervalAgg, name: Seq<char>, ts: i64, dur: i64) -> bool {
    &&& fits_i64(ts + dur)
    &&& if spec_is_nccl_kernel(name) {
        fits_i64(entry.comm_total_us + dur)
    } else {
        fits_i64(entry.compute_total_us + dur)
    }
}

/// Records the kernel `[ts, ts + dur)`: an NCCL kernel on the communication
/// side, any other on the compute side.
pub fn push_interval(entry: &mut IntervalAgg, kernel_name: &str, ts: i64, dur: i64)
    requires
        push_interval_fits(*old(entry), kernel_name@, ts, dur),
    ensures
        spec_is_nccl_kernel(kernel_name@) ==> {
            &&& final(entry).comm@ == old(entry).comm@.push((ts, (ts + dur) as i64))
            &&& final(entry).comm_total_us == old(entry).comm_total_us + dur
            &&& final(entry).compute@ == old(entry).compute@
            &&& final(entry).compute_total_us == old(entry).compute_total_us
        },
        !spec_is_nccl_kernel(kernel_name@) ==> {
            &&& final(entry).compute@ == old(entry).compute@.push((ts, (ts + dur) as i64))
            &&& final(entry).compute_total_us == old(entry).compute_total_us + dur
            &&& final(entry).comm@ == old(entry).comm@
            &&& final(entry).comm_total_us == old(entry).comm_total_us
        },
{
    let interval = (ts, ts + dur);
    if is_nccl_kernel(kernel_name) {
        entry.comm.push(interval);
        entry.comm_total_us = entry.comm_total_us + dur;
    } else {
        entry.compute.push(interval);
        entry.compute_total_us = entry.compute_total_us + dur;
    }
}

/// Compute and communication busy time of one rank and layer.
#[derive(Clone, Copy, Debug)]
pub struct RankLayerAgg {
    pub compute_us: i64,
    pub comm_us: i64,
}

impl Default for RankLayerAgg {
    fn default() -> (a: Self)
        ensures
            a.compute_us == 0,
            a.comm_us == 0,
    {
        RankLayerAgg { compute_us: 0, comm_us: 0 }
    }
}

impl RankLayerAgg {
    /// Adds a kernel's duration: to the communication time for an NCCL
    /// kernel, to the compute time for any other.
    pub fn add(&mut self, kernel_name: &str, dur: i64)
        requires
            spec_is_nccl_kernel(kernel_name@) ==> fits_i64(old(self).comm_us + dur),
            !spec_is_nccl_kernel(kernel_name@) ==> fits_i64(old(self).compute_us + dur),
        ensures
            *final(self) == (if spec_is_nccl_kernel(kernel_name@) {
                RankLayerAgg { compute_us: old(self).compute_us, comm_us: (old(self).comm_us + dur) as i64 }
            } else {
                RankLayerAgg { compute_us: (old(self).compute_us + dur) as i64, comm_us: old(self).comm_us }
            }),
    {
        if is_nccl_kernel(kernel_name) {
            self.comm_us = self.comm_us + dur;
        } else {
            self.compute_us = self.compute_us + dur;
        }
    }
}

/// How many GPU kernel references were attributed to a layer, out of all.
#[derive(Clone, Copy, Debug)]
pub struct Coverage {
    pub attributed_gpu_refs: u64,
    pub total_gpu_refs: u64,
}

/// The view of an optional string.
pub open spec fn opt_view(o: Option<String>) -> Option<Seq<char>> {
    match o {
        Some(s) => Some(s@),
        None => None,
    }
}

/// The views of a list of optional strings.
pub open spec fn opt_views(v: Seq<Option<String>>) -> Seq<Option<Seq<char>>> {
    v.map(|_i: int, o: Option<String>| opt_view(o))
}

/// The first layer present in a list of optional layers.
pub open spec fn first_layer(v: Seq<Option<Seq<char>>>) -> Option<Seq<char>>
    decreases v.len(),
{
    if v.len() == 0 {
        None
    } else {
        match first_layer(v.drop_last()) {
            Some(f) => Some(f),
            None => v.last(),
        }
    }
}

/// The layer that encloses a node while the call tree is walked: none, one
/// for every instance, or one (or none) per instance.
#[derive(Clone, Debug)]
pub enum ActiveLayer {
    NoLayer,
    One(String),
    Many(Vec<Option<String>>),
}

impl ActiveLayer {
    /// The layer of instance `idx`.
    pub open spec fn spec_at(&self, idx: int) -> Option<Seq<char>> {
        match self {
            ActiveLayer::NoLayer => None,
            ActiveLayer::One(l) => Some(l@),
            ActiveLayer::Many(ls) => if 0 <= idx < ls@.len() {
                opt_view(ls@[idx])
            } else {
                None
            },
        }
    }

    /// The layer shared by every instance.
    pub open spec fn spec_scalar(&self) -> Option<Seq<char>> {
        match self {
            ActiveLayer::One(l) => Some(l@),
            _ => None,
        }
    }

    /// `One(layer)` for a layer, `None` for none.
    pub fn from_option(layer: Option<String>) -> (r: Self)
        ensures
            r == (match layer {
                Some(l) => ActiveLayer::One(l),
                None => ActiveLayer::NoLayer,
            }),
    {
        match layer {
            Some(layer) => ActiveLayer::One(layer),
            None => ActiveLayer::NoLayer,
        }
    }

    /// The layers of a run of instances: `None` when no instance has one,
    /// `One` when every instance has the same one, else `Many`.
    pub fn from_layers(layers: Vec<Option<String>>) -> (r: Self)
        ensures
            first_layer(opt_views(layers@)) is None ==> r is NoLayer,
            first_layer(opt_views(layers@)) matches Some(f) ==> {
                if forall|i: int| 0 <= i < layers@.len() ==> opt_views(layers@)[i] == Some(f) {
                    r matches ActiveLayer::One(l) && l@ == f
                } else {
                    r == ActiveLayer::Many(layers)
                }
            },
    {
        let ghost views = opt_views(layers@);
        let mut first: Option<String> = None;
        let mut all_same = true;
        let mut i: usize = 0;
        while i < layers.len()
            invariant
                i <= layers.len(),
                views == opt_views(layers@),
                opt_view(first) == first_layer(views.take(i as int)),
                all_same == (forall|k: int| 0 <= k < i ==> #[trigger] views[k] == first_layer(views.take(i as int)) && views[k] is Some),
            decreases layers.len() - i,
        {
            let ghost before = first_layer(views.take(i as int));
            proof {
                assert(views.take(i + 1).drop_last() =~= views.take(i as int));
                assert(views.take(i + 1).last() == views[i as int]);
            }
            match &layers[i] {
                Some(l) => {
                    match &first {
                        None => {
                            first = Some(l.clone());
                        },
                        Some(f) => {
                            if *l != *f {
                                all_same = false;
                            }
                        },
                    }
                },
                None => {
                    all_same = false;
                },
            }
            proof {
                let after = first_layer(views.take(i + 1));
                let ii = i as int;
                assert(views[ii] == opt_view(layers@[ii]));
                if views[ii] is None {
                    assert(!(forall|k: int| 0 <= k < ii + 1 ==> #[trigger] views[k] == after && views[k] is Some));
                } else if before is None {
                    if ii > 0 {
                        lemma_first_layer_none(views.take(ii), 0);
                        assert(views.take(ii)[0] == views[0]);
                        assert(!(forall|k: int| 0 <= k < ii + 1 ==> #[trigger] views[k] == after && views[k] is Some));
                        assert(!(forall|k: int| 0 <= k < ii ==> #[trigger] views[k] == before && views[k] is Some));
                    } else {
                        assert(forall|k: int| 0 <= k < ii + 1 ==> #[trigger] views[k] == after && views[k] is Some);
                    }
                } else {
                    assert(after == before);
                    assert((forall|k: int| 0 <= k < ii + 1 ==> #[trigger] views[k] == after && views[k] is Some) == (
                        (forall|k: int| 0 <= k < ii ==> #[trigger] views[k] == before && views[k] is Some) && views[ii] == after));
                }
                assert(all_same == (forall|k: int| 0 <= k < ii + 1 ==> #[trigger] views[k] == after && views[k] is Some));
            }
            i += 1;
        }
        proof {
            assert(views.take(layers.len() as int) =~= views);
        }
        match first {
            None => ActiveLayer::NoLayer,
            Some(f) => {
                if all_same {
                    ActiveLayer::One(f)
                } else {
                    ActiveLayer::Many(layers)
                }
            },
        }
    }

    /// This layer, or `fallback` when there is none.
    pub fn or(self, fallback: ActiveLayer) -> (r: Self)
        ensures
            r == (if self is NoLayer {
                fallback
            } else {
                self
            }),
    {
        match self {
            ActiveLayer::NoLayer => fallback,
            _ => self,
        }
    }

    /// The layer of instance `idx`, if any.
    pub fn at(&self, idx: usize) -> (r: Option<String>)
        ensures
            opt_view(r) == self.spec_at(idx as int),
    {
        match self {
            ActiveLayer::NoLayer => None,
            ActiveLayer::One(layer) => Some(layer.clone()),
            ActiveLayer::Many(layers) => {
                if idx < layers.len() {
                    match &layers[idx] {
                        Some(l) => Some(l.clone()),
                        None => None,
                    }
                } else {
                    None
                }
            },
        }
    }

    /// The layer shared by every instance, if there is one.
    pub fn scalar(&self) -> (r: Option<String>)
        ensures
            opt_view(r) == self.spec_scalar(),
    {
        match self {
            ActiveLayer::One(layer) => Some(layer.clone()),
            _ => None,
        }
    }
}

/// When no layer is present in `v`, no entry of `v` is one.
proof fn lemma_first_layer_none(v: Seq<Option<Seq<char>>>, k: int)
    requires
        first_layer(v) is None,
        0 <= k < v.len(),
    ensures
        v[k] is None,
    decreases v.len(),
{
    if k < v.len() - 1 {
        lemma_first_layer_none(v.drop_last(), k);
    }
}

/// The scope names whose repetition says nothing about the model layer.
pub open spec fn low_value_scopes() -> Seq<Seq<char>> {
    seq![
        "suLaunchKernel"@,
        "cudaLaunchKernel"@,
        "hipLaunchKernel"@,
        "aten::empty"@,
        "aten::detach"@,
        "detach"@,
        "aten::zero_"@,
        "aten::fill_"@,
        "aten::copy_"@,
        "aten::to"@,
        "aten::_to_copy"@,
        "aten::uniform_"@,
        "aten::item"@,
        "aten::_local_scalar_dense"@,
        "AddBackward0"@,
        "CloneBackward0"@,
    ]
}

/// True iff `scope` is one of the launch / allocation / copy scopes that
/// repeat without marking a layer.
pub fn is_low_value_repeated_scope(scope: &str) -> (b: bool)
    ensures
        b == low_value_scopes().contains(scope@),
{
    let owned = scope.to_owned();
    let names: Vec<String> = vec![
        "suLaunchKernel".to_owned(),
        "cudaLaunchKernel".to_owned(),
        "hipLaunchKernel".to_owned(),
        "aten::empty".to_owned(),
        "aten::detach".to_owned(),
        "detach".to_owned(),
        "aten::zero_".to_owned(),
        "aten::fill_".to_owned(),
        "aten::copy_".to_owned(),
        "aten::to".to_owned(),
        "aten::_to_copy".to_owned(),
        "aten::uniform_".to_owned(),
        "aten::item".to_owned(),
        "aten::_local_scalar_dense".to_owned(),
        "AddBackward0".to_owned(),
        "CloneBackward0".to_owned(),
    ];
    proof {
        assert(names@.map(|_i: int, s: String| s@) =~= low_value_scopes());
    }
    let mut i: usize = 0;
    while i < names.len()
        invariant
            i <= names.len(),
            names@.map(|_i: int, s: String| s@) == low_value_scopes(),
            owned@ == scope@,
            forall|k: int| 0 <= k < i ==> names@[k]@ != scope@,
        decreases names.len() - i,
    {
        if names[i] == owned {
            proof {
                assert(low_value_scopes()[i as int] == scope@);
            }
            return true;
        }
        i += 1;
    }
    proof {
        if low_value_scopes().contains(scope@) {
            let k = choose|k: int| 0 <= k < low_value_scopes().len() && low_value_scopes()[k] == scope@;
            assert(names@[k]@ == scope@);
        }
    }
    false
}

/// True iff the thread id names a GPU stream (contains `stream`).
pub fn is_gpu_stream(tid: &str) -> (b: bool)
    ensures
        b == contains_seq(tid@, "stream"@),
{
    let hay = chars_of(tid);
    let needle = vec!['s', 't', 'r', 'e', 'a', 'm'];
    proof {
        reveal_strlit("stream");
        assert(needle@ =~= "stream"@);
    }
    contains_chars(&hay, &needle)
}

/// `kernel` as an optional category.
pub open spec fn is_kernel_cat(cat: Option<String>) -> bool {
    opt_view(cat) == Some("kernel"@)
}

/// The number of instances of GPU templates whose category is `kernel`.
pub open spec fn kernel_refs(ts: Seq<Template>) -> int
    decreases ts.len(),
{
    if ts.len() == 0 {
        0
    } else {
        kernel_refs(ts.drop_last()) + match ts.last() {
            Template::Gpu(g) => if is_kernel_cat(g.cat) {
                g.dur@.len() as int
            } else {
                0
            },
            Template::Cpu(_) => 0,
        }
    }
}

/// Every running count of `kernel_refs` fits in a `u64`.
pub open spec fn kernel_refs_fit(ts: Seq<Template>) -> bool {
    forall|k: int| 0 <= k <= ts.len() ==> #[trigger] kernel_refs(ts.take(k)) <= u64::MAX
}

/// True iff the category is `kernel`.
pub(crate) fn cat_is_kernel(cat: &Option<String>) -> (b: bool)
    ensures
        b == is_kernel_cat(*cat),
{
    match cat {
        Some(c) => {
            let k = "kernel".to_owned();
            *c == k
        },
        None => false,
    }
}

/// The number of GPU kernel instances in the template table: the
/// denominator of layer attribution coverage.
pub fn total_gpu_kernel_refs(templates: &Vec<Template>) -> (n: u64)
    requires
        kernel_refs_fit(templates@),
    ensures
        n == kernel_refs(templates@),
{
    let mut n: u64 = 0;
    let mut i: usize = 0;
    while i < templates.len()
        invariant
            i <= templates.len(),
            n == kernel_refs(templates@.take(i as int)),
            kernel_refs_fit(templates@),
        decreases templates.len() - i,
    {
        proof {
            assert(templates@.take(i + 1).drop_last() =~= templates@.take(i as int));
            assert(templates@.take(i + 1).last() == templates@[i as int]);
            assert(kernel_refs(templates@.take(i + 1)) <= u64::MAX);
        }
        match &templates[i] {
            Template::Gpu(g) => {
                if cat_is_kernel(&g.cat) {
                    n = n + g.dur.len() as u64;
                }
            },
            Template::Cpu(_) => {},
        }
        i += 1;
    }
    proof {
        assert(templates@.take(templates.len() as int) =~= templates@);
    }
    n
}

/// The integer an argument value reads as, when it is one that fits `i64`.
pub open spec fn arg_as_i64(v: ArgValue) -> Option<i64> {
    match v {
        ArgValue::Int(i) => Some(i),
        ArgValue::UInt(u) => if u <= i64::MAX as u64 {
            Some(u as i64)
        } else {
            None
        },
        _ => None,
    }
}

/// The correlation id of an event: its `correlation` argument or, when it
/// has none, its `External id` argument, if that value is an integer.
pub open spec fn correlation_of(args: Option<Vec<(String, ArgValue)>>) -> Option<i64> {
    match args {
        Some(a) => match arg_value(a@, "correlation"@) {
            Some(v) => arg_as_i64(v),
            None => match arg_value(a@, "External id"@) {
                Some(v) => arg_as_i64(v),
                None => None,
            },
        },
        None => None,
    }
}

/// The integer an argument value reads as, when it is one that fits `i64`.
fn value_as_i64(v: &ArgValue) -> (r: Option<i64>)
    ensures
        r == arg_as_i64(*v),
{
    match v {
        ArgValue::Int(i) => Some(*i),
        ArgValue::UInt(u) => if *u <= 0x7fff_ffff_ffff_ffffu64 {
            Some(*u as i64)
        } else {
            None
        },
        _ => None,
    }
}

/// The correlation id that links a kernel launch to its kernel: the
/// event's `correlation` argument or, when it has none, its `External id`,
/// if that value is an integer.
pub fn event_correlation(args: &Option<Vec<(String, ArgValue)>>) -> (r: Option<i64>)
    ensures
        r == correlation_of(*args),
{
    let key = "correlation".to_owned();
    match find_arg(args, &key) {
        Some(v) => value_as_i64(&v),
        None => {
            let other = "External id".to_owned();
            match find_arg(args, &other) {
                Some(v) => value_as_i64(&v),
                None => None,
            }
        },
    }
}

} // verus!
