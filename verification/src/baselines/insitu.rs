//! What the baselines' in-situ analyses compute from the rows they read
//! out of a payload: per-rank groups of kernel events, each rank's busy
//! time and span, per-rank compute and communication totals, and the
//! heaviest operators.

use vstd::prelude::*;

use crate::baselines::bubble::{busy_and_span, busy_fits, busy_sweep, sweep_step_fits};
use crate::analysis::compute_comm_overlap::fits_i64;
use crate::event::{prefix_sums_fit, seq_sum};
use crate::sort::sorted_pairs;
use crate::text::{
    bytes_less, compare_bytes, lemma_bytes_less_irreflexive, lemma_bytes_less_total, lemma_bytes_less_transitive, utf8,
};

verus! {

/// The values of the rows of rank `r`, in row order.
pub open spec fn rank_events<T>(rows: Seq<(u32, T)>, r: u32) -> Seq<T>
    decreases rows.len(),
{
    if rows.len() == 0 {
        Seq::empty()
    } else {
        rank_events(rows.drop_last(), r) + if rows.last().0 == r {
            seq![rows.last().1]
        } else {
            Seq::empty()
        }
    }
}

/// Some row belongs to rank `r`.
pub open spec fn has_rank<T>(rows: Seq<(u32, T)>, r: u32) -> bool {
    exists|i: int| 0 <= i < rows.len() && #[trigger] rows[i].0 == r
}

/// A rank without rows has no events.
proof fn lemma_no_rank_no_events<T>(rows: Seq<(u32, T)>, r: u32)
    requires
        !has_rank(rows, r),
    ensures
        rank_events(rows, r) == Seq::<T>::empty(),
    decreases rows.len(),
{
    if rows.len() > 0 {
        assert(!has_rank(rows.drop_last(), r)) by {
            if has_rank(rows.drop_last(), r) {
                let i = choose|i: int| 0 <= i < rows.drop_last().len() && #[trigger] rows.drop_last()[i].0 == r;
                assert(rows[i].0 == r);
            }
        }
        lemma_no_rank_no_events(rows.drop_last(), r);
        assert(rows[rows.len() - 1].0 != r);
    }
}

/// The ranks of a list of rows, each once and ascending, with their events
/// in row order.
pub open spec fn groups_of<T>(rows: Seq<(u32, T)>, ids: Seq<u32>, groups: Seq<Seq<T>>) -> bool {
    &&& ids.len() == groups.len()
    &&& forall|a: int, b: int| 0 <= a < b < ids.len() ==> ids[a] < ids[b]
    &&& forall|x: u32| #[trigger] ids.contains(x) <==> has_rank(rows, x)
    &&& forall|j: int| 0 <= j < ids.len() ==> #[trigger] groups[j] == rank_events(rows, ids[j])
}

/// Groups rows `(rank, value)` by rank: the ranks ascending, each with the
/// values of its rows in row order.
pub fn group_by_rank<T: Copy>(rows: &Vec<(u32, T)>) -> (r: (Vec<u32>, Vec<Vec<T>>))
    ensures
        groups_of(rows@, r.0@, r.1@.map(|_j: int, g: Vec<T>| g@)),
{
    let mut ids: Vec<u32> = Vec::new();
    let mut groups: Vec<Vec<T>> = Vec::new();
    let mut t: usize = 0;
    while t < rows.len()
        invariant
            t <= rows@.len(),
            groups_of(rows@.take(t as int), ids@, groups@.map(|_j: int, g: Vec<T>| g@)),
        decreases rows@.len() - t,
    {
        let (r, v) = rows[t];
        let ghost before = rows@.take(t as int);
        let ghost after = rows@.take(t + 1);
        let ghost old_ids = ids@;
        let ghost old_groups = groups@.map(|_j: int, g: Vec<T>| g@);
        proof {
            assert(after.drop_last() =~= before);
            assert(after.last() == (r, v));
            assert forall|x: u32| #[trigger] rank_events(after, x) == rank_events(before, x) + (if x == r {
                seq![v]
            } else {
                Seq::<T>::empty()
            }) by {}
            assert forall|x: u32| #[trigger] has_rank(after, x) <==> (has_rank(before, x) || x == r) by {
                if has_rank(after, x) && x != r {
                    let i = choose|i: int| 0 <= i < after.len() && #[trigger] after[i].0 == x;
                    assert(before[i].0 == x);
                }
                if has_rank(before, x) {
                    let i = choose|i: int| 0 <= i < before.len() && #[trigger] before[i].0 == x;
                    assert(after[i].0 == x);
                }
                if x == r {
                    assert(after[t as int].0 == x);
                }
            }
        }
        let mut pos: usize = 0;
        while pos < ids.len() && ids[pos] < r
            invariant
                pos <= ids@.len(),
                ids@ == old_ids,
                forall|a: int| 0 <= a < pos ==> #[trigger] ids@[a] < r,
            decreases ids@.len() - pos,
        {
            pos += 1;
        }
        if pos < ids.len() && ids[pos] == r {
            let mut g: Vec<T> = Vec::new();
            std::mem::swap(&mut g, &mut groups[pos]);
            g.push(v);
            std::mem::swap(&mut g, &mut groups[pos]);
            proof {
                let ng = groups@.map(|_j: int, g: Vec<T>| g@);
                assert forall|j: int| 0 <= j < ids@.len() implies #[trigger] ng[j] == rank_events(after, ids@[j]) by {
                    if j != pos {
                        assert(ng[j] == old_groups[j]);
                    } else {
                        assert(old_groups[j] == rank_events(before, old_ids[j]));
                        assert(ng[j] =~= old_groups[j] + seq![v]);
                    }
                }
                assert forall|x: u32| #[trigger] ids@.contains(x) <==> has_rank(after, x) by {
                    if x == r {
                        assert(ids@[pos as int] == r);
                    }
                }
            }
        } else {
            proof {
                assert(!has_rank(before, r)) by {
                    if has_rank(before, r) {
                        assert(old_ids.contains(r));
                        let j = choose|j: int| 0 <= j < old_ids.len() && old_ids[j] == r;
                        if j < pos {
                        } else if j > pos {
                            assert(old_ids[pos as int] < old_ids[j]);
                        }
                    }
                }
                lemma_no_rank_no_events(before, r);
            }
            ids.insert(pos, r);
            let mut g: Vec<T> = Vec::new();
            g.push(v);
            groups.insert(pos, g);
            proof {
                let ng = groups@.map(|_j: int, g: Vec<T>| g@);
                assert(ids@ == old_ids.insert(pos as int, r));
                assert forall|a: int, b: int| 0 <= a < b < ids@.len() implies ids@[a] < ids@[b] by {
                    if a < pos && b > pos {
                        assert(ids@[b] == old_ids[b - 1]);
                        if pos < old_ids.len() {
                            assert(old_ids[pos as int] >= r);
                            assert(old_ids[pos as int] != r);
                        }
                        if b - 1 > pos {
                            assert(old_ids[pos as int] < old_ids[b - 1]);
                        }
                    } else if a == pos && b > pos {
                        assert(old_ids[pos as int] > r);
                        if b - 1 > pos {
                            assert(old_ids[pos as int] < old_ids[b - 1]);
                        }
                    } else if a > pos {
                        assert(ids@[a] == old_ids[a - 1]);
                        assert(ids@[b] == old_ids[b - 1]);
                    }
                }
                assert forall|j: int| 0 <= j < ids@.len() implies #[trigger] ng[j] == rank_events(after, ids@[j]) by {
                    if j < pos {
                        assert(ng[j] == old_groups[j]);
                        assert(ids@[j] != r);
                    } else if j > pos {
                        assert(ng[j] == old_groups[j - 1]);
                        assert(ids@[j] == old_ids[j - 1]);
                        assert(ids@[j] != r);
                    } else {
                        assert(ng[j] =~= seq![v]);
                    }
                }
                assert forall|x: u32| #[trigger] ids@.contains(x) <==> has_rank(after, x) by {
                    if ids@.contains(x) {
                        let j = choose|j: int| 0 <= j < ids@.len() && ids@[j] == x;
                        if j < pos {
                            assert(old_ids[j] == x);
                        } else if j > pos {
                            assert(old_ids[j - 1] == x);
                        }
                    }
                    if old_ids.contains(x) {
                        let j = choose|j: int| 0 <= j < old_ids.len() && old_ids[j] == x;
                        if j < pos {
                            assert(ids@[j] == x);
                        } else {
                            assert(ids@[j + 1] == x);
                        }
                    }
                    if x == r {
                        assert(ids@[pos as int] == r);
                    }
                }
            }
        }
        t += 1;
    }
    proof {
        assert(rows@.take(rows@.len() as int) =~= rows@);
    }
    (ids, groups)
}

/// The busy time and span that the sweep gives for a rank's events: the
/// events sorted, then swept from the first start; `(0, 0)` without events.
pub open spec fn busy_span(events: Seq<(i64, i64)>) -> (int, int) {
    let s = sorted_pairs(events);
    if s.len() == 0 {
        (0, 0)
    } else {
        let st = busy_sweep(s[0].0, s);
        (st.2, st.0 - s[0].0)
    }
}

/// One rank's kernel figures: busy time, span from the first start to the
/// last end, and the number of kernels.
#[derive(Clone, Copy, Debug)]
pub struct RankBusy {
    pub rank_id: u32,
    pub busy_us: i64,
    pub total_span_us: i64,
    pub kernel_count: usize,
}

/// The rank ids of a list of figures.
pub open spec fn busy_ranks(v: Seq<RankBusy>) -> Seq<u32> {
    v.map(|_j: int, b: RankBusy| b.rank_id)
}

/// The busy time, span and kernel count of every rank of the kernel rows
/// `(rank, (ts, dur))`, ranks ascending.
pub fn rank_busy(rows: &Vec<(u32, (i64, i64))>) -> (out: Vec<RankBusy>)
    requires
        forall|x: u32| has_rank(rows@, x) ==> busy_fits(sorted_pairs(#[trigger] rank_events(rows@, x))),
    ensures
        forall|a: int, b: int| 0 <= a < b < out@.len() ==> out@[a].rank_id < out@[b].rank_id,
        forall|x: u32| #[trigger] busy_ranks(out@).contains(x) <==> has_rank(rows@, x),
        forall|j: int|
            0 <= j < out@.len() ==> {
                let ev = rank_events(rows@, (#[trigger] out@[j]).rank_id);
                &&& (out@[j].busy_us as int, out@[j].total_span_us as int) == busy_span(ev)
                &&& out@[j].kernel_count == ev.len()
            },
{
    let (ids, mut groups) = group_by_rank(rows);
    let ghost gv = groups@.map(|_j: int, g: Vec<(i64, i64)>| g@);
    let mut out: Vec<RankBusy> = Vec::new();
    let mut j: usize = 0;
    proof {
        assert(busy_ranks(out@) =~= ids@.take(0));
    }
    while j < ids.len()
        invariant
            groups_of(rows@, ids@, gv),
            groups@.len() == ids@.len(),
            forall|k: int| j <= k < groups@.len() ==> #[trigger] groups@[k]@ == gv[k],
            forall|x: u32| has_rank(rows@, x) ==> busy_fits(sorted_pairs(#[trigger] rank_events(rows@, x))),
            j <= ids@.len(),
            busy_ranks(out@) == ids@.take(j as int),
            forall|k: int|
                0 <= k < out@.len() ==> {
                    let ev = rank_events(rows@, (#[trigger] out@[k]).rank_id);
                    &&& (out@[k].busy_us as int, out@[k].total_span_us as int) == busy_span(ev)
                    &&& out@[k].kernel_count == ev.len()
                },
        decreases ids@.len() - j,
    {
        let r = ids[j];
        let mut events: Vec<(i64, i64)> = Vec::new();
        std::mem::swap(&mut events, &mut groups[j]);
        proof {
            assert(gv[j as int] == rank_events(rows@, r));
            assert(ids@.contains(r));
        }
        let n = events.len();
        let (busy, span) = busy_and_span(events);
        let ghost before = out@;
        out.push(RankBusy { rank_id: r, busy_us: busy, total_span_us: span, kernel_count: n });
        j += 1;
        proof {
            assert(busy_ranks(out@) =~= busy_ranks(before).push(r));
            assert(ids@.take(j as int) =~= ids@.take(j - 1).push(r));
            assert forall|k: int| 0 <= k < out@.len() implies {
                let ev = rank_events(rows@, (#[trigger] out@[k]).rank_id);
                &&& (out@[k].busy_us as int, out@[k].total_span_us as int) == busy_span(ev)
                &&& out@[k].kernel_count == ev.len()
            } by {
                if k < before.len() {
                    assert(out@[k] == before[k]);
                }
            }
        }
    }
    proof {
        assert(ids@.take(ids@.len() as int) =~= ids@);
        assert forall|a: int, b: int| 0 <= a < b < out@.len() implies out@[a].rank_id < out@[b].rank_id by {
            assert(busy_ranks(out@)[a] == ids@[a]);
            assert(busy_ranks(out@)[b] == ids@[b]);
        }
    }
    out
}

/// The sum of the durations of one class (communication when `comm`,
/// compute otherwise) among `(dur, is_comm)` events, in order.
pub open spec fn class_sum(events: Seq<(i64, bool)>, comm: bool) -> int
    decreases events.len(),
{
    if events.len() == 0 {
        0
    } else {
        class_sum(events.drop_last(), comm) + if events.last().1 == comm {
            events.last().0 as int
        } else {
            0
        }
    }
}

/// Every running sum of each class stays within `i64`.
pub open spec fn class_sums_fit(events: Seq<(i64, bool)>) -> bool {
    &&& forall|k: int| 0 <= k <= events.len() ==> fits_i64(#[trigger] class_sum(events.take(k), true))
    &&& forall|k: int| 0 <= k <= events.len() ==> fits_i64(#[trigger] class_sum(events.take(k), false))
}

/// One rank's compute and communication kernel time.
#[derive(Clone, Copy, Debug)]
pub struct RankTotals {
    pub rank_id: u32,
    pub compute_us: i64,
    pub comm_us: i64,
}

/// The rank ids of a list of totals.
pub open spec fn total_ranks(v: Seq<RankTotals>) -> Seq<u32> {
    v.map(|_j: int, t: RankTotals| t.rank_id)
}

/// The compute and communication totals of one rank's events.
fn class_totals(events: &Vec<(i64, bool)>) -> (r: (i64, i64))
    requires
        class_sums_fit(events@),
    ensures
        r.0 == class_sum(events@, false),
        r.1 == class_sum(events@, true),
{
    let mut compute: i64 = 0;
    let mut comm: i64 = 0;
    let mut i: usize = 0;
    while i < events.len()
        invariant
            i <= events@.len(),
            class_sums_fit(events@),
            compute == class_sum(events@.take(i as int), false),
            comm == class_sum(events@.take(i as int), true),
        decreases events@.len() - i,
    {
        let (dur, is_comm) = events[i];
        proof {
            assert(events@.take(i + 1).drop_last() =~= events@.take(i as int));
            assert(fits_i64(class_sum(events@.take(i + 1), true)));
            assert(fits_i64(class_sum(events@.take(i + 1), false)));
        }
        if is_comm {
            comm = comm + dur;
        } else {
            compute = compute + dur;
        }
        i += 1;
    }
    proof {
        assert(events@.take(events@.len() as int) =~= events@);
    }
    (compute, comm)
}

/// The compute and communication kernel time of every rank of the rows
/// `(rank, (dur, is_comm))`, ranks ascending.
pub fn rank_totals(rows: &Vec<(u32, (i64, bool))>) -> (out: Vec<RankTotals>)
    requires
        forall|x: u32| has_rank(rows@, x) ==> class_sums_fit(#[trigger] rank_events(rows@, x)),
    ensures
        forall|a: int, b: int| 0 <= a < b < out@.len() ==> out@[a].rank_id < out@[b].rank_id,
        forall|x: u32| #[trigger] total_ranks(out@).contains(x) <==> has_rank(rows@, x),
        forall|j: int|
            0 <= j < out@.len() ==> {
                let ev = rank_events(rows@, (#[trigger] out@[j]).rank_id);
                &&& out@[j].compute_us == class_sum(ev, false)
                &&& out@[j].comm_us == class_sum(ev, true)
            },
{
    let (ids, mut groups) = group_by_rank(rows);
    let ghost gv = groups@.map(|_j: int, g: Vec<(i64, bool)>| g@);
    let mut out: Vec<RankTotals> = Vec::new();
    let mut j: usize = 0;
    proof {
        assert(total_ranks(out@) =~= ids@.take(0));
    }
    while j < ids.len()
        invariant
            groups_of(rows@, ids@, gv),
            groups@.len() == ids@.len(),
            forall|k: int| j <= k < groups@.len() ==> #[trigger] groups@[k]@ == gv[k],
            forall|x: u32| has_rank(rows@, x) ==> class_sums_fit(#[trigger] rank_events(rows@, x)),
            j <= ids@.len(),
            total_ranks(out@) == ids@.take(j as int),
            forall|k: int|
                0 <= k < out@.len() ==> {
                    let ev = rank_events(rows@, (#[trigger] out@[k]).rank_id);
                    &&& out@[k].compute_us == class_sum(ev, false)
                    &&& out@[k].comm_us == class_sum(ev, true)
                },
        decreases ids@.len() - j,
    {
        let r = ids[j];
        let mut events: Vec<(i64, bool)> = Vec::new();
        std::mem::swap(&mut events, &mut groups[j]);
        proof {
            assert(gv[j as int] == rank_events(rows@, r));
            assert(ids@.contains(r));
        }
        let (compute, comm) = class_totals(&events);
        let ghost before = out@;
        out.push(RankTotals { rank_id: r, compute_us: compute, comm_us: comm });
        j += 1;
        proof {
            assert(total_ranks(out@) =~= total_ranks(before).push(r));
            assert(ids@.take(j as int) =~= ids@.take(j - 1).push(r));
            assert forall|k: int| 0 <= k < out@.len() implies {
                let ev = rank_events(rows@, (#[trigger] out@[k]).rank_id);
                &&& out@[k].compute_us == class_sum(ev, false)
                &&& out@[k].comm_us == class_sum(ev, true)
            } by {
                if k < before.len() {
                    assert(out@[k] == before[k]);
                }
            }
        }
    }
    proof {
        assert(ids@.take(ids@.len() as int) =~= ids@);
        assert forall|a: int, b: int| 0 <= a < b < out@.len() implies out@[a].rank_id < out@[b].rank_id by {
            assert(total_ranks(out@)[a] == ids@[a]);
            assert(total_ranks(out@)[b] == ids@[b]);
        }
    }
    out
}

/// How many operators a hotspot listing keeps.
pub const HOTSPOT_LIMIT: usize = 20;

/// `r` holds the entries of `entries` with the largest totals, largest
/// first, at most `limit` of them: every entry left out totals at most the
/// last one kept.
pub open spec fn top_n_of<T>(entries: Seq<(T, i64)>, limit: nat, r: Seq<(T, i64)>) -> bool {
    &&& r.len() == (if entries.len() < limit { entries.len() } else { limit })
    &&& forall|a: int, b: int| 0 <= a < b < r.len() ==> r[a].1 >= r[b].1
    &&& r.to_multiset().subset_of(entries.to_multiset())
    &&& forall|x: (T, i64)|
        #[trigger] entries.to_multiset().count(x) > r.to_multiset().count(x) ==> r.len() == limit && (limit > 0 ==> x.1
            <= r.last().1)
}

/// The hotspot listing: the heaviest [`HOTSPOT_LIMIT`] entries.
pub open spec fn top_of(entries: Seq<(String, i64)>, r: Seq<(String, i64)>) -> bool {
    top_n_of(entries, HOTSPOT_LIMIT as nat, r)
}

/// The entries with the largest totals, largest first, at most `limit` of
/// them; entries with equal totals keep their order.
pub fn top_by_total<T>(entries: Vec<(T, i64)>, limit: usize) -> (r: Vec<(T, i64)>)
    ensures
        top_n_of(entries@, limit as nat, r@),
{
    broadcast use vstd::seq_lib::group_to_multiset_ensures, vstd::multiset::group_multiset_axioms;

    let ghost orig = entries@;
    let mut sorted: Vec<(T, i64)> = Vec::new();
    let mut src = entries;
    let n = src.len();
    let mut k: usize = 0;
    proof {
        assert(orig.take(0) =~= Seq::<(T, i64)>::empty());
        assert(orig.skip(0) =~= orig);
    }
    while k < n
        invariant
            n == orig.len(),
            src@ == orig.skip(k as int),
            k <= n,
            sorted@.len() == k,
            sorted@.to_multiset() == orig.take(k as int).to_multiset(),
            forall|a: int, b: int| 0 <= a < b < sorted@.len() ==> sorted@[a].1 >= sorted@[b].1,
        decreases n - k,
    {
        let x = src.remove(0);
        let ghost xv = x;
        proof {
            assert(xv == orig[k as int]);
            assert(src@ =~= orig.skip(k + 1));
        }
        let total = x.1;
        let mut pos: usize = 0;
        while pos < sorted.len() && sorted[pos].1 >= total
            invariant
                pos <= sorted@.len(),
                forall|a: int| 0 <= a < pos ==> #[trigger] sorted@[a].1 >= total,
            decreases sorted@.len() - pos,
        {
            pos += 1;
        }
        let ghost before = sorted@;
        sorted.insert(pos, x);
        k += 1;
        proof {
            let lo = before.take(pos as int);
            let hi = before.skip(pos as int);
            vstd::seq_lib::lemma_multiset_commutative(lo.push(xv), hi);
            vstd::seq_lib::lemma_multiset_commutative(lo, hi);
            assert(sorted@ =~= lo.push(xv) + hi);
            assert(before =~= lo + hi);
            vstd::seq_lib::to_multiset_build(lo, xv);
            assert(lo.push(xv).to_multiset() =~= lo.to_multiset().insert(xv));
            assert(sorted@.to_multiset() =~= lo.to_multiset().insert(xv).add(hi.to_multiset()));
            assert(before.to_multiset() =~= lo.to_multiset().add(hi.to_multiset()));
            assert(sorted@.to_multiset() =~= before.to_multiset().insert(xv));
            assert(orig.take(k as int) =~= orig.take(k - 1).push(xv));
            vstd::seq_lib::to_multiset_build(orig.take(k - 1), xv);
            assert(orig.take(k as int).to_multiset() =~= orig.take(k - 1).to_multiset().insert(xv));
            assert forall|a: int, b: int| 0 <= a < b < sorted@.len() implies sorted@[a].1 >= sorted@[b].1 by {
                if a < pos && b == pos {
                } else if a == pos && b > pos {
                    assert(sorted@[b] == before[b - 1]);
                    assert(before[pos as int].1 < total);
                    if b - 1 > pos {
                        assert(before[pos as int].1 >= before[b - 1].1);
                    }
                } else if a < pos && b > pos {
                    assert(sorted@[b] == before[b - 1]);
                } else if a > pos {
                    assert(sorted@[a] == before[a - 1] && sorted@[b] == before[b - 1]);
                }
            }
        }
    }
    proof {
        assert(orig.take(n as int) =~= orig);
    }
    let ghost full = sorted@;
    sorted.truncate(limit);
    proof {
        if full.len() > limit {
            let kept = full.take(limit as int);
            let rest = full.skip(limit as int);
            assert(sorted@ =~= kept);
            assert(full =~= kept + rest);
            vstd::seq_lib::lemma_multiset_commutative(kept, rest);
            assert forall|x: (T, i64)| #[trigger] orig.to_multiset().count(x) > sorted@.to_multiset().count(x) implies sorted@.len() == limit
                && (limit > 0 ==> x.1 <= sorted@.last().1) by {
                assert(rest.to_multiset().count(x) > 0);
                assert(rest.contains(x));
                let j = choose|j: int| 0 <= j < rest.len() && rest[j] == x;
                assert(full[limit + j] == x);
                if limit > 0 {
                    assert(full[limit - 1].1 >= full[limit + j].1);
                }
            }
        } else {
            assert(sorted@ == full);
        }
    }
    sorted
}

/// The name of the rank of a total, against the dictionary.
pub open spec fn rank_name(dict: Seq<String>, t: RankTotals) -> Seq<char> {
    dict[t.rank_id as int]@
}

/// Some total is of a rank named `name`.
pub open spec fn named_in(dict: Seq<String>, totals: Seq<RankTotals>, name: Seq<char>) -> bool {
    exists|j: int| 0 <= j < totals.len() && #[trigger] rank_name(dict, totals[j]) == name
}

/// Total `j` is the first of a rank named `name`.
pub open spec fn first_named(dict: Seq<String>, totals: Seq<RankTotals>, name: Seq<char>, j: int) -> bool {
    &&& 0 <= j < totals.len()
    &&& rank_name(dict, totals[j]) == name
    &&& forall|i: int| 0 <= i < j ==> #[trigger] rank_name(dict, totals[i]) != name
}

/// Some entry of a named listing carries `name`.
pub open spec fn lists_name(r: Seq<(String, i64, i64)>, name: Seq<char>) -> bool {
    exists|i: int| 0 <= i < r.len() && #[trigger] r[i].0@ == name
}

/// The named listing of `totals`: names strictly ascending in byte order,
/// exactly the names of their ranks, each with the totals of the first
/// rank so named.
pub open spec fn named_listing(dict: Seq<String>, totals: Seq<RankTotals>, r: Seq<(String, i64, i64)>) -> bool {
    &&& forall|a: int, b: int| 0 <= a < b < r.len() ==> bytes_less(utf8(r[a].0@), utf8(r[b].0@))
    &&& forall|name: Seq<char>| #[trigger] lists_name(r, name) <==> named_in(dict, totals, name)
    &&& forall|i: int| 0 <= i < r.len() ==> entry_first(dict, totals, #[trigger] r[i])
}

/// The entry carries the name and totals of the first rank so named.
pub open spec fn entry_first(dict: Seq<String>, totals: Seq<RankTotals>, e: (String, i64, i64)) -> bool {
    exists|j: int| first_named(dict, totals, e.0@, j) && e.1 == totals[j].compute_us && e.2 == totals[j].comm_us
}

/// Equal UTF-8 encodings come from equal texts.
proof fn lemma_utf8_injective(a: Seq<char>, b: Seq<char>)
    requires
        utf8(a) == utf8(b),
    ensures
        a == b,
{
    vstd::utf8::encode_utf8_decode_utf8(a);
    vstd::utf8::encode_utf8_decode_utf8(b);
}

/// Rank totals under their rank names, names ascending; where two ranks
/// share a name, the first one's totals are kept.
pub fn named_totals(totals: &Vec<RankTotals>, dict: &Vec<String>) -> (r: Vec<(String, i64, i64)>)
    requires
        forall|j: int| 0 <= j < totals@.len() ==> (#[trigger] totals@[j].rank_id as int) < dict@.len(),
    ensures
        named_listing(dict@, totals@, r@),
{
    let mut r: Vec<(String, i64, i64)> = Vec::new();
    let mut t: usize = 0;
    proof {
        assert forall|name: Seq<char>| #[trigger] lists_name(r@, name) <==> named_in(dict@, totals@.take(0), name) by {}
    }
    while t < totals.len()
        invariant
            t <= totals@.len(),
            forall|j: int| 0 <= j < totals@.len() ==> (#[trigger] totals@[j].rank_id as int) < dict@.len(),
            named_listing(dict@, totals@.take(t as int), r@),
        decreases totals@.len() - t,
    {
        let tot = totals[t];
        let name = dict[tot.rank_id as usize].clone();
        let ghost pre = totals@.take(t as int);
        let ghost ext = totals@.take(t + 1);
        let ghost nv = name@;
        proof {
            assert(ext =~= pre.push(tot));
            assert(rank_name(dict@, tot) == nv);
            assert forall|n2: Seq<char>| #[trigger] named_in(dict@, ext, n2) <==> (named_in(dict@, pre, n2) || n2 == nv) by {
                if named_in(dict@, ext, n2) && n2 != nv {
                    let j = choose|j: int| 0 <= j < ext.len() && #[trigger] rank_name(dict@, ext[j]) == n2;
                    assert(pre[j] == ext[j]);
                }
                if named_in(dict@, pre, n2) {
                    let j = choose|j: int| 0 <= j < pre.len() && #[trigger] rank_name(dict@, pre[j]) == n2;
                    assert(ext[j] == pre[j]);
                }
                if n2 == nv {
                    assert(rank_name(dict@, ext[t as int]) == n2);
                }
            }
            assert forall|n2: Seq<char>, j: int| #[trigger] first_named(dict@, pre, n2, j) implies first_named(dict@, ext, n2, j) by {
                assert forall|i: int| 0 <= i < j implies #[trigger] rank_name(dict@, ext[i]) != n2 by {
                    assert(ext[i] == pre[i]);
                }
                assert(ext[j] == pre[j]);
            }
        }
        let nb = name.as_str().as_bytes();
        let mut pos: usize = 0;
        loop
            invariant
                pos <= r@.len(),
                nb@ == utf8(nv),
                forall|a: int| 0 <= a < pos ==> #[trigger] bytes_less(utf8(r@[a].0@), utf8(nv)),
            ensures
                pos <= r@.len(),
                forall|a: int| 0 <= a < pos ==> #[trigger] bytes_less(utf8(r@[a].0@), utf8(nv)),
                pos < r@.len() ==> !bytes_less(utf8(r@[pos as int].0@), utf8(nv)),
            decreases r@.len() - pos,
        {
            if pos >= r.len() {
                break;
            }
            let order = compare_bytes(r[pos].0.as_str().as_bytes(), nb);
            if order != -1 {
                break;
            }
            pos += 1;
        }
        if pos < r.len() && compare_bytes(r[pos].0.as_str().as_bytes(), nb) == 0 {
            proof {
                lemma_utf8_injective(r@[pos as int].0@, nv);
                assert(lists_name(r@, nv));
                assert forall|n2: Seq<char>| #[trigger] lists_name(r@, n2) <==> named_in(dict@, ext, n2) by {
                    if n2 == nv {
                        assert(lists_name(r@, nv));
                        assert(named_in(dict@, ext, nv));
                    } else {
                        assert(named_in(dict@, ext, n2) <==> named_in(dict@, pre, n2));
                    }
                }
                assert forall|i: int| 0 <= i < r@.len() implies entry_first(dict@, ext, #[trigger] r@[i]) by {
                    assert(entry_first(dict@, pre, r@[i]));
                    let j = choose|j: int|
                        first_named(dict@, pre, r@[i].0@, j) && r@[i].1 == pre[j].compute_us && r@[i].2 == pre[j].comm_us;
                    assert(first_named(dict@, ext, r@[i].0@, j));
                    assert(ext[j] == pre[j]);
                }
            }
        } else {
            let ghost before = r@;
            proof {
                if pos < before.len() {
                    assert(bytes_less(utf8(nv), utf8(before[pos as int].0@))) by {
                        assert(utf8(before[pos as int].0@) != utf8(nv));
                        lemma_bytes_less_total(utf8(before[pos as int].0@), utf8(nv));
                    }
                }
                assert(!named_in(dict@, pre, nv)) by {
                    if named_in(dict@, pre, nv) {
                        assert(lists_name(before, nv));
                        let i = choose|i: int| 0 <= i < before.len() && #[trigger] before[i].0@ == nv;
                        if i < pos {
                            assert(bytes_less(utf8(before[i].0@), utf8(nv)));
                            lemma_bytes_less_irreflexive(utf8(nv));
                        } else if i > pos {
                            assert(bytes_less(utf8(before[pos as int].0@), utf8(before[i].0@)));
                            lemma_bytes_less_transitive(utf8(nv), utf8(before[pos as int].0@), utf8(nv));
                            lemma_bytes_less_irreflexive(utf8(nv));
                        } else {
                            lemma_bytes_less_irreflexive(utf8(nv));
                        }
                    }
                }
            }
            r.insert(pos, (name, tot.compute_us, tot.comm_us));
            proof {
                let e = (name, tot.compute_us, tot.comm_us);
                assert(r@ == before.insert(pos as int, r@[pos as int]));
                assert(first_named(dict@, ext, nv, t as int)) by {
                    assert forall|i: int| 0 <= i < t implies #[trigger] rank_name(dict@, ext[i]) != nv by {
                        assert(ext[i] == pre[i]);
                        if rank_name(dict@, ext[i]) == nv {
                            assert(rank_name(dict@, pre[i]) == nv);
                        }
                    }
                }
                assert forall|a: int, b: int| 0 <= a < b < r@.len() implies bytes_less(utf8(r@[a].0@), utf8(r@[b].0@)) by {
                    if a < pos && b == pos {
                    } else if a == pos && b > pos {
                        assert(r@[b] == before[b - 1]);
                        if b - 1 > pos {
                            lemma_bytes_less_transitive(utf8(nv), utf8(before[pos as int].0@), utf8(before[b - 1].0@));
                        }
                    } else if a < pos && b > pos {
                        assert(r@[a] == before[a]);
                        assert(r@[b] == before[b - 1]);
                        if b - 1 > pos {
                            lemma_bytes_less_transitive(utf8(nv), utf8(before[pos as int].0@), utf8(before[b - 1].0@));
                        }
                        lemma_bytes_less_transitive(utf8(before[a].0@), utf8(nv), utf8(before[b - 1].0@));
                    } else if a > pos {
                        assert(r@[a] == before[a - 1] && r@[b] == before[b - 1]);
                    } else {
                        assert(r@[a] == before[a] && r@[b] == before[b]);
                    }
                }
                assert forall|n2: Seq<char>| #[trigger] lists_name(r@, n2) <==> named_in(dict@, ext, n2) by {
                    if lists_name(r@, n2) {
                        let i = choose|i: int| 0 <= i < r@.len() && #[trigger] r@[i].0@ == n2;
                        if i < pos {
                            assert(before[i].0@ == n2);
                            assert(lists_name(before, n2));
                        } else if i > pos {
                            assert(before[i - 1].0@ == n2);
                            assert(lists_name(before, n2));
                        }
                    }
                    if lists_name(before, n2) {
                        let i = choose|i: int| 0 <= i < before.len() && #[trigger] before[i].0@ == n2;
                        if i < pos {
                            assert(r@[i].0@ == n2);
                        } else {
                            assert(r@[i + 1].0@ == n2);
                        }
                    }
                    if n2 == nv {
                        assert(r@[pos as int].0@ == n2);
                    }
                }
                assert forall|i: int| 0 <= i < r@.len() implies entry_first(dict@, ext, #[trigger] r@[i]) by {
                    if i == pos {
                        assert(ext[t as int] == tot);
                        assert(first_named(dict@, ext, r@[i].0@, t as int));
                    } else {
                        let bi = if i < pos { i } else { i - 1 };
                        assert(r@[i] == before[bi]);
                        assert(entry_first(dict@, pre, before[bi]));
                        let j = choose|j: int|
                            first_named(dict@, pre, before[bi].0@, j) && before[bi].1 == pre[j].compute_us && before[bi].2
                                == pre[j].comm_us;
                        assert(first_named(dict@, ext, r@[i].0@, j));
                        assert(ext[j] == pre[j]);
                    }
                }
            }
        }
        t += 1;
    }
    proof {
        assert(totals@.take(totals@.len() as int) =~= totals@);
    }
    r
}

/// `t` lists the compute and communication totals of every rank of the
/// rows, ranks ascending.
pub open spec fn rank_totals_of(rows: Seq<(u32, (i64, bool))>, t: Seq<RankTotals>) -> bool {
    &&& forall|a: int, b: int| 0 <= a < b < t.len() ==> t[a].rank_id < t[b].rank_id
    &&& forall|x: u32| #[trigger] total_ranks(t).contains(x) <==> has_rank(rows, x)
    &&& forall|j: int|
        0 <= j < t.len() ==> {
            let ev = rank_events(rows, (#[trigger] t[j]).rank_id);
            &&& t[j].compute_us == class_sum(ev, false)
            &&& t[j].comm_us == class_sum(ev, true)
        }
}

/// Every rank of the balance rows has a name among `n` dictionary entries,
/// and each class's running sums stay within `i64`.
pub open spec fn totals_rows_ok(rows: Seq<(u32, (i64, bool))>, n: nat) -> bool {
    &&& forall|x: u32| #[trigger] has_rank(rows, x) ==> (x as int) < n
    &&& forall|x: u32| has_rank(rows, x) ==> class_sums_fit(#[trigger] rank_events(rows, x))
}

/// Per-rank compute and communication totals of the rows `(rank, (dur,
/// is_comm))` under their rank names, names ascending (where two ranks
/// share a name, the first one's totals).
pub fn named_rank_totals(rows: &Vec<(u32, (i64, bool))>, dict: &Vec<String>) -> (out: Vec<(String, i64, i64)>)
    requires
        totals_rows_ok(rows@, dict@.len()),
    ensures
        exists|t: Seq<RankTotals>| rank_totals_of(rows@, t) && named_listing(dict@, t, out@),
{
    let totals = rank_totals(rows);
    proof {
        assert forall|j: int| 0 <= j < totals@.len() implies (#[trigger] totals@[j].rank_id as int) < dict@.len() by {
            assert(total_ranks(totals@)[j] == totals@[j].rank_id);
            assert(total_ranks(totals@).contains(totals@[j].rank_id));
        }
    }
    let out = named_totals(&totals, dict);
    proof {
        assert(rank_totals_of(rows@, totals@));
    }
    out
}

/// The sum of a list of values, every running sum within `i64`.
fn sum_values(v: &Vec<i64>) -> (total: i64)
    requires
        prefix_sums_fit(v@),
    ensures
        total == seq_sum(v@),
{
    let mut total: i64 = 0;
    let mut i: usize = 0;
    while i < v.len()
        invariant
            i <= v@.len(),
            prefix_sums_fit(v@),
            total == seq_sum(v@.take(i as int)),
        decreases v@.len() - i,
    {
        proof {
            assert(v@.take(i + 1).drop_last() =~= v@.take(i as int));
            assert(i64::MIN <= seq_sum(v@.take(i + 1)) <= i64::MAX);
        }
        total = total + v[i];
        i += 1;
    }
    proof {
        assert(v@.take(v@.len() as int) =~= v@);
    }
    total
}

/// `e` lists, for every key of the rows `(key, value)` in ascending order,
/// the key's name and the sum of its values.
pub open spec fn key_sums(names: Seq<String>, rows: Seq<(u32, i64)>, e: Seq<(String, i64)>) -> bool {
    exists|ids: Seq<u32>|
        {
            &&& ids.len() == e.len()
            &&& forall|a: int, b: int| 0 <= a < b < ids.len() ==> ids[a] < ids[b]
            &&& forall|x: u32| #[trigger] ids.contains(x) <==> has_rank(rows, x)
            &&& forall|j: int|
                0 <= j < ids.len() ==> (#[trigger] e[j]).0 == names[ids[j] as int] && e[j].1 == seq_sum(
                    rank_events(rows, ids[j]),
                )
        }
}

/// Every key of the rows has a name among `n`, and its running sums stay
/// within `i64`.
pub open spec fn sums_rows_ok(rows: Seq<(u32, i64)>, n: nat) -> bool {
    &&& forall|x: u32| #[trigger] has_rank(rows, x) ==> (x as int) < n
    &&& forall|x: u32| has_rank(rows, x) ==> prefix_sums_fit(#[trigger] rank_events(rows, x))
}

/// The heaviest keys of the rows `(key, value)`: each key's name with the
/// sum of its values, largest sums first, at most [`HOTSPOT_LIMIT`].
pub fn heaviest_keys(rows: &Vec<(u32, i64)>, names: &Vec<String>) -> (out: Vec<(String, i64)>)
    requires
        sums_rows_ok(rows@, names@.len()),
    ensures
        exists|e: Seq<(String, i64)>| key_sums(names@, rows@, e) && top_of(e, out@),
{
    let (ids, mut groups) = group_by_rank(rows);
    let ghost gv = groups@.map(|_j: int, g: Vec<i64>| g@);
    let mut entries: Vec<(String, i64)> = Vec::new();
    let mut j: usize = 0;
    while j < ids.len()
        invariant
            groups_of(rows@, ids@, gv),
            groups@.len() == ids@.len(),
            forall|k: int| j <= k < groups@.len() ==> #[trigger] groups@[k]@ == gv[k],
            forall|x: u32| #[trigger] has_rank(rows@, x) ==> (x as int) < names@.len(),
            forall|x: u32| has_rank(rows@, x) ==> prefix_sums_fit(#[trigger] rank_events(rows@, x)),
            j <= ids@.len(),
            entries@.len() == j,
            forall|k: int|
                0 <= k < j ==> (#[trigger] entries@[k]).0 == names@[ids@[k] as int] && entries@[k].1 == seq_sum(
                    rank_events(rows@, ids@[k]),
                ),
        decreases ids@.len() - j,
    {
        let id = ids[j];
        let mut vals: Vec<i64> = Vec::new();
        std::mem::swap(&mut vals, &mut groups[j]);
        proof {
            assert(gv[j as int] == rank_events(rows@, id));
            assert(ids@.contains(id));
        }
        let total = sum_values(&vals);
        let name = names[id as usize].clone();
        entries.push((name, total));
        j += 1;
    }
    let ghost e = entries@;
    let out = top_by_total(entries, HOTSPOT_LIMIT);
    proof {
        assert(key_sums(names@, rows@, e));
        assert(top_of(e, out@));
    }
    out
}

/// Whether every rank of the rows is below `n`.
pub fn ranks_below<T: Copy>(rows: &Vec<(u32, T)>, n: usize) -> (b: bool)
    ensures
        b == (forall|x: u32| #[trigger] has_rank(rows@, x) ==> (x as int) < n),
{
    let mut t: usize = 0;
    while t < rows.len()
        invariant
            t <= rows@.len(),
            forall|i: int| 0 <= i < t ==> (#[trigger] rows@[i].0 as int) < n,
        decreases rows@.len() - t,
    {
        if rows[t].0 as usize >= n {
            proof {
                assert(has_rank(rows@, rows@[t as int].0));
            }
            return false;
        }
        t += 1;
    }
    proof {
        assert forall|x: u32| #[trigger] has_rank(rows@, x) implies (x as int) < n by {
            let i = choose|i: int| 0 <= i < rows@.len() && #[trigger] rows@[i].0 == x;
        }
    }
    true
}

/// Whether the sweep over sorted kernels stays within `i64` (see
/// [`busy_fits`]).
fn sweep_fits(s: &Vec<(i64, i64)>) -> (b: bool)
    ensures
        b == busy_fits(s@),
{
    if s.len() == 0 {
        return true;
    }
    let first = s[0].0;
    let mut last_end: i64 = first;
    let mut window_end: i64 = first;
    let mut busy: i64 = 0;
    let mut k: usize = 0;
    proof {
        assert(s@.take(0) =~= Seq::<(i64, i64)>::empty());
    }
    while k < s.len()
        invariant
            s@.len() > 0,
            first == s@[0].0,
            k <= s@.len(),
            (last_end as int, window_end as int, busy as int) == busy_sweep(first, s@.take(k as int)),
            forall|j: int| 0 <= j < k ==> #[trigger] sweep_step_fits(busy_sweep(first, s@.take(j)), s@[j].0, s@[j].1),
        decreases s@.len() - k,
    {
        let (ts, dur) = s[k];
        let end: i128 = ts as i128 + dur as i128;
        let a: i128 = busy as i128 + dur as i128;
        let c: i128 = end - window_end as i128;
        let d: i128 = busy as i128 + c;
        let lo: i128 = -0x8000_0000_0000_0000i128;
        let hi: i128 = 0x7fff_ffff_ffff_ffffi128;
        if !(lo <= end && end <= hi && lo <= a && a <= hi && lo <= c && c <= hi && lo <= d && d <= hi) {
            proof {
                assert(!sweep_step_fits(busy_sweep(first, s@.take(k as int)), s@[k as int].0, s@[k as int].1));
            }
            return false;
        }
        let e = end as i64;
        if e > last_end {
            last_end = e;
        }
        if ts > window_end {
            busy = busy + dur;
            window_end = e;
        } else if e > window_end {
            busy = busy + (e - window_end);
            window_end = e;
        }
        proof {
            assert(s@.take(k + 1).drop_last() =~= s@.take(k as int));
            assert(s@.take(k + 1).last() == (ts, dur));
        }
        k += 1;
    }
    proof {
        assert(s@.take(s@.len() as int) =~= s@);
    }
    let span: i128 = last_end as i128 - first as i128;
    span <= 0x7fff_ffff_ffff_ffffi128 && span >= -0x8000_0000_0000_0000i128
}

/// Whether every rank's sweep of the kernel rows `(rank, (ts, dur))`
/// stays within `i64`.
pub fn busy_fits_all(rows: &Vec<(u32, (i64, i64))>) -> (b: bool)
    ensures
        b == (forall|x: u32| has_rank(rows@, x) ==> busy_fits(sorted_pairs(#[trigger] rank_events(rows@, x)))),
{
    let (ids, mut groups) = group_by_rank(rows);
    let ghost gv = groups@.map(|_j: int, g: Vec<(i64, i64)>| g@);
    let mut j: usize = 0;
    while j < ids.len()
        invariant
            groups_of(rows@, ids@, gv),
            groups@.len() == ids@.len(),
            forall|k: int| j <= k < groups@.len() ==> #[trigger] groups@[k]@ == gv[k],
            j <= ids@.len(),
            forall|k: int| 0 <= k < j ==> busy_fits(sorted_pairs(#[trigger] rank_events(rows@, ids@[k]))),
        decreases ids@.len() - j,
    {
        let mut events: Vec<(i64, i64)> = Vec::new();
        std::mem::swap(&mut events, &mut groups[j]);
        proof {
            assert(events@ == gv[j as int]);
            assert(gv[j as int] == rank_events(rows@, ids@[j as int]));
        }
        let sorted = crate::sort::sort_pairs(events);
        if !sweep_fits(&sorted) {
            proof {
                assert(has_rank(rows@, ids@[j as int])) by {
                    assert(ids@.contains(ids@[j as int]));
                }
            }
            return false;
        }
        j += 1;
    }
    proof {
        assert forall|x: u32| has_rank(rows@, x) implies busy_fits(sorted_pairs(#[trigger] rank_events(rows@, x))) by {
            assert(ids@.contains(x));
            let k = choose|k: int| 0 <= k < ids@.len() && ids@[k] == x;
        }
    }
    true
}

/// Whether every running sum of each class of `(dur, is_comm)` events
/// stays within `i64`.
fn class_sums_fit_check(events: &Vec<(i64, bool)>) -> (b: bool)
    ensures
        b == class_sums_fit(events@),
{
    let mut compute: i128 = 0;
    let mut comm: i128 = 0;
    let mut i: usize = 0;
    proof {
        assert(events@.take(0) =~= Seq::<(i64, bool)>::empty());
    }
    while i < events.len()
        invariant
            i <= events@.len(),
            compute == class_sum(events@.take(i as int), false),
            comm == class_sum(events@.take(i as int), true),
            forall|k: int| 0 <= k <= i ==> fits_i64(#[trigger] class_sum(events@.take(k), true)),
            forall|k: int| 0 <= k <= i ==> fits_i64(#[trigger] class_sum(events@.take(k), false)),
        decreases events@.len() - i,
    {
        let (dur, is_comm) = events[i];
        proof {
            assert(events@.take(i + 1).drop_last() =~= events@.take(i as int));
        }
        if is_comm {
            comm = comm + dur as i128;
        } else {
            compute = compute + dur as i128;
        }
        proof {
            assert(comm == class_sum(events@.take(i + 1), true));
            assert(compute == class_sum(events@.take(i + 1), false));
        }
        if comm > 0x7fff_ffff_ffff_ffffi128 || comm < -0x8000_0000_0000_0000i128 || compute > 0x7fff_ffff_ffff_ffffi128
            || compute < -0x8000_0000_0000_0000i128 {
            proof {
                assert(!fits_i64(class_sum(events@.take(i + 1), true)) || !fits_i64(class_sum(events@.take(i + 1), false)));
            }
            return false;
        }
        i += 1;
    }
    proof {
        assert(events@.take(events@.len() as int) =~= events@);
    }
    true
}

/// Whether, for every rank of the rows `(rank, (dur, is_comm))`, every
/// running sum of each class stays within `i64`.
pub fn class_sums_fit_all(rows: &Vec<(u32, (i64, bool))>) -> (b: bool)
    ensures
        b == (forall|x: u32| has_rank(rows@, x) ==> class_sums_fit(#[trigger] rank_events(rows@, x))),
{
    let (ids, mut groups) = group_by_rank(rows);
    let ghost gv = groups@.map(|_j: int, g: Vec<(i64, bool)>| g@);
    let mut j: usize = 0;
    while j < ids.len()
        invariant
            groups_of(rows@, ids@, gv),
            groups@.len() == ids@.len(),
            forall|k: int| j <= k < groups@.len() ==> #[trigger] groups@[k]@ == gv[k],
            j <= ids@.len(),
            forall|k: int| 0 <= k < j ==> class_sums_fit(#[trigger] rank_events(rows@, ids@[k])),
        decreases ids@.len() - j,
    {
        let mut events: Vec<(i64, bool)> = Vec::new();
        std::mem::swap(&mut events, &mut groups[j]);
        proof {
            assert(events@ == gv[j as int]);
            assert(gv[j as int] == rank_events(rows@, ids@[j as int]));
        }
        if !class_sums_fit_check(&events) {
            proof {
                assert(ids@.contains(ids@[j as int]));
            }
            return false;
        }
        j += 1;
    }
    proof {
        assert forall|x: u32| has_rank(rows@, x) implies class_sums_fit(#[trigger] rank_events(rows@, x)) by {
            assert(ids@.contains(x));
            let k = choose|k: int| 0 <= k < ids@.len() && ids@[k] == x;
        }
    }
    true
}

/// Whether every running sum of a list of values stays within `i64`.
fn prefix_sums_fit_check(v: &Vec<i64>) -> (b: bool)
    ensures
        b == prefix_sums_fit(v@),
{
    let mut total: i128 = 0;
    let mut i: usize = 0;
    proof {
        assert(v@.take(0) =~= Seq::<i64>::empty());
    }
    while i < v.len()
        invariant
            i <= v@.len(),
            total == seq_sum(v@.take(i as int)),
            forall|k: int| 0 <= k <= i ==> i64::MIN <= #[trigger] seq_sum(v@.take(k)) <= i64::MAX,
        decreases v@.len() - i,
    {
        proof {
            assert(v@.take(i + 1).drop_last() =~= v@.take(i as int));
        }
        total = total + v[i] as i128;
        proof {
            assert(total == seq_sum(v@.take(i + 1)));
        }
        if total > 0x7fff_ffff_ffff_ffffi128 || total < -0x8000_0000_0000_0000i128 {
            proof {
                assert(!(i64::MIN <= seq_sum(v@.take(i + 1)) <= i64::MAX));
            }
            return false;
        }
        i += 1;
    }
    proof {
        assert(v@.take(v@.len() as int) =~= v@);
    }
    true
}

/// Whether, for every key of the rows `(key, value)`, every running sum
/// of its values stays within `i64`.
pub fn prefix_sums_fit_all(rows: &Vec<(u32, i64)>) -> (b: bool)
    ensures
        b == (forall|x: u32| has_rank(rows@, x) ==> prefix_sums_fit(#[trigger] rank_events(rows@, x))),
{
    let (ids, mut groups) = group_by_rank(rows);
    let ghost gv = groups@.map(|_j: int, g: Vec<i64>| g@);
    let mut j: usize = 0;
    while j < ids.len()
        invariant
            groups_of(rows@, ids@, gv),
            groups@.len() == ids@.len(),
            forall|k: int| j <= k < groups@.len() ==> #[trigger] groups@[k]@ == gv[k],
            j <= ids@.len(),
            forall|k: int| 0 <= k < j ==> prefix_sums_fit(#[trigger] rank_events(rows@, ids@[k])),
        decreases ids@.len() - j,
    {
        let mut vals: Vec<i64> = Vec::new();
        std::mem::swap(&mut vals, &mut groups[j]);
        proof {
            assert(vals@ == gv[j as int]);
            assert(gv[j as int] == rank_events(rows@, ids@[j as int]));
        }
        if !prefix_sums_fit_check(&vals) {
            proof {
                assert(ids@.contains(ids@[j as int]));
            }
            return false;
        }
        j += 1;
    }
    proof {
        assert forall|x: u32| has_rank(rows@, x) implies prefix_sums_fit(#[trigger] rank_events(rows@, x)) by {
            assert(ids@.contains(x));
            let k = choose|k: int| 0 <= k < ids@.len() && ids@[k] == x;
        }
    }
    true
}

/// Every rank of the kernel rows has a name among `n` dictionary entries,
/// and its sweep stays within `i64`.
pub open spec fn busy_rows_ok(rows: Seq<(u32, (i64, i64))>, n: nat) -> bool {
    &&& forall|x: u32| #[trigger] has_rank(rows, x) ==> (x as int) < n
    &&& forall|x: u32| has_rank(rows, x) ==> busy_fits(sorted_pairs(#[trigger] rank_events(rows, x)))
}

/// The rank ids of named figures.
pub open spec fn named_ranks(v: Seq<(String, RankBusy)>) -> Seq<u32> {
    v.map(|_j: int, e: (String, RankBusy)| e.1.rank_id)
}

/// `out` lists the busy time, span and kernel count of every rank of the
/// rows, ranks ascending, each with its name.
pub open spec fn named_busy_of(rows: Seq<(u32, (i64, i64))>, dict: Seq<String>, out: Seq<(String, RankBusy)>) -> bool {
    &&& forall|a: int, b: int| 0 <= a < b < out.len() ==> out[a].1.rank_id < out[b].1.rank_id
    &&& forall|x: u32| #[trigger] named_ranks(out).contains(x) <==> has_rank(rows, x)
    &&& forall|j: int|
        0 <= j < out.len() ==> {
            let e = #[trigger] out[j];
            let ev = rank_events(rows, e.1.rank_id);
            &&& e.0 == dict[e.1.rank_id as int]
            &&& (e.1.busy_us as int, e.1.total_span_us as int) == busy_span(ev)
            &&& e.1.kernel_count == ev.len()
        }
}

/// The busy time, span and kernel count of every rank of the kernel rows
/// `(rank, (ts, dur))`, ranks ascending, each with its name.
pub fn named_rank_busy(rows: &Vec<(u32, (i64, i64))>, dict: &Vec<String>) -> (out: Vec<(String, RankBusy)>)
    requires
        busy_rows_ok(rows@, dict@.len()),
    ensures
        named_busy_of(rows@, dict@, out@),
{
    let stats = rank_busy(rows);
    let mut out: Vec<(String, RankBusy)> = Vec::new();
    let mut j: usize = 0;
    while j < stats.len()
        invariant
            forall|x: u32| #[trigger] has_rank(rows@, x) ==> (x as int) < dict@.len(),
            forall|x: u32| #[trigger] busy_ranks(stats@).contains(x) <==> has_rank(rows@, x),
            j <= stats@.len(),
            out@.map(|_j: int, e: (String, RankBusy)| e.1) == stats@.take(j as int),
            forall|k: int| 0 <= k < out@.len() ==> #[trigger] out@[k].0 == dict@[out@[k].1.rank_id as int],
        decreases stats@.len() - j,
    {
        let b = stats[j];
        proof {
            assert(busy_ranks(stats@)[j as int] == b.rank_id);
            assert(busy_ranks(stats@).contains(b.rank_id));
        }
        let name = dict[b.rank_id as usize].clone();
        let ghost before = out@;
        out.push((name, b));
        j += 1;
        proof {
            assert(out@.map(|_j: int, e: (String, RankBusy)| e.1) =~= before.map(|_j: int, e: (String, RankBusy)| e.1).push(b));
            assert(stats@.take(j as int) =~= stats@.take(j - 1).push(b));
            assert forall|k: int| 0 <= k < out@.len() implies #[trigger] out@[k].0 == dict@[out@[k].1.rank_id as int] by {
                if k < before.len() {
                    assert(out@[k] == before[k]);
                }
            }
        }
    }
    proof {
        assert(stats@.take(stats@.len() as int) =~= stats@);
        let m = out@.map(|_j: int, e: (String, RankBusy)| e.1);
        assert forall|j2: int| 0 <= j2 < out@.len() implies #[trigger] out@[j2].1 == stats@[j2] by {
            assert(m[j2] == out@[j2].1);
        }
        assert(named_ranks(out@) =~= busy_ranks(stats@));
        assert forall|j2: int| 0 <= j2 < out@.len() implies {
            let e = #[trigger] out@[j2];
            let ev = rank_events(rows@, e.1.rank_id);
            &&& e.0 == dict@[e.1.rank_id as int]
            &&& (e.1.busy_us as int, e.1.total_span_us as int) == busy_span(ev)
            &&& e.1.kernel_count == ev.len()
        } by {
            assert(out@[j2].1 == stats@[j2]);
        }
    }
    out
}

} // verus!
