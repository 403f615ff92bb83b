//! Busy time and span of one rank's GPU kernels, swept in `(ts, dur)`
//! order: the core of the baselines' in-situ bubble rate.

use vstd::prelude::*;

use crate::analysis::compute_comm_overlap::fits_i64;
use crate::sort::{sort_pairs, sorted_pairs};

verus! {

/// The sweep state `(last_end, window_end, busy)` after the kernels of `s`,
/// taken in order, starting from a span and a busy window that both open
/// at `first`: a kernel after the window opens a new one, one that reaches
/// past it extends it, any other lies inside it.
pub open spec fn busy_sweep(first: i64, s: Seq<(i64, i64)>) -> (int, int, int)
    decreases s.len(),
{
    if s.len() == 0 {
        (first as int, first as int, 0)
    } else {
        let st = busy_sweep(first, s.drop_last());
        let ts = s.last().0 as int;
        let dur = s.last().1 as int;
        let end = ts + dur;
        let last_end = if end > st.0 {
            end
        } else {
            st.0
        };
        if ts > st.1 {
            (last_end, end, st.2 + dur)
        } else if end > st.1 {
            (last_end, end, st.2 + (end - st.1))
        } else {
            (last_end, st.1, st.2)
        }
    }
}

/// Every value computed when the kernel `(ts, dur)` is swept from state
/// `st` fits in an `i64`.
pub open spec fn sweep_step_fits(st: (int, int, int), ts: i64, dur: i64) -> bool {
    let end = ts + dur;
    &&& fits_i64(end)
    &&& fits_i64(st.2 + dur)
    &&& fits_i64(end - st.1)
    &&& fits_i64(st.2 + (end - st.1))
}

/// The sweep over `s` (from its first start) stays within `i64`, span
/// included.
pub open spec fn busy_fits(s: Seq<(i64, i64)>) -> bool {
    s.len() > 0 ==> {
        &&& forall|k: int| 0 <= k < s.len() ==> #[trigger] sweep_step_fits(busy_sweep(s[0].0, s.take(k)), s[k].0, s[k].1)
        &&& fits_i64(busy_sweep(s[0].0, s).0 - s[0].0)
    }
}

/// The busy time and the span `(busy, span)` of one rank's kernels
/// `(ts, dur)`: sorted, then swept from the first start; `(0, 0)` without
/// kernels.
pub fn busy_and_span(events: Vec<(i64, i64)>) -> (r: (i64, i64))
    requires
        busy_fits(sorted_pairs(events@)),
    ensures
        sorted_pairs(events@).len() == 0 ==> r == (0i64, 0i64),
        sorted_pairs(events@).len() > 0 ==> {
            let s = sorted_pairs(events@);
            let st = busy_sweep(s[0].0, s);
            r.0 == st.2 && r.1 == st.0 - s[0].0
        },
{
    let ev = sort_pairs(events);
    let ghost s = ev@;
    if ev.len() == 0 {
        return (0, 0);
    }
    let first_ts = ev[0].0;
    let mut last_end: i64 = first_ts;
    let mut busy_window_end: i64 = first_ts;
    let mut busy_total: i64 = 0;
    let mut k: usize = 0;
    proof {
        assert(s.take(0) =~= Seq::<(i64, i64)>::empty());
    }
    while k < ev.len()
        invariant
            s == ev@,
            s.len() > 0,
            first_ts == s[0].0,
            busy_fits(s),
            k <= s.len(),
            (last_end as int, busy_window_end as int, busy_total as int) == busy_sweep(first_ts, s.take(k as int)),
        decreases s.len() - k,
    {
        let (ts, dur) = ev[k];
        proof {
            assert(sweep_step_fits(busy_sweep(s[0].0, s.take(k as int)), s[k as int].0, s[k as int].1));
            assert(s.take(k + 1).drop_last() =~= s.take(k as int));
            assert(s.take(k + 1).last() == (ts, dur));
        }
        let end = ts + dur;
        if end > last_end {
            last_end = end;
        }
        if ts > busy_window_end {
            busy_total = busy_total + dur;
            busy_window_end = end;
        } else if end > busy_window_end {
            busy_total = busy_total + (end - busy_window_end);
            busy_window_end = end;
        }
        k += 1;
    }
    proof {
        assert(s.take(s.len() as int) =~= s);
    }
    (busy_total, last_end - first_ts)
}

/// Kernels in `(ts, dur)` order with non-negative durations: the sweep's
/// busy time lies between 0 and the span from the first start to the last
/// end, so the bubble time is never negative.
pub proof fn lemma_busy_within_span(first: i64, s: Seq<(i64, i64)>)
    requires
        forall|k: int| 0 <= k < s.len() ==> first <= (#[trigger] s[k]).0 && 0 <= s[k].1,
    ensures
        0 <= busy_sweep(first, s).2 <= busy_sweep(first, s).1 - first,
        first <= busy_sweep(first, s).1 <= busy_sweep(first, s).0,
    decreases s.len(),
{
    if s.len() > 0 {
        assert forall|k: int| 0 <= k < s.drop_last().len() implies first <= (#[trigger] s.drop_last()[k]).0
            && 0 <= s.drop_last()[k].1 by {
            assert(s.drop_last()[k] == s[k]);
        }
        lemma_busy_within_span(first, s.drop_last());
        assert(first <= s[s.len() - 1].0 && 0 <= s[s.len() - 1].1);
    }
}

} // verus!
