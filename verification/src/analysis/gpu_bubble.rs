//! GPU bubble rate per rank, by a streaming busy window over GPU kernels.
//! The bubble time is the span from the first kernel's start to the last
//! kernel's end minus the busy time (the union of the kernels).

use vstd::prelude::*;

use crate::analysis::compute_comm_overlap::fits_i64;
use crate::analysis::layer_gpu::{max_i64, merge_sorted, total_len};

verus! {

/// GPU bubble rate by rank.
#[derive(Clone, Copy, Debug, Default)]
pub struct GpuBubbleRate;

/// Per-rank streaming busy-window state.
#[derive(Clone, Copy, Debug)]
pub struct BubbleState {
    /// Start of the first kernel.
    pub first_ts: i64,
    /// Latest kernel end seen.
    pub last_end: i64,
    /// End of the current busy window.
    pub busy_window_end: i64,
    /// Busy time so far (union of the kernels).
    pub busy_total: i64,
    /// Number of kernels pushed.
    pub event_count: u64,
}

impl Default for BubbleState {
    /// No kernel seen yet.
    fn default() -> (s: Self)
        ensures
            s.first_ts == 0 && s.last_end == 0 && s.busy_window_end == 0 && s.busy_total == 0
                && s.event_count == 0,
    {
        BubbleState { first_ts: 0, last_end: 0, busy_window_end: 0, busy_total: 0, event_count: 0 }
    }
}

impl BubbleState {
    /// The state after the kernel `[ts, ts + dur)`: the first kernel opens
    /// the span and the busy window; a later one moves the span's end, and
    /// either opens a new busy window (after a gap), extends the current one,
    /// or lies inside it.
    pub open spec fn after(&self, ts: i64, dur: i64) -> BubbleState {
        let end = (ts + dur) as i64;
        if self.event_count == 0 {
            BubbleState { first_ts: ts, last_end: end, busy_window_end: end, busy_total: dur, event_count: 1 }
        } else {
            let last_end = if end > self.last_end { end } else { self.last_end };
            let count = (self.event_count + 1) as u64;
            if ts > self.busy_window_end {
                BubbleState {
                    first_ts: self.first_ts,
                    last_end,
                    busy_window_end: end,
                    busy_total: (self.busy_total + dur) as i64,
                    event_count: count,
                }
            } else if end > self.busy_window_end {
                BubbleState {
                    first_ts: self.first_ts,
                    last_end,
                    busy_window_end: end,
                    busy_total: (self.busy_total + (end - self.busy_window_end)) as i64,
                    event_count: count,
                }
            } else {
                BubbleState { last_end, event_count: count, ..*self }
            }
        }
    }

    /// Every value computed when the kernel is pushed fits its type.
    pub open spec fn push_fits(&self, ts: i64, dur: i64) -> bool {
        &&& fits_i64(ts + dur)
        &&& self.event_count < u64::MAX
        &&& fits_i64(ts + dur - self.busy_window_end)
        &&& fits_i64(self.busy_total + dur)
        &&& fits_i64(self.busy_total + (ts + dur - self.busy_window_end))
    }

    /// Adds the kernel `[ts, ts + dur)`.
    pub fn push_event(&mut self, ts: i64, dur: i64)
        requires
            old(self).push_fits(ts, dur),
        ensures
            *final(self) == old(self).after(ts, dur),
    {
        let end = ts + dur;
        if self.event_count == 0 {
            self.first_ts = ts;
            self.last_end = end;
            self.busy_window_end = end;
            self.busy_total = dur;
            self.event_count = 1;
            return;
        }
        self.event_count += 1;
        if end > self.last_end {
            self.last_end = end;
        }
        if ts > self.busy_window_end {
            self.busy_total += dur;
            self.busy_window_end = end;
        } else if end > self.busy_window_end {
            self.busy_total += end - self.busy_window_end;
            self.busy_window_end = end;
        }
    }

    /// The busy time never exceeds the time from the first kernel's start
    /// to the current busy window's end, which never passes the last end.
    pub open spec fn busy_bounded(&self) -> bool {
        self.event_count > 0 ==> {
            &&& 0 <= self.busy_total
            &&& self.busy_total <= self.busy_window_end - self.first_ts
            &&& self.busy_window_end <= self.last_end
        }
    }
}

/// Pushing kernels of non-negative duration keeps the busy time between 0
/// and the span from the first start to the last end, so the bubble time
/// (span minus busy time) is never negative and never exceeds the span.
pub proof fn lemma_bubble_busy_within_span(s: BubbleState, ts: i64, dur: i64)
    requires
        s.busy_bounded(),
        s.push_fits(ts, dur),
        dur >= 0,
    ensures
        s.after(ts, dur).busy_bounded(),
        0 <= s.after(ts, dur).busy_total <= s.after(ts, dur).last_end - s.after(ts, dur).first_ts,
{
}


/// The state after pushing the kernels `(ts, dur)` of `evs` in order into
/// a fresh state.
pub open spec fn bubble_run(evs: Seq<(i64, i64)>) -> BubbleState
    decreases evs.len(),
{
    if evs.len() == 0 {
        BubbleState { first_ts: 0, last_end: 0, busy_window_end: 0, busy_total: 0, event_count: 0 }
    } else {
        bubble_run(evs.drop_last()).after(evs.last().0, evs.last().1)
    }
}

/// The kernels `(ts, dur)` of `evs` as intervals `[ts, ts + dur)`.
pub open spec fn kernel_spans(evs: Seq<(i64, i64)>) -> Seq<(i64, i64)> {
    evs.map_values(|e: (i64, i64)| (e.0, (e.0 + e.1) as i64))
}

/// The latest end `ts + dur` among the kernels of a non-empty `evs`.
pub open spec fn max_end(evs: Seq<(i64, i64)>) -> int
    decreases evs.len(),
{
    if evs.len() <= 1 {
        evs[0].0 + evs[0].1
    } else {
        let m = max_end(evs.drop_last());
        let e = evs.last().0 + evs.last().1;
        if e > m {
            e
        } else {
            m
        }
    }
}

/// Every push of the run fits its types, and no duration is negative.
pub open spec fn bubble_run_fits(evs: Seq<(i64, i64)>) -> bool {
    forall|k: int|
        0 <= k < evs.len() ==> #[trigger] bubble_run(evs.take(k)).push_fits(evs[k].0, evs[k].1) && evs[k].1 >= 0
}

/// The streamed busy time is the measure of the union of the kernels:
/// after pushing kernels in order, the busy total is the summed length of
/// the intervals that the sweep of `union_len` merges them into, taken in
/// the same order (by start time, as the kernels arrive), the busy window
/// ends where the last merged interval ends, the count is the number of
/// kernels, the span starts at the first kernel and ends at the latest
/// end.
pub proof fn lemma_bubble_run_is_union(evs: Seq<(i64, i64)>)
    requires
        bubble_run_fits(evs),
    ensures
        bubble_run(evs).event_count == evs.len(),
        bubble_run(evs).busy_total == total_len(merge_sorted(kernel_spans(evs))),
        evs.len() > 0 ==> bubble_run(evs).first_ts == evs[0].0,
        evs.len() > 0 ==> bubble_run(evs).last_end == max_end(evs),
        evs.len() > 0 ==> merge_sorted(kernel_spans(evs)).len() > 0 && bubble_run(evs).busy_window_end == merge_sorted(
            kernel_spans(evs),
        ).last().1,
    decreases evs.len(),
{
    if evs.len() > 0 {
        let prev = evs.drop_last();
        assert forall|k: int| 0 <= k < prev.len() implies #[trigger] bubble_run(prev.take(k)).push_fits(prev[k].0, prev[k].1)
            && prev[k].1 >= 0 by {
            assert(prev.take(k) =~= evs.take(k));
            assert(bubble_run(evs.take(k)).push_fits(evs[k].0, evs[k].1));
        }
        lemma_bubble_run_is_union(prev);
        let n = evs.len() - 1;
        assert(evs.take(n) =~= prev);
        assert(bubble_run(evs.take(n)).push_fits(evs[n].0, evs[n].1));
        assert(kernel_spans(evs).drop_last() =~= kernel_spans(prev));
        let acc = merge_sorted(kernel_spans(prev));
        let iv = kernel_spans(evs).last();
        assert(iv == (evs[n].0, (evs[n].0 + evs[n].1) as i64));
        if n > 0 {
            assert(prev[0] == evs[0]);
            assert(prev.last() == evs[n - 1]);
            let last = acc.last();
            assert(acc.drop_last().push(last) =~= acc);
            if iv.0 <= last.1 {
                let nl = (last.0, max_i64(last.1, iv.1));
                assert(acc.drop_last().push(nl).drop_last() =~= acc.drop_last());
                assert(total_len(acc.drop_last().push(nl)) == total_len(acc.drop_last()) + (nl.1 - nl.0));
                assert(total_len(acc) == total_len(acc.drop_last()) + (last.1 - last.0));
            } else {
                assert(acc.push(iv).drop_last() =~= acc);
                assert(total_len(acc.push(iv)) == total_len(acc) + (iv.1 - iv.0));
            }
        } else {
            assert(prev.len() == 0);
            assert(acc =~= Seq::<(i64, i64)>::empty());
            assert(acc.push(iv).drop_last() =~= acc);
            assert(total_len(acc.push(iv)) == total_len(acc) + (iv.1 - iv.0));
        }
    }
}
} // verus!
