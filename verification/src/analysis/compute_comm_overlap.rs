//! Compute/communication overlap per rank, by a streaming window over GPU
//! kernels taken in timestamp order.

use vstd::prelude::*;

use crate::analysis::kernel_class::{is_nccl_kernel, spec_is_nccl_kernel};
use crate::analysis::layer_gpu::{
    col_overlap, inter_len, is_kernel_cat, max_i64, merge_sorted, merge_step, pairwise_overlap, row_overlap, separated, total_len,
};
use crate::arena::{span_of, ArenaNode, ArenaSlot, GpuRef, KernelsLaunchRef, NodeArena, NodeId};
use crate::compressor::decompress::{included, lemma_included_add, lemma_included_trans};
use crate::event::Template;

verus! {

/// Compute/communication overlap by rank.
#[derive(Clone, Copy, Debug, Default)]
pub struct ComputeCommOverlap;

/// The value fits in an `i64`.
pub open spec fn fits_i64(v: int) -> bool {
    i64::MIN <= v <= i64::MAX
}

/// The larger of two integers.
pub open spec fn max_int(a: int, b: int) -> int {
    if a >= b {
        a
    } else {
        b
    }
}

/// The smaller of two integers.
pub open spec fn min_int(a: int, b: int) -> int {
    if a <= b {
        a
    } else {
        b
    }
}

/// A busy window `(start, end)` and its running busy total after a kernel
/// `[ts, ts + dur)` is added: a kernel that starts after the window opens a
/// new one; one that reaches past it extends it; any other lies inside it.
pub open spec fn window_after(w: (i64, i64), total: i64, ts: i64, dur: i64) -> ((int, int), int) {
    let end = ts + dur;
    if ts > w.1 {
        ((ts as int, end), total + dur)
    } else if end > w.1 {
        ((w.0 as int, end), total + (end - w.1))
    } else {
        ((w.0 as int, w.1 as int), total as int)
    }
}

/// Every value computed when a kernel is added to a window fits in `i64`.
pub open spec fn window_fits(w: (i64, i64), total: i64, ts: i64, dur: i64) -> bool {
    let r = window_after(w, total, ts, dur);
    &&& fits_i64(ts + dur)
    &&& fits_i64(ts + dur - w.1)
    &&& fits_i64(r.1)
}

/// Per-rank streaming overlap state.
#[derive(Clone, Copy, Debug)]
pub struct OverlapState {
    /// `(start, end)` of the current compute window.
    pub comp_window: (i64, i64),
    /// `(start, end)` of the current communication window.
    pub comm_window: (i64, i64),
    /// Overlap time accumulated so far.
    pub overlap_accum: i64,
    /// End of the overlap counted so far.
    pub last_overlap_end: i64,
    /// Union length of the communication kernels.
    pub comm_total: i64,
    /// Union length of the compute kernels.
    pub compute_total: i64,
}

impl Default for OverlapState {
    /// Every window, total and position is zero.
    fn default() -> (s: Self)
        ensures
            s.comp_window == (0i64, 0i64),
            s.comm_window == (0i64, 0i64),
            s.overlap_accum == 0,
            s.last_overlap_end == 0,
            s.comm_total == 0,
            s.compute_total == 0,
    {
        OverlapState {
            comp_window: (0, 0),
            comm_window: (0, 0),
            overlap_accum: 0,
            last_overlap_end: 0,
            comm_total: 0,
            compute_total: 0,
        }
    }
}

impl OverlapState {
    /// Overlap accumulated and its end after the intersection of the two
    /// current windows is counted; only the part past the end counted so far
    /// is added.
    pub open spec fn overlap_after(&self) -> (int, int) {
        let os = max_int(self.comp_window.0 as int, self.comm_window.0 as int);
        let oe = min_int(self.comp_window.1 as int, self.comm_window.1 as int);
        if os < oe {
            if os >= self.last_overlap_end {
                (self.overlap_accum + (oe - os), oe)
            } else if oe > self.last_overlap_end {
                (self.overlap_accum + (oe - self.last_overlap_end), oe)
            } else {
                (self.overlap_accum as int, self.last_overlap_end as int)
            }
        } else {
            (self.overlap_accum as int, self.last_overlap_end as int)
        }
    }

    /// Every value computed when the overlap is counted fits in `i64`.
    pub open spec fn overlap_fits(&self) -> bool {
        let os = max_int(self.comp_window.0 as int, self.comm_window.0 as int);
        let oe = min_int(self.comp_window.1 as int, self.comm_window.1 as int);
        &&& fits_i64(oe - os)
        &&& fits_i64(oe - self.last_overlap_end)
        &&& fits_i64(self.overlap_after().0)
    }

    /// Counts the overlap of the two current windows.
    pub fn add_overlap(&mut self)
        requires
            old(self).overlap_fits(),
        ensures
            final(self).overlap_accum == old(self).overlap_after().0,
            final(self).last_overlap_end == old(self).overlap_after().1,
            final(self).comp_window == old(self).comp_window,
            final(self).comm_window == old(self).comm_window,
            final(self).comm_total == old(self).comm_total,
            final(self).compute_total == old(self).compute_total,
    {
        let overlap_start = if self.comp_window.0 >= self.comm_window.0 {
            self.comp_window.0
        } else {
            self.comm_window.0
        };
        let overlap_end = if self.comp_window.1 <= self.comm_window.1 {
            self.comp_window.1
        } else {
            self.comm_window.1
        };
        if overlap_start < overlap_end {
            if overlap_start >= self.last_overlap_end {
                self.overlap_accum += overlap_end - overlap_start;
                self.last_overlap_end = overlap_end;
            } else if overlap_end > self.last_overlap_end {
                self.overlap_accum += overlap_end - self.last_overlap_end;
                self.last_overlap_end = overlap_end;
            }
        }
    }

    /// The state once the kernel `[ts, ts + dur)` has been pushed into the
    /// communication window (`is_comm`) or the compute window, before the
    /// overlap is counted.
    pub open spec fn windows_after(&self, ts: i64, dur: i64, is_comm: bool) -> OverlapState {
        if is_comm {
            let r = window_after(self.comm_window, self.comm_total, ts, dur);
            OverlapState {
                comm_window: (r.0.0 as i64, r.0.1 as i64),
                comm_total: r.1 as i64,
                ..*self
            }
        } else {
            let r = window_after(self.comp_window, self.compute_total, ts, dur);
            OverlapState {
                comp_window: (r.0.0 as i64, r.0.1 as i64),
                compute_total: r.1 as i64,
                ..*self
            }
        }
    }

    /// Every value computed by `push_event` fits in `i64`.
    pub open spec fn push_fits(&self, ts: i64, dur: i64, is_comm: bool) -> bool {
        &&& if is_comm {
            window_fits(self.comm_window, self.comm_total, ts, dur)
        } else {
            window_fits(self.comp_window, self.compute_total, ts, dur)
        }
        &&& self.windows_after(ts, dur, is_comm).overlap_fits()
    }

    /// Adds the kernel `[ts, ts + dur)` to the communication window
    /// (`is_comm`) or the compute window, then counts the new overlap.
    pub fn push_event(&mut self, ts: i64, dur: i64, is_comm: bool)
        requires
            old(self).push_fits(ts, dur, is_comm),
        ensures
            ({
                let mid = old(self).windows_after(ts, dur, is_comm);
                &&& final(self).comp_window == mid.comp_window
                &&& final(self).comm_window == mid.comm_window
                &&& final(self).comm_total == mid.comm_total
                &&& final(self).compute_total == mid.compute_total
                &&& final(self).overlap_accum == mid.overlap_after().0
                &&& final(self).last_overlap_end == mid.overlap_after().1
            }),
    {
        let end = ts + dur;
        if is_comm {
            if ts > self.comm_window.1 {
                self.comm_total += dur;
                self.comm_window = (ts, end);
            } else if end > self.comm_window.1 {
                self.comm_total += end - self.comm_window.1;
                self.comm_window.1 = end;
            }
            self.add_overlap();
        } else {
            if ts > self.comp_window.1 {
                self.compute_total += dur;
                self.comp_window = (ts, end);
            } else if end > self.comp_window.1 {
                self.compute_total += end - self.comp_window.1;
                self.comp_window.1 = end;
            }
            self.add_overlap();
        }
    }
}

/// The kernel event `(ts, dur, is_comm)` of instance `inst` of template
/// `tmpl`, when that is a GPU template of category `kernel` and the
/// instance has a positive duration (a missing `ts` or `dur` reads as 0).
pub open spec fn kernel_event(t: Seq<Template>, tmpl: u32, inst: u32) -> Seq<(i64, i64, bool)> {
    if (tmpl as int) < t.len() {
        match t[tmpl as int] {
            Template::Gpu(g) => {
                let ts = if (inst as int) < g.ts@.len() {
                    g.ts@[inst as int]
                } else {
                    0
                };
                let dur = if (inst as int) < g.dur@.len() {
                    g.dur@[inst as int]
                } else {
                    0
                };
                if is_kernel_cat(g.cat) && dur > 0 {
                    seq![(ts, dur, spec_is_nccl_kernel(g.name_pattern@))]
                } else {
                    Seq::empty()
                }
            },
            Template::Cpu(_) => Seq::empty(),
        }
    } else {
        Seq::empty()
    }
}

/// The kernel events of a list of GPU references, in order.
pub open spec fn refs_kernels(t: Seq<Template>, refs: Seq<GpuRef>) -> Seq<(i64, i64, bool)>
    decreases refs.len(),
{
    if refs.len() == 0 {
        Seq::empty()
    } else {
        refs_kernels(t, refs.drop_last()) + kernel_event(t, refs.last().template, refs.last().instance)
    }
}

/// The kernel events of a list of multi-kernel launch references, in
/// order.
pub open spec fn launch_refs_kernels(t: Seq<Template>, refs: Seq<KernelsLaunchRef>) -> Seq<(i64, i64, bool)>
    decreases refs.len(),
{
    if refs.len() == 0 {
        Seq::empty()
    } else {
        launch_refs_kernels(t, refs.drop_last()) + kernel_event(t, refs.last().gpu_template, refs.last().gpu_instance)
    }
}

/// The kernel events under node `id`, depth first: children, then slots.
pub open spec fn node_kernels(a: NodeArena, t: Seq<Template>, id: int) -> Seq<(i64, i64, bool)>
    decreases a.nodes@.len() - id, 2int, 0int,
{
    if 0 <= id < a.nodes@.len() {
        match a.nodes@[id] {
            ArenaNode::Root { children } => ids_kernels(a, t, span_of(a.child_ids@, children), id),
            ArenaNode::Cpu { children, slots, .. } => ids_kernels(a, t, span_of(a.child_ids@, children), id)
                + ids_kernels(a, t, span_of(a.child_ids@, slots), id),
            ArenaNode::SameCpu { children, slots_start, slots_len, .. } => ids_kernels(
                a,
                t,
                span_of(a.child_ids@, children),
                id,
            ) + slots_kernels(a, t, a.slots@.subrange(slots_start as int, slots_start + slots_len), id),
            ArenaNode::Gpu { refs_start, refs_len } => refs_kernels(
                t,
                a.gpu_refs@.subrange(refs_start as int, refs_start + refs_len),
            ),
            ArenaNode::KernelLaunch { gpu_template, gpu_instance, .. } => kernel_event(t, gpu_template, gpu_instance),
            ArenaNode::KernelsLaunch { refs_start, refs_len, .. } => launch_refs_kernels(
                t,
                a.kernels_refs@.subrange(refs_start as int, refs_start + refs_len),
            ),
        }
    } else {
        Seq::empty()
    }
}

/// The kernel events under the child nodes `ids` of node `parent`, in
/// order (a child id that is not a node after `parent` contributes
/// nothing).
pub open spec fn ids_kernels(a: NodeArena, t: Seq<Template>, ids: Seq<NodeId>, parent: int) -> Seq<(i64, i64, bool)>
    decreases a.nodes@.len() - parent, 0int, ids.len(),
{
    if ids.len() == 0 {
        Seq::empty()
    } else {
        ids_kernels(a, t, ids.drop_last(), parent) + if parent < ids.last() as int && (ids.last() as int) < a.nodes@.len() {
            node_kernels(a, t, ids.last() as int)
        } else {
            Seq::empty()
        }
    }
}

/// The kernel events under the children of each slot of node `parent`.
pub open spec fn slots_kernels(a: NodeArena, t: Seq<Template>, slots: Seq<ArenaSlot>, parent: int) -> Seq<(i64, i64, bool)>
    decreases a.nodes@.len() - parent, 1int, slots.len(),
{
    if slots.len() == 0 {
        Seq::empty()
    } else {
        slots_kernels(a, t, slots.drop_last(), parent) + ids_kernels(
            a,
            t,
            span_of(a.child_ids@, slots.last().children),
            parent,
        )
    }
}

/// Appends the kernel event of instance `inst` of template `tmpl`, if it
/// has one.
fn push_kernel_event(templates: &Vec<Template>, tmpl: u32, inst: u32, out: &mut Vec<(i64, i64, bool)>)
    ensures
        final(out)@ == old(out)@ + kernel_event(templates@, tmpl, inst),
{
    if (tmpl as usize) < templates.len() {
        match &templates[tmpl as usize] {
            Template::Gpu(g) => {
                let is_kernel = match &g.cat {
                    Some(c) => {
                        let k = "kernel".to_owned();
                        *c == k
                    },
                    None => false,
                };
                proof {
                    assert(is_kernel == is_kernel_cat(g.cat));
                }
                if !is_kernel {
                    assert(old(out)@ + kernel_event(templates@, tmpl, inst) =~= old(out)@);
                    return;
                }
                let ts = match g.ts.get(inst as usize) {
                    Some(v) => v,
                    None => 0,
                };
                let dur = match g.dur.get(inst as usize) {
                    Some(v) => v,
                    None => 0,
                };
                if dur > 0 {
                    let is_comm = is_nccl_kernel(g.name_pattern.as_str());
                    out.push((ts, dur, is_comm));
                } else {
                    assert(old(out)@ + kernel_event(templates@, tmpl, inst) =~= old(out)@);
                }
            },
            Template::Cpu(_) => {
                assert(old(out)@ + kernel_event(templates@, tmpl, inst) =~= old(out)@);
            },
        }
    } else {
        assert(old(out)@ + kernel_event(templates@, tmpl, inst) =~= old(out)@);
    }
}

/// Walks the child nodes `ids` of node `parent`.
fn walk_child_ids(
    arena: &NodeArena,
    ids: &[NodeId],
    parent: NodeId,
    templates: &Vec<Template>,
    out: &mut Vec<(i64, i64, bool)>,
)
    requires
        arena.wf(),
        (parent as int) < arena.nodes@.len(),
        forall|j: int| 0 <= j < ids@.len() ==> parent < #[trigger] ids@[j] < arena.nodes@.len(),
    ensures
        final(out)@ == old(out)@ + ids_kernels(*arena, templates@, ids@, parent as int),
    decreases arena.nodes@.len() - parent, 0int,
{
    let mut k: usize = 0;
    while k < ids.len()
        invariant
            arena.wf(),
            k <= ids@.len(),
            (parent as int) < arena.nodes@.len(),
            forall|j: int| 0 <= j < ids@.len() ==> parent < #[trigger] ids@[j] < arena.nodes@.len(),
            out@ == old(out)@ + ids_kernels(*arena, templates@, ids@.take(k as int), parent as int),
        decreases ids@.len() - k,
    {
        let child = ids[k];
        proof {
            assert(ids@.take(k + 1).drop_last() =~= ids@.take(k as int));
            assert(ids@.take(k + 1).last() == child);
        }
        walk_gpu_instances_arena(arena, child, templates, out);
        k += 1;
    }
    proof {
        assert(ids@.take(ids@.len() as int) =~= ids@);
    }
}

/// Collects the kernel events `(ts, dur, is_comm)` under node `node_id`,
/// depth first, from the template table.
pub fn walk_gpu_instances_arena(
    arena: &NodeArena,
    node_id: NodeId,
    templates: &Vec<Template>,
    out: &mut Vec<(i64, i64, bool)>,
)
    requires
        arena.wf(),
        (node_id as int) < arena.nodes@.len(),
    ensures
        final(out)@ == old(out)@ + node_kernels(*arena, templates@, node_id as int),
    decreases arena.nodes@.len() - node_id, 1int,
{
    let ghost id = node_id as int;
    proof {
        assert(arena.node_ok(id));
    }
    match arena.get(node_id) {
        ArenaNode::Root { children } => {
            let ids = arena.children(*children);
            walk_child_ids(arena, ids, node_id, templates, out);
        },
        ArenaNode::Cpu { children, slots, .. } => {
            let (children, slots) = (*children, *slots);
            let ids = arena.children(children);
            walk_child_ids(arena, ids, node_id, templates, out);
            let ghost mid = out@;
            let sids = arena.children(slots);
            walk_child_ids(arena, sids, node_id, templates, out);
            assert(out@ =~= old(out)@ + node_kernels(*arena, templates@, id));
        },
        ArenaNode::SameCpu { children, slots_start, slots_len, .. } => {
            let (children, slots_start, slots_len) = (*children, *slots_start, *slots_len);
            let ids = arena.children(children);
            walk_child_ids(arena, ids, node_id, templates, out);
            let ghost mid = out@;
            let slots = arena.slots_slice(slots_start, slots_len);
            let mut k: usize = 0;
            while k < slots.len()
                invariant
                    arena.wf(),
                    arena.node_ok(id),
                    id == node_id,
                    id < arena.nodes@.len(),
                    arena.nodes@[id] matches ArenaNode::SameCpu { slots_start: ss, slots_len: sl, .. } && ss == slots_start && sl == slots_len,
                    slots@ == arena.slot_range(slots_start, slots_len),
                    k <= slots@.len(),
                    out@ == mid + slots_kernels(*arena, templates@, slots@.take(k as int), id),
                decreases slots@.len() - k,
            {
                let slot = slots[k];
                proof {
                    assert(slots@.take(k + 1).drop_last() =~= slots@.take(k as int));
                    assert(slots@.take(k + 1).last() == slot);
                    assert(slot == arena.slot_range(slots_start, slots_len)[k as int]);
                }
                let sids = arena.children(slot.children);
                walk_child_ids(arena, sids, node_id, templates, out);
                k += 1;
            }
            proof {
                assert(slots@.take(slots@.len() as int) =~= slots@);
            }
            assert(out@ =~= old(out)@ + node_kernels(*arena, templates@, id));
        },
        ArenaNode::Gpu { refs_start, refs_len } => {
            let (refs_start, refs_len) = (*refs_start, *refs_len);
            let refs = arena.gpu_refs_slice(refs_start, refs_len);
            let mut k: usize = 0;
            while k < refs.len()
                invariant
                    k <= refs@.len(),
                    out@ == old(out)@ + refs_kernels(templates@, refs@.take(k as int)),
                decreases refs@.len() - k,
            {
                let r = refs[k];
                proof {
                    assert(refs@.take(k + 1).drop_last() =~= refs@.take(k as int));
                    assert(refs@.take(k + 1).last() == r);
                }
                let ghost before = out@;
                push_kernel_event(templates, r.template, r.instance, out);
                assert(out@ =~= old(out)@ + refs_kernels(templates@, refs@.take(k + 1)));
                k += 1;
            }
            proof {
                assert(refs@.take(refs@.len() as int) =~= refs@);
            }
        },
        ArenaNode::KernelLaunch { gpu_template, gpu_instance, .. } => {
            push_kernel_event(templates, *gpu_template, *gpu_instance, out);
        },
        ArenaNode::KernelsLaunch { refs_start, refs_len, .. } => {
            let (refs_start, refs_len) = (*refs_start, *refs_len);
            let refs = arena.kernels_refs_slice(refs_start, refs_len);
            let mut k: usize = 0;
            while k < refs.len()
                invariant
                    k <= refs@.len(),
                    out@ == old(out)@ + launch_refs_kernels(templates@, refs@.take(k as int)),
                decreases refs@.len() - k,
            {
                let r = refs[k];
                proof {
                    assert(refs@.take(k + 1).drop_last() =~= refs@.take(k as int));
                    assert(refs@.take(k + 1).last() == r);
                }
                push_kernel_event(templates, r.gpu_template, r.gpu_instance, out);
                assert(out@ =~= old(out)@ + launch_refs_kernels(templates@, refs@.take(k + 1)));
                k += 1;
            }
            proof {
                assert(refs@.take(refs@.len() as int) =~= refs@);
            }
        },
    }
}


/// The state after one kernel `(ts, dur, is_comm)` is pushed (see
/// [`OverlapState::push_event`]).
pub open spec fn overlap_step(s: OverlapState, e: (i64, i64, bool)) -> OverlapState {
    let mid = s.windows_after(e.0, e.1, e.2);
    OverlapState { overlap_accum: mid.overlap_after().0 as i64, last_overlap_end: mid.overlap_after().1 as i64, ..mid }
}

/// The state after pushing the kernels of `evs` in order into the default
/// state.
pub open spec fn overlap_run(evs: Seq<(i64, i64, bool)>) -> OverlapState
    decreases evs.len(),
{
    if evs.len() == 0 {
        OverlapState {
            comp_window: (0, 0),
            comm_window: (0, 0),
            overlap_accum: 0,
            last_overlap_end: 0,
            comm_total: 0,
            compute_total: 0,
        }
    } else {
        overlap_step(overlap_run(evs.drop_last()), evs.last())
    }
}

/// Every push of the run fits its types.
pub open spec fn overlap_run_fits(evs: Seq<(i64, i64, bool)>) -> bool {
    forall|k: int| 0 <= k < evs.len() ==> #[trigger] overlap_run(evs.take(k)).push_fits(evs[k].0, evs[k].1, evs[k].2)
}

/// The intervals `[ts, ts + dur)` of the kernels of `evs` of one class
/// (communication when `comm`), in order.
pub open spec fn class_spans(evs: Seq<(i64, i64, bool)>, comm: bool) -> Seq<(i64, i64)>
    decreases evs.len(),
{
    if evs.len() == 0 {
        Seq::empty()
    } else if evs.last().2 == comm {
        class_spans(evs.drop_last(), comm).push((evs.last().0, (evs.last().0 + evs.last().1) as i64))
    } else {
        class_spans(evs.drop_last(), comm)
    }
}

/// The streamed union lengths are those of the sweep of `union_len`: after
/// pushing kernels in order, the compute (communication) total is the
/// summed length of the intervals into which the sweep merges the compute
/// (communication) kernels, taken in the same order after an empty interval
/// at time 0 (the window the state starts with); the current window is the
/// last merged interval.
pub proof fn lemma_overlap_run_totals(evs: Seq<(i64, i64, bool)>)
    requires
        overlap_run_fits(evs),
    ensures
        ({
            let st = overlap_run(evs);
            let comp = merge_sorted(seq![(0i64, 0i64)] + class_spans(evs, false));
            let comm = merge_sorted(seq![(0i64, 0i64)] + class_spans(evs, true));
            &&& comp.len() > 0 && st.comp_window == comp.last() && st.compute_total == total_len(comp)
            &&& comm.len() > 0 && st.comm_window == comm.last() && st.comm_total == total_len(comm)
        }),
    decreases evs.len(),
{
    let z = seq![(0i64, 0i64)];
    if evs.len() == 0 {
        assert(class_spans(evs, false) =~= Seq::<(i64, i64)>::empty());
        assert(class_spans(evs, true) =~= Seq::<(i64, i64)>::empty());
        assert(z + Seq::<(i64, i64)>::empty() =~= z);
        assert(z.drop_last() =~= Seq::<(i64, i64)>::empty());
        assert(merge_sorted(Seq::<(i64, i64)>::empty()) == Seq::<(i64, i64)>::empty());
        assert(z.last() == (0i64, 0i64));
        assert(Seq::<(i64, i64)>::empty().push((0i64, 0i64)) =~= seq![(0i64, 0i64)]);
        assert(merge_sorted(z) == seq![(0i64, 0i64)]);
        assert(total_len(seq![(0i64, 0i64)]) == total_len(Seq::<(i64, i64)>::empty()) + 0) by {
            assert(seq![(0i64, 0i64)].drop_last() =~= Seq::<(i64, i64)>::empty());
        }
    } else {
        let prev = evs.drop_last();
        assert forall|k: int| 0 <= k < prev.len() implies #[trigger] overlap_run(prev.take(k)).push_fits(prev[k].0, prev[k].1, prev[k].2) by {
            assert(prev.take(k) =~= evs.take(k));
            assert(overlap_run(evs.take(k)).push_fits(evs[k].0, evs[k].1, evs[k].2));
        }
        lemma_overlap_run_totals(prev);
        let n = evs.len() - 1;
        assert(evs.take(n) =~= prev);
        assert(overlap_run(evs.take(n)).push_fits(evs[n].0, evs[n].1, evs[n].2));
        let e = evs.last();
        let c = e.2;
        let iv = (e.0, (e.0 + e.1) as i64);
        let sp = class_spans(prev, c);
        assert(class_spans(evs, c) == sp.push(iv));
        assert(class_spans(evs, !c) == class_spans(prev, !c));
        assert((z + sp.push(iv)).drop_last() =~= z + sp);
        assert((z + sp.push(iv)).last() == iv);
        let acc = merge_sorted(z + sp);
        let last = acc.last();
        assert(acc.drop_last().push(last) =~= acc);
        if iv.0 <= last.1 {
            let nl = (last.0, max_i64(last.1, iv.1));
            assert(acc.drop_last().push(nl).drop_last() =~= acc.drop_last());
            assert(total_len(acc.drop_last().push(nl)) == total_len(acc.drop_last()) + (nl.1 - nl.0));
            assert(total_len(acc) == total_len(acc.drop_last()) + (last.1 - last.0));
        } else {
            assert(acc.push(iv).drop_last() =~= acc);
            assert(total_len(acc.push(iv)) == total_len(acc) + (iv.1 - iv.0));
        }
    }
}

/// A row gains the intersection with an interval pushed on the other side.
proof fn lemma_row_push(x: (i64, i64), b: Seq<(i64, i64)>, y: (i64, i64))
    ensures
        row_overlap(x, b.push(y)) == row_overlap(x, b) + inter_len(x, y),
    decreases b.len(),
{
    if b.len() == 0 {
        assert(b.push(y).drop_first() =~= Seq::<(i64, i64)>::empty());
        assert(b.push(y)[0] == y);
        assert(row_overlap(x, b.push(y).drop_first()) == 0);
    } else {
        assert(b.push(y).drop_first() =~= b.drop_first().push(y));
        assert(b.push(y)[0] == b[0]);
        lemma_row_push(x, b.drop_first(), y);
    }
}

/// A column gains the intersection with an interval pushed on its side.
proof fn lemma_col_push(a: Seq<(i64, i64)>, x: (i64, i64), y: (i64, i64))
    ensures
        col_overlap(a.push(x), y) == col_overlap(a, y) + inter_len(x, y),
    decreases a.len(),
{
    if a.len() == 0 {
        assert(a.push(x).drop_first() =~= Seq::<(i64, i64)>::empty());
        assert(a.push(x)[0] == x);
        assert(col_overlap(a.push(x).drop_first(), y) == 0);
    } else {
        assert(a.push(x).drop_first() =~= a.drop_first().push(x));
        assert(a.push(x)[0] == a[0]);
        lemma_col_push(a.drop_first(), x, y);
    }
}

/// Pushing an interval on the first side adds its row.
proof fn lemma_pairwise_push_a(a: Seq<(i64, i64)>, x: (i64, i64), b: Seq<(i64, i64)>)
    ensures
        pairwise_overlap(a.push(x), b) == pairwise_overlap(a, b) + row_overlap(x, b),
    decreases a.len(),
{
    if a.len() == 0 {
        assert(a.push(x).drop_first() =~= Seq::<(i64, i64)>::empty());
        assert(a.push(x)[0] == x);
        assert(pairwise_overlap(a.push(x).drop_first(), b) == 0);
    } else {
        assert(a.push(x).drop_first() =~= a.drop_first().push(x));
        assert(a.push(x)[0] == a[0]);
        lemma_pairwise_push_a(a.drop_first(), x, b);
    }
}

/// Pushing an interval on the second side adds its column.
proof fn lemma_pairwise_push_b(a: Seq<(i64, i64)>, b: Seq<(i64, i64)>, y: (i64, i64))
    ensures
        pairwise_overlap(a, b.push(y)) == pairwise_overlap(a, b) + col_overlap(a, y),
    decreases a.len(),
{
    if a.len() > 0 {
        lemma_row_push(a[0], b, y);
        lemma_pairwise_push_b(a.drop_first(), b, y);
    }
}

/// Intervals that end before `x` starts do not meet it.
proof fn lemma_row_before(x: (i64, i64), b: Seq<(i64, i64)>)
    requires
        forall|k: int| 0 <= k < b.len() ==> (#[trigger] b[k]).1 <= x.0,
    ensures
        row_overlap(x, b) == 0,
    decreases b.len(),
{
    if b.len() > 0 {
        assert(b[0].1 <= x.0);
        assert forall|k: int| 0 <= k < b.drop_first().len() implies (#[trigger] b.drop_first()[k]).1 <= x.0 by {
            assert(b[k + 1].1 <= x.0);
        }
        lemma_row_before(x, b.drop_first());
    }
}

/// Intervals that end before `y` starts do not meet it.
proof fn lemma_col_before(a: Seq<(i64, i64)>, y: (i64, i64))
    requires
        forall|k: int| 0 <= k < a.len() ==> (#[trigger] a[k]).1 <= y.0,
    ensures
        col_overlap(a, y) == 0,
    decreases a.len(),
{
    if a.len() > 0 {
        assert(a[0].1 <= y.0);
        assert forall|k: int| 0 <= k < a.drop_first().len() implies (#[trigger] a.drop_first()[k]).1 <= y.0 by {
            assert(a[k + 1].1 <= y.0);
        }
        lemma_col_before(a.drop_first(), y);
    }
}

/// Extending `l` past its end changes nothing of its intersection with
/// intervals that end by then.
proof fn lemma_row_extend(l: (i64, i64), e: i64, b: Seq<(i64, i64)>)
    requires
        e >= l.1,
        forall|k: int| 0 <= k < b.len() ==> (#[trigger] b[k]).1 <= l.1,
    ensures
        row_overlap((l.0, e), b) == row_overlap(l, b),
    decreases b.len(),
{
    if b.len() > 0 {
        assert(b[0].1 <= l.1);
        assert(inter_len((l.0, e), b[0]) == inter_len(l, b[0]));
        assert forall|k: int| 0 <= k < b.drop_first().len() implies (#[trigger] b.drop_first()[k]).1 <= l.1 by {
            assert(b[k + 1].1 <= l.1);
        }
        lemma_row_extend(l, e, b.drop_first());
    }
}

/// The same, on the second side.
proof fn lemma_col_extend(a: Seq<(i64, i64)>, m: (i64, i64), e: i64)
    requires
        e >= m.1,
        forall|k: int| 0 <= k < a.len() ==> (#[trigger] a[k]).1 <= m.1,
    ensures
        col_overlap(a, (m.0, e)) == col_overlap(a, m),
    decreases a.len(),
{
    if a.len() > 0 {
        assert(a[0].1 <= m.1);
        assert(inter_len(a[0], (m.0, e)) == inter_len(a[0], m));
        assert forall|k: int| 0 <= k < a.drop_first().len() implies (#[trigger] a.drop_first()[k]).1 <= m.1 by {
            assert(a[k + 1].1 <= m.1);
        }
        lemma_col_extend(a.drop_first(), m, e);
    }
}

/// Kernels in the order they are pushed: starts never decrease, none
/// starts before 0, and each lasts a positive time.
pub open spec fn run_in_order(evs: Seq<(i64, i64, bool)>) -> bool {
    &&& forall|i: int, j: int| 0 <= i <= j < evs.len() ==> (#[trigger] evs[i]).0 <= (#[trigger] evs[j]).0
    &&& forall|k: int| 0 <= k < evs.len() ==> 0 <= (#[trigger] evs[k]).0 && evs[k].1 > 0
}

/// The merged intervals of one class of the kernels (communication when
/// `comm`), after the empty interval at time 0 the state starts with.
pub open spec fn class_merged(evs: Seq<(i64, i64, bool)>, comm: bool) -> Seq<(i64, i64)> {
    merge_sorted(seq![(0i64, 0i64)] + class_spans(evs, comm))
}

/// What holds after each push: the accumulated overlap is the summed
/// intersection of the two merged lists, the current windows are their
/// last intervals, and the overlap counted so far ends where the current
/// windows' intersection ends, or before it starts when they do not meet.
spec fn overlap_inv(evs: Seq<(i64, i64, bool)>) -> bool {
    let st = overlap_run(evs);
    let c = class_merged(evs, false);
    let m = class_merged(evs, true);
    let cw = st.comp_window;
    let mw = st.comm_window;
    let os = max_int(cw.0 as int, mw.0 as int);
    let oe = min_int(cw.1 as int, mw.1 as int);
    &&& c.len() > 0 && m.len() > 0 && cw == c.last() && mw == m.last()
    &&& separated(c) && separated(m)
    &&& st.overlap_accum == pairwise_overlap(c, m)
    &&& (os < oe ==> st.last_overlap_end == oe)
    &&& (os >= oe ==> st.last_overlap_end <= os)
    &&& 0 <= cw.0 && 0 <= mw.0
    &&& (evs.len() == 0 ==> cw.0 == 0 && mw.0 == 0)
    &&& (evs.len() > 0 ==> cw.0 <= evs.last().0 && mw.0 <= evs.last().0)
}

/// The invariant holds after every push of kernels in order.
proof fn lemma_overlap_inv(evs: Seq<(i64, i64, bool)>)
    requires
        overlap_run_fits(evs),
        run_in_order(evs),
    ensures
        overlap_inv(evs),
    decreases evs.len(),
{
    let z = seq![(0i64, 0i64)];
    if evs.len() == 0 {
        assert(class_spans(evs, false) =~= Seq::<(i64, i64)>::empty());
        assert(class_spans(evs, true) =~= Seq::<(i64, i64)>::empty());
        assert(z + Seq::<(i64, i64)>::empty() =~= z);
        assert(z.drop_last() =~= Seq::<(i64, i64)>::empty());
        assert(merge_sorted(Seq::<(i64, i64)>::empty()) == Seq::<(i64, i64)>::empty());
        assert(Seq::<(i64, i64)>::empty().push((0i64, 0i64)) =~= z);
        assert(merge_sorted(z) == z);
        let c = class_merged(evs, false);
        assert(pairwise_overlap(c, c) == row_overlap((0i64, 0i64), z) + pairwise_overlap(c.drop_first(), c)) by {
            assert(c[0] == (0i64, 0i64));
        }
        assert(c.drop_first() =~= Seq::<(i64, i64)>::empty());
        assert(row_overlap((0i64, 0i64), z) == inter_len((0i64, 0i64), (0i64, 0i64)) + row_overlap((0i64, 0i64), z.drop_first()));
        assert(z.drop_first() =~= Seq::<(i64, i64)>::empty());
    } else {
        let prev = evs.drop_last();
        assert forall|k: int| 0 <= k < prev.len() implies #[trigger] overlap_run(prev.take(k)).push_fits(prev[k].0, prev[k].1, prev[k].2) by {
            assert(prev.take(k) =~= evs.take(k));
            assert(overlap_run(evs.take(k)).push_fits(evs[k].0, evs[k].1, evs[k].2));
        }
        assert forall|i: int, j: int| 0 <= i <= j < prev.len() implies (#[trigger] prev[i]).0 <= (#[trigger] prev[j]).0 by {
            assert(evs[i].0 <= evs[j].0);
        }
        assert forall|k: int| 0 <= k < prev.len() implies 0 <= (#[trigger] prev[k]).0 && prev[k].1 > 0 by {
            assert(0 <= evs[k].0 && evs[k].1 > 0);
        }
        lemma_overlap_inv(prev);
        lemma_overlap_run_totals(evs);
        let n = evs.len() - 1;
        assert(evs.take(n) =~= prev);
        assert(overlap_run(evs.take(n)).push_fits(evs[n].0, evs[n].1, evs[n].2));
        let e = evs.last();
        assert(0 <= e.0 && e.1 > 0) by {
            assert(0 <= evs[n].0 && evs[n].1 > 0);
        }
        if prev.len() > 0 {
            assert(prev.last().0 <= e.0) by {
                assert(evs[n - 1].0 <= evs[n].0);
            }
        }
        lemma_overlap_push(prev, e);
        assert(evs =~= prev.push(e));
    }
}

/// One push keeps the invariant.
proof fn lemma_overlap_push(prev: Seq<(i64, i64, bool)>, e: (i64, i64, bool))
    requires
        overlap_inv(prev),
        overlap_run(prev).push_fits(e.0, e.1, e.2),
        0 <= e.0,
        e.1 > 0,
        prev.len() > 0 ==> prev.last().0 <= e.0,
    ensures
        overlap_inv(prev.push(e)),
{
    let evs = prev.push(e);
    assert(evs.drop_last() =~= prev);
    assert(evs.last() == e);
    let z = seq![(0i64, 0i64)];
    let st0 = overlap_run(prev);
    let st = overlap_run(evs);
    assert(st == overlap_step(st0, e));
    let c = class_merged(prev, false);
    let m = class_merged(prev, true);
    let cw = st0.comp_window;
    let mw = st0.comm_window;
    let ts = e.0;
    let end = (e.0 + e.1) as i64;
    let iv = (ts, end);
    assert(cw.0 <= ts && mw.0 <= ts);
    let sp = class_spans(prev, e.2);
    assert(class_spans(evs, e.2) == sp.push(iv));
    assert(class_spans(evs, !e.2) == class_spans(prev, !e.2));
    assert((z + sp.push(iv)).drop_last() =~= z + sp);
    assert((z + sp.push(iv)).last() == iv);
    let c0 = c.drop_last();
    let m0 = m.drop_last();
    assert(c =~= c0.push(cw));
    assert(m =~= m0.push(mw));
    assert forall|k: int| 0 <= k < c0.len() implies (#[trigger] c0[k]).1 < cw.0 by {
        assert(c[k].1 < c[c.len() - 1].0);
    }
    assert forall|k: int| 0 <= k < m0.len() implies (#[trigger] m0[k]).1 < mw.0 by {
        assert(m[k].1 < m[m.len() - 1].0);
    }
    if e.2 {
        let m2 = class_merged(evs, true);
        assert(class_merged(evs, false) == c);
        assert(m2 == merge_step(m, iv));
        if ts > mw.1 {
            assert(m2 =~= m.push(iv));
            lemma_pairwise_push_b(c, m, iv);
            lemma_col_push(c0, cw, iv);
            lemma_col_before(c0, iv);
            assert forall|j: int, k: int| 0 <= j < k < m2.len() implies (#[trigger] m2[j]).1 < (#[trigger] m2[k]).0 by {
                if k < m.len() {
                    assert(m[j].1 < m[k].0);
                } else if j < m.len() - 1 {
                    assert(m[j].1 < m[m.len() - 1].0);
                }
            }
        } else if end > mw.1 {
            let mw2 = (mw.0, end);
            assert(m2 =~= m0.push(mw2));
            lemma_pairwise_push_b(c, m0, mw);
            lemma_pairwise_push_b(c, m0, mw2);
            lemma_col_push(c0, cw, mw);
            lemma_col_push(c0, cw, mw2);
            lemma_col_extend(c0, mw, end);
            assert forall|j: int, k: int| 0 <= j < k < m2.len() implies (#[trigger] m2[j]).1 < (#[trigger] m2[k]).0 by {
                assert(m[j].1 < m[k].0);
            }
        } else {
            assert(m2 =~= m);
        }
    } else {
        let c2 = class_merged(evs, false);
        assert(class_merged(evs, true) == m);
        assert(c2 == merge_step(c, iv));
        if ts > cw.1 {
            assert(c2 =~= c.push(iv));
            lemma_pairwise_push_a(c, iv, m);
            lemma_row_push(iv, m0, mw);
            lemma_row_before(iv, m0);
            assert forall|j: int, k: int| 0 <= j < k < c2.len() implies (#[trigger] c2[j]).1 < (#[trigger] c2[k]).0 by {
                if k < c.len() {
                    assert(c[j].1 < c[k].0);
                } else if j < c.len() - 1 {
                    assert(c[j].1 < c[c.len() - 1].0);
                }
            }
        } else if end > cw.1 {
            let cw2 = (cw.0, end);
            assert(c2 =~= c0.push(cw2));
            lemma_pairwise_push_a(c0, cw, m);
            lemma_pairwise_push_a(c0, cw2, m);
            lemma_row_push(cw, m0, mw);
            lemma_row_push(cw2, m0, mw);
            lemma_row_extend(cw, end, m0);
            assert forall|j: int, k: int| 0 <= j < k < c2.len() implies (#[trigger] c2[j]).1 < (#[trigger] c2[k]).0 by {
                assert(c[j].1 < c[k].0);
            }
        } else {
            assert(c2 =~= c);
        }
    }
}

/// The streamed overlap is the measure of the intersection of the two
/// unions: after kernels are pushed in order of start (none before time 0,
/// each with a positive duration), the accumulated overlap is the summed
/// intersection of every merged compute interval with every merged
/// communication interval, the merged lists being separated.
pub proof fn lemma_overlap_run_is_intersection(evs: Seq<(i64, i64, bool)>)
    requires
        overlap_run_fits(evs),
        run_in_order(evs),
    ensures
        separated(class_merged(evs, false)),
        separated(class_merged(evs, true)),
        overlap_run(evs).overlap_accum == pairwise_overlap(class_merged(evs, false), class_merged(evs, true)),
{
    lemma_overlap_inv(evs);
}

/// The child ids of each slot, slot after slot.
pub open spec fn slots_child_ids(ids: Seq<NodeId>, slots: Seq<ArenaSlot>) -> Seq<NodeId>
    decreases slots.len(),
{
    if slots.len() == 0 {
        Seq::empty()
    } else {
        slots_child_ids(ids, slots.drop_last()) + span_of(ids, slots.last().children)
    }
}

/// The ids of the nodes directly below node `p`: its children, then its
/// slots' children.
pub open spec fn arena_kids(a: NodeArena, p: int) -> Seq<NodeId> {
    if 0 <= p < a.nodes@.len() {
        match a.nodes@[p] {
            ArenaNode::Root { children } => span_of(a.child_ids@, children),
            ArenaNode::Cpu { children, slots, .. } => span_of(a.child_ids@, children) + span_of(a.child_ids@, slots),
            ArenaNode::SameCpu { children, slots_start, slots_len, .. } => span_of(a.child_ids@, children)
                + slots_child_ids(a.child_ids@, a.slots@.subrange(slots_start as int, slots_start + slots_len)),
            _ => Seq::empty(),
        }
    } else {
        Seq::empty()
    }
}

/// The node reached from `p` by following, at each step, the kid of the
/// given index; `None` when an index names no kid after its parent.
pub open spec fn descendant(a: NodeArena, p: int, path: Seq<int>) -> Option<int>
    decreases path.len(),
{
    if path.len() == 0 {
        Some(p)
    } else if 0 <= path[0] < arena_kids(a, p).len() && p < arena_kids(a, p)[path[0]] && (arena_kids(a, p)[path[0]] as int)
        < a.nodes@.len() {
        descendant(a, arena_kids(a, p)[path[0]] as int, path.drop_first())
    } else {
        None
    }
}

/// The kernels `(template, instance)` that node `d` itself refers to.
pub open spec fn own_kernel_refs(a: NodeArena, d: int) -> Seq<(u32, u32)> {
    if 0 <= d < a.nodes@.len() {
        match a.nodes@[d] {
            ArenaNode::Gpu { refs_start, refs_len } => a.gpu_refs@.subrange(refs_start as int, refs_start + refs_len).map_values(
                |r: GpuRef| (r.template, r.instance),
            ),
            ArenaNode::KernelLaunch { gpu_template, gpu_instance, .. } => seq![(gpu_template, gpu_instance)],
            ArenaNode::KernelsLaunch { refs_start, refs_len, .. } => a.kernels_refs@.subrange(
                refs_start as int,
                refs_start + refs_len,
            ).map_values(|r: KernelsLaunchRef| (r.gpu_template, r.gpu_instance)),
            _ => Seq::empty(),
        }
    } else {
        Seq::empty()
    }
}

/// The kernels under each listed child are among the list's kernels.
proof fn lemma_ids_kernels_kid(a: NodeArena, t: Seq<Template>, ids: Seq<NodeId>, parent: int, k: int)
    requires
        0 <= k < ids.len(),
        parent < ids[k] < a.nodes@.len(),
    ensures
        included(node_kernels(a, t, ids[k] as int), ids_kernels(a, t, ids, parent)),
    decreases ids.len(),
{
    let p = ids.drop_last();
    let last = if parent < ids.last() as int && (ids.last() as int) < a.nodes@.len() {
        node_kernels(a, t, ids.last() as int)
    } else {
        Seq::empty()
    };
    lemma_included_add(ids_kernels(a, t, p, parent), last);
    if k < ids.len() - 1 {
        assert(p[k] == ids[k]);
        lemma_ids_kernels_kid(a, t, p, parent, k);
        lemma_included_trans(node_kernels(a, t, ids[k] as int), ids_kernels(a, t, p, parent), ids_kernels(a, t, ids, parent));
    }
}

/// The kernels under each slot child are among the slots' kernels.
proof fn lemma_slots_kernels_kid(a: NodeArena, t: Seq<Template>, slots: Seq<ArenaSlot>, parent: int, k: int)
    requires
        0 <= k < slots_child_ids(a.child_ids@, slots).len(),
        parent < slots_child_ids(a.child_ids@, slots)[k] < a.nodes@.len(),
    ensures
        included(node_kernels(a, t, slots_child_ids(a.child_ids@, slots)[k] as int), slots_kernels(a, t, slots, parent)),
    decreases slots.len(),
{
    let p = slots.drop_last();
    let x = slots_child_ids(a.child_ids@, p);
    let l = span_of(a.child_ids@, slots.last().children);
    let c = slots_child_ids(a.child_ids@, slots)[k];
    lemma_included_add(slots_kernels(a, t, p, parent), ids_kernels(a, t, l, parent));
    if k < x.len() {
        assert(c == x[k]);
        lemma_slots_kernels_kid(a, t, p, parent, k);
        lemma_included_trans(node_kernels(a, t, c as int), slots_kernels(a, t, p, parent), slots_kernels(a, t, slots, parent));
    } else {
        assert(c == l[k - x.len()]);
        lemma_ids_kernels_kid(a, t, l, parent, k - x.len());
        lemma_included_trans(node_kernels(a, t, c as int), ids_kernels(a, t, l, parent), slots_kernels(a, t, slots, parent));
    }
}

/// The kernels under each kid of a node are among the node's kernels.
proof fn lemma_arena_kid_kernels(a: NodeArena, t: Seq<Template>, p: int, k: int)
    requires
        0 <= p < a.nodes@.len(),
        0 <= k < arena_kids(a, p).len(),
        p < arena_kids(a, p)[k] < a.nodes@.len(),
    ensures
        included(node_kernels(a, t, arena_kids(a, p)[k] as int), node_kernels(a, t, p)),
{
    let c = arena_kids(a, p)[k];
    match a.nodes@[p] {
        ArenaNode::Root { children } => {
            lemma_ids_kernels_kid(a, t, span_of(a.child_ids@, children), p, k);
        },
        ArenaNode::Cpu { children, slots, .. } => {
            let x = span_of(a.child_ids@, children);
            let y = span_of(a.child_ids@, slots);
            lemma_included_add(ids_kernels(a, t, x, p), ids_kernels(a, t, y, p));
            if k < x.len() {
                assert(c == x[k]);
                lemma_ids_kernels_kid(a, t, x, p, k);
                lemma_included_trans(node_kernels(a, t, c as int), ids_kernels(a, t, x, p), node_kernels(a, t, p));
            } else {
                assert(c == y[k - x.len()]);
                lemma_ids_kernels_kid(a, t, y, p, k - x.len());
                lemma_included_trans(node_kernels(a, t, c as int), ids_kernels(a, t, y, p), node_kernels(a, t, p));
            }
        },
        ArenaNode::SameCpu { children, slots_start, slots_len, .. } => {
            let x = span_of(a.child_ids@, children);
            let sl = a.slots@.subrange(slots_start as int, slots_start + slots_len);
            let y = slots_child_ids(a.child_ids@, sl);
            lemma_included_add(ids_kernels(a, t, x, p), slots_kernels(a, t, sl, p));
            if k < x.len() {
                assert(c == x[k]);
                lemma_ids_kernels_kid(a, t, x, p, k);
                lemma_included_trans(node_kernels(a, t, c as int), ids_kernels(a, t, x, p), node_kernels(a, t, p));
            } else {
                assert(c == y[k - x.len()]);
                lemma_slots_kernels_kid(a, t, sl, p, k - x.len());
                lemma_included_trans(node_kernels(a, t, c as int), slots_kernels(a, t, sl, p), node_kernels(a, t, p));
            }
        },
        _ => {},
    }
}

/// The kernels under every descendant of a node are among the node's
/// kernels.
pub proof fn lemma_descendant_kernels_included(a: NodeArena, t: Seq<Template>, p: int, path: Seq<int>)
    requires
        0 <= p < a.nodes@.len(),
        descendant(a, p, path) is Some,
    ensures
        included(node_kernels(a, t, descendant(a, p, path)->0), node_kernels(a, t, p)),
    decreases path.len(),
{
    if path.len() == 0 {
        assert forall|x| #[trigger] node_kernels(a, t, p).contains(x) implies node_kernels(a, t, p).contains(x) by {}
    } else {
        let c = arena_kids(a, p)[path[0]] as int;
        lemma_descendant_kernels_included(a, t, c, path.drop_first());
        lemma_arena_kid_kernels(a, t, p, path[0]);
        lemma_included_trans(node_kernels(a, t, descendant(a, p, path)->0), node_kernels(a, t, c), node_kernels(a, t, p));
    }
}

/// Each GPU reference's kernel event is among the list's.
proof fn lemma_refs_kernels_has(t: Seq<Template>, refs: Seq<GpuRef>, k: int)
    requires
        0 <= k < refs.len(),
    ensures
        included(kernel_event(t, refs[k].template, refs[k].instance), refs_kernels(t, refs)),
    decreases refs.len(),
{
    let p = refs.drop_last();
    lemma_included_add(refs_kernels(t, p), kernel_event(t, refs.last().template, refs.last().instance));
    if k < refs.len() - 1 {
        assert(p[k] == refs[k]);
        lemma_refs_kernels_has(t, p, k);
        lemma_included_trans(kernel_event(t, refs[k].template, refs[k].instance), refs_kernels(t, p), refs_kernels(t, refs));
    }
}

/// Each launched kernel's event is among the list's.
proof fn lemma_launch_refs_kernels_has(t: Seq<Template>, refs: Seq<KernelsLaunchRef>, k: int)
    requires
        0 <= k < refs.len(),
    ensures
        included(kernel_event(t, refs[k].gpu_template, refs[k].gpu_instance), launch_refs_kernels(t, refs)),
    decreases refs.len(),
{
    let p = refs.drop_last();
    lemma_included_add(launch_refs_kernels(t, p), kernel_event(t, refs.last().gpu_template, refs.last().gpu_instance));
    if k < refs.len() - 1 {
        assert(p[k] == refs[k]);
        lemma_launch_refs_kernels_has(t, p, k);
        lemma_included_trans(
            kernel_event(t, refs[k].gpu_template, refs[k].gpu_instance),
            launch_refs_kernels(t, p),
            launch_refs_kernels(t, refs),
        );
    }
}

/// No kernel under a node is skipped: for every node reachable from `p`
/// through child and slot links, the kernel event (a `kernel` GPU
/// instance with a positive duration) of each kernel that node refers to
/// is among the events collected from `p`.
pub proof fn lemma_every_kernel_collected(a: NodeArena, t: Seq<Template>, p: int, path: Seq<int>, k: int)
    requires
        0 <= p < a.nodes@.len(),
        descendant(a, p, path) is Some,
        0 <= k < own_kernel_refs(a, descendant(a, p, path)->0).len(),
    ensures
        ({
            let r = own_kernel_refs(a, descendant(a, p, path)->0)[k];
            included(kernel_event(t, r.0, r.1), node_kernels(a, t, p))
        }),
{
    let d = descendant(a, p, path)->0;
    let r = own_kernel_refs(a, d)[k];
    lemma_descendant_kernels_included(a, t, p, path);
    assert(0 <= d < a.nodes@.len());
    match a.nodes@[d] {
        ArenaNode::Gpu { refs_start, refs_len } => {
            let refs = a.gpu_refs@.subrange(refs_start as int, refs_start + refs_len);
            assert(r == (refs[k].template, refs[k].instance));
            lemma_refs_kernels_has(t, refs, k);
        },
        ArenaNode::KernelLaunch { gpu_template, gpu_instance, .. } => {
            assert forall|x| #[trigger] kernel_event(t, r.0, r.1).contains(x) implies node_kernels(a, t, d).contains(x) by {}
        },
        ArenaNode::KernelsLaunch { refs_start, refs_len, .. } => {
            let refs = a.kernels_refs@.subrange(refs_start as int, refs_start + refs_len);
            assert(r == (refs[k].gpu_template, refs[k].gpu_instance));
            lemma_launch_refs_kernels_has(t, refs, k);
        },
        _ => {},
    }
    lemma_included_trans(kernel_event(t, r.0, r.1), node_kernels(a, t, d), node_kernels(a, t, p));
}

} // verus!
