//! Flat arena storage of one call tree: nodes in one vector, and every
//! list a node refers to as a `(start, len)` span into a shared vector.

use vstd::prelude::*;
use vstd::slice::slice_subrange;

use crate::node::{
    node_size, nodes_size, slot_trees_of, slots_size, tree_of, trees_of, zip2, zip3, CpuNode, GpuNode, KernelLaunchNode,
    KernelsLaunchNode, Node, SameCpuNode, SlotEntry, Tree,
};

verus! {

/// Index into `NodeArena::nodes`.
pub type NodeId = u32;

/// Index of a template in the template table.
pub type TemplateId = u32;

/// Index of an instance within its template.
pub type InstanceId = u32;

/// A span of entries `start .. start + len` in one of the arena's vectors.
#[derive(Clone, Copy, Debug)]
pub struct ChildSpan {
    pub start: u32,
    pub len: u32,
}

impl ChildSpan {
    /// The empty span.
    pub fn empty() -> (s: Self)
        ensures
            s.start == 0,
            s.len == 0,
    {
        ChildSpan { start: 0, len: 0 }
    }

    /// True iff the span holds nothing.
    pub fn is_empty(&self) -> (b: bool)
        ensures
            b == (self.len == 0),
    {
        self.len == 0
    }
}

/// The children of one instance of a grouped CPU node.
#[derive(Clone, Copy, Debug)]
pub struct ArenaSlot {
    pub instance_index: u32,
    pub children: ChildSpan,
}

/// One node of the arena; every list it has is a span.
#[derive(Clone, Copy, Debug)]
pub enum ArenaNode {
    Root { children: ChildSpan },
    Cpu { template: TemplateId, instance: InstanceId, children: ChildSpan, slots: ChildSpan },
    SameCpu {
        template: TemplateId,
        instances: ChildSpan,
        children: ChildSpan,
        slots_start: u32,
        slots_len: u32,
    },
    Gpu { refs_start: u32, refs_len: u32 },
    KernelLaunch {
        cpu_template: TemplateId,
        cpu_instance: InstanceId,
        gpu_template: TemplateId,
        gpu_instance: InstanceId,
    },
    KernelsLaunch { cpu_template: TemplateId, refs_start: u32, refs_len: u32 },
}

/// A GPU reference `(template, instance)`.
#[derive(Clone, Copy, Debug)]
pub struct GpuRef {
    pub template: TemplateId,
    pub instance: InstanceId,
}

/// One launch of a multi-kernel launch node.
#[derive(Clone, Copy, Debug)]
pub struct KernelsLaunchRef {
    pub cpu_instance: InstanceId,
    pub gpu_template: TemplateId,
    pub gpu_instance: InstanceId,
}

/// The nodes of one call tree, with the vectors their spans point into.
#[derive(Clone, Debug)]
pub struct NodeArena {
    pub nodes: Vec<ArenaNode>,
    pub child_ids: Vec<NodeId>,
    pub instance_ids: Vec<InstanceId>,
    pub gpu_refs: Vec<GpuRef>,
    pub slots: Vec<ArenaSlot>,
    pub kernels_refs: Vec<KernelsLaunchRef>,
}

/// A span that `children` / `instances` can read in a vector of `n`
/// entries: empty, or inside the vector (its end within `u32`).
pub open spec fn span_ok(n: nat, s: ChildSpan) -> bool {
    s.len == 0 || s.start + s.len <= n && s.start + s.len <= u32::MAX
}

/// A range `start .. start + len` inside a vector of `n` entries (its end
/// within `u32`).
pub open spec fn range_ok(n: nat, start: u32, len: u32) -> bool {
    start + len <= n && start + len <= u32::MAX
}

/// The entries of `v` that a span covers.
pub open spec fn span_of<T>(v: Seq<T>, s: ChildSpan) -> Seq<T> {
    if s.len == 0 {
        Seq::empty()
    } else {
        v.subrange(s.start as int, s.start + s.len)
    }
}

/// Whether a span is readable in a vector of `n` entries.
fn span_fits(n: usize, s: ChildSpan) -> (b: bool)
    ensures
        b == span_ok(n as nat, s),
{
    s.len == 0 || (s.start as u64 + s.len as u64 <= n as u64 && s.start as u64 + s.len as u64 <= 0xffff_ffffu64)
}

/// Whether `start .. start + len` lies inside a vector of `n` entries.
fn range_fits(n: usize, start: u32, len: u32) -> (b: bool)
    ensures
        b == range_ok(n as nat, start, len),
{
    start as u64 + len as u64 <= n as u64 && start as u64 + len as u64 <= 0xffff_ffffu64
}

impl NodeArena {
    /// Every child id in the span names a node after `k`.
    pub open spec fn children_after(&self, s: ChildSpan, k: int) -> bool {
        forall|j: int|
            0 <= j < span_of(self.child_ids@, s).len() ==> k < #[trigger] span_of(self.child_ids@, s)[j] < self.nodes@.len()
    }

    /// The slots of a grouped node, by their range.
    pub open spec fn slot_range(&self, start: u32, len: u32) -> Seq<ArenaSlot> {
        self.slots@.subrange(start as int, start + len)
    }

    /// Node `k`'s spans and ranges lie inside their vectors, and every
    /// child it has comes after it.
    pub open spec fn node_ok(&self, k: int) -> bool {
        match self.nodes@[k] {
            ArenaNode::Root { children } => span_ok(self.child_ids@.len(), children) && self.children_after(children, k),
            ArenaNode::Cpu { children, slots, .. } => {
                &&& span_ok(self.child_ids@.len(), children)
                &&& self.children_after(children, k)
                &&& span_ok(self.child_ids@.len(), slots)
                &&& self.children_after(slots, k)
            },
            ArenaNode::SameCpu { instances, children, slots_start, slots_len, .. } => {
                &&& span_ok(self.instance_ids@.len(), instances)
                &&& span_ok(self.child_ids@.len(), children)
                &&& self.children_after(children, k)
                &&& range_ok(self.slots@.len(), slots_start, slots_len)
                &&& forall|j: int|
                    0 <= j < slots_len ==> span_ok(self.child_ids@.len(), (#[trigger] self.slot_range(slots_start, slots_len)[j]).children)
                        && self.children_after(self.slot_range(slots_start, slots_len)[j].children, k)
            },
            ArenaNode::Gpu { refs_start, refs_len } => range_ok(self.gpu_refs@.len(), refs_start, refs_len),
            ArenaNode::KernelLaunch { .. } => true,
            ArenaNode::KernelsLaunch { refs_start, refs_len, .. } => range_ok(self.kernels_refs@.len(), refs_start, refs_len),
        }
    }

    /// Every node is well formed: the arena is a forest stored in
    /// pre-order, each child after its parent.
    pub open spec fn wf(&self) -> bool {
        forall|k: int| 0 <= k < self.nodes@.len() ==> #[trigger] self.node_ok(k)
    }

    /// Node `id`.
    pub fn get(&self, id: NodeId) -> (n: &ArenaNode)
        requires
            id < self.nodes@.len(),
        ensures
            *n == self.nodes@[id as int],
    {
        &self.nodes[id as usize]
    }

    /// The child ids that a span covers.
    pub fn children(&self, span: ChildSpan) -> (ids: &[NodeId])
        requires
            span_ok(self.child_ids@.len(), span),
        ensures
            ids@ == span_of(self.child_ids@, span),
    {
        if span.is_empty() {
            return slice_subrange(self.child_ids.as_slice(), 0, 0);
        }
        slice_subrange(self.child_ids.as_slice(), span.start as usize, (span.start + span.len) as usize)
    }

    /// The instance ids that a span covers.
    pub fn instances(&self, span: ChildSpan) -> (ids: &[InstanceId])
        requires
            span_ok(self.instance_ids@.len(), span),
        ensures
            ids@ == span_of(self.instance_ids@, span),
    {
        if span.is_empty() {
            return slice_subrange(self.instance_ids.as_slice(), 0, 0);
        }
        slice_subrange(self.instance_ids.as_slice(), span.start as usize, (span.start + span.len) as usize)
    }

    /// The GPU references `start .. start + len`.
    pub fn gpu_refs_slice(&self, start: u32, len: u32) -> (refs: &[GpuRef])
        requires
            range_ok(self.gpu_refs@.len(), start, len),
        ensures
            refs@ == self.gpu_refs@.subrange(start as int, start + len),
    {
        slice_subrange(self.gpu_refs.as_slice(), start as usize, (start + len) as usize)
    }

    /// The slots `start .. start + len`.
    pub fn slots_slice(&self, start: u32, len: u32) -> (slots: &[ArenaSlot])
        requires
            range_ok(self.slots@.len(), start, len),
        ensures
            slots@ == self.slot_range(start, len),
    {
        slice_subrange(self.slots.as_slice(), start as usize, (start + len) as usize)
    }

    /// The multi-kernel launch references `start .. start + len`.
    pub fn kernels_refs_slice(&self, start: u32, len: u32) -> (refs: &[KernelsLaunchRef])
        requires
            range_ok(self.kernels_refs@.len(), start, len),
        ensures
            refs@ == self.kernels_refs@.subrange(start as int, start + len),
    {
        slice_subrange(self.kernels_refs.as_slice(), start as usize, (start + len) as usize)
    }

    /// Whether every child id of a readable span names a node after `k`.
    fn children_after_check(&self, s: ChildSpan, k: usize) -> (b: bool)
        requires
            span_ok(self.child_ids@.len(), s),
        ensures
            b == self.children_after(s, k as int),
    {
        let ids = self.children(s);
        let mut j: usize = 0;
        while j < ids.len()
            invariant
                ids@ == span_of(self.child_ids@, s),
                j <= ids@.len(),
                forall|t: int| 0 <= t < j ==> (k as int) < #[trigger] ids@[t] < self.nodes@.len(),
            decreases ids@.len() - j,
        {
            let c = ids[j] as usize;
            if !(k < c && c < self.nodes.len()) {
                return false;
            }
            j += 1;
        }
        true
    }

    /// Whether node `k` is well formed.
    fn node_check(&self, k: usize) -> (b: bool)
        requires
            k < self.nodes@.len(),
        ensures
            b == self.node_ok(k as int),
    {
        match &self.nodes[k] {
            ArenaNode::Root { children } => span_fits(self.child_ids.len(), *children) && self.children_after_check(
                *children,
                k,
            ),
            ArenaNode::Cpu { children, slots, .. } => {
                span_fits(self.child_ids.len(), *children) && self.children_after_check(*children, k) && span_fits(
                    self.child_ids.len(),
                    *slots,
                ) && self.children_after_check(*slots, k)
            },
            ArenaNode::SameCpu { template, instances, children, slots_start, slots_len } => {
                if !(span_fits(self.instance_ids.len(), *instances) && span_fits(self.child_ids.len(), *children)
                    && self.children_after_check(*children, k) && range_fits(self.slots.len(), *slots_start, *slots_len)) {
                    return false;
                }
                let slots = self.slots_slice(*slots_start, *slots_len);
                let mut j: usize = 0;
                while j < slots.len()
                    invariant
                        k < self.nodes@.len(),
                        self.nodes@[k as int] == (ArenaNode::SameCpu {
                            template: *template,
                            instances: *instances,
                            children: *children,
                            slots_start: *slots_start,
                            slots_len: *slots_len,
                        }),
                        span_ok(self.instance_ids@.len(), *instances),
                        span_ok(self.child_ids@.len(), *children),
                        self.children_after(*children, k as int),
                        range_ok(self.slots@.len(), *slots_start, *slots_len),
                        slots@ == self.slot_range(*slots_start, *slots_len),
                        slots@.len() == *slots_len,
                        j <= slots@.len(),
                        forall|t: int|
                            0 <= t < j ==> span_ok(self.child_ids@.len(), (#[trigger] slots@[t]).children)
                                && self.children_after(slots@[t].children, k as int),
                    decreases slots@.len() - j,
                {
                    let sp = slots[j].children;
                    if !(span_fits(self.child_ids.len(), sp) && self.children_after_check(sp, k)) {
                        proof {
                            assert(self.slot_range(*slots_start, *slots_len)[j as int].children == sp);
                        }
                        return false;
                    }
                    j += 1;
                }
                true
            },
            ArenaNode::Gpu { refs_start, refs_len } => range_fits(self.gpu_refs.len(), *refs_start, *refs_len),
            ArenaNode::KernelLaunch { .. } => true,
            ArenaNode::KernelsLaunch { refs_start, refs_len, .. } => range_fits(
                self.kernels_refs.len(),
                *refs_start,
                *refs_len,
            ),
        }
    }

    /// Whether the arena is well formed (see [`NodeArena::wf`]): every span
    /// and range inside its vector, every child after its parent.
    pub fn check_wf(&self) -> (b: bool)
        ensures
            b == self.wf(),
    {
        let mut k: usize = 0;
        while k < self.nodes.len()
            invariant
                k <= self.nodes@.len(),
                forall|t: int| 0 <= t < k ==> #[trigger] self.node_ok(t),
            decreases self.nodes@.len() - k,
        {
            if !self.node_check(k) {
                return false;
            }
            k += 1;
        }
        true
    }

    /// Number of nodes.
    pub fn node_count(&self) -> (n: usize)
        ensures
            n == self.nodes@.len(),
    {
        self.nodes.len()
    }
}


/// `b` keeps what `a` holds: every vector of `a` is a prefix of `b`'s,
/// and the nodes of `a` from `lo` on are unchanged.
pub open spec fn agrees(a: NodeArena, b: NodeArena, lo: int) -> bool {
    &&& a.nodes@.len() <= b.nodes@.len()
    &&& forall|k: int| lo <= k < a.nodes@.len() ==> #[trigger] b.nodes@[k] == a.nodes@[k]
    &&& a.child_ids@.len() <= b.child_ids@.len()
    &&& forall|k: int| 0 <= k < a.child_ids@.len() ==> #[trigger] b.child_ids@[k] == a.child_ids@[k]
    &&& a.instance_ids@.len() <= b.instance_ids@.len()
    &&& forall|k: int| 0 <= k < a.instance_ids@.len() ==> #[trigger] b.instance_ids@[k] == a.instance_ids@[k]
    &&& a.gpu_refs@.len() <= b.gpu_refs@.len()
    &&& forall|k: int| 0 <= k < a.gpu_refs@.len() ==> #[trigger] b.gpu_refs@[k] == a.gpu_refs@[k]
    &&& a.slots@.len() <= b.slots@.len()
    &&& forall|k: int| 0 <= k < a.slots@.len() ==> #[trigger] b.slots@[k] == a.slots@[k]
    &&& a.kernels_refs@.len() <= b.kernels_refs@.len()
    &&& forall|k: int| 0 <= k < a.kernels_refs@.len() ==> #[trigger] b.kernels_refs@[k] == a.kernels_refs@[k]
}

impl NodeArena {
    /// How many entries the arena's vectors hold together.
    pub open spec fn total(&self) -> nat {
        self.nodes@.len() + self.child_ids@.len() + self.instance_ids@.len() + self.gpu_refs@.len() + self.slots@.len()
            + self.kernels_refs@.len()
    }

    /// The tree stored at node `id`.
    pub open spec fn tree_at(&self, id: int) -> Tree
        decreases self.nodes@.len() - id + 1, 0int, 0int,
    {
        if 0 <= id < self.nodes@.len() {
            match self.nodes@[id] {
                ArenaNode::Root { children } => Tree::Root { children: self.trees_at(span_of(self.child_ids@, children), id) },
                ArenaNode::Cpu { template, instance, children, slots } => Tree::Cpu {
                    template,
                    instance,
                    children: self.trees_at(span_of(self.child_ids@, children), id),
                    slots: self.trees_at(span_of(self.child_ids@, slots), id),
                },
                ArenaNode::SameCpu { template, instances, children, slots_start, slots_len } => Tree::SameCpu {
                    template,
                    instances: span_of(self.instance_ids@, instances),
                    children: self.trees_at(span_of(self.child_ids@, children), id),
                    slots: self.slot_trees_at(self.slots@.subrange(slots_start as int, slots_start + slots_len), id),
                },
                ArenaNode::Gpu { refs_start, refs_len } => Tree::Gpu {
                    refs: self.gpu_refs@.subrange(refs_start as int, refs_start + refs_len).map_values(
                        |r: GpuRef| (r.template, r.instance),
                    ),
                },
                ArenaNode::KernelLaunch { cpu_template, cpu_instance, gpu_template, gpu_instance } => Tree::KernelLaunch {
                    cpu_template,
                    cpu_instance,
                    gpu_template,
                    gpu_instance,
                },
                ArenaNode::KernelsLaunch { cpu_template, refs_start, refs_len } => Tree::KernelsLaunch {
                    cpu_template,
                    refs: self.kernels_refs@.subrange(refs_start as int, refs_start + refs_len).map_values(
                        |r: KernelsLaunchRef| (r.cpu_instance, r.gpu_template, r.gpu_instance),
                    ),
                },
            }
        } else {
            Tree::Root { children: Seq::empty() }
        }
    }

    /// The trees at the given child ids of node `parent`.
    pub open spec fn trees_at(&self, ids: Seq<u32>, parent: int) -> Seq<Tree>
        decreases self.nodes@.len() - parent, 0int, ids.len(),
    {
        if ids.len() == 0 || !(0 <= parent < self.nodes@.len()) {
            Seq::empty()
        } else if parent < ids.last() < self.nodes@.len() {
            self.trees_at(ids.drop_last(), parent).push(self.tree_at(ids.last() as int))
        } else {
            self.trees_at(ids.drop_last(), parent).push(Tree::Root { children: Seq::empty() })
        }
    }

    /// The slots of grouped node `parent`, each as its instance and trees.
    pub open spec fn slot_trees_at(&self, slots: Seq<ArenaSlot>, parent: int) -> Seq<(u32, Seq<Tree>)>
        decreases self.nodes@.len() - parent, 1int, slots.len(),
    {
        if slots.len() == 0 || !(0 <= parent < self.nodes@.len()) {
            Seq::empty()
        } else {
            self.slot_trees_at(slots.drop_last(), parent).push(
                (slots.last().instance_index, self.trees_at(span_of(self.child_ids@, slots.last().children), parent)),
            )
        }
    }
}

/// A readable span covers the same entries in a vector that extends it.
proof fn lemma_span_stable<T>(a: Seq<T>, b: Seq<T>, s: ChildSpan)
    requires
        span_ok(a.len(), s),
        a.len() <= b.len(),
        forall|k: int| 0 <= k < a.len() ==> #[trigger] b[k] == a[k],
    ensures
        span_of(b, s) == span_of(a, s),
{
    if s.len != 0 {
        assert(span_of(b, s) =~= span_of(a, s));
    }
}

/// A range covers the same entries in a vector that extends it.
proof fn lemma_range_stable<T>(a: Seq<T>, b: Seq<T>, start: u32, len: u32)
    requires
        range_ok(a.len(), start, len),
        a.len() <= b.len(),
        forall|k: int| 0 <= k < a.len() ==> #[trigger] b[k] == a[k],
    ensures
        b.subrange(start as int, start + len) == a.subrange(start as int, start + len),
{
    assert(b.subrange(start as int, start + len) =~= a.subrange(start as int, start + len));
}

/// A well-formed node stays well formed in an arena that keeps it.
proof fn lemma_node_ok_stable(a: NodeArena, b: NodeArena, lo: int, k: int)
    requires
        a.node_ok(k),
        agrees(a, b, lo),
        0 <= k < a.nodes@.len(),
        b.nodes@[k] == a.nodes@[k],
    ensures
        b.node_ok(k),
{
    match a.nodes@[k] {
        ArenaNode::Root { children } => {
            lemma_span_stable(a.child_ids@, b.child_ids@, children);
        },
        ArenaNode::Cpu { children, slots, .. } => {
            lemma_span_stable(a.child_ids@, b.child_ids@, children);
            lemma_span_stable(a.child_ids@, b.child_ids@, slots);
        },
        ArenaNode::SameCpu { instances, children, slots_start, slots_len, .. } => {
            lemma_span_stable(a.child_ids@, b.child_ids@, children);
            lemma_range_stable(a.slots@, b.slots@, slots_start, slots_len);
            assert forall|j: int| 0 <= j < slots_len implies span_ok(
                b.child_ids@.len(),
                (#[trigger] b.slot_range(slots_start, slots_len)[j]).children,
            ) && b.children_after(b.slot_range(slots_start, slots_len)[j].children, k) by {
                assert(b.slot_range(slots_start, slots_len)[j] == a.slot_range(slots_start, slots_len)[j]);
                lemma_span_stable(a.child_ids@, b.child_ids@, a.slot_range(slots_start, slots_len)[j].children);
            }
        },
        _ => {},
    }
}

/// The tree at a node of a well-formed arena is unchanged in an arena
/// that keeps that node and the vectors it reads.
proof fn lemma_tree_stable(a: NodeArena, b: NodeArena, lo: int, id: int)
    requires
        a.wf(),
        agrees(a, b, lo),
        0 <= lo <= id < a.nodes@.len(),
    ensures
        b.tree_at(id) == a.tree_at(id),
    decreases a.nodes@.len() - id + 1, 0int, 0int,
{
    assert(a.node_ok(id));
    assert(b.nodes@[id] == a.nodes@[id]);
    match a.nodes@[id] {
        ArenaNode::Root { children } => {
            lemma_span_stable(a.child_ids@, b.child_ids@, children);
            lemma_trees_stable(a, b, lo, span_of(a.child_ids@, children), id);
        },
        ArenaNode::Cpu { children, slots, .. } => {
            lemma_span_stable(a.child_ids@, b.child_ids@, children);
            lemma_span_stable(a.child_ids@, b.child_ids@, slots);
            lemma_trees_stable(a, b, lo, span_of(a.child_ids@, children), id);
            lemma_trees_stable(a, b, lo, span_of(a.child_ids@, slots), id);
        },
        ArenaNode::SameCpu { instances, children, slots_start, slots_len, .. } => {
            lemma_span_stable(a.instance_ids@, b.instance_ids@, instances);
            lemma_span_stable(a.child_ids@, b.child_ids@, children);
            lemma_trees_stable(a, b, lo, span_of(a.child_ids@, children), id);
            lemma_range_stable(a.slots@, b.slots@, slots_start, slots_len);
            lemma_slot_trees_stable(a, b, lo, a.slot_range(slots_start, slots_len), id);
        },
        ArenaNode::Gpu { refs_start, refs_len } => {
            lemma_range_stable(a.gpu_refs@, b.gpu_refs@, refs_start, refs_len);
        },
        ArenaNode::KernelLaunch { .. } => {},
        ArenaNode::KernelsLaunch { refs_start, refs_len, .. } => {
            lemma_range_stable(a.kernels_refs@, b.kernels_refs@, refs_start, refs_len);
        },
    }
}

proof fn lemma_trees_stable(a: NodeArena, b: NodeArena, lo: int, ids: Seq<u32>, p: int)
    requires
        a.wf(),
        agrees(a, b, lo),
        0 <= lo,
        0 <= p < a.nodes@.len(),
        forall|j: int| 0 <= j < ids.len() ==> lo <= #[trigger] ids[j] < a.nodes@.len(),
    ensures
        b.trees_at(ids, p) == a.trees_at(ids, p),
    decreases a.nodes@.len() - p, 0int, ids.len(),
{
    if ids.len() > 0 {
        assert(ids.last() == ids[ids.len() - 1]);
        lemma_trees_stable(a, b, lo, ids.drop_last(), p);
        if p < ids.last() {
            lemma_tree_stable(a, b, lo, ids.last() as int);
        }
    }
}

proof fn lemma_slot_trees_stable(a: NodeArena, b: NodeArena, lo: int, slots: Seq<ArenaSlot>, p: int)
    requires
        a.wf(),
        agrees(a, b, lo),
        0 <= p < a.nodes@.len(),
        0 <= lo <= p + 1,
        forall|j: int|
            0 <= j < slots.len() ==> span_ok(a.child_ids@.len(), (#[trigger] slots[j]).children) && a.children_after(
                slots[j].children,
                p,
            ),
    ensures
        b.slot_trees_at(slots, p) == a.slot_trees_at(slots, p),
    decreases a.nodes@.len() - p, 1int, slots.len(),
{
    if slots.len() > 0 {
        let s = slots.last();
        assert(s == slots[slots.len() - 1]);
        lemma_slot_trees_stable(a, b, lo, slots.drop_last(), p);
        lemma_span_stable(a.child_ids@, b.child_ids@, s.children);
        let ids = span_of(a.child_ids@, s.children);
        assert forall|j: int| 0 <= j < ids.len() implies lo <= #[trigger] ids[j] < a.nodes@.len() by {
            assert(p < ids[j]);
        }
        lemma_trees_stable(a, b, lo, ids, p);
    }
}


/// `c` keeps `a` above `id` when `b` keeps `a` and `c` keeps `b` above
/// `id`, nodes before `id` alike.
proof fn lemma_agrees_lo(a: NodeArena, b: NodeArena, c: NodeArena, id: int)
    requires
        0 <= id,
        agrees(a, b, 0),
        agrees(b, c, id + 1),
    ensures
        agrees(a, c, id + 1),
{
    assert forall|k: int| id + 1 <= k < a.nodes@.len() implies #[trigger] c.nodes@[k] == a.nodes@[k] by {
        assert(b.nodes@[k] == a.nodes@[k]);
        assert(id + 1 <= k < b.nodes@.len());
        assert(c.nodes@[k] == b.nodes@[k]);
    }
    assert forall|k: int| 0 <= k < a.child_ids@.len() implies #[trigger] c.child_ids@[k] == a.child_ids@[k] by {
        assert(c.child_ids@[k] == b.child_ids@[k]);
    }
    assert forall|k: int| 0 <= k < a.instance_ids@.len() implies #[trigger] c.instance_ids@[k] == a.instance_ids@[k] by {
        assert(c.instance_ids@[k] == b.instance_ids@[k]);
    }
    assert forall|k: int| 0 <= k < a.gpu_refs@.len() implies #[trigger] c.gpu_refs@[k] == a.gpu_refs@[k] by {
        assert(c.gpu_refs@[k] == b.gpu_refs@[k]);
    }
    assert forall|k: int| 0 <= k < a.slots@.len() implies #[trigger] c.slots@[k] == a.slots@[k] by {
        assert(c.slots@[k] == b.slots@[k]);
    }
    assert forall|k: int| 0 <= k < a.kernels_refs@.len() implies #[trigger] c.kernels_refs@[k] == a.kernels_refs@[k] by {
        assert(c.kernels_refs@[k] == b.kernels_refs@[k]);
    }
}

/// Keeping is transitive.
proof fn lemma_agrees_trans(a: NodeArena, b: NodeArena, c: NodeArena)
    requires
        agrees(a, b, 0),
        agrees(b, c, 0),
    ensures
        agrees(a, c, 0),
{
    assert forall|k: int| 0 <= k < a.nodes@.len() implies #[trigger] c.nodes@[k] == a.nodes@[k] by {
        assert(c.nodes@[k] == b.nodes@[k]);
    }
    assert forall|k: int| 0 <= k < a.child_ids@.len() implies #[trigger] c.child_ids@[k] == a.child_ids@[k] by {
        assert(c.child_ids@[k] == b.child_ids@[k]);
    }
    assert forall|k: int| 0 <= k < a.instance_ids@.len() implies #[trigger] c.instance_ids@[k] == a.instance_ids@[k] by {
        assert(c.instance_ids@[k] == b.instance_ids@[k]);
    }
    assert forall|k: int| 0 <= k < a.gpu_refs@.len() implies #[trigger] c.gpu_refs@[k] == a.gpu_refs@[k] by {
        assert(c.gpu_refs@[k] == b.gpu_refs@[k]);
    }
    assert forall|k: int| 0 <= k < a.slots@.len() implies #[trigger] c.slots@[k] == a.slots@[k] by {
        assert(c.slots@[k] == b.slots@[k]);
    }
    assert forall|k: int| 0 <= k < a.kernels_refs@.len() implies #[trigger] c.kernels_refs@[k] == a.kernels_refs@[k] by {
        assert(c.kernels_refs@[k] == b.kernels_refs@[k]);
    }
}

/// A well-formed arena stays well formed in an arena that keeps all its
/// nodes and whose further nodes are well formed.
proof fn lemma_wf_stable(a: NodeArena, b: NodeArena)
    requires
        a.wf(),
        agrees(a, b, 0),
        forall|k: int| a.nodes@.len() <= k < b.nodes@.len() ==> #[trigger] b.node_ok(k),
    ensures
        b.wf(),
{
    assert forall|k: int| 0 <= k < b.nodes@.len() implies #[trigger] b.node_ok(k) by {
        if k < a.nodes@.len() {
            lemma_node_ok_stable(a, b, 0, k);
        }
    }
}

/// A span of children after `p`, and the trees at them, are unchanged in
/// an arena that keeps what the span reads.
proof fn lemma_span_trees_stable(a: NodeArena, b: NodeArena, lo: int, s: ChildSpan, p: int)
    requires
        a.wf(),
        agrees(a, b, lo),
        0 <= lo <= p + 1,
        0 <= p < a.nodes@.len(),
        span_ok(a.child_ids@.len(), s),
        a.children_after(s, p),
    ensures
        span_ok(b.child_ids@.len(), s),
        b.children_after(s, p),
        span_of(b.child_ids@, s) == span_of(a.child_ids@, s),
        b.trees_at(span_of(b.child_ids@, s), p) == a.trees_at(span_of(a.child_ids@, s), p),
{
    lemma_span_stable(a.child_ids@, b.child_ids@, s);
    let ids = span_of(a.child_ids@, s);
    assert forall|j: int| 0 <= j < ids.len() implies lo <= #[trigger] ids[j] < a.nodes@.len() by {
        assert(p < ids[j]);
    }
    lemma_trees_stable(a, b, lo, ids, p);
}

/// The trees of a list grow by the tree of what is pushed.
proof fn lemma_trees_of_take(s: Seq<Node>, j: int)
    requires
        0 <= j < s.len(),
    ensures
        trees_of(s.take(j + 1)) == trees_of(s.take(j)).push(tree_of(s[j])),
        nodes_size(s.take(j + 1)) == nodes_size(s.take(j)) + node_size(s[j]) + 1,
{
    assert(s.take(j + 1).drop_last() =~= s.take(j));
    assert(s.take(j + 1).last() == s[j]);
}

/// The slot trees of a list grow by the slot pushed.
proof fn lemma_slot_trees_of_take(s: Seq<SlotEntry>, j: int)
    requires
        0 <= j < s.len(),
    ensures
        slot_trees_of(s.take(j + 1)) == slot_trees_of(s.take(j)).push((s[j].instance_index, trees_of(s[j].children@))),
        slots_size(s.take(j + 1)) == slots_size(s.take(j)) + 1 + nodes_size(s[j].children@),
{
    assert(s.take(j + 1).drop_last() =~= s.take(j));
    assert(s.take(j + 1).last() == s[j]);
}

/// The size of a prefix of a list is at most that of the list.
proof fn lemma_nodes_size_take(s: Seq<Node>, j: int)
    requires
        0 <= j <= s.len(),
    ensures
        nodes_size(s.take(j)) <= nodes_size(s),
    decreases s.len() - j,
{
    if j < s.len() {
        lemma_trees_of_take(s, j);
        lemma_nodes_size_take(s, j + 1);
    } else {
        assert(s.take(j) =~= s);
    }
}

/// The size of a prefix of a list of slots is at most that of the list.
proof fn lemma_slots_size_take(s: Seq<SlotEntry>, j: int)
    requires
        0 <= j <= s.len(),
    ensures
        slots_size(s.take(j)) <= slots_size(s),
    decreases s.len() - j,
{
    if j < s.len() {
        lemma_slot_trees_of_take(s, j);
        lemma_slots_size_take(s, j + 1);
    } else {
        assert(s.take(j) =~= s);
    }
}

impl NodeArena {
    /// An arena with nothing in it.
    pub fn new() -> (a: NodeArena)
        ensures
            a.wf(),
            a.total() == 0,
    {
        NodeArena {
            nodes: Vec::new(),
            child_ids: Vec::new(),
            instance_ids: Vec::new(),
            gpu_refs: Vec::new(),
            slots: Vec::new(),
            kernels_refs: Vec::new(),
        }
    }

    /// Stores a call tree; returns the arena and the id of its root. The
    /// tree stored at that id is the tree given.
    pub fn from_tree(root: &Node) -> (r: (NodeArena, NodeId))
        requires
            node_size(*root) <= u32::MAX,
        ensures
            r.0.wf(),
            (r.1 as int) < r.0.nodes@.len(),
            r.0.tree_at(r.1 as int) == tree_of(*root),
    {
        let mut arena = NodeArena::new();
        let root_id = arena.add_node(root);
        (arena, root_id)
    }

    /// Stores a node after the arena's nodes (its own before those of its
    /// children), returning its id.
    fn add_node(&mut self, node: &Node) -> (id: NodeId)
        requires
            old(self).wf(),
            old(self).total() + node_size(*node) <= u32::MAX,
        ensures
            final(self).wf(),
            agrees(*old(self), *final(self), 0),
            id == old(self).nodes@.len(),
            (id as int) < final(self).nodes@.len(),
            final(self).total() <= old(self).total() + node_size(*node),
            final(self).tree_at(id as int) == tree_of(*node),
        decreases *node, 3int,
    {
        let ghost a0 = *self;
        let id = self.nodes.len() as u32;
        self.nodes.push(ArenaNode::Root { children: ChildSpan::empty() });
        proof {
            assert(self.node_ok(id as int));
            lemma_wf_stable(a0, *self);
        }
        let ghost a1 = *self;
        self.fill_node(node, id);
        proof {
            assert forall|k: int| 0 <= k < a0.nodes@.len() implies #[trigger] self.nodes@[k] == a0.nodes@[k] by {
                assert(a1.nodes@[k] == a0.nodes@[k]);
            }
        }
        id
    }

    /// Replaces the placeholder at `id`, the last node, by `node`, storing
    /// its lists and children after what the arena holds.
    fn fill_node(&mut self, node: &Node, id: u32)
        requires
            old(self).wf(),
            id as int == old(self).nodes@.len() - 1,
            old(self).total() + node_size(*node) <= u32::MAX + 1,
        ensures
            final(self).wf(),
            agrees(*old(self), *final(self), id + 1),
            forall|k: int| 0 <= k < id ==> #[trigger] final(self).nodes@[k] == old(self).nodes@[k],
            final(self).total() + 1 <= old(self).total() + node_size(*node),
            final(self).tree_at(id as int) == tree_of(*node),
        decreases *node, 2int,
    {
        let ghost a1 = *self;
        match node {
            Node::Root { children } => {
                let sp = self.add_children(children, Ghost(id as int));
                let ghost a2 = *self;
                self.nodes[id as usize] = (ArenaNode::Root { children: sp });
                proof {
                    self.lemma_set_node(a2, id as int);
                    lemma_span_trees_stable(a2, *self, id + 1, sp, id as int);
                    lemma_agrees_lo(a1, a2, *self, id as int);
                }
            },
            Node::Cpu(n) => {
                let sp1 = self.add_children(&n.children, Ghost(id as int));
                let ghost a2 = *self;
                let sp2 = self.add_children(&n.slots, Ghost(id as int));
                let ghost a3 = *self;
                self.nodes[id as usize] = (ArenaNode::Cpu { template: n.template, instance: n.instance, children: sp1, slots: sp2 });
                proof {
                    lemma_agrees_trans(a1, a2, a3);
                    lemma_span_trees_stable(a2, a3, 0, sp1, id as int);
                    self.lemma_set_node(a3, id as int);
                    lemma_span_trees_stable(a3, *self, id + 1, sp1, id as int);
                    lemma_span_trees_stable(a3, *self, id + 1, sp2, id as int);
                    lemma_agrees_lo(a1, a3, *self, id as int);
                }
            },
            Node::SameCpu(_) => {
                self.fill_same_cpu(node, id);
            },
            Node::Gpu(g) => {
                let (refs_start, m) = self.push_gpu_refs(g);
                let ghost a2 = *self;
                self.nodes[id as usize] = (ArenaNode::Gpu { refs_start, refs_len: m });
                proof {
                    self.lemma_set_node(a2, id as int);
                    lemma_agrees_lo(a1, a2, *self, id as int);
                }
            },
            Node::KernelLaunch(n) => {
                self.nodes[id as usize] = (ArenaNode::KernelLaunch {
                        cpu_template: n.cpu_template,
                        cpu_instance: n.cpu_instance,
                        gpu_template: n.gpu_template,
                        gpu_instance: n.gpu_instance,
                    }
                );
                proof {
                    self.lemma_set_node(a1, id as int);
                }
            },
            Node::KernelsLaunch(n) => {
                let (refs_start, m) = self.push_kernels_refs(n);
                let ghost a2 = *self;
                self.nodes[id as usize] = (ArenaNode::KernelsLaunch { cpu_template: n.cpu_template, refs_start, refs_len: m });
                proof {
                    self.lemma_set_node(a2, id as int);
                    lemma_agrees_lo(a1, a2, *self, id as int);
                }
            },
        }
    }

    /// Stores a grouped CPU node at the placeholder `id`: its instances,
    /// its shared children, then each slot's children, and last its slot
    /// entries, side by side.
    fn fill_same_cpu(&mut self, node: &Node, id: u32)
        requires
            node is SameCpu,
            old(self).wf(),
            id as int == old(self).nodes@.len() - 1,
            old(self).total() + node_size(*node) <= u32::MAX + 1,
        ensures
            final(self).wf(),
            agrees(*old(self), *final(self), id + 1),
            forall|k: int| 0 <= k < id ==> #[trigger] final(self).nodes@[k] == old(self).nodes@[k],
            final(self).total() + 1 <= old(self).total() + node_size(*node),
            final(self).tree_at(id as int) == tree_of(*node),
        decreases *node, 1int,
    {
        let n = match node {
            Node::SameCpu(n) => n,
            _ => {
                proof {
                    assert(false);
                }
                return ;
            },
        };
        let ghost a1 = *self;
        let inst_start = self.instance_ids.len() as u32;
        let mut k: usize = 0;
        while k < n.instances.len()
            invariant
                k <= n.instances@.len(),
                self.nodes@ == a1.nodes@,
                self.child_ids@ == a1.child_ids@,
                self.gpu_refs@ == a1.gpu_refs@,
                self.slots@ == a1.slots@,
                self.kernels_refs@ == a1.kernels_refs@,
                inst_start == a1.instance_ids@.len(),
                self.instance_ids@ == a1.instance_ids@ + n.instances@.take(k as int),
            decreases n.instances@.len() - k,
        {
            self.instance_ids.push(n.instances[k]);
            k += 1;
            proof {
                assert(self.instance_ids@ =~= a1.instance_ids@ + n.instances@.take(k as int));
            }
        }
        let inst_span = ChildSpan { start: inst_start, len: n.instances.len() as u32 };
        let ghost a2 = *self;
        proof {
            assert(n.instances@.take(n.instances@.len() as int) =~= n.instances@);
            assert(agrees(a1, a2, 0));
            lemma_wf_stable(a1, a2);
            assert(span_of(a2.instance_ids@, inst_span) =~= n.instances@);
        }
        let sp = self.add_children(&n.children, Ghost(id as int));
        let ghost a3 = *self;
        proof {
            lemma_agrees_trans(a1, a2, a3);
            lemma_span_stable(a2.instance_ids@, a3.instance_ids@, inst_span);
        }
        proof {
            assert(decreases_to!(n.slots => n.slots@));
            assert(decreases_to!(*node => n.slots@));
        }
        let mut pending: Vec<ArenaSlot> = Vec::new();
        let mut j: usize = 0;
        while j < n.slots.len()
            invariant
                decreases_to!(*node => n.slots@),
                j <= n.slots@.len(),
                *node == Node::SameCpu(*n),
                self.wf(),
                a3.wf(),
                agrees(a3, *self, 0),
                (id as int) < a3.nodes@.len(),
                pending@.len() == j,
                forall|t: int|
                    0 <= t < j ==> span_ok(self.child_ids@.len(), (#[trigger] pending@[t]).children) && self.children_after(
                        pending@[t].children,
                        id as int,
                    ),
                self.slot_trees_at(pending@, id as int) == slot_trees_of(n.slots@.take(j as int)),
                self.total() + j <= a3.total() + slots_size(n.slots@.take(j as int)),
                a3.total() + slots_size(n.slots@) <= u32::MAX,
            decreases n.slots@.len() - j,
        {
            let ghost b0 = *self;
            let ghost p0 = pending@;
            proof {
                lemma_slot_trees_of_take(n.slots@, j as int);
                lemma_slots_size_take(n.slots@, j + 1);
                assert(decreases_to!(n.slots@ => n.slots@[j as int]));
                assert(decreases_to!(n.slots@[j as int].children => n.slots@[j as int].children@));
            }
            let csp = self.add_children(&n.slots[j].children, Ghost(id as int));
            let ghost b1 = *self;
            proof {
                lemma_slot_trees_stable(b0, b1, 0, p0, id as int);
                lemma_agrees_trans(a3, b0, b1);
                assert forall|t: int| 0 <= t < j implies span_ok(b1.child_ids@.len(), (#[trigger] p0[t]).children)
                    && b1.children_after(p0[t].children, id as int) by {
                    lemma_span_trees_stable(b0, b1, 0, p0[t].children, id as int);
                }
            }
            pending.push(ArenaSlot { instance_index: n.slots[j].instance_index, children: csp });
            j += 1;
            proof {
                assert(pending@.drop_last() =~= p0);
                assert(pending@.last() == pending@[j - 1]);
            }
        }
        proof {
            assert(n.slots@.take(n.slots@.len() as int) =~= n.slots@);
        }
        let ghost a4 = *self;
        let slots_start = self.slots.len() as u32;
        let mut q: usize = 0;
        while q < pending.len()
            invariant
                q <= pending@.len(),
                self.nodes@ == a4.nodes@,
                self.child_ids@ == a4.child_ids@,
                self.instance_ids@ == a4.instance_ids@,
                self.gpu_refs@ == a4.gpu_refs@,
                self.kernels_refs@ == a4.kernels_refs@,
                slots_start == a4.slots@.len(),
                self.slots@ == a4.slots@ + pending@.take(q as int),
            decreases pending@.len() - q,
        {
            self.slots.push(pending[q]);
            q += 1;
            proof {
                assert(self.slots@ =~= a4.slots@ + pending@.take(q as int));
            }
        }
        let slots_len = pending.len() as u32;
        let ghost a5 = *self;
        proof {
            assert(pending@.take(pending@.len() as int) =~= pending@);
            assert(n.slots@.take(n.slots@.len() as int) =~= n.slots@);
            assert(agrees(a4, a5, 0));
            lemma_wf_stable(a4, a5);
            lemma_agrees_trans(a1, a4, a5);
            assert(a5.slots@.subrange(slots_start as int, slots_start + slots_len) =~= pending@);
            lemma_slot_trees_stable(a4, a5, 0, pending@, id as int);
            lemma_span_trees_stable(a3, a5, 0, sp, id as int);
            lemma_span_stable(a3.instance_ids@, a5.instance_ids@, inst_span);
        }
        self.nodes[id as usize] = (ArenaNode::SameCpu { template: n.template, instances: inst_span, children: sp, slots_start, slots_len }
        );
        proof {
            assert(self.slot_range(slots_start, slots_len) == pending@);
            assert forall|t: int| 0 <= t < slots_len implies span_ok(
                self.child_ids@.len(),
                (#[trigger] self.slot_range(slots_start, slots_len)[t]).children,
            ) && self.children_after(self.slot_range(slots_start, slots_len)[t].children, id as int) by {
                assert(span_ok(a5.child_ids@.len(), pending@[t].children) && a5.children_after(pending@[t].children, id as int));
            }
            assert(self.node_ok(id as int));
            self.lemma_set_node(a5, id as int);
            lemma_span_trees_stable(a5, *self, id + 1, sp, id as int);
            lemma_slot_trees_stable(a5, *self, id + 1, pending@, id as int);
            lemma_agrees_lo(a1, a5, *self, id as int);
        }
    }

    /// Appends the references of a GPU node, as far as both its lists go;
    /// returns where they start and how many there are.
    fn push_gpu_refs(&mut self, g: &GpuNode) -> (r: (u32, u32))
        requires
            old(self).wf(),
            old(self).total() + g.templates@.len() <= u32::MAX,
        ensures
            final(self).wf(),
            agrees(*old(self), *final(self), 0),
            final(self).nodes@ == old(self).nodes@,
            final(self).child_ids@ == old(self).child_ids@,
            final(self).instance_ids@ == old(self).instance_ids@,
            final(self).slots@ == old(self).slots@,
            final(self).kernels_refs@ == old(self).kernels_refs@,
            final(self).total() <= old(self).total() + g.templates@.len(),
            range_ok(final(self).gpu_refs@.len(), r.0, r.1),
            final(self).gpu_refs@.subrange(r.0 as int, r.0 + r.1).map_values(|x: GpuRef| (x.template, x.instance)) == zip2(
                g.templates@,
                g.instances@,
            ),
    {
        let ghost a1 = *self;
        let refs_start = self.gpu_refs.len() as u32;
        let m = if g.templates.len() <= g.instances.len() {
            g.templates.len()
        } else {
            g.instances.len()
        };
        let mut k: usize = 0;
        while k < m
            invariant
                k <= m,
                m == zip2(g.templates@, g.instances@).len(),
                m <= g.templates@.len(),
                m <= g.instances@.len(),
                self.nodes@ == a1.nodes@,
                self.child_ids@ == a1.child_ids@,
                self.instance_ids@ == a1.instance_ids@,
                self.slots@ == a1.slots@,
                self.kernels_refs@ == a1.kernels_refs@,
                refs_start == a1.gpu_refs@.len(),
                self.gpu_refs@.len() == refs_start + k,
                forall|t: int| 0 <= t < refs_start ==> #[trigger] self.gpu_refs@[t] == a1.gpu_refs@[t],
                forall|t: int|
                    0 <= t < k ==> (#[trigger] self.gpu_refs@[refs_start + t]).template == g.templates@[t]
                        && self.gpu_refs@[refs_start + t].instance == g.instances@[t],
            decreases m - k,
        {
            self.gpu_refs.push(GpuRef { template: g.templates[k], instance: g.instances[k] });
            k += 1;
        }
        proof {
            assert(agrees(a1, *self, 0));
            lemma_wf_stable(a1, *self);
            assert(self.gpu_refs@.subrange(refs_start as int, refs_start + m).map_values(|x: GpuRef| (x.template, x.instance))
                =~= zip2(g.templates@, g.instances@)) by {
                assert forall|t: int| 0 <= t < m implies #[trigger] zip2(g.templates@, g.instances@)[t] == (
                    self.gpu_refs@[refs_start + t].template,
                    self.gpu_refs@[refs_start + t].instance,
                ) by {}
            }
        }
        (refs_start, m as u32)
    }

    /// Appends the launches of a multi-kernel launch node, as far as all
    /// three of its lists go; returns where they start and how many.
    fn push_kernels_refs(&mut self, n: &KernelsLaunchNode) -> (r: (u32, u32))
        requires
            old(self).wf(),
            old(self).total() + n.cpu_instances@.len() <= u32::MAX,
        ensures
            final(self).wf(),
            agrees(*old(self), *final(self), 0),
            final(self).nodes@ == old(self).nodes@,
            final(self).child_ids@ == old(self).child_ids@,
            final(self).instance_ids@ == old(self).instance_ids@,
            final(self).slots@ == old(self).slots@,
            final(self).gpu_refs@ == old(self).gpu_refs@,
            final(self).total() <= old(self).total() + n.cpu_instances@.len(),
            range_ok(final(self).kernels_refs@.len(), r.0, r.1),
            final(self).kernels_refs@.subrange(r.0 as int, r.0 + r.1).map_values(
                |x: KernelsLaunchRef| (x.cpu_instance, x.gpu_template, x.gpu_instance),
            ) == zip3(n.cpu_instances@, n.gpu_templates@, n.gpu_instances@),
    {
        let ghost a1 = *self;
        let refs_start = self.kernels_refs.len() as u32;
        let m0 = if n.cpu_instances.len() <= n.gpu_templates.len() {
            n.cpu_instances.len()
        } else {
            n.gpu_templates.len()
        };
        let m = if m0 <= n.gpu_instances.len() {
            m0
        } else {
            n.gpu_instances.len()
        };
        let mut k: usize = 0;
        while k < m
            invariant
                k <= m,
                m == zip3(n.cpu_instances@, n.gpu_templates@, n.gpu_instances@).len(),
                m <= n.cpu_instances@.len(),
                m <= n.gpu_templates@.len(),
                m <= n.gpu_instances@.len(),
                self.nodes@ == a1.nodes@,
                self.child_ids@ == a1.child_ids@,
                self.instance_ids@ == a1.instance_ids@,
                self.slots@ == a1.slots@,
                self.gpu_refs@ == a1.gpu_refs@,
                refs_start == a1.kernels_refs@.len(),
                self.kernels_refs@.len() == refs_start + k,
                forall|t: int| 0 <= t < refs_start ==> #[trigger] self.kernels_refs@[t] == a1.kernels_refs@[t],
                forall|t: int|
                    0 <= t < k ==> (#[trigger] self.kernels_refs@[refs_start + t]).cpu_instance == n.cpu_instances@[t]
                        && self.kernels_refs@[refs_start + t].gpu_template == n.gpu_templates@[t]
                        && self.kernels_refs@[refs_start + t].gpu_instance == n.gpu_instances@[t],
            decreases m - k,
        {
            self.kernels_refs.push(
                KernelsLaunchRef {
                    cpu_instance: n.cpu_instances[k],
                    gpu_template: n.gpu_templates[k],
                    gpu_instance: n.gpu_instances[k],
                }
            );
            k += 1;
        }
        proof {
            assert(agrees(a1, *self, 0));
            lemma_wf_stable(a1, *self);
            assert(self.kernels_refs@.subrange(refs_start as int, refs_start + m).map_values(
                |x: KernelsLaunchRef| (x.cpu_instance, x.gpu_template, x.gpu_instance),
            ) =~= zip3(n.cpu_instances@, n.gpu_templates@, n.gpu_instances@)) by {
                assert forall|t: int| 0 <= t < m implies #[trigger] zip3(n.cpu_instances@, n.gpu_templates@, n.gpu_instances@)[t]
                    == (
                    self.kernels_refs@[refs_start + t].cpu_instance,
                    self.kernels_refs@[refs_start + t].gpu_template,
                    self.kernels_refs@[refs_start + t].gpu_instance,
                ) by {}
            }
        }
        (refs_start, m as u32)
    }

    /// After node `id` of `a` (its placeholder) was replaced and nothing
    /// else changed: the arena is well formed if the new node is, it keeps
    /// `a` above `id`, and every earlier node is unchanged.
    proof fn lemma_set_node(&self, a: NodeArena, id: int)
        requires
            a.wf(),
            0 <= id < a.nodes@.len(),
            self.nodes@ == a.nodes@.update(id, self.nodes@[id]),
            self.child_ids@ == a.child_ids@,
            self.instance_ids@ == a.instance_ids@,
            self.gpu_refs@ == a.gpu_refs@,
            self.slots@ == a.slots@,
            self.kernels_refs@ == a.kernels_refs@,
            self.node_ok(id),
        ensures
            self.wf(),
            agrees(a, *self, id + 1),
            forall|k: int| 0 <= k < id ==> #[trigger] self.nodes@[k] == a.nodes@[k],
            self.total() == a.total(),
    {
        assert(agrees(a, *self, id + 1));
        assert forall|k: int| 0 <= k < self.nodes@.len() implies #[trigger] self.node_ok(k) by {
            if k != id {
                assert(a.node_ok(k));
                assert(self.nodes@[k] == a.nodes@[k]);
                lemma_node_ok_stable(a, *self, id + 1, k);
            }
        }
    }

    /// Stores a list of nodes, then their ids as one span of child ids.
    fn add_children(&mut self, children: &Vec<Node>, Ghost(parent): Ghost<int>) -> (span: ChildSpan)
        requires
            old(self).wf(),
            0 <= parent < old(self).nodes@.len(),
            old(self).total() + nodes_size(children@) <= u32::MAX,
        ensures
            final(self).wf(),
            agrees(*old(self), *final(self), 0),
            final(self).total() <= old(self).total() + nodes_size(children@),
            span_ok(final(self).child_ids@.len(), span),
            final(self).children_after(span, parent),
            final(self).trees_at(span_of(final(self).child_ids@, span), parent) == trees_of(children@),
        decreases children@, 0int,
    {
        let ghost a0 = *self;
        if children.len() == 0 {
            let sp = ChildSpan::empty();
            proof {
                assert(span_of(self.child_ids@, sp) =~= Seq::<u32>::empty());
                assert(children@ =~= Seq::<Node>::empty());
            }
            return sp;
        }
        let mut ids: Vec<NodeId> = Vec::new();
        let mut j: usize = 0;
        while j < children.len()
            invariant
                j <= children@.len(),
                self.wf(),
                agrees(a0, *self, 0),
                0 <= parent < a0.nodes@.len(),
                ids@.len() == j,
                forall|t: int| 0 <= t < j ==> parent < #[trigger] ids@[t] < self.nodes@.len(),
                self.trees_at(ids@, parent) == trees_of(children@.take(j as int)),
                self.total() + j <= a0.total() + nodes_size(children@.take(j as int)),
                a0.total() + nodes_size(children@) <= u32::MAX,
            decreases children@.len() - j,
        {
            let ghost b0 = *self;
            proof {
                lemma_trees_of_take(children@, j as int);
                lemma_nodes_size_take(children@, j + 1);
                assert(decreases_to!(children@ => children@[j as int]));
            }
            let c = self.add_node(&children[j]);
            proof {
                lemma_trees_stable(b0, *self, 0, ids@, parent);
                lemma_agrees_trans(a0, b0, *self);
            }
            let ghost ids0 = ids@;
            ids.push(c);
            j += 1;
            proof {
                assert(ids@.drop_last() =~= ids0);
                assert(ids@.last() == c);
            }
        }
        proof {
            assert(children@.take(children@.len() as int) =~= children@);
        }
        let ghost a1 = *self;
        let start = self.child_ids.len() as u32;
        let mut k: usize = 0;
        while k < ids.len()
            invariant
                k <= ids@.len(),
                self.nodes@ == a1.nodes@,
                self.instance_ids@ == a1.instance_ids@,
                self.gpu_refs@ == a1.gpu_refs@,
                self.slots@ == a1.slots@,
                self.kernels_refs@ == a1.kernels_refs@,
                start == a1.child_ids@.len(),
                self.child_ids@ == a1.child_ids@ + ids@.take(k as int),
                a1.total() + ids@.len() <= u32::MAX,
            decreases ids@.len() - k,
        {
            self.child_ids.push(ids[k]);
            k += 1;
            proof {
                assert(self.child_ids@ =~= a1.child_ids@ + ids@.take(k as int));
            }
        }
        let span = ChildSpan { start, len: ids.len() as u32 };
        proof {
            assert(ids@.take(ids@.len() as int) =~= ids@);
            assert(children@.take(children@.len() as int) =~= children@);
            assert(agrees(a1, *self, 0));
            lemma_wf_stable(a1, *self);
            lemma_agrees_trans(a0, a1, *self);
            assert(span_of(self.child_ids@, span) =~= ids@);
            lemma_trees_stable(a1, *self, 0, ids@, parent);
        }
        span
    }
}


/// The trees of a list grow by the tree of the node pushed.
proof fn lemma_trees_of_push(s: Seq<Node>, x: Node)
    ensures
        trees_of(s.push(x)) == trees_of(s).push(tree_of(x)),
{
    assert(s.push(x).drop_last() =~= s);
}

/// The slot trees of a list grow by the slot pushed.
proof fn lemma_slot_trees_of_push(s: Seq<SlotEntry>, x: SlotEntry)
    ensures
        slot_trees_of(s.push(x)) == slot_trees_of(s).push((x.instance_index, trees_of(x.children@))),
{
    assert(s.push(x).drop_last() =~= s);
}

impl NodeArena {
    /// The call tree stored at node `root_id`, every list rebuilt from the
    /// spans that hold it.
    pub fn to_tree(&self, root_id: NodeId) -> (t: Node)
        requires
            self.wf(),
            (root_id as int) < self.nodes@.len(),
        ensures
            tree_of(t) == self.tree_at(root_id as int),
    {
        self.reconstruct(root_id)
    }

    fn reconstruct(&self, id: NodeId) -> (t: Node)
        requires
            self.wf(),
            (id as int) < self.nodes@.len(),
        ensures
            tree_of(t) == self.tree_at(id as int),
        decreases self.nodes@.len() - id, 1int,
    {
        proof {
            assert(self.node_ok(id as int));
        }
        match *self.get(id) {
            ArenaNode::Root { children } => {
                let c = self.reconstruct_list(children, Ghost(id as int));
                Node::Root { children: c }
            },
            ArenaNode::Cpu { template, instance, children, slots } => {
                let c = self.reconstruct_list(children, Ghost(id as int));
                let sl = self.reconstruct_list(slots, Ghost(id as int));
                Node::Cpu(CpuNode { template, instance, children: c, slots: sl })
            },
            ArenaNode::SameCpu { template, instances, children, slots_start, slots_len } => {
                let ids = self.instances(instances);
                let mut inst: Vec<InstanceId> = Vec::new();
                let mut k: usize = 0;
                while k < ids.len()
                    invariant
                        k <= ids@.len(),
                        inst@ == ids@.take(k as int),
                    decreases ids@.len() - k,
                {
                    inst.push(ids[k]);
                    k += 1;
                    proof {
                        assert(inst@ =~= ids@.take(k as int));
                    }
                }
                proof {
                    assert(ids@.take(ids@.len() as int) =~= ids@);
                }
                let c = self.reconstruct_list(children, Ghost(id as int));
                let arena_slots = self.slots_slice(slots_start, slots_len);
                let mut out: Vec<SlotEntry> = Vec::new();
                let mut j: usize = 0;
                while j < arena_slots.len()
                    invariant
                        self.wf(),
                        (id as int) < self.nodes@.len(),
                        self.node_ok(id as int),
                        self.nodes@[id as int] == (ArenaNode::SameCpu { template, instances, children, slots_start, slots_len }),
                        arena_slots@ == self.slot_range(slots_start, slots_len),
                        arena_slots@.len() == slots_len,
                        j <= arena_slots@.len(),
                        slot_trees_of(out@) == self.slot_trees_at(arena_slots@.take(j as int), id as int),
                    decreases arena_slots@.len() - j,
                {
                    let sl = arena_slots[j];
                    proof {
                        assert(sl == self.slot_range(slots_start, slots_len)[j as int]);
                    }
                    let cs = self.reconstruct_list(sl.children, Ghost(id as int));
                    let entry = SlotEntry { instance_index: sl.instance_index, children: cs };
                    let ghost out0 = out@;
                    out.push(entry);
                    j += 1;
                    proof {
                        lemma_slot_trees_of_push(out0, entry);
                        assert(arena_slots@.take(j as int).drop_last() =~= arena_slots@.take(j - 1));
                        assert(arena_slots@.take(j as int).last() == sl);
                    }
                }
                proof {
                    assert(arena_slots@.take(arena_slots@.len() as int) =~= arena_slots@);
                }
                Node::SameCpu(SameCpuNode { template, instances: inst, children: c, slots: out })
            },
            ArenaNode::Gpu { refs_start, refs_len } => {
                let refs = self.gpu_refs_slice(refs_start, refs_len);
                let mut templates: Vec<TemplateId> = Vec::new();
                let mut instances: Vec<InstanceId> = Vec::new();
                let mut k: usize = 0;
                while k < refs.len()
                    invariant
                        k <= refs@.len(),
                        templates@.len() == k,
                        instances@.len() == k,
                        forall|t: int| 0 <= t < k ==> #[trigger] templates@[t] == refs@[t].template && instances@[t] == refs@[t].instance,
                    decreases refs@.len() - k,
                {
                    templates.push(refs[k].template);
                    instances.push(refs[k].instance);
                    k += 1;
                }
                let t = Node::Gpu(GpuNode { templates, instances });
                proof {
                    assert(zip2(templates@, instances@) =~= refs@.map_values(|r: GpuRef| (r.template, r.instance)));
                }
                t
            },
            ArenaNode::KernelLaunch { cpu_template, cpu_instance, gpu_template, gpu_instance } => Node::KernelLaunch(
                KernelLaunchNode { cpu_template, cpu_instance, gpu_template, gpu_instance },
            ),
            ArenaNode::KernelsLaunch { cpu_template, refs_start, refs_len } => {
                let refs = self.kernels_refs_slice(refs_start, refs_len);
                let mut cpu_instances: Vec<InstanceId> = Vec::new();
                let mut gpu_templates: Vec<TemplateId> = Vec::new();
                let mut gpu_instances: Vec<InstanceId> = Vec::new();
                let mut k: usize = 0;
                while k < refs.len()
                    invariant
                        k <= refs@.len(),
                        cpu_instances@.len() == k,
                        gpu_templates@.len() == k,
                        gpu_instances@.len() == k,
                        forall|t: int|
                            0 <= t < k ==> #[trigger] cpu_instances@[t] == refs@[t].cpu_instance && gpu_templates@[t]
                                == refs@[t].gpu_template && gpu_instances@[t] == refs@[t].gpu_instance,
                    decreases refs@.len() - k,
                {
                    cpu_instances.push(refs[k].cpu_instance);
                    gpu_templates.push(refs[k].gpu_template);
                    gpu_instances.push(refs[k].gpu_instance);
                    k += 1;
                }
                let t = Node::KernelsLaunch(KernelsLaunchNode { cpu_template, cpu_instances, gpu_templates, gpu_instances });
                proof {
                    assert(zip3(cpu_instances@, gpu_templates@, gpu_instances@) =~= refs@.map_values(
                        |r: KernelsLaunchRef| (r.cpu_instance, r.gpu_template, r.gpu_instance),
                    ));
                }
                t
            },
        }
    }

    /// The nodes at a span of children of node `parent`.
    fn reconstruct_list(&self, s: ChildSpan, Ghost(parent): Ghost<int>) -> (v: Vec<Node>)
        requires
            self.wf(),
            0 <= parent < self.nodes@.len(),
            span_ok(self.child_ids@.len(), s),
            self.children_after(s, parent),
        ensures
            trees_of(v@) == self.trees_at(span_of(self.child_ids@, s), parent),
        decreases self.nodes@.len() - parent, 0int,
    {
        let ids = self.children(s);
        let mut out: Vec<Node> = Vec::new();
        let mut j: usize = 0;
        while j < ids.len()
            invariant
                self.wf(),
                0 <= parent < self.nodes@.len(),
                ids@ == span_of(self.child_ids@, s),
                self.children_after(s, parent),
                j <= ids@.len(),
                trees_of(out@) == self.trees_at(ids@.take(j as int), parent),
            decreases ids@.len() - j,
        {
            let c = ids[j];
            proof {
                assert(parent < ids@[j as int] < self.nodes@.len());
            }
            let t = self.reconstruct(c);
            let ghost out0 = out@;
            out.push(t);
            j += 1;
            proof {
                lemma_trees_of_push(out0, t);
                assert(ids@.take(j as int).drop_last() =~= ids@.take(j - 1));
                assert(ids@.take(j as int).last() == c);
            }
        }
        proof {
            assert(ids@.take(ids@.len() as int) =~= ids@);
        }
        out
    }
}

/// Storing a call tree and reading it back gives the same tree.
pub proof fn lemma_arena_round_trip(root: Node, a: NodeArena, id: NodeId, back: Node)
    requires
        a.wf(),
        (id as int) < a.nodes@.len(),
        a.tree_at(id as int) == tree_of(root),
        tree_of(back) == a.tree_at(id as int),
    ensures
        tree_of(back) == tree_of(root),
{
}

} // verus!
