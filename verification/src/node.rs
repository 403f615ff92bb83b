//! The compressed call tree: each node refers to its events through a
//! template id and an instance id within that template.

use vstd::prelude::*;

use crate::arena::{InstanceId, TemplateId};

verus! {

/// A CPU event with its nested calls; `slots` holds calls that belong to
/// this instance only.
#[derive(Debug)]
pub struct CpuNode {
    pub template: TemplateId,
    pub instance: InstanceId,
    pub children: Vec<Node>,
    pub slots: Vec<Node>,
}

/// The calls of one instance of a grouped CPU node that its siblings do
/// not share.
#[derive(Debug)]
pub struct SlotEntry {
    pub instance_index: u32,
    pub children: Vec<Node>,
}

/// Sibling CPU events of one template with the same sub-tree, grouped.
#[derive(Debug)]
pub struct SameCpuNode {
    pub template: TemplateId,
    pub instances: Vec<InstanceId>,
    pub children: Vec<Node>,
    pub slots: Vec<SlotEntry>,
}

/// GPU events, as parallel lists of templates and instances.
#[derive(Clone, Debug)]
pub struct GpuNode {
    pub templates: Vec<TemplateId>,
    pub instances: Vec<InstanceId>,
}

/// A CPU launch together with the kernel it launched.
#[derive(Clone, Copy, Debug)]
pub struct KernelLaunchNode {
    pub cpu_template: TemplateId,
    pub cpu_instance: InstanceId,
    pub gpu_template: TemplateId,
    pub gpu_instance: InstanceId,
}

/// Launches of one CPU template, each with the kernel it launched.
#[derive(Clone, Debug)]
pub struct KernelsLaunchNode {
    pub cpu_template: TemplateId,
    pub cpu_instances: Vec<InstanceId>,
    pub gpu_templates: Vec<TemplateId>,
    pub gpu_instances: Vec<InstanceId>,
}

/// A node of the call tree.
#[derive(Debug)]
pub enum Node {
    Root { children: Vec<Node> },
    Cpu(CpuNode),
    SameCpu(SameCpuNode),
    Gpu(GpuNode),
    KernelLaunch(KernelLaunchNode),
    KernelsLaunch(KernelsLaunchNode),
}

/// A call tree as a mathematical value: what a [`Node`] holds, its lists
/// as sequences.
pub enum Tree {
    Root { children: Seq<Tree> },
    Cpu { template: u32, instance: u32, children: Seq<Tree>, slots: Seq<Tree> },
    SameCpu { template: u32, instances: Seq<u32>, children: Seq<Tree>, slots: Seq<(u32, Seq<Tree>)> },
    Gpu { refs: Seq<(u32, u32)> },
    KernelLaunch { cpu_template: u32, cpu_instance: u32, gpu_template: u32, gpu_instance: u32 },
    KernelsLaunch { cpu_template: u32, refs: Seq<(u32, u32, u32)> },
}

/// Two lists read in step, as far as the shorter goes.
pub open spec fn zip2(a: Seq<u32>, b: Seq<u32>) -> Seq<(u32, u32)> {
    Seq::new(if a.len() <= b.len() { a.len() } else { b.len() }, |i: int| (a[i], b[i]))
}

/// Three lists read in step, as far as the shortest goes.
pub open spec fn zip3(a: Seq<u32>, b: Seq<u32>, c: Seq<u32>) -> Seq<(u32, u32, u32)> {
    let n = if a.len() <= b.len() { a.len() } else { b.len() };
    let n = if n <= c.len() { n } else { c.len() };
    Seq::new(n, |i: int| (a[i], b[i], c[i]))
}

/// The tree a node holds.
pub open spec fn tree_of(n: Node) -> Tree
    decreases n,
{
    match n {
        Node::Root { children } => Tree::Root { children: trees_of(children@) },
        Node::Cpu(c) => Tree::Cpu {
            template: c.template,
            instance: c.instance,
            children: trees_of(c.children@),
            slots: trees_of(c.slots@),
        },
        Node::SameCpu(c) => Tree::SameCpu {
            template: c.template,
            instances: c.instances@,
            children: trees_of(c.children@),
            slots: slot_trees_of(c.slots@),
        },
        Node::Gpu(g) => Tree::Gpu { refs: zip2(g.templates@, g.instances@) },
        Node::KernelLaunch(k) => Tree::KernelLaunch {
            cpu_template: k.cpu_template,
            cpu_instance: k.cpu_instance,
            gpu_template: k.gpu_template,
            gpu_instance: k.gpu_instance,
        },
        Node::KernelsLaunch(k) => Tree::KernelsLaunch {
            cpu_template: k.cpu_template,
            refs: zip3(k.cpu_instances@, k.gpu_templates@, k.gpu_instances@),
        },
    }
}

/// The trees of a list of nodes.
pub open spec fn trees_of(s: Seq<Node>) -> Seq<Tree>
    decreases s,
{
    if s.len() == 0 {
        Seq::empty()
    } else {
        trees_of(s.drop_last()).push(tree_of(s.last()))
    }
}

/// How many entries storing a node takes: one per node, per child id,
/// per instance, per reference and per slot.
pub open spec fn node_size(n: Node) -> nat
    decreases n,
{
    match n {
        Node::Root { children } => 1 + nodes_size(children@),
        Node::Cpu(c) => 1 + nodes_size(c.children@) + nodes_size(c.slots@),
        Node::SameCpu(c) => 1 + c.instances@.len() + nodes_size(c.children@) + slots_size(c.slots@),
        Node::Gpu(g) => 1 + g.templates@.len(),
        Node::KernelLaunch(_) => 1,
        Node::KernelsLaunch(k) => 1 + k.cpu_instances@.len(),
    }
}

/// How many entries storing a list of nodes takes, their ids included.
pub open spec fn nodes_size(s: Seq<Node>) -> nat
    decreases s,
{
    if s.len() == 0 {
        0
    } else {
        nodes_size(s.drop_last()) + node_size(s.last()) + 1
    }
}

/// How many entries storing the slots of a grouped node takes.
pub open spec fn slots_size(s: Seq<SlotEntry>) -> nat
    decreases s,
{
    if s.len() == 0 {
        0
    } else {
        slots_size(s.drop_last()) + 1 + nodes_size(s.last().children@)
    }
}

/// The slots of a grouped node, each as its instance and its trees.
pub open spec fn slot_trees_of(s: Seq<SlotEntry>) -> Seq<(u32, Seq<Tree>)>
    decreases s,
{
    if s.len() == 0 {
        Seq::empty()
    } else {
        slot_trees_of(s.drop_last()).push((s.last().instance_index, trees_of(s.last().children@)))
    }
}


/// Every template id the tree names is below `k`.
pub open spec fn ids_below(t: Tree, k: nat) -> bool
    decreases t,
{
    match t {
        Tree::Root { children } => all_below(children, k),
        Tree::Cpu { template, children, slots, .. } => template < k && all_below(children, k) && all_below(slots, k),
        Tree::SameCpu { template, children, slots, .. } => template < k && all_below(children, k) && slots_below(slots, k),
        Tree::Gpu { refs } => gpu_refs_below(refs, k),
        Tree::KernelLaunch { cpu_template, gpu_template, .. } => cpu_template < k && gpu_template < k,
        Tree::KernelsLaunch { cpu_template, refs } => cpu_template < k && launch_refs_below(refs, k),
    }
}

/// Every GPU reference names a template below `k`.
pub open spec fn gpu_refs_below(refs: Seq<(u32, u32)>, k: nat) -> bool {
    forall|i: int| 0 <= i < refs.len() ==> (#[trigger] refs[i]).0 < k
}

/// Every launched kernel names a template below `k`.
pub open spec fn launch_refs_below(refs: Seq<(u32, u32, u32)>, k: nat) -> bool {
    forall|i: int| 0 <= i < refs.len() ==> (#[trigger] refs[i]).1 < k
}

/// Every tree of the list names template ids below `k` only.
pub open spec fn all_below(s: Seq<Tree>, k: nat) -> bool
    decreases s,
{
    if s.len() == 0 {
        true
    } else {
        all_below(s.drop_last(), k) && ids_below(s.last(), k)
    }
}

/// Every slot's trees name template ids below `k` only.
pub open spec fn slots_below(s: Seq<(u32, Seq<Tree>)>, k: nat) -> bool
    decreases s,
{
    if s.len() == 0 {
        true
    } else {
        slots_below(s.drop_last(), k) && all_below(s.last().1, k)
    }
}

/// An instance id moved by an offset, wrapping as `u32` addition does.
pub open spec fn shifted(i: u32, off: u32) -> u32 {
    ((i + off) % 0x1_0000_0000) as u32
}

/// The tree with every template id `t` replaced by `remap[t].0` and the
/// instance ids of that template moved by `remap[t].1`.
pub open spec fn rewrite_tree(t: Tree, remap: Seq<(u32, u32)>) -> Tree
    decreases t,
{
    match t {
        Tree::Root { children } => Tree::Root { children: rewrite_trees(children, remap) },
        Tree::Cpu { template, instance, children, slots } => Tree::Cpu {
            template: remap[template as int].0,
            instance: shifted(instance, remap[template as int].1),
            children: rewrite_trees(children, remap),
            slots: rewrite_trees(slots, remap),
        },
        Tree::SameCpu { template, instances, children, slots } => Tree::SameCpu {
            template: remap[template as int].0,
            instances: instances.map_values(|i: u32| shifted(i, remap[template as int].1)),
            children: rewrite_trees(children, remap),
            slots: rewrite_slots(slots, remap),
        },
        Tree::Gpu { refs } => Tree::Gpu {
            refs: refs.map_values(|r: (u32, u32)| (remap[r.0 as int].0, shifted(r.1, remap[r.0 as int].1))),
        },
        Tree::KernelLaunch { cpu_template, cpu_instance, gpu_template, gpu_instance } => Tree::KernelLaunch {
            cpu_template: remap[cpu_template as int].0,
            cpu_instance: shifted(cpu_instance, remap[cpu_template as int].1),
            gpu_template: remap[gpu_template as int].0,
            gpu_instance: shifted(gpu_instance, remap[gpu_template as int].1),
        },
        Tree::KernelsLaunch { cpu_template, refs } => Tree::KernelsLaunch {
            cpu_template: remap[cpu_template as int].0,
            refs: refs.map_values(
                |r: (u32, u32, u32)|
                    (shifted(r.0, remap[cpu_template as int].1), remap[r.1 as int].0, shifted(r.2, remap[r.1 as int].1)),
            ),
        },
    }
}

/// The trees of the list, each rewritten.
pub open spec fn rewrite_trees(s: Seq<Tree>, remap: Seq<(u32, u32)>) -> Seq<Tree>
    decreases s,
{
    if s.len() == 0 {
        Seq::empty()
    } else {
        rewrite_trees(s.drop_last(), remap).push(rewrite_tree(s.last(), remap))
    }
}

/// The slots, each with its trees rewritten.
pub open spec fn rewrite_slots(s: Seq<(u32, Seq<Tree>)>, remap: Seq<(u32, u32)>) -> Seq<(u32, Seq<Tree>)>
    decreases s,
{
    if s.len() == 0 {
        Seq::empty()
    } else {
        rewrite_slots(s.drop_last(), remap).push((s.last().0, rewrite_trees(s.last().1, remap)))
    }
}

/// The trees of a list of nodes, one per node, in order.
pub proof fn lemma_trees_of_index(s: Seq<Node>)
    ensures
        trees_of(s).len() == s.len(),
        forall|j: int| 0 <= j < s.len() ==> #[trigger] trees_of(s)[j] == tree_of(s[j]),
    decreases s.len(),
{
    if s.len() > 0 {
        lemma_trees_of_index(s.drop_last());
        assert forall|j: int| 0 <= j < s.len() implies #[trigger] trees_of(s)[j] == tree_of(s[j]) by {
            if j < s.len() - 1 {
                assert(s.drop_last()[j] == s[j]);
            }
        }
    }
}

/// A list names ids below `k` iff each of its trees does.
pub proof fn lemma_all_below_index(s: Seq<Tree>, k: nat)
    ensures
        all_below(s, k) <==> forall|j: int| 0 <= j < s.len() ==> #[trigger] ids_below(s[j], k),
    decreases s.len(),
{
    if s.len() > 0 {
        lemma_all_below_index(s.drop_last(), k);
        if forall|j: int| 0 <= j < s.len() ==> #[trigger] ids_below(s[j], k) {
            assert forall|j: int| 0 <= j < s.drop_last().len() implies #[trigger] ids_below(s.drop_last()[j], k) by {
                assert(ids_below(s[j], k));
            }
            assert(ids_below(s[s.len() - 1], k));
        }
        if all_below(s, k) {
            assert forall|j: int| 0 <= j < s.len() implies #[trigger] ids_below(s[j], k) by {
                if j < s.len() - 1 {
                    assert(ids_below(s.drop_last()[j], k));
                }
            }
        }
    }
}

/// The rewritten list holds, in order, each tree rewritten.
pub proof fn lemma_rewrite_trees_index(s: Seq<Tree>, remap: Seq<(u32, u32)>)
    ensures
        rewrite_trees(s, remap).len() == s.len(),
        forall|j: int| 0 <= j < s.len() ==> #[trigger] rewrite_trees(s, remap)[j] == rewrite_tree(s[j], remap),
    decreases s.len(),
{
    if s.len() > 0 {
        lemma_rewrite_trees_index(s.drop_last(), remap);
        assert forall|j: int| 0 <= j < s.len() implies #[trigger] rewrite_trees(s, remap)[j] == rewrite_tree(s[j], remap) by {
            if j < s.len() - 1 {
                assert(s.drop_last()[j] == s[j]);
            }
        }
    }
}

/// The rewritten slots hold, in order, each slot with its trees rewritten;
/// the slots name ids below `k` iff each slot's trees do.
pub proof fn lemma_slots_index(s: Seq<(u32, Seq<Tree>)>, remap: Seq<(u32, u32)>, k: nat)
    ensures
        rewrite_slots(s, remap).len() == s.len(),
        forall|j: int| 0 <= j < s.len() ==> #[trigger] rewrite_slots(s, remap)[j] == (s[j].0, rewrite_trees(s[j].1, remap)),
        slots_below(s, k) <==> forall|j: int| 0 <= j < s.len() ==> all_below(#[trigger] s[j].1, k),
    decreases s.len(),
{
    if s.len() > 0 {
        lemma_slots_index(s.drop_last(), remap, k);
        assert forall|j: int| 0 <= j < s.len() implies #[trigger] rewrite_slots(s, remap)[j] == (
            s[j].0,
            rewrite_trees(s[j].1, remap),
        ) by {
            if j < s.len() - 1 {
                assert(s.drop_last()[j] == s[j]);
            }
        }
        if forall|j: int| 0 <= j < s.len() ==> all_below(#[trigger] s[j].1, k) {
            assert forall|j: int| 0 <= j < s.drop_last().len() implies all_below(#[trigger] s.drop_last()[j].1, k) by {
                assert(all_below(s[j].1, k));
            }
            assert(all_below(s[s.len() - 1].1, k));
        }
        if slots_below(s, k) {
            assert forall|j: int| 0 <= j < s.len() implies all_below(#[trigger] s[j].1, k) by {
                if j < s.len() - 1 {
                    assert(all_below(s.drop_last()[j].1, k));
                }
            }
        }
    }
}

/// The slot trees of a list of slot entries, one per entry, in order.
pub proof fn lemma_slot_trees_of_index(s: Seq<SlotEntry>)
    ensures
        slot_trees_of(s).len() == s.len(),
        forall|j: int| 0 <= j < s.len() ==> #[trigger] slot_trees_of(s)[j] == (s[j].instance_index, trees_of(s[j].children@)),
    decreases s.len(),
{
    if s.len() > 0 {
        lemma_slot_trees_of_index(s.drop_last());
        assert forall|j: int| 0 <= j < s.len() implies #[trigger] slot_trees_of(s)[j] == (
            s[j].instance_index,
            trees_of(s[j].children@),
        ) by {
            if j < s.len() - 1 {
                assert(s.drop_last()[j] == s[j]);
            }
        }
    }
}


/// An instance id moved by an offset, wrapping as `u32` addition does.
fn shift(i: u32, off: u32) -> (r: u32)
    ensures
        r == shifted(i, off),
{
    ((i as u64 + off as u64) % 0x1_0000_0000u64) as u32
}

/// The tree with every template id `t` replaced by `remap[t].0` and every
/// instance id of template `t` moved by `remap[t].1`.
pub fn rewrite_node(node: &Node, remap: &Vec<(u32, u32)>) -> (r: Node)
    requires
        ids_below(tree_of(*node), remap@.len()),
    ensures
        tree_of(r) == rewrite_tree(tree_of(*node), remap@),
    decreases *node, 1int,
{
    match node {
        Node::Root { children } => Node::Root { children: rewrite_list(children, remap) },
        Node::Cpu(c) => {
            let (gt, off) = remap[c.template as usize];
            Node::Cpu(
                CpuNode {
                    template: gt,
                    instance: shift(c.instance, off),
                    children: rewrite_list(&c.children, remap),
                    slots: rewrite_list(&c.slots, remap),
                },
            )
        },
        Node::SameCpu(c) => {
            let (gt, off) = remap[c.template as usize];
            let mut instances: Vec<InstanceId> = Vec::new();
            let mut k: usize = 0;
            while k < c.instances.len()
                invariant
                    k <= c.instances@.len(),
                    instances@ == c.instances@.take(k as int).map_values(|i: u32| shifted(i, off)),
                decreases c.instances@.len() - k,
            {
                instances.push(shift(c.instances[k], off));
                k += 1;
                proof {
                    assert(instances@ =~= c.instances@.take(k as int).map_values(|i: u32| shifted(i, off)));
                }
            }
            proof {
                assert(c.instances@.take(c.instances@.len() as int) =~= c.instances@);
            }
            let children = rewrite_list(&c.children, remap);
            let mut slots: Vec<SlotEntry> = Vec::new();
            let ghost sl = slot_trees_of(c.slots@);
            proof {
                lemma_slot_trees_of_index(c.slots@);
                lemma_slots_index(sl, remap@, remap@.len());
            }
            proof {
                assert(decreases_to!(c.slots => c.slots@));
                assert(decreases_to!(*node => c.slots@));
            }
            let mut j: usize = 0;
            while j < c.slots.len()
                invariant
                    decreases_to!(*node => c.slots@),
                    j <= c.slots@.len(),
                    sl == slot_trees_of(c.slots@),
                    sl.len() == c.slots@.len(),
                    forall|q: int| 0 <= q < c.slots@.len() ==> #[trigger] sl[q] == (c.slots@[q].instance_index, trees_of(c.slots@[q].children@)),
                    forall|q: int| 0 <= q < sl.len() ==> all_below(#[trigger] sl[q].1, remap@.len()),
                    slots@.len() == j,
                    forall|q: int|
                        0 <= q < j ==> #[trigger] slot_trees_of(slots@)[q] == (sl[q].0, rewrite_trees(sl[q].1, remap@)),
                    slot_trees_of(slots@).len() == j,
                decreases c.slots@.len() - j,
            {
                proof {
                    assert(decreases_to!(c.slots@ => c.slots@[j as int]));
                    assert(decreases_to!(c.slots@[j as int].children => c.slots@[j as int].children@));
                    assert(all_below(sl[j as int].1, remap@.len()));
                }
                let entry = SlotEntry {
                    instance_index: c.slots[j].instance_index,
                    children: rewrite_list(&c.slots[j].children, remap),
                };
                let ghost s0 = slots@;
                slots.push(entry);
                j += 1;
                proof {
                    lemma_slot_trees_of_index(slots@);
                    lemma_slot_trees_of_index(s0);
                    assert forall|q: int| 0 <= q < j implies #[trigger] slot_trees_of(slots@)[q] == (
                        sl[q].0,
                        rewrite_trees(sl[q].1, remap@),
                    ) by {
                        if q < j - 1 {
                            assert(slots@[q] == s0[q]);
                            assert(slot_trees_of(s0)[q] == (sl[q].0, rewrite_trees(sl[q].1, remap@)));
                        }
                    }
                }
            }
            proof {
                lemma_slot_trees_of_index(slots@);
                assert(slot_trees_of(slots@) =~= rewrite_slots(sl, remap@));
            }
            Node::SameCpu(SameCpuNode { template: gt, instances, children, slots })
        },
        Node::Gpu(g) => {
            let mut templates: Vec<TemplateId> = Vec::new();
            let mut instances: Vec<InstanceId> = Vec::new();
            let ghost z = zip2(g.templates@, g.instances@);
            let mut k: usize = 0;
            while k < g.templates.len()
                invariant
                    z == zip2(g.templates@, g.instances@),
                    forall|i: int| 0 <= i < z.len() ==> (#[trigger] z[i]).0 < remap@.len(),
                    k <= g.templates@.len(),
                    templates@.len() == k,
                    forall|i: int|
                        0 <= i < k ==> #[trigger] templates@[i] == if i < g.instances@.len() {
                            remap@[g.templates@[i] as int].0
                        } else {
                            g.templates@[i]
                        },
                decreases g.templates@.len() - k,
            {
                if k < g.instances.len() {
                    proof {
                        assert(z[k as int].0 == g.templates@[k as int]);
                    }
                    templates.push(remap[g.templates[k] as usize].0);
                } else {
                    templates.push(g.templates[k]);
                }
                k += 1;
            }
            let mut k: usize = 0;
            while k < g.instances.len()
                invariant
                    z == zip2(g.templates@, g.instances@),
                    forall|i: int| 0 <= i < z.len() ==> (#[trigger] z[i]).0 < remap@.len(),
                    k <= g.instances@.len(),
                    instances@.len() == k,
                    forall|i: int|
                        0 <= i < k ==> #[trigger] instances@[i] == if i < g.templates@.len() {
                            shifted(g.instances@[i], remap@[g.templates@[i] as int].1)
                        } else {
                            g.instances@[i]
                        },
                decreases g.instances@.len() - k,
            {
                if k < g.templates.len() {
                    proof {
                        assert(z[k as int].0 == g.templates@[k as int]);
                    }
                    let off = remap[g.templates[k] as usize].1;
                    instances.push(shift(g.instances[k], off));
                } else {
                    instances.push(g.instances[k]);
                }
                k += 1;
            }
            let r = Node::Gpu(GpuNode { templates, instances });
            proof {
                assert(zip2(templates@, instances@) =~= z.map_values(
                    |p: (u32, u32)| (remap@[p.0 as int].0, shifted(p.1, remap@[p.0 as int].1)),
                ));
            }
            r
        },
        Node::KernelLaunch(n) => {
            let (ct, coff) = remap[n.cpu_template as usize];
            let (gt, goff) = remap[n.gpu_template as usize];
            Node::KernelLaunch(
                KernelLaunchNode {
                    cpu_template: ct,
                    cpu_instance: shift(n.cpu_instance, coff),
                    gpu_template: gt,
                    gpu_instance: shift(n.gpu_instance, goff),
                },
            )
        },
        Node::KernelsLaunch(n) => {
            let (ct, coff) = remap[n.cpu_template as usize];
            let ghost z = zip3(n.cpu_instances@, n.gpu_templates@, n.gpu_instances@);
            let m0 = if n.cpu_instances.len() <= n.gpu_templates.len() {
                n.cpu_instances.len()
            } else {
                n.gpu_templates.len()
            };
            let m = if m0 <= n.gpu_instances.len() {
                m0
            } else {
                n.gpu_instances.len()
            };
            let mut cpu_instances: Vec<InstanceId> = Vec::new();
            let mut gpu_templates: Vec<TemplateId> = Vec::new();
            let mut gpu_instances: Vec<InstanceId> = Vec::new();
            let mut k: usize = 0;
            while k < n.cpu_instances.len()
                invariant
                    k <= n.cpu_instances@.len(),
                    cpu_instances@ == n.cpu_instances@.take(k as int).map_values(|i: u32| shifted(i, coff)),
                decreases n.cpu_instances@.len() - k,
            {
                cpu_instances.push(shift(n.cpu_instances[k], coff));
                k += 1;
                proof {
                    assert(cpu_instances@ =~= n.cpu_instances@.take(k as int).map_values(|i: u32| shifted(i, coff)));
                }
            }
            let mut k: usize = 0;
            while k < n.gpu_templates.len()
                invariant
                    z == zip3(n.cpu_instances@, n.gpu_templates@, n.gpu_instances@),
                    m == z.len(),
                    forall|i: int| 0 <= i < z.len() ==> (#[trigger] z[i]).1 < remap@.len(),
                    k <= n.gpu_templates@.len(),
                    gpu_templates@.len() == k,
                    gpu_instances@.len() == (if k <= n.gpu_instances@.len() { k as nat } else { n.gpu_instances@.len() }),
                    forall|i: int|
                        0 <= i < k ==> #[trigger] gpu_templates@[i] == if i < m {
                            remap@[n.gpu_templates@[i] as int].0
                        } else {
                            n.gpu_templates@[i]
                        },
                    forall|i: int|
                        0 <= i < gpu_instances@.len() ==> #[trigger] gpu_instances@[i] == if i < m {
                            shifted(n.gpu_instances@[i], remap@[n.gpu_templates@[i] as int].1)
                        } else {
                            n.gpu_instances@[i]
                        },
                decreases n.gpu_templates@.len() - k,
            {
                if k < m {
                    proof {
                        assert(z[k as int].1 == n.gpu_templates@[k as int]);
                    }
                    let (gt, goff) = remap[n.gpu_templates[k] as usize];
                    gpu_templates.push(gt);
                    gpu_instances.push(shift(n.gpu_instances[k], goff));
                } else {
                    gpu_templates.push(n.gpu_templates[k]);
                    if k < n.gpu_instances.len() {
                        gpu_instances.push(n.gpu_instances[k]);
                    }
                }
                k += 1;
            }
            while gpu_instances.len() < n.gpu_instances.len()
                invariant
                    z == zip3(n.cpu_instances@, n.gpu_templates@, n.gpu_instances@),
                    m == z.len(),
                    m <= n.gpu_templates@.len(),
                    gpu_instances@.len() <= n.gpu_instances@.len(),
                    gpu_instances@.len() >= m,
                    forall|i: int|
                        0 <= i < gpu_instances@.len() ==> #[trigger] gpu_instances@[i] == if i < m {
                            shifted(n.gpu_instances@[i], remap@[n.gpu_templates@[i] as int].1)
                        } else {
                            n.gpu_instances@[i]
                        },
                decreases n.gpu_instances@.len() - gpu_instances@.len(),
            {
                let q = gpu_instances.len();
                gpu_instances.push(n.gpu_instances[q]);
            }
            proof {
                assert(n.cpu_instances@.take(n.cpu_instances@.len() as int) =~= n.cpu_instances@);
            }
            let r = Node::KernelsLaunch(KernelsLaunchNode { cpu_template: ct, cpu_instances, gpu_templates, gpu_instances });
            proof {
                assert(zip3(cpu_instances@, gpu_templates@, gpu_instances@) =~= z.map_values(
                    |p: (u32, u32, u32)| (shifted(p.0, coff), remap@[p.1 as int].0, shifted(p.2, remap@[p.1 as int].1)),
                ));
            }
            r
        },
    }
}

/// Each node of the list rewritten, in order.
fn rewrite_list(s: &Vec<Node>, remap: &Vec<(u32, u32)>) -> (r: Vec<Node>)
    requires
        all_below(trees_of(s@), remap@.len()),
    ensures
        trees_of(r@) == rewrite_trees(trees_of(s@), remap@),
    decreases s@, 0int,
{
    proof {
        lemma_trees_of_index(s@);
        lemma_all_below_index(trees_of(s@), remap@.len());
        lemma_rewrite_trees_index(trees_of(s@), remap@);
    }
    let mut out: Vec<Node> = Vec::new();
    let mut j: usize = 0;
    while j < s.len()
        invariant
            j <= s@.len(),
            trees_of(s@).len() == s@.len(),
            forall|q: int| 0 <= q < s@.len() ==> #[trigger] trees_of(s@)[q] == tree_of(s@[q]),
            forall|q: int| 0 <= q < s@.len() ==> ids_below(#[trigger] trees_of(s@)[q], remap@.len()),
            out@.len() == j,
            forall|q: int| 0 <= q < j ==> #[trigger] tree_of(out@[q]) == rewrite_tree(trees_of(s@)[q], remap@),
        decreases s@.len() - j,
    {
        proof {
            assert(decreases_to!(s@ => s@[j as int]));
            assert(ids_below(trees_of(s@)[j as int], remap@.len()));
        }
        let t = rewrite_node(&s[j], remap);
        out.push(t);
        j += 1;
    }
    proof {
        lemma_trees_of_index(out@);
        assert(trees_of(out@) =~= rewrite_trees(trees_of(s@), remap@));
    }
    out
}


/// Whether every template id the tree names is below `k`.
pub fn tree_ids_below(node: &Node, k: u64) -> (b: bool)
    ensures
        b == ids_below(tree_of(*node), k as nat),
    decreases *node, 1int,
{
    match node {
        Node::Root { children } => list_ids_below(children, k),
        Node::Cpu(c) => (c.template as u64) < k && list_ids_below(&c.children, k) && list_ids_below(&c.slots, k),
        Node::SameCpu(c) => {
            if !((c.template as u64) < k && list_ids_below(&c.children, k)) {
                return false;
            }
            let ghost sl = slot_trees_of(c.slots@);
            proof {
                lemma_slot_trees_of_index(c.slots@);
                lemma_slots_index(sl, Seq::empty(), k as nat);
                assert(decreases_to!(c.slots => c.slots@));
                assert(decreases_to!(*node => c.slots@));
            }
            let mut j: usize = 0;
            while j < c.slots.len()
                invariant
                    *node == Node::SameCpu(*c),
                    c.template < k,
                    all_below(trees_of(c.children@), k as nat),
                    decreases_to!(*node => c.slots@),
                    j <= c.slots@.len(),
                    sl == slot_trees_of(c.slots@),
                    sl.len() == c.slots@.len(),
                    forall|q: int| 0 <= q < c.slots@.len() ==> #[trigger] sl[q] == (c.slots@[q].instance_index, trees_of(c.slots@[q].children@)),
                    slots_below(sl, k as nat) <==> forall|q: int| 0 <= q < sl.len() ==> all_below(#[trigger] sl[q].1, k as nat),
                    forall|q: int| 0 <= q < j ==> all_below(#[trigger] sl[q].1, k as nat),
                decreases c.slots@.len() - j,
            {
                proof {
                    assert(decreases_to!(c.slots@ => c.slots@[j as int]));
                    assert(decreases_to!(c.slots@[j as int].children => c.slots@[j as int].children@));
                }
                if !list_ids_below(&c.slots[j].children, k) {
                    proof {
                        assert(!all_below(sl[j as int].1, k as nat));
                    }
                    return false;
                }
                j += 1;
            }
            true
        },
        Node::Gpu(g) => {
            let ghost z = zip2(g.templates@, g.instances@);
            let m = if g.templates.len() <= g.instances.len() {
                g.templates.len()
            } else {
                g.instances.len()
            };
            let mut q: usize = 0;
            while q < m
                invariant
                    *node == Node::Gpu(*g),
                    z == zip2(g.templates@, g.instances@),
                    m == z.len(),
                    q <= m,
                    forall|i: int| 0 <= i < q ==> (#[trigger] z[i]).0 < k,
                decreases m - q,
            {
                if g.templates[q] as u64 >= k {
                    proof {
                        assert(z[q as int].0 >= k);
                        assert(tree_of(*node) == (Tree::Gpu { refs: z }));
                        assert(!gpu_refs_below(z, k as nat));
                    }
                    return false;
                }
                q += 1;
            }
            true
        },
        Node::KernelLaunch(n) => (n.cpu_template as u64) < k && (n.gpu_template as u64) < k,
        Node::KernelsLaunch(n) => {
            if n.cpu_template as u64 >= k {
                return false;
            }
            let ghost z = zip3(n.cpu_instances@, n.gpu_templates@, n.gpu_instances@);
            let m0 = if n.cpu_instances.len() <= n.gpu_templates.len() {
                n.cpu_instances.len()
            } else {
                n.gpu_templates.len()
            };
            let m = if m0 <= n.gpu_instances.len() {
                m0
            } else {
                n.gpu_instances.len()
            };
            let mut q: usize = 0;
            while q < m
                invariant
                    *node == Node::KernelsLaunch(*n),
                    n.cpu_template < k,
                    z == zip3(n.cpu_instances@, n.gpu_templates@, n.gpu_instances@),
                    m == z.len(),
                    q <= m,
                    forall|i: int| 0 <= i < q ==> (#[trigger] z[i]).1 < k,
                decreases m - q,
            {
                if n.gpu_templates[q] as u64 >= k {
                    proof {
                        assert(z[q as int].1 >= k);
                        assert(tree_of(*node) == (Tree::KernelsLaunch { cpu_template: n.cpu_template, refs: z }));
                        assert(!launch_refs_below(z, k as nat));
                    }
                    return false;
                }
                q += 1;
            }
            true
        },
    }
}

/// Whether every tree of the list names only template ids below `k`.
fn list_ids_below(s: &Vec<Node>, k: u64) -> (b: bool)
    ensures
        b == all_below(trees_of(s@), k as nat),
    decreases s@, 0int,
{
    proof {
        lemma_trees_of_index(s@);
        lemma_all_below_index(trees_of(s@), k as nat);
    }
    let mut j: usize = 0;
    while j < s.len()
        invariant
            j <= s@.len(),
            trees_of(s@).len() == s@.len(),
            forall|q: int| 0 <= q < s@.len() ==> #[trigger] trees_of(s@)[q] == tree_of(s@[q]),
            all_below(trees_of(s@), k as nat) <==> forall|q: int| 0 <= q < s@.len() ==> #[trigger] ids_below(trees_of(s@)[q], k as nat),
            forall|q: int| 0 <= q < j ==> ids_below(#[trigger] trees_of(s@)[q], k as nat),
        decreases s@.len() - j,
    {
        proof {
            assert(decreases_to!(s@ => s@[j as int]));
        }
        if !tree_ids_below(&s[j], k) {
            proof {
                assert(!ids_below(trees_of(s@)[j as int], k as nat));
            }
            return false;
        }
        j += 1;
    }
    true
}

/// A prefix of a list of nodes takes no more entries than the list.
proof fn lemma_nodes_size_prefix(s: Seq<Node>, j: int)
    requires
        0 <= j <= s.len(),
    ensures
        nodes_size(s.take(j)) <= nodes_size(s),
    decreases s.len(),
{
    if j == s.len() {
        assert(s.take(j) =~= s);
    } else {
        lemma_nodes_size_prefix(s.drop_last(), j);
        assert(s.drop_last().take(j) =~= s.take(j));
    }
}

/// A prefix of slots takes no more entries than all of them.
proof fn lemma_slots_size_prefix(s: Seq<SlotEntry>, j: int)
    requires
        0 <= j <= s.len(),
    ensures
        slots_size(s.take(j)) <= slots_size(s),
    decreases s.len(),
{
    if j == s.len() {
        assert(s.take(j) =~= s);
    } else {
        lemma_slots_size_prefix(s.drop_last(), j);
        assert(s.drop_last().take(j) =~= s.take(j));
    }
}

/// How many entries storing the node takes, when that fits in `u32`.
pub fn checked_node_size(node: &Node) -> (r: Option<u64>)
    ensures
        match r {
            Some(n) => n == node_size(*node) && n <= u32::MAX,
            None => node_size(*node) > u32::MAX,
        },
    decreases *node, 1int,
{
    let cap: u64 = 4294967295;
    match node {
        Node::Root { children } => {
            let c = checked_nodes_size(children)?;
            if c + 1 > cap {
                None
            } else {
                Some(c + 1)
            }
        },
        Node::Cpu(n) => {
            let c = checked_nodes_size(&n.children)?;
            let d = checked_nodes_size(&n.slots)?;
            if c + d + 1 > cap {
                None
            } else {
                Some(c + d + 1)
            }
        },
        Node::SameCpu(n) => {
            let c = checked_nodes_size(&n.children)?;
            let i = n.instances.len() as u64;
            if i > cap || c + i + 1 > cap {
                return None;
            }
            let mut total: u64 = c + i + 1;
            let mut j: usize = 0;
            proof {
                assert(n.slots@.take(0) =~= Seq::<SlotEntry>::empty());
                assert(decreases_to!(n.slots => n.slots@));
                assert(decreases_to!(*node => n.slots@));
            }
            while j < n.slots.len()
                invariant
                    *node == Node::SameCpu(*n),
                    decreases_to!(*node => n.slots@),
                    j <= n.slots@.len(),
                    cap == 4294967295,
                    total == 1 + n.instances@.len() + nodes_size(n.children@) + slots_size(n.slots@.take(j as int)),
                    total <= cap,
                decreases n.slots@.len() - j,
            {
                proof {
                    assert(decreases_to!(n.slots@ => n.slots@[j as int]));
                    assert(decreases_to!(n.slots@[j as int].children => n.slots@[j as int].children@));
                    assert(n.slots@.take(j + 1).drop_last() =~= n.slots@.take(j as int));
                    assert(n.slots@.take(j + 1).last() == n.slots@[j as int]);
                }
                let e = match checked_nodes_size(&n.slots[j].children) {
                    Some(e) => e,
                    None => {
                        proof {
                            lemma_slots_size_prefix(n.slots@, j + 1);
                        }
                        return None;
                    },
                };
                if e + 1 > cap - total {
                    proof {
                        lemma_slots_size_prefix(n.slots@, j + 1);
                    }
                    return None;
                }
                total = total + e + 1;
                j += 1;
            }
            proof {
                assert(n.slots@.take(n.slots@.len() as int) =~= n.slots@);
            }
            Some(total)
        },
        Node::Gpu(g) => {
            let t = g.templates.len() as u64;
            if t >= cap {
                None
            } else {
                Some(t + 1)
            }
        },
        Node::KernelLaunch(_) => Some(1),
        Node::KernelsLaunch(k) => {
            let t = k.cpu_instances.len() as u64;
            if t >= cap {
                None
            } else {
                Some(t + 1)
            }
        },
    }
}

/// How many entries storing the list of nodes takes, when that fits in
/// `u32`.
fn checked_nodes_size(s: &Vec<Node>) -> (r: Option<u64>)
    ensures
        match r {
            Some(n) => n == nodes_size(s@) && n <= u32::MAX,
            None => nodes_size(s@) > u32::MAX,
        },
    decreases s@, 0int,
{
    let cap: u64 = 4294967295;
    let mut total: u64 = 0;
    let mut j: usize = 0;
    proof {
        assert(s@.take(0) =~= Seq::<Node>::empty());
    }
    while j < s.len()
        invariant
            j <= s@.len(),
            cap == 4294967295,
            total == nodes_size(s@.take(j as int)),
            total <= cap,
        decreases s@.len() - j,
    {
        proof {
            assert(decreases_to!(s@ => s@[j as int]));
            assert(s@.take(j + 1).drop_last() =~= s@.take(j as int));
            assert(s@.take(j + 1).last() == s@[j as int]);
        }
        let e = match checked_node_size(&s[j]) {
            Some(e) => e,
            None => {
                proof {
                    lemma_nodes_size_prefix(s@, j + 1);
                }
                return None;
            },
        };
        if e + 1 > cap - total {
            proof {
                lemma_nodes_size_prefix(s@, j + 1);
            }
            return None;
        }
        total = total + e + 1;
        j += 1;
    }
    proof {
        assert(s@.take(s@.len() as int) =~= s@);
    }
    Some(total)
}

} // verus!
