//! Reconstruction of the events of a compressed trace: each call tree is
//! walked and one event is re-emitted per template instance it refers to.
//! CPU instances are placed at the coordinate of the tree they belong to;
//! kernels at the coordinate their GPU template keeps per instance.

use vstd::prelude::*;

use crate::compressor::rebuild::{args_view, build_cpu_event, build_gpu_event, col_at, decoded_args, gpu_coordinate};
use crate::compressor::shards::{MergedTrace, RankTrees, ThreadRoot};
use crate::event::{Event, Phase, Template};
use crate::node::{
    lemma_slot_trees_of_index, lemma_trees_of_index, slot_trees_of, tree_of, trees_of, zip2, zip3, Node, Tree,
};

verus! {

/// The value at `i` of a column, 0 past its end.
pub open spec fn col_or_zero(s: Seq<i64>, i: int) -> i64 {
    match col_at(s, i) {
        Some(v) => v,
        None => 0,
    }
}

/// An event to re-emit: whether it is a kernel, its template, its
/// instance, and the coordinate `(pid, tid, phase)` of the tree it was
/// found in.
pub open spec fn emit(gpu: bool, t: u32, i: u32, pid: i64, tid: Seq<char>, ph: u8) -> (bool, u32, u32, i64, Seq<char>, u8) {
    (gpu, t, i, pid, tid, ph)
}

/// `e` is the event that `m` stands for: instance `m.2` of template `m.1`
/// named by the template's name pattern; a CPU instance at the tree's
/// coordinate, a kernel at the coordinate its template keeps for it.
pub open spec fn emitted(ts: Seq<Template>, m: (bool, u32, u32, i64, Seq<char>, u8), e: Event) -> bool {
    let i = m.2 as int;
    &&& 0 <= m.1 < ts.len()
    &&& match ts[m.1 as int] {
        Template::Cpu(c) => {
            &&& !m.0
            &&& e.name@ == c.name_pattern@
            &&& e.ts == col_or_zero(c.ts@, i)
            &&& e.dur == col_at(c.dur@, i)
            &&& e.id == col_at(c.id@, i)
            &&& args_view(e.args) == decoded_args(c.arg_keys@, c.args_columns@, i)
            &&& e.cat == c.cat
            &&& e.bp == c.bp
            &&& e.s == c.s
            &&& e.pid == m.3
            &&& e.tid@ == m.4
            &&& e.ph.0 == m.5
        },
        Template::Gpu(g) => {
            &&& m.0
            &&& e.name@ == g.name_pattern@
            &&& e.ts == col_or_zero(g.ts@, i)
            &&& e.dur == col_at(g.dur@, i)
            &&& e.id is None
            &&& args_view(e.args) == decoded_args(g.arg_keys@, g.args_columns@, i)
            &&& e.cat == g.cat
            &&& e.bp is None
            &&& e.s is None
            &&& e.pid == col_or_zero(g.pid@, i)
            &&& e.tid@ == (if i < g.stream_tid@.len() {
                g.stream_tid@[i]
            } else {
                Seq::<char>::empty()
            })
            &&& e.ph.0 == (if i < g.ph@.len() {
                g.ph@[i]
            } else {
                88u8
            })
        },
    }
}

/// `new` is `old` followed by the events that `ms` stand for, in order.
pub open spec fn appended(ts: Seq<Template>, old: Seq<Event>, new: Seq<Event>, ms: Seq<(bool, u32, u32, i64, Seq<char>, u8)>) -> bool {
    &&& new.len() == old.len() + ms.len()
    &&& forall|k: int| 0 <= k < old.len() ==> new[k] == old[k]
    &&& forall|k: int| 0 <= k < ms.len() ==> emitted(ts, #[trigger] ms[k], new[old.len() + k])
}

/// Instance `i` of template `t` when `t` is a CPU template; nothing else.
pub open spec fn cpu_emit(ts: Seq<Template>, t: u32, i: u32, pid: i64, tid: Seq<char>, ph: u8) -> Seq<(bool, u32, u32, i64, Seq<char>, u8)> {
    if (t as int) < ts.len() && ts[t as int] is Cpu {
        seq![emit(false, t, i, pid, tid, ph)]
    } else {
        Seq::empty()
    }
}

/// Instance `i` of template `t` when `t` is a GPU template; nothing else.
pub open spec fn gpu_emit(ts: Seq<Template>, t: u32, i: u32, pid: i64, tid: Seq<char>, ph: u8) -> Seq<(bool, u32, u32, i64, Seq<char>, u8)> {
    if (t as int) < ts.len() && ts[t as int] is Gpu {
        seq![emit(true, t, i, pid, tid, ph)]
    } else {
        Seq::empty()
    }
}

/// The instances of CPU template `t`, in order.
pub open spec fn cpu_list_emits(ts: Seq<Template>, t: u32, insts: Seq<u32>, pid: i64, tid: Seq<char>, ph: u8) -> Seq<(bool, u32, u32, i64, Seq<char>, u8)>
    decreases insts.len(),
{
    if insts.len() == 0 {
        Seq::empty()
    } else {
        cpu_list_emits(ts, t, insts.drop_last(), pid, tid, ph) + cpu_emit(ts, t, insts.last(), pid, tid, ph)
    }
}

/// The kernels of `(template, instance)` references, in order.
pub open spec fn gpu_refs_emits(ts: Seq<Template>, refs: Seq<(u32, u32)>, pid: i64, tid: Seq<char>, ph: u8) -> Seq<(bool, u32, u32, i64, Seq<char>, u8)>
    decreases refs.len(),
{
    if refs.len() == 0 {
        Seq::empty()
    } else {
        gpu_refs_emits(ts, refs.drop_last(), pid, tid, ph) + gpu_emit(ts, refs.last().0, refs.last().1, pid, tid, ph)
    }
}

/// The kernels of launches, in order.
pub open spec fn launch_refs_emits(ts: Seq<Template>, refs: Seq<(u32, u32, u32)>, pid: i64, tid: Seq<char>, ph: u8) -> Seq<(bool, u32, u32, i64, Seq<char>, u8)>
    decreases refs.len(),
{
    if refs.len() == 0 {
        Seq::empty()
    } else {
        launch_refs_emits(ts, refs.drop_last(), pid, tid, ph) + gpu_emit(ts, refs.last().1, refs.last().2, pid, tid, ph)
    }
}

/// The events a tree found at `(pid, tid, ph)` re-emits, in visiting
/// order: a node's own events, then its children's, then its slots'.
/// Launch nodes emit their kernels; the launch itself belongs to the
/// enclosing CPU node.
pub open spec fn tree_emits(ts: Seq<Template>, t: Tree, pid: i64, tid: Seq<char>, ph: u8) -> Seq<(bool, u32, u32, i64, Seq<char>, u8)>
    decreases t,
{
    match t {
        Tree::Root { children } => trees_emits(ts, children, pid, tid, ph),
        Tree::Cpu { template, instance, children, slots } => cpu_emit(ts, template, instance, pid, tid, ph) + trees_emits(
            ts,
            children,
            pid,
            tid,
            ph,
        ) + trees_emits(ts, slots, pid, tid, ph),
        Tree::SameCpu { template, instances, children, slots } => cpu_list_emits(ts, template, instances, pid, tid, ph)
            + trees_emits(ts, children, pid, tid, ph) + slots_emits(ts, slots, pid, tid, ph),
        Tree::Gpu { refs } => gpu_refs_emits(ts, refs, pid, tid, ph),
        Tree::KernelLaunch { gpu_template, gpu_instance, .. } => gpu_emit(ts, gpu_template, gpu_instance, pid, tid, ph),
        Tree::KernelsLaunch { refs, .. } => launch_refs_emits(ts, refs, pid, tid, ph),
    }
}

/// The events of a list of trees, one tree after the other.
pub open spec fn trees_emits(ts: Seq<Template>, s: Seq<Tree>, pid: i64, tid: Seq<char>, ph: u8) -> Seq<(bool, u32, u32, i64, Seq<char>, u8)>
    decreases s,
{
    if s.len() == 0 {
        Seq::empty()
    } else {
        trees_emits(ts, s.drop_last(), pid, tid, ph) + tree_emits(ts, s.last(), pid, tid, ph)
    }
}

/// The events of the slots' trees, slot after slot.
pub open spec fn slots_emits(ts: Seq<Template>, s: Seq<(u32, Seq<Tree>)>, pid: i64, tid: Seq<char>, ph: u8) -> Seq<(bool, u32, u32, i64, Seq<char>, u8)>
    decreases s,
{
    if s.len() == 0 {
        Seq::empty()
    } else {
        slots_emits(ts, s.drop_last(), pid, tid, ph) + trees_emits(ts, s.last().1, pid, tid, ph)
    }
}

/// The events of a rank's trees, each at its own coordinate, tree after
/// tree.
pub open spec fn roots_emits(ts: Seq<Template>, roots: Seq<ThreadRoot>) -> Seq<(bool, u32, u32, i64, Seq<char>, u8)>
    decreases roots.len(),
{
    if roots.len() == 0 {
        Seq::empty()
    } else {
        roots_emits(ts, roots.drop_last()) + tree_emits(
            ts,
            tree_of(roots.last().node),
            roots.last().pid,
            roots.last().tid@,
            roots.last().ph,
        )
    }
}

/// The events of one rank of a compressed trace, in the order they are
/// re-emitted.
pub struct RankEvents {
    pub rank: String,
    /// The rank's start timestamp (0 when it has none).
    pub start_timestamp: i64,
    pub events: Vec<Event>,
}

/// Nothing appended is `old` itself.
proof fn lemma_appended_none(ts: Seq<Template>, old: Seq<Event>)
    ensures
        appended(ts, old, old, Seq::empty()),
{
}

/// Appending `a` and then `b` appends `a + b`.
proof fn lemma_appended_trans(
    ts: Seq<Template>,
    x: Seq<Event>,
    y: Seq<Event>,
    z: Seq<Event>,
    a: Seq<(bool, u32, u32, i64, Seq<char>, u8)>,
    b: Seq<(bool, u32, u32, i64, Seq<char>, u8)>,
)
    requires
        appended(ts, x, y, a),
        appended(ts, y, z, b),
    ensures
        appended(ts, x, z, a + b),
{
    assert forall|k: int| 0 <= k < (a + b).len() implies emitted(ts, #[trigger] (a + b)[k], z[x.len() + k]) by {
        if k < a.len() {
            assert((a + b)[k] == a[k]);
            assert(emitted(ts, a[k], y[x.len() + k]));
            assert(z[x.len() + k] == y[x.len() + k]);
        } else {
            assert((a + b)[k] == b[k - a.len()]);
            assert(emitted(ts, b[k - a.len()], z[y.len() + (k - a.len())]));
        }
    }
}

/// Re-emits instance `i` of template `t` when it is a CPU template.
fn emit_cpu(templates: &Vec<Template>, t: u32, i: u32, pid: i64, tid: &str, ph: u8, out: &mut Vec<Event>)
    ensures
        appended(templates@, old(out)@, final(out)@, cpu_emit(templates@, t, i, pid, tid@, ph)),
{
    if (t as usize) < templates.len() {
        match &templates[t as usize] {
            Template::Cpu(c) => {
                let e = build_cpu_event(c, i as usize, c.name_pattern.clone(), pid, tid, Phase(ph));
                out.push(e);
                proof {
                    let ms = cpu_emit(templates@, t, i, pid, tid@, ph);
                    assert(ms[0] == emit(false, t, i, pid, tid@, ph));
                    assert(out@[old(out)@.len() as int] == e);
                }
            },
            Template::Gpu(_) => {},
        }
    }
}

/// Re-emits instance `i` of template `t` when it is a GPU template, at the
/// coordinate the template keeps for it.
fn emit_gpu(templates: &Vec<Template>, t: u32, i: u32, pid: i64, tid: &str, ph: u8, out: &mut Vec<Event>)
    ensures
        appended(templates@, old(out)@, final(out)@, gpu_emit(templates@, t, i, pid, tid@, ph)),
{
    if (t as usize) < templates.len() {
        match &templates[t as usize] {
            Template::Gpu(g) => {
                let (kpid, ktid, kph) = gpu_coordinate(g, i as usize);
                let e = build_gpu_event(g, i as usize, g.name_pattern.clone(), kpid, ktid.as_str(), kph);
                out.push(e);
                proof {
                    let ms = gpu_emit(templates@, t, i, pid, tid@, ph);
                    assert(ms[0] == emit(true, t, i, pid, tid@, ph));
                    assert(out@[old(out)@.len() as int] == e);
                }
            },
            Template::Cpu(_) => {},
        }
    }
}

/// Re-emits the events of the tree `node` found at `(pid, tid, ph)`.
fn emit_node(node: &Node, templates: &Vec<Template>, pid: i64, tid: &str, ph: u8, out: &mut Vec<Event>)
    ensures
        appended(templates@, old(out)@, final(out)@, tree_emits(templates@, tree_of(*node), pid, tid@, ph)),
    decreases *node, 1int,
{
    let ghost ts = templates@;
    let ghost o = out@;
    match node {
        Node::Root { children } => {
            emit_list(children, templates, pid, tid, ph, out);
        },
        Node::Cpu(c) => {
            emit_cpu(templates, c.template, c.instance, pid, tid, ph, out);
            let ghost o1 = out@;
            emit_list(&c.children, templates, pid, tid, ph, out);
            let ghost o2 = out@;
            emit_list(&c.slots, templates, pid, tid, ph, out);
            proof {
                let a = cpu_emit(ts, c.template, c.instance, pid, tid@, ph);
                let b = trees_emits(ts, trees_of(c.children@), pid, tid@, ph);
                let d = trees_emits(ts, trees_of(c.slots@), pid, tid@, ph);
                lemma_appended_trans(ts, o, o1, o2, a, b);
                lemma_appended_trans(ts, o, o2, out@, a + b, d);
            }
        },
        Node::SameCpu(c) => {
            let mut j: usize = 0;
            proof {
                assert(c.instances@.take(0) =~= Seq::<u32>::empty());
            }
            while j < c.instances.len()
                invariant
                    *node == Node::SameCpu(*c),
                    j <= c.instances@.len(),
                    ts == templates@,
                    appended(ts, o, out@, cpu_list_emits(ts, c.template, c.instances@.take(j as int), pid, tid@, ph)),
                decreases c.instances@.len() - j,
            {
                let ghost ob = out@;
                emit_cpu(templates, c.template, c.instances[j], pid, tid, ph, out);
                proof {
                    let x = c.instances@.take(j + 1);
                    assert(x.drop_last() =~= c.instances@.take(j as int));
                    assert(x.last() == c.instances@[j as int]);
                    lemma_appended_trans(
                        ts,
                        o,
                        ob,
                        out@,
                        cpu_list_emits(ts, c.template, c.instances@.take(j as int), pid, tid@, ph),
                        cpu_emit(ts, c.template, c.instances@[j as int], pid, tid@, ph),
                    );
                }
                j += 1;
            }
            proof {
                assert(c.instances@.take(c.instances@.len() as int) =~= c.instances@);
            }
            let ghost o1 = out@;
            emit_list(&c.children, templates, pid, tid, ph, out);
            let ghost o2 = out@;
            let ghost sl = slot_trees_of(c.slots@);
            proof {
                lemma_slot_trees_of_index(c.slots@);
                assert(sl.take(0) =~= Seq::<(u32, Seq<Tree>)>::empty());
                assert(decreases_to!(c.slots => c.slots@));
                assert(decreases_to!(*node => c.slots@));
                lemma_appended_none(ts, o2);
            }
            let mut q: usize = 0;
            while q < c.slots.len()
                invariant
                    *node == Node::SameCpu(*c),
                    decreases_to!(*node => c.slots@),
                    q <= c.slots@.len(),
                    ts == templates@,
                    sl == slot_trees_of(c.slots@),
                    sl.len() == c.slots@.len(),
                    forall|k: int| 0 <= k < c.slots@.len() ==> #[trigger] sl[k] == (c.slots@[k].instance_index, trees_of(c.slots@[k].children@)),
                    appended(ts, o2, out@, slots_emits(ts, sl.take(q as int), pid, tid@, ph)),
                decreases c.slots@.len() - q,
            {
                proof {
                    assert(decreases_to!(c.slots@ => c.slots@[q as int]));
                    assert(decreases_to!(c.slots@[q as int].children => c.slots@[q as int].children@));
                }
                let ghost ob = out@;
                emit_list(&c.slots[q].children, templates, pid, tid, ph, out);
                proof {
                    let x = sl.take(q + 1);
                    assert(x.drop_last() =~= sl.take(q as int));
                    assert(x.last() == sl[q as int]);
                    lemma_appended_trans(
                        ts,
                        o2,
                        ob,
                        out@,
                        slots_emits(ts, sl.take(q as int), pid, tid@, ph),
                        trees_emits(ts, sl[q as int].1, pid, tid@, ph),
                    );
                }
                q += 1;
            }
            proof {
                assert(sl.take(sl.len() as int) =~= sl);
                let a = cpu_list_emits(ts, c.template, c.instances@, pid, tid@, ph);
                let b = trees_emits(ts, trees_of(c.children@), pid, tid@, ph);
                let d = slots_emits(ts, sl, pid, tid@, ph);
                lemma_appended_trans(ts, o, o1, o2, a, b);
                lemma_appended_trans(ts, o, o2, out@, a + b, d);
            }
        },
        Node::Gpu(g) => {
            let ghost z = zip2(g.templates@, g.instances@);
            let m = if g.templates.len() <= g.instances.len() {
                g.templates.len()
            } else {
                g.instances.len()
            };
            proof {
                assert(z.take(0) =~= Seq::<(u32, u32)>::empty());
                lemma_appended_none(ts, o);
            }
            let mut q: usize = 0;
            while q < m
                invariant
                    *node == Node::Gpu(*g),
                    z == zip2(g.templates@, g.instances@),
                    m == z.len(),
                    q <= m,
                    ts == templates@,
                    appended(ts, o, out@, gpu_refs_emits(ts, z.take(q as int), pid, tid@, ph)),
                decreases m - q,
            {
                let ghost ob = out@;
                emit_gpu(templates, g.templates[q], g.instances[q], pid, tid, ph, out);
                proof {
                    let x = z.take(q + 1);
                    assert(x.drop_last() =~= z.take(q as int));
                    assert(x.last() == z[q as int]);
                    lemma_appended_trans(
                        ts,
                        o,
                        ob,
                        out@,
                        gpu_refs_emits(ts, z.take(q as int), pid, tid@, ph),
                        gpu_emit(ts, z[q as int].0, z[q as int].1, pid, tid@, ph),
                    );
                }
                q += 1;
            }
            proof {
                assert(z.take(m as int) =~= z);
            }
        },
        Node::KernelLaunch(n) => {
            emit_gpu(templates, n.gpu_template, n.gpu_instance, pid, tid, ph, out);
        },
        Node::KernelsLaunch(n) => {
            let ghost z = zip3(n.cpu_instances@, n.gpu_templates@, n.gpu_instances@);
            let m0 = if n.cpu_instances.len() <= n.gpu_templates.len() {
                n.cpu_instances.len()
            } else {
                n.gpu_templates.len()
            };
            let m = if m0 <= n.gpu_instances.len() {
                m0
            } else {
                n.gpu_instances.len()
            };
            proof {
                assert(z.take(0) =~= Seq::<(u32, u32, u32)>::empty());
                lemma_appended_none(ts, o);
            }
            let mut q: usize = 0;
            while q < m
                invariant
                    *node == Node::KernelsLaunch(*n),
                    z == zip3(n.cpu_instances@, n.gpu_templates@, n.gpu_instances@),
                    m == z.len(),
                    q <= m,
                    ts == templates@,
                    appended(ts, o, out@, launch_refs_emits(ts, z.take(q as int), pid, tid@, ph)),
                decreases m - q,
            {
                let ghost ob = out@;
                emit_gpu(templates, n.gpu_templates[q], n.gpu_instances[q], pid, tid, ph, out);
                proof {
                    let x = z.take(q + 1);
                    assert(x.drop_last() =~= z.take(q as int));
                    assert(x.last() == z[q as int]);
                    lemma_appended_trans(
                        ts,
                        o,
                        ob,
                        out@,
                        launch_refs_emits(ts, z.take(q as int), pid, tid@, ph),
                        gpu_emit(ts, z[q as int].1, z[q as int].2, pid, tid@, ph),
                    );
                }
                q += 1;
            }
            proof {
                assert(z.take(m as int) =~= z);
            }
        },
    }
}

/// Re-emits the events of a list of trees found at `(pid, tid, ph)`, tree
/// after tree.
fn emit_list(s: &Vec<Node>, templates: &Vec<Template>, pid: i64, tid: &str, ph: u8, out: &mut Vec<Event>)
    ensures
        appended(templates@, old(out)@, final(out)@, trees_emits(templates@, trees_of(s@), pid, tid@, ph)),
    decreases s@, 0int,
{
    let ghost ts = templates@;
    let ghost o = out@;
    let ghost tr = trees_of(s@);
    proof {
        lemma_trees_of_index(s@);
        assert(tr.take(0) =~= Seq::<Tree>::empty());
        lemma_appended_none(ts, o);
    }
    let mut j: usize = 0;
    while j < s.len()
        invariant
            j <= s@.len(),
            ts == templates@,
            tr == trees_of(s@),
            tr.len() == s@.len(),
            forall|q: int| 0 <= q < s@.len() ==> #[trigger] tr[q] == tree_of(s@[q]),
            appended(ts, o, out@, trees_emits(ts, tr.take(j as int), pid, tid@, ph)),
        decreases s@.len() - j,
    {
        proof {
            assert(decreases_to!(s@ => s@[j as int]));
        }
        let ghost ob = out@;
        emit_node(&s[j], templates, pid, tid, ph, out);
        proof {
            let x = tr.take(j + 1);
            assert(x.drop_last() =~= tr.take(j as int));
            assert(x.last() == tr[j as int]);
            lemma_appended_trans(
                ts,
                o,
                ob,
                out@,
                trees_emits(ts, tr.take(j as int), pid, tid@, ph),
                tree_emits(ts, tr[j as int], pid, tid@, ph),
            );
        }
        j += 1;
    }
    proof {
        assert(tr.take(tr.len() as int) =~= tr);
    }
}

/// Re-emits the events of a rank's trees, each at its coordinate.
fn emit_roots(roots: &Vec<ThreadRoot>, templates: &Vec<Template>, out: &mut Vec<Event>)
    ensures
        appended(templates@, old(out)@, final(out)@, roots_emits(templates@, roots@)),
{
    let ghost ts = templates@;
    let ghost o = out@;
    proof {
        assert(roots@.take(0) =~= Seq::<ThreadRoot>::empty());
        lemma_appended_none(ts, o);
    }
    let mut j: usize = 0;
    while j < roots.len()
        invariant
            j <= roots@.len(),
            ts == templates@,
            appended(ts, o, out@, roots_emits(ts, roots@.take(j as int))),
        decreases roots@.len() - j,
    {
        let ghost ob = out@;
        let root = &roots[j];
        emit_node(&root.node, templates, root.pid, root.tid.as_str(), root.ph, out);
        proof {
            let x = roots@.take(j + 1);
            assert(x.drop_last() =~= roots@.take(j as int));
            assert(x.last() == roots@[j as int]);
            lemma_appended_trans(
                ts,
                o,
                ob,
                out@,
                roots_emits(ts, roots@.take(j as int)),
                tree_emits(ts, tree_of(root.node), root.pid, root.tid@, root.ph),
            );
        }
        j += 1;
    }
    proof {
        assert(roots@.take(roots@.len() as int) =~= roots@);
    }
}

/// The events of every rank of a compressed trace, rank by rank: each of
/// its trees walked in order, one event re-emitted per template instance
/// the tree refers to (a CPU instance at the tree's coordinate, a kernel at
/// the coordinate its template keeps); references to no template of the
/// right kind emit nothing.
pub fn decompress(m: &MergedTrace) -> (r: Vec<RankEvents>)
    ensures
        r@.len() == m.ranks@.len(),
        forall|q: int|
            0 <= q < m.ranks@.len() ==> {
                &&& (#[trigger] r@[q]).rank@ == m.ranks@[q].rank@
                &&& r@[q].start_timestamp == (match m.ranks@[q].start_timestamp {
                    Some(v) => v,
                    None => 0,
                })
                &&& appended(m.templates@, Seq::empty(), r@[q].events@, roots_emits(m.templates@, m.ranks@[q].roots@))
            },
{
    let mut r: Vec<RankEvents> = Vec::new();
    let mut q: usize = 0;
    while q < m.ranks.len()
        invariant
            q <= m.ranks@.len(),
            r@.len() == q,
            forall|k: int|
                0 <= k < q ==> {
                    &&& (#[trigger] r@[k]).rank@ == m.ranks@[k].rank@
                    &&& r@[k].start_timestamp == (match m.ranks@[k].start_timestamp {
                        Some(v) => v,
                        None => 0,
                    })
                    &&& appended(m.templates@, Seq::empty(), r@[k].events@, roots_emits(m.templates@, m.ranks@[k].roots@))
                },
        decreases m.ranks@.len() - q,
    {
        let rank: &RankTrees = &m.ranks[q];
        let mut events: Vec<Event> = Vec::new();
        emit_roots(&rank.roots, &m.templates, &mut events);
        let start = match rank.start_timestamp {
            Some(v) => v,
            None => 0,
        };
        r.push(RankEvents { rank: rank.rank.clone(), start_timestamp: start, events });
        q += 1;
    }
    r
}

/// The coordinate `(pid, tid, phase)` of an event.
pub open spec fn event_key(e: Event) -> (i64, Seq<char>, u8) {
    (e.pid, e.tid@, e.ph.0)
}

/// The events at coordinate `k`, in order.
pub open spec fn events_at(evs: Seq<Event>, k: (i64, Seq<char>, u8)) -> Seq<Event>
    decreases evs.len(),
{
    if evs.len() == 0 {
        Seq::empty()
    } else if event_key(evs.last()) == k {
        events_at(evs.drop_last(), k).push(evs.last())
    } else {
        events_at(evs.drop_last(), k)
    }
}

/// The coordinates of the events, each once, in order of first appearance.
pub open spec fn keys_in_order(evs: Seq<Event>) -> Seq<(i64, Seq<char>, u8)>
    decreases evs.len(),
{
    if evs.len() == 0 {
        Seq::empty()
    } else if keys_in_order(evs.drop_last()).contains(event_key(evs.last())) {
        keys_in_order(evs.drop_last())
    } else {
        keys_in_order(evs.drop_last()).push(event_key(evs.last()))
    }
}

/// The events of one `(pid, tid, phase)` stream.
pub struct StreamEvents {
    pub pid: i64,
    pub tid: String,
    pub ph: Phase,
    pub events: Vec<Event>,
}

/// The coordinate of a stream.
pub open spec fn stream_key(s: StreamEvents) -> (i64, Seq<char>, u8) {
    (s.pid, s.tid@, s.ph.0)
}

/// `out` holds the streams of `evs`: one per coordinate, in order of first
/// appearance, each with the events at its coordinate in order.
pub open spec fn grouped_as(evs: Seq<Event>, out: Seq<StreamEvents>) -> bool {
    &&& out.len() == keys_in_order(evs).len()
    &&& forall|q: int|
        0 <= q < out.len() ==> stream_key(#[trigger] out[q]) == keys_in_order(evs)[q] && out[q].events@ == events_at(
            evs,
            keys_in_order(evs)[q],
        )
}

/// Where the stream of coordinate `(pid, tid, ph)` stands among `out`.
fn find_stream(out: &Vec<StreamEvents>, pid: i64, tid: &String, ph: u8) -> (r: Option<usize>)
    ensures
        match r {
            Some(q) => q < out@.len() && stream_key(out@[q as int]) == (pid, tid@, ph),
            None => forall|q: int| 0 <= q < out@.len() ==> stream_key(#[trigger] out@[q]) != (pid, tid@, ph),
        },
{
    let mut q: usize = 0;
    while q < out.len()
        invariant
            q <= out@.len(),
            forall|j: int| 0 <= j < q ==> stream_key(#[trigger] out@[j]) != (pid, tid@, ph),
        decreases out@.len() - q,
    {
        let s = &out[q];
        if s.pid == pid && s.ph.0 == ph && s.tid == *tid {
            return Some(q);
        }
        q += 1;
    }
    None
}

/// Groups events into their `(pid, tid, phase)` streams, streams in order
/// of first appearance, each keeping its events in order.
pub fn group_streams(events: Vec<Event>) -> (out: Vec<StreamEvents>)
    ensures
        grouped_as(events@, out@),
{
    let ghost evs = events@;
    let mut out: Vec<StreamEvents> = Vec::new();
    let mut src = events;
    let mut done: usize = 0;
    let n = src.len();
    while done < n
        invariant
            n == evs.len(),
            done <= n,
            src@ == evs.skip(done as int),
            grouped_as(evs.take(done as int), out@),
        decreases n - done,
    {
        let ghost before = out@;
        let ghost pre = evs.take(done as int);
        let e = src.remove(0);
        proof {
            assert(e == evs[done as int]);
            assert(src@ =~= evs.skip(done + 1));
            assert(evs.take(done + 1).drop_last() =~= pre);
            assert(evs.take(done + 1).last() == e);
        }
        let ghost k = event_key(e);
        let ghost keys = keys_in_order(pre);
        let found = find_stream(&out, e.pid, &e.tid, e.ph.0);
        match found {
            Some(q) => {
                proof {
                    assert(keys[q as int] == k);
                    assert(keys.contains(k));
                    lemma_keys_distinct(pre);
                }
                let mut s = out.remove(q);
                s.events.push(e);
                out.insert(q, s);
                proof {
                    let post = evs.take(done + 1);
                    assert(keys_in_order(post) == keys);
                    assert forall|j: int| 0 <= j < out@.len() implies stream_key(#[trigger] out@[j]) == keys_in_order(post)[j]
                        && out@[j].events@ == events_at(post, keys_in_order(post)[j]) by {
                        if j != q {
                            assert(out@[j] == before[j]);
                            assert(keys[j] != k) by {
                                assert(stream_key(before[j]) == keys[j]);
                                assert(stream_key(before[q as int]) == k);
                            }
                        }
                    }
                }
            },
            None => {
                proof {
                    assert(!keys.contains(k)) by {
                        if keys.contains(k) {
                            let j = choose|j: int| 0 <= j < keys.len() && keys[j] == k;
                            assert(stream_key(before[j]) == keys[j]);
                        }
                    }
                    assert(events_at(pre, k) =~= Seq::<Event>::empty()) by {
                        lemma_events_at_absent(pre, k);
                    }
                }
                let pid = e.pid;
                let tid = e.tid.clone();
                let ph = Phase(e.ph.0);
                let events = vec![e];
                out.push(StreamEvents { pid, tid, ph, events });
                proof {
                    let post = evs.take(done + 1);
                    assert(keys_in_order(post) == keys.push(k));
                    assert(events@ =~= Seq::<Event>::empty().push(e));
                    assert forall|j: int| 0 <= j < out@.len() implies stream_key(#[trigger] out@[j]) == keys_in_order(post)[j]
                        && out@[j].events@ == events_at(post, keys_in_order(post)[j]) by {
                        if j < before.len() {
                            assert(out@[j] == before[j]);
                            assert(keys[j] != k);
                        }
                    }
                }
            },
        }
        done += 1;
    }
    proof {
        assert(evs.take(n as int) =~= evs);
    }
    out
}

/// Each coordinate comes once.
proof fn lemma_keys_distinct(evs: Seq<Event>)
    ensures
        keys_in_order(evs).no_duplicates(),
    decreases evs.len(),
{
    if evs.len() > 0 {
        lemma_keys_distinct(evs.drop_last());
    }
}

/// A coordinate that no event has holds no events.
proof fn lemma_events_at_absent(evs: Seq<Event>, k: (i64, Seq<char>, u8))
    requires
        !keys_in_order(evs).contains(k),
    ensures
        events_at(evs, k) == Seq::<Event>::empty(),
    decreases evs.len(),
{
    if evs.len() > 0 {
        let p = evs.drop_last();
        if keys_in_order(p).contains(event_key(evs.last())) {
            assert(event_key(evs.last()) != k);
        } else {
            let r = keys_in_order(p).push(event_key(evs.last()));
            assert(r[r.len() - 1] == event_key(evs.last()));
            assert(event_key(evs.last()) != k);
            assert(!keys_in_order(p).contains(k)) by {
                if keys_in_order(p).contains(k) {
                    let j = choose|j: int| 0 <= j < keys_in_order(p).len() && keys_in_order(p)[j] == k;
                    assert(r[j] == k);
                }
            }
        }
        lemma_events_at_absent(p, k);
    }
}

/// Every element of `a` is an element of `b`.
pub open spec fn included<T>(a: Seq<T>, b: Seq<T>) -> bool {
    forall|x: T| #[trigger] a.contains(x) ==> b.contains(x)
}

/// Each side of a concatenation is included in it.
pub proof fn lemma_included_add<T>(a: Seq<T>, b: Seq<T>)
    ensures
        included(a, a + b),
        included(b, a + b),
{
    assert forall|x: T| #[trigger] a.contains(x) implies (a + b).contains(x) by {
        let i = choose|i: int| 0 <= i < a.len() && a[i] == x;
        assert((a + b)[i] == x);
    }
    assert forall|x: T| #[trigger] b.contains(x) implies (a + b).contains(x) by {
        let i = choose|i: int| 0 <= i < b.len() && b[i] == x;
        assert((a + b)[a.len() + i] == x);
    }
}

/// Inclusion is transitive.
pub proof fn lemma_included_trans<T>(a: Seq<T>, b: Seq<T>, c: Seq<T>)
    requires
        included(a, b),
        included(b, c),
    ensures
        included(a, c),
{
    assert forall|x: T| #[trigger] a.contains(x) implies c.contains(x) by {
        assert(b.contains(x));
    }
}

/// The trees of every slot, slot after slot.
pub open spec fn slot_kids(s: Seq<(u32, Seq<Tree>)>) -> Seq<Tree>
    decreases s.len(),
{
    if s.len() == 0 {
        Seq::empty()
    } else {
        slot_kids(s.drop_last()) + s.last().1
    }
}

/// The trees directly below a tree: its children, then its slots' trees.
pub open spec fn tree_kids(t: Tree) -> Seq<Tree> {
    match t {
        Tree::Root { children } => children,
        Tree::Cpu { children, slots, .. } => children + slots,
        Tree::SameCpu { children, slots, .. } => children + slot_kids(slots),
        _ => Seq::empty(),
    }
}

/// The subtree reached from `t` by taking, at each step, the kid of the
/// given index; `None` when an index names no kid.
pub open spec fn subtree_at(t: Tree, path: Seq<int>) -> Option<Tree>
    decreases path.len(),
{
    if path.len() == 0 {
        Some(t)
    } else if 0 <= path[0] < tree_kids(t).len() {
        subtree_at(tree_kids(t)[path[0]], path.drop_first())
    } else {
        None
    }
}

/// The instances a node itself refers to, as `(kernel, template,
/// instance)`: a CPU node's instance(s); the kernels of GPU and launch
/// nodes (a launch's CPU side is emitted by the CPU node enclosing it).
pub open spec fn own_refs(t: Tree) -> Seq<(bool, u32, u32)> {
    match t {
        Tree::Cpu { template, instance, .. } => seq![(false, template, instance)],
        Tree::SameCpu { template, instances, .. } => instances.map_values(|i: u32| (false, template, i)),
        Tree::Gpu { refs } => refs.map_values(|r: (u32, u32)| (true, r.0, r.1)),
        Tree::KernelLaunch { gpu_template, gpu_instance, .. } => seq![(true, gpu_template, gpu_instance)],
        Tree::KernelsLaunch { refs, .. } => refs.map_values(|r: (u32, u32, u32)| (true, r.1, r.2)),
        Tree::Root { .. } => Seq::empty(),
    }
}

/// Template `t` exists and is a GPU template when `gpu`, a CPU one
/// otherwise.
pub open spec fn kind_matches(ts: Seq<Template>, gpu: bool, t: u32) -> bool {
    (t as int) < ts.len() && (if gpu {
        ts[t as int] is Gpu
    } else {
        ts[t as int] is Cpu
    })
}

/// The events of each tree of a list are among the list's events.
proof fn lemma_trees_emits_kid(ts: Seq<Template>, s: Seq<Tree>, k: int, pid: i64, tid: Seq<char>, ph: u8)
    requires
        0 <= k < s.len(),
    ensures
        included(tree_emits(ts, s[k], pid, tid, ph), trees_emits(ts, s, pid, tid, ph)),
    decreases s.len(),
{
    let p = s.drop_last();
    lemma_included_add(trees_emits(ts, p, pid, tid, ph), tree_emits(ts, s.last(), pid, tid, ph));
    if k < s.len() - 1 {
        assert(p[k] == s[k]);
        lemma_trees_emits_kid(ts, p, k, pid, tid, ph);
        lemma_included_trans(tree_emits(ts, s[k], pid, tid, ph), trees_emits(ts, p, pid, tid, ph), trees_emits(ts, s, pid, tid, ph));
    }
}

/// The events of each tree of each slot are among the slots' events.
proof fn lemma_slots_emits_kid(ts: Seq<Template>, s: Seq<(u32, Seq<Tree>)>, k: int, pid: i64, tid: Seq<char>, ph: u8)
    requires
        0 <= k < slot_kids(s).len(),
    ensures
        included(tree_emits(ts, slot_kids(s)[k], pid, tid, ph), slots_emits(ts, s, pid, tid, ph)),
    decreases s.len(),
{
    let p = s.drop_last();
    let a = slot_kids(p);
    let l = s.last().1;
    lemma_included_add(slots_emits(ts, p, pid, tid, ph), trees_emits(ts, l, pid, tid, ph));
    if k < a.len() {
        assert(slot_kids(s)[k] == a[k]);
        lemma_slots_emits_kid(ts, p, k, pid, tid, ph);
        lemma_included_trans(tree_emits(ts, a[k], pid, tid, ph), slots_emits(ts, p, pid, tid, ph), slots_emits(ts, s, pid, tid, ph));
    } else {
        assert(slot_kids(s)[k] == l[k - a.len()]);
        lemma_trees_emits_kid(ts, l, k - a.len(), pid, tid, ph);
        lemma_included_trans(
            tree_emits(ts, l[k - a.len()], pid, tid, ph),
            trees_emits(ts, l, pid, tid, ph),
            slots_emits(ts, s, pid, tid, ph),
        );
    }
}

/// The events of each kid of a tree are among the tree's events.
proof fn lemma_kid_emits(ts: Seq<Template>, t: Tree, k: int, pid: i64, tid: Seq<char>, ph: u8)
    requires
        0 <= k < tree_kids(t).len(),
    ensures
        included(tree_emits(ts, tree_kids(t)[k], pid, tid, ph), tree_emits(ts, t, pid, tid, ph)),
{
    let u = tree_kids(t)[k];
    match t {
        Tree::Root { children } => {
            lemma_trees_emits_kid(ts, children, k, pid, tid, ph);
        },
        Tree::Cpu { template, instance, children, slots } => {
            let a = cpu_emit(ts, template, instance, pid, tid, ph);
            let b = trees_emits(ts, children, pid, tid, ph);
            let d = trees_emits(ts, slots, pid, tid, ph);
            lemma_included_add(a + b, d);
            lemma_included_add(a, b);
            if k < children.len() {
                assert(u == children[k]);
                lemma_trees_emits_kid(ts, children, k, pid, tid, ph);
                lemma_included_trans(tree_emits(ts, u, pid, tid, ph), b, a + b);
                lemma_included_trans(tree_emits(ts, u, pid, tid, ph), a + b, a + b + d);
            } else {
                assert(u == slots[k - children.len()]);
                lemma_trees_emits_kid(ts, slots, k - children.len(), pid, tid, ph);
                lemma_included_trans(tree_emits(ts, u, pid, tid, ph), d, a + b + d);
            }
        },
        Tree::SameCpu { template, instances, children, slots } => {
            let a = cpu_list_emits(ts, template, instances, pid, tid, ph);
            let b = trees_emits(ts, children, pid, tid, ph);
            let d = slots_emits(ts, slots, pid, tid, ph);
            lemma_included_add(a + b, d);
            lemma_included_add(a, b);
            if k < children.len() {
                assert(u == children[k]);
                lemma_trees_emits_kid(ts, children, k, pid, tid, ph);
                lemma_included_trans(tree_emits(ts, u, pid, tid, ph), b, a + b);
                lemma_included_trans(tree_emits(ts, u, pid, tid, ph), a + b, a + b + d);
            } else {
                assert(u == slot_kids(slots)[k - children.len()]);
                lemma_slots_emits_kid(ts, slots, k - children.len(), pid, tid, ph);
                lemma_included_trans(tree_emits(ts, u, pid, tid, ph), d, a + b + d);
            }
        },
        _ => {},
    }
}

/// The events of every subtree are among the events of the tree.
pub proof fn lemma_subtree_emits_included(ts: Seq<Template>, t: Tree, path: Seq<int>, pid: i64, tid: Seq<char>, ph: u8)
    requires
        subtree_at(t, path) is Some,
    ensures
        included(tree_emits(ts, subtree_at(t, path)->0, pid, tid, ph), tree_emits(ts, t, pid, tid, ph)),
    decreases path.len(),
{
    if path.len() > 0 {
        let u = tree_kids(t)[path[0]];
        assert(subtree_at(t, path) == subtree_at(u, path.drop_first()));
        lemma_subtree_emits_included(ts, u, path.drop_first(), pid, tid, ph);
        lemma_kid_emits(ts, t, path[0], pid, tid, ph);
        lemma_included_trans(
            tree_emits(ts, subtree_at(t, path)->0, pid, tid, ph),
            tree_emits(ts, u, pid, tid, ph),
            tree_emits(ts, t, pid, tid, ph),
        );
    } else {
        assert forall|x| #[trigger] tree_emits(ts, t, pid, tid, ph).contains(x) implies tree_emits(ts, t, pid, tid, ph).contains(x) by {}
    }
}

/// Each instance of a grouped node is emitted, when its template is a CPU
/// template.
proof fn lemma_cpu_list_emits_has(ts: Seq<Template>, t: u32, insts: Seq<u32>, k: int, pid: i64, tid: Seq<char>, ph: u8)
    requires
        0 <= k < insts.len(),
        kind_matches(ts, false, t),
    ensures
        cpu_list_emits(ts, t, insts, pid, tid, ph).contains(emit(false, t, insts[k], pid, tid, ph)),
    decreases insts.len(),
{
    let p = insts.drop_last();
    let a = cpu_list_emits(ts, t, p, pid, tid, ph);
    let b = cpu_emit(ts, t, insts.last(), pid, tid, ph);
    lemma_included_add(a, b);
    if k < insts.len() - 1 {
        assert(p[k] == insts[k]);
        lemma_cpu_list_emits_has(ts, t, p, k, pid, tid, ph);
    } else {
        assert(b[0] == emit(false, t, insts[k], pid, tid, ph));
        assert(b.contains(emit(false, t, insts[k], pid, tid, ph)));
    }
}

/// Each GPU reference of a GPU node is emitted, when it names a GPU
/// template.
proof fn lemma_gpu_refs_emits_has(ts: Seq<Template>, refs: Seq<(u32, u32)>, k: int, pid: i64, tid: Seq<char>, ph: u8)
    requires
        0 <= k < refs.len(),
        kind_matches(ts, true, refs[k].0),
    ensures
        gpu_refs_emits(ts, refs, pid, tid, ph).contains(emit(true, refs[k].0, refs[k].1, pid, tid, ph)),
    decreases refs.len(),
{
    let p = refs.drop_last();
    let a = gpu_refs_emits(ts, p, pid, tid, ph);
    let b = gpu_emit(ts, refs.last().0, refs.last().1, pid, tid, ph);
    lemma_included_add(a, b);
    if k < refs.len() - 1 {
        assert(p[k] == refs[k]);
        lemma_gpu_refs_emits_has(ts, p, k, pid, tid, ph);
    } else {
        assert(b[0] == emit(true, refs[k].0, refs[k].1, pid, tid, ph));
        assert(b.contains(emit(true, refs[k].0, refs[k].1, pid, tid, ph)));
    }
}

/// Each kernel of a multi-kernel launch is emitted, when it names a GPU
/// template.
proof fn lemma_launch_refs_emits_has(
    ts: Seq<Template>,
    refs: Seq<(u32, u32, u32)>,
    k: int,
    pid: i64,
    tid: Seq<char>,
    ph: u8,
)
    requires
        0 <= k < refs.len(),
        kind_matches(ts, true, refs[k].1),
    ensures
        launch_refs_emits(ts, refs, pid, tid, ph).contains(emit(true, refs[k].1, refs[k].2, pid, tid, ph)),
    decreases refs.len(),
{
    let p = refs.drop_last();
    let a = launch_refs_emits(ts, p, pid, tid, ph);
    let b = gpu_emit(ts, refs.last().1, refs.last().2, pid, tid, ph);
    lemma_included_add(a, b);
    if k < refs.len() - 1 {
        assert(p[k] == refs[k]);
        lemma_launch_refs_emits_has(ts, p, k, pid, tid, ph);
    } else {
        assert(b[0] == emit(true, refs[k].1, refs[k].2, pid, tid, ph));
        assert(b.contains(emit(true, refs[k].1, refs[k].2, pid, tid, ph)));
    }
}

/// A node's own references are emitted, each that names a template of its
/// kind.
proof fn lemma_own_refs_emitted(ts: Seq<Template>, u: Tree, k: int, pid: i64, tid: Seq<char>, ph: u8)
    requires
        0 <= k < own_refs(u).len(),
        kind_matches(ts, own_refs(u)[k].0, own_refs(u)[k].1),
    ensures
        tree_emits(ts, u, pid, tid, ph).contains(emit(own_refs(u)[k].0, own_refs(u)[k].1, own_refs(u)[k].2, pid, tid, ph)),
{
    let r = own_refs(u)[k];
    let x = emit(r.0, r.1, r.2, pid, tid, ph);
    match u {
        Tree::Cpu { template, instance, children, slots } => {
            let a = cpu_emit(ts, template, instance, pid, tid, ph);
            let b = trees_emits(ts, children, pid, tid, ph);
            let d = trees_emits(ts, slots, pid, tid, ph);
            assert(a[0] == x);
            assert(a.contains(x));
            lemma_included_add(a, b);
            lemma_included_add(a + b, d);
        },
        Tree::SameCpu { template, instances, children, slots } => {
            let a = cpu_list_emits(ts, template, instances, pid, tid, ph);
            let b = trees_emits(ts, children, pid, tid, ph);
            let d = slots_emits(ts, slots, pid, tid, ph);
            assert(r == (false, template, instances[k]));
            lemma_cpu_list_emits_has(ts, template, instances, k, pid, tid, ph);
            lemma_included_add(a, b);
            lemma_included_add(a + b, d);
        },
        Tree::Gpu { refs } => {
            assert(r == (true, refs[k].0, refs[k].1));
            lemma_gpu_refs_emits_has(ts, refs, k, pid, tid, ph);
        },
        Tree::KernelLaunch { gpu_template, gpu_instance, .. } => {
            let a = gpu_emit(ts, gpu_template, gpu_instance, pid, tid, ph);
            assert(a[0] == x);
        },
        Tree::KernelsLaunch { refs, .. } => {
            assert(r == (true, refs[k].1, refs[k].2));
            lemma_launch_refs_emits_has(ts, refs, k, pid, tid, ph);
        },
        Tree::Root { .. } => {},
    }
}

/// Decompression loses no reference: every template instance that a node
/// anywhere in a tree refers to (a CPU instance, or a kernel) is among the
/// events the tree re-emits, as long as it names a template of its kind.
pub proof fn lemma_every_reference_emitted(
    ts: Seq<Template>,
    t: Tree,
    path: Seq<int>,
    k: int,
    pid: i64,
    tid: Seq<char>,
    ph: u8,
)
    requires
        subtree_at(t, path) is Some,
        0 <= k < own_refs(subtree_at(t, path)->0).len(),
        kind_matches(ts, own_refs(subtree_at(t, path)->0)[k].0, own_refs(subtree_at(t, path)->0)[k].1),
    ensures
        ({
            let r = own_refs(subtree_at(t, path)->0)[k];
            tree_emits(ts, t, pid, tid, ph).contains(emit(r.0, r.1, r.2, pid, tid, ph))
        }),
{
    let u = subtree_at(t, path)->0;
    lemma_own_refs_emitted(ts, u, k, pid, tid, ph);
    lemma_subtree_emits_included(ts, t, path, pid, tid, ph);
}

/// The events of each tree of a rank are among the rank's events.
proof fn lemma_roots_emits_root(ts: Seq<Template>, roots: Seq<ThreadRoot>, j: int)
    requires
        0 <= j < roots.len(),
    ensures
        included(
            tree_emits(ts, tree_of(roots[j].node), roots[j].pid, roots[j].tid@, roots[j].ph),
            roots_emits(ts, roots),
        ),
    decreases roots.len(),
{
    let p = roots.drop_last();
    let l = roots.last();
    lemma_included_add(roots_emits(ts, p), tree_emits(ts, tree_of(l.node), l.pid, l.tid@, l.ph));
    if j < roots.len() - 1 {
        assert(p[j] == roots[j]);
        lemma_roots_emits_root(ts, p, j);
        lemma_included_trans(
            tree_emits(ts, tree_of(roots[j].node), roots[j].pid, roots[j].tid@, roots[j].ph),
            roots_emits(ts, p),
            roots_emits(ts, roots),
        );
    }
}

/// What `decompress` gives a rank loses no reference: when `events` are
/// the events re-emitted for the rank's trees `roots`, every template
/// instance that a node anywhere in one of the trees refers to, and that
/// names a template of its kind, is rebuilt as one of `events` (a CPU
/// instance at its tree's coordinate).
pub proof fn lemma_rank_keeps_references(
    ts: Seq<Template>,
    roots: Seq<ThreadRoot>,
    events: Seq<Event>,
    j: int,
    path: Seq<int>,
    k: int,
)
    requires
        appended(ts, Seq::empty(), events, roots_emits(ts, roots)),
        0 <= j < roots.len(),
        subtree_at(tree_of(roots[j].node), path) is Some,
        0 <= k < own_refs(subtree_at(tree_of(roots[j].node), path)->0).len(),
        kind_matches(
            ts,
            own_refs(subtree_at(tree_of(roots[j].node), path)->0)[k].0,
            own_refs(subtree_at(tree_of(roots[j].node), path)->0)[k].1,
        ),
    ensures
        ({
            let r = own_refs(subtree_at(tree_of(roots[j].node), path)->0)[k];
            exists|idx: int|
                0 <= idx < events.len() && #[trigger] emitted(
                    ts,
                    emit(r.0, r.1, r.2, roots[j].pid, roots[j].tid@, roots[j].ph),
                    events[idx],
                )
        }),
{
    let root = roots[j];
    let t = tree_of(root.node);
    let r = own_refs(subtree_at(t, path)->0)[k];
    let x = emit(r.0, r.1, r.2, root.pid, root.tid@, root.ph);
    lemma_every_reference_emitted(ts, t, path, k, root.pid, root.tid@, root.ph);
    lemma_roots_emits_root(ts, roots, j);
    let ms = roots_emits(ts, roots);
    assert(ms.contains(x));
    let i = choose|i: int| 0 <= i < ms.len() && ms[i] == x;
    assert(emitted(ts, ms[i], events[0 + i]));
}

} // verus!
