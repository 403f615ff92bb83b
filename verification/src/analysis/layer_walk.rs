//! Layer-aware attribution of GPU kernels: a walk of the call tree that
//! carries the model layer enclosing each node down to the kernels under
//! it.  A CPU instance names a layer when its name pattern has a layer
//! slot (`layers.0`, `Block0`, ...): the layer is the template's scope name,
//! `#`, and the instance's digits in that slot.  A grouped node whose
//! instances name none falls back on a repeated scope, numbered by instance.

use vstd::prelude::*;

use crate::analysis::layer_gpu::{
    cat_is_kernel, is_kernel_cat, first_layer, is_low_value_repeated_scope, layer_zero_index, low_value_scopes, opt_view, opt_views, ActiveLayer,
};
use crate::analysis::layer_rows::{RawGpuKernel, RawLayerGpu};
use crate::analysis::layer_slot::zero_slot;
use crate::analysis::compute_comm_overlap::{arena_kids, own_kernel_refs, slots_child_ids};
use crate::compressor::decompress::{included, lemma_included_add, lemma_included_trans};
use crate::arena::{span_of, ArenaNode, ArenaSlot, GpuRef, KernelsLaunchRef, NodeArena, NodeId};
use crate::event::{NameNums, Template};
use crate::pattern::regex_find_result;
use crate::text::{chars_of, decimal_chars, int_decimal, string_from_chars};

verus! {

/// What an [`ActiveLayer`] holds, its texts as character sequences.
pub enum LayerView {
    NoLayer,
    One(Seq<char>),
    Many(Seq<Option<Seq<char>>>),
}

/// The view of an active layer.
pub open spec fn layer_view(a: ActiveLayer) -> LayerView {
    match a {
        ActiveLayer::NoLayer => LayerView::NoLayer,
        ActiveLayer::One(l) => LayerView::One(l@),
        ActiveLayer::Many(ls) => LayerView::Many(opt_views(ls@)),
    }
}

/// The layer of instance `idx`.
pub open spec fn lv_at(l: LayerView, idx: int) -> Option<Seq<char>> {
    match l {
        LayerView::NoLayer => None,
        LayerView::One(s) => Some(s),
        LayerView::Many(v) => if 0 <= idx < v.len() {
            v[idx]
        } else {
            None
        },
    }
}

/// The layer every instance shares.
pub open spec fn lv_scalar(l: LayerView) -> Option<Seq<char>> {
    match l {
        LayerView::One(s) => Some(s),
        _ => None,
    }
}

/// `a`, or `b` when `a` holds no layer.
pub open spec fn lv_or(a: LayerView, b: LayerView) -> LayerView {
    if a is NoLayer {
        b
    } else {
        a
    }
}

/// One layer for every instance, or none.
pub open spec fn lv_from_option(o: Option<Seq<char>>) -> LayerView {
    match o {
        Some(s) => LayerView::One(s),
        None => LayerView::NoLayer,
    }
}

/// The layers of a run of instances: none when no instance has one, one
/// when every instance has the same, else one (or none) per instance.
pub open spec fn lv_from_layers(v: Seq<Option<Seq<char>>>) -> LayerView {
    match first_layer(v) {
        None => LayerView::NoLayer,
        Some(f) => if forall|i: int| 0 <= i < v.len() ==> v[i] == Some(f) {
            LayerView::One(f)
        } else {
            LayerView::Many(v)
        },
    }
}

/// The index of the layer slot among the `0` placeholders of a name
/// pattern (see [`layer_zero_index`]).
pub open spec fn zero_index_of(pattern: Seq<char>) -> Option<usize> {
    zero_slot(
        regex_find_result(
            r"(?:^|[^A-Za-z0-9])layers?[._/-]0(?:[^0-9]|$)|(?:^|[^A-Za-z0-9])(?:[A-Za-z]*Layer|[A-Za-z]*Block|ResBlock|ViTLayer)[_-]?0(?:[^0-9]|$)"@,
            pattern,
        ),
        vstd::utf8::encode_utf8(pattern),
    )
}

/// The digit fillers of instance `i`, where the template keeps them by
/// instance; none otherwise.
pub open spec fn digits_of(n: NameNums, i: int) -> Seq<String> {
    match n {
        NameNums::Rows(rows) => if 0 <= i < rows@.len() {
            rows@[i]@
        } else {
            Seq::empty()
        },
        _ => Seq::empty(),
    }
}

/// The layer that instance `i` of template `t` names: `scope#digits` when
/// `t` is a CPU template whose pattern has a layer slot and the instance
/// has digits for it; `scopes[t]` is the template's scope name.
pub open spec fn inst_layer(ts: Seq<Template>, scopes: Seq<String>, t: u32, i: u32) -> Option<Seq<char>> {
    if (t as int) < ts.len() {
        match ts[t as int] {
            Template::Cpu(c) => match zero_index_of(c.name_pattern@) {
                Some(z) => {
                    let d = digits_of(c.name_nums, i as int);
                    if (z as int) < d.len() {
                        Some(scopes[t as int]@ + seq!['#'] + d[z as int]@)
                    } else {
                        None
                    }
                },
                None => None,
            },
            Template::Gpu(_) => None,
        }
    } else {
        None
    }
}

/// The scope that a grouped node of `n` instances of template `t` repeats:
/// its scope name, when `t` is a CPU template, `n` is from 8 to 512 and the
/// scope is not one that repeats without marking a layer.
pub open spec fn rep_scope(ts: Seq<Template>, scopes: Seq<String>, t: u32, n: int) -> Option<Seq<char>> {
    if 8 <= n <= 512 && (t as int) < ts.len() && ts[t as int] is Cpu && !low_value_scopes().contains(scopes[t as int]@) {
        Some(scopes[t as int]@)
    } else {
        None
    }
}

/// The layer of the `idx`-th instance `inst` of a grouped node: its own,
/// else the repeated scope numbered by `idx`, else the enclosing one.
pub open spec fn grouped_layer(
    ts: Seq<Template>,
    scopes: Seq<String>,
    t: u32,
    inst: u32,
    idx: int,
    rep: Option<Seq<char>>,
    active: LayerView,
) -> Option<Seq<char>> {
    match inst_layer(ts, scopes, t, inst) {
        Some(l) => Some(l),
        None => match rep {
            Some(s) => Some(s + seq!['#'] + int_decimal(idx)),
            None => lv_at(active, idx),
        },
    }
}

/// The layers of the instances of a grouped node.
pub open spec fn grouped_layers(
    ts: Seq<Template>,
    scopes: Seq<String>,
    t: u32,
    insts: Seq<u32>,
    active: LayerView,
) -> Seq<Option<Seq<char>>> {
    let rep = rep_scope(ts, scopes, t, insts.len() as int);
    Seq::new(insts.len(), |idx: int| grouped_layer(ts, scopes, t, insts[idx], idx, rep, active))
}

/// The kernels of GPU references under `active`: all of them under one
/// layer; under one layer per reference, those that have one; none
/// otherwise.
pub open spec fn gpu_layer_kernels(refs: Seq<GpuRef>, active: LayerView) -> Seq<(Seq<char>, u32, u32)> {
    match active {
        LayerView::One(l) => refs.map_values(|r: GpuRef| (l, r.template, r.instance)),
        LayerView::Many(ls) => if ls.len() == refs.len() {
            many_layer_kernels(ls, refs)
        } else {
            Seq::empty()
        },
        LayerView::NoLayer => Seq::empty(),
    }
}

/// Each reference with its own layer, those that have one, in order.
pub open spec fn many_layer_kernels(ls: Seq<Option<Seq<char>>>, refs: Seq<GpuRef>) -> Seq<(Seq<char>, u32, u32)>
    decreases refs.len(),
{
    if refs.len() == 0 {
        Seq::empty()
    } else {
        many_layer_kernels(ls, refs.drop_last()) + match ls[refs.len() - 1] {
            Some(l) => seq![(l, refs.last().template, refs.last().instance)],
            None => Seq::empty(),
        }
    }
}

/// The kernels of multi-kernel launches, each under its launch's own layer
/// or else the enclosing layer of its position.
pub open spec fn launch_layer_kernels(
    ts: Seq<Template>,
    scopes: Seq<String>,
    t: u32,
    refs: Seq<KernelsLaunchRef>,
    active: LayerView,
) -> Seq<(Seq<char>, u32, u32)>
    decreases refs.len(),
{
    if refs.len() == 0 {
        Seq::empty()
    } else {
        let r = refs.last();
        let l = match inst_layer(ts, scopes, t, r.cpu_instance) {
            Some(l) => Some(l),
            None => lv_at(active, refs.len() - 1),
        };
        launch_layer_kernels(ts, scopes, t, refs.drop_last(), active) + match l {
            Some(l) => seq![(l, r.gpu_template, r.gpu_instance)],
            None => Seq::empty(),
        }
    }
}

/// The kernels under node `id`, each with the layer it is attributed to,
/// depth first: children, then slots; `active` is the layer enclosing the
/// node.
pub open spec fn node_layer_kernels(a: NodeArena, ts: Seq<Template>, scopes: Seq<String>, id: int, active: LayerView) -> Seq<
    (Seq<char>, u32, u32),
>
    decreases a.nodes@.len() - id, 2int, 0int,
{
    if 0 <= id < a.nodes@.len() {
        match a.nodes@[id] {
            ArenaNode::Root { children } => ids_layer_kernels(a, ts, scopes, span_of(a.child_ids@, children), id, active),
            ArenaNode::Cpu { template, instance, children, slots } => {
                let next = lv_or(lv_from_option(inst_layer(ts, scopes, template, instance)), active);
                ids_layer_kernels(a, ts, scopes, span_of(a.child_ids@, children), id, next) + ids_layer_kernels(
                    a,
                    ts,
                    scopes,
                    span_of(a.child_ids@, slots),
                    id,
                    next,
                )
            },
            ArenaNode::SameCpu { template, instances, children, slots_start, slots_len } => {
                let next = lv_or(
                    lv_from_layers(grouped_layers(ts, scopes, template, span_of(a.instance_ids@, instances), active)),
                    active,
                );
                ids_layer_kernels(a, ts, scopes, span_of(a.child_ids@, children), id, next) + slots_layer_kernels(
                    a,
                    ts,
                    scopes,
                    a.slots@.subrange(slots_start as int, slots_start + slots_len),
                    id,
                    next,
                )
            },
            ArenaNode::Gpu { refs_start, refs_len } => gpu_layer_kernels(
                a.gpu_refs@.subrange(refs_start as int, refs_start + refs_len),
                active,
            ),
            ArenaNode::KernelLaunch { cpu_template, cpu_instance, gpu_template, gpu_instance } => {
                let l = match inst_layer(ts, scopes, cpu_template, cpu_instance) {
                    Some(l) => Some(l),
                    None => lv_scalar(active),
                };
                match l {
                    Some(l) => seq![(l, gpu_template, gpu_instance)],
                    None => Seq::empty(),
                }
            },
            ArenaNode::KernelsLaunch { cpu_template, refs_start, refs_len } => launch_layer_kernels(
                ts,
                scopes,
                cpu_template,
                a.kernels_refs@.subrange(refs_start as int, refs_start + refs_len),
                active,
            ),
        }
    } else {
        Seq::empty()
    }
}

/// The kernels under the child nodes `ids` of node `parent`, all under
/// `active`, in order.
pub open spec fn ids_layer_kernels(
    a: NodeArena,
    ts: Seq<Template>,
    scopes: Seq<String>,
    ids: Seq<NodeId>,
    parent: int,
    active: LayerView,
) -> Seq<(Seq<char>, u32, u32)>
    decreases a.nodes@.len() - parent, 0int, ids.len(),
{
    if ids.len() == 0 {
        Seq::empty()
    } else {
        ids_layer_kernels(a, ts, scopes, ids.drop_last(), parent, active) + if parent < ids.last() as int && (ids.last() as int)
            < a.nodes@.len() {
            node_layer_kernels(a, ts, scopes, ids.last() as int, active)
        } else {
            Seq::empty()
        }
    }
}

/// The kernels under each slot of node `parent`: slot `k`'s children under
/// the layer `next` gives instance `k`.
pub open spec fn slots_layer_kernels(
    a: NodeArena,
    ts: Seq<Template>,
    scopes: Seq<String>,
    slots: Seq<ArenaSlot>,
    parent: int,
    next: LayerView,
) -> Seq<(Seq<char>, u32, u32)>
    decreases a.nodes@.len() - parent, 1int, slots.len(),
{
    if slots.len() == 0 {
        Seq::empty()
    } else {
        slots_layer_kernels(a, ts, scopes, slots.drop_last(), parent, next) + ids_layer_kernels(
            a,
            ts,
            scopes,
            span_of(a.child_ids@, slots.last().children),
            parent,
            lv_from_option(lv_at(next, slots.len() - 1)),
        )
    }
}

/// The attributed kernels, as character sequences.
pub open spec fn items_view(v: Seq<(String, u32, u32)>) -> Seq<(Seq<char>, u32, u32)> {
    v.map_values(|x: (String, u32, u32)| (x.0@, x.1, x.2))
}

/// `scope#tail`.
fn join_layer(scope: &str, tail: &Vec<char>) -> (r: String)
    ensures
        r@ == scope@ + seq!['#'] + tail@,
{
    let mut cs = chars_of(scope);
    cs.push('#');
    let mut k: usize = 0;
    while k < tail.len()
        invariant
            k <= tail@.len(),
            cs@ == scope@ + seq!['#'] + tail@.take(k as int),
        decreases tail@.len() - k,
    {
        cs.push(tail[k]);
        k += 1;
        proof {
            assert(tail@.take(k as int) =~= tail@.take(k - 1).push(tail@[k - 1]));
        }
    }
    proof {
        assert(tail@.take(tail@.len() as int) =~= tail@);
    }
    string_from_chars(&cs)
}

/// The layer that instance `i` of template `t` names, if any.
fn instance_layer(templates: &Vec<Template>, scopes: &Vec<String>, t: u32, i: u32) -> (r: Option<String>)
    requires
        scopes@.len() == templates@.len(),
    ensures
        opt_view(r) == inst_layer(templates@, scopes@, t, i),
{
    if (t as usize) >= templates.len() {
        return None;
    }
    match &templates[t as usize] {
        Template::Cpu(c) => {
            let z = layer_zero_index(c.name_pattern.as_str());
            match z {
                None => None,
                Some(z) => match &c.name_nums {
                    NameNums::Rows(rows) => {
                        if (i as usize) < rows.len() && z < rows[i as usize].len() {
                            let d = chars_of(rows[i as usize][z].as_str());
                            Some(join_layer(scopes[t as usize].as_str(), &d))
                        } else {
                            None
                        }
                    },
                    _ => None,
                },
            }
        },
        Template::Gpu(_) => None,
    }
}

/// The scope that a grouped node of `n` instances of template `t`
/// repeats, if any.
fn repeated_scope(templates: &Vec<Template>, scopes: &Vec<String>, t: u32, n: usize) -> (r: Option<String>)
    requires
        scopes@.len() == templates@.len(),
    ensures
        opt_view(r) == rep_scope(templates@, scopes@, t, n as int),
{
    if n < 8 || n > 512 || (t as usize) >= templates.len() {
        return None;
    }
    match &templates[t as usize] {
        Template::Cpu(_) => {
            let s = scopes[t as usize].as_str();
            if is_low_value_repeated_scope(s) {
                None
            } else {
                Some(scopes[t as usize].clone())
            }
        },
        Template::Gpu(_) => None,
    }
}

/// A copy of an optional text.
fn copy_opt_text(o: &Option<String>) -> (r: Option<String>)
    ensures
        opt_view(r) == opt_view(*o),
{
    match o {
        Some(s) => Some(s.clone()),
        None => None,
    }
}

/// A copy of an active layer.
fn copy_layer(a: &ActiveLayer) -> (r: ActiveLayer)
    ensures
        layer_view(r) == layer_view(*a),
{
    match a {
        ActiveLayer::NoLayer => ActiveLayer::NoLayer,
        ActiveLayer::One(l) => ActiveLayer::One(l.clone()),
        ActiveLayer::Many(ls) => {
            let mut v: Vec<Option<String>> = Vec::new();
            let mut k: usize = 0;
            while k < ls.len()
                invariant
                    k <= ls@.len(),
                    v@.len() == k,
                    forall|q: int| 0 <= q < k ==> opt_view(#[trigger] v@[q]) == opt_view(ls@[q]),
                decreases ls@.len() - k,
            {
                v.push(copy_opt_text(&ls[k]));
                k += 1;
            }
            proof {
                assert(opt_views(v@) =~= opt_views(ls@));
            }
            ActiveLayer::Many(v)
        },
    }
}

/// The layer of a run of instances, as the active layer it makes.
fn layers_to_active(layers: Vec<Option<String>>) -> (r: ActiveLayer)
    ensures
        layer_view(r) == lv_from_layers(opt_views(layers@)),
{
    let ghost v = opt_views(layers@);
    let r = ActiveLayer::from_layers(layers);
    proof {
        match first_layer(v) {
            None => {},
            Some(f) => {
                if forall|i: int| 0 <= i < v.len() ==> v[i] == Some(f) {
                } else {
                }
            },
        }
    }
    r
}

/// Appends one attributed kernel.
fn push_item(out: &mut Vec<(String, u32, u32)>, layer: String, t: u32, i: u32)
    ensures
        items_view(final(out)@) == items_view(old(out)@) + seq![(layer@, t, i)],
{
    let ghost l = layer@;
    out.push((layer, t, i));
    proof {
        assert(items_view(out@) =~= items_view(old(out)@) + seq![(l, t, i)]);
    }
}

/// The layers of the instances of a grouped node.
fn grouped_node_layers(
    templates: &Vec<Template>,
    scopes: &Vec<String>,
    t: u32,
    insts: &[u32],
    active: &ActiveLayer,
) -> (r: Vec<Option<String>>)
    requires
        scopes@.len() == templates@.len(),
        insts@.len() <= u32::MAX,
    ensures
        opt_views(r@) == grouped_layers(templates@, scopes@, t, insts@, layer_view(*active)),
{
    let rep = repeated_scope(templates, scopes, t, insts.len());
    let ghost repv = rep_scope(templates@, scopes@, t, insts@.len() as int);
    let mut layers: Vec<Option<String>> = Vec::new();
    let mut idx: usize = 0;
    while idx < insts.len()
        invariant
            scopes@.len() == templates@.len(),
            insts@.len() <= u32::MAX,
            idx <= insts@.len(),
            opt_view(rep) == repv,
            repv == rep_scope(templates@, scopes@, t, insts@.len() as int),
            layers@.len() == idx,
            forall|k: int|
                0 <= k < idx ==> opt_view(#[trigger] layers@[k]) == grouped_layer(
                    templates@,
                    scopes@,
                    t,
                    insts@[k],
                    k,
                    repv,
                    layer_view(*active),
                ),
        decreases insts@.len() - idx,
    {
        let own = instance_layer(templates, scopes, t, insts[idx]);
        let l = match own {
            Some(l) => Some(l),
            None => match &rep {
                Some(sc) => {
                    let d = decimal_chars(idx as i64);
                    Some(join_layer(sc.as_str(), &d))
                },
                None => active.at(idx),
            },
        };
        layers.push(l);
        idx += 1;
    }
    proof {
        assert(opt_views(layers@) =~= grouped_layers(templates@, scopes@, t, insts@, layer_view(*active)));
    }
    layers
}

/// Attributes the kernels under the child nodes `ids` of node `parent`.
fn walk_layer_ids(
    arena: &NodeArena,
    ids: &[NodeId],
    parent: NodeId,
    templates: &Vec<Template>,
    scopes: &Vec<String>,
    active: &ActiveLayer,
    out: &mut Vec<(String, u32, u32)>,
)
    requires
        arena.wf(),
        (parent as int) < arena.nodes@.len(),
        forall|j: int| 0 <= j < ids@.len() ==> parent < #[trigger] ids@[j] < arena.nodes@.len(),
        scopes@.len() == templates@.len(),
    ensures
        items_view(final(out)@) == items_view(old(out)@) + ids_layer_kernels(
            *arena,
            templates@,
            scopes@,
            ids@,
            parent as int,
            layer_view(*active),
        ),
    decreases arena.nodes@.len() - parent, 0int,
{
    let ghost lv = layer_view(*active);
    let mut k: usize = 0;
    while k < ids.len()
        invariant
            arena.wf(),
            k <= ids@.len(),
            (parent as int) < arena.nodes@.len(),
            forall|j: int| 0 <= j < ids@.len() ==> parent < #[trigger] ids@[j] < arena.nodes@.len(),
            scopes@.len() == templates@.len(),
            lv == layer_view(*active),
            items_view(out@) == items_view(old(out)@) + ids_layer_kernels(
                *arena,
                templates@,
                scopes@,
                ids@.take(k as int),
                parent as int,
                lv,
            ),
        decreases ids@.len() - k,
    {
        let child = ids[k];
        proof {
            assert(ids@.take(k + 1).drop_last() =~= ids@.take(k as int));
            assert(ids@.take(k + 1).last() == child);
        }
        walk_layers_arena(arena, child, templates, scopes, copy_layer(active), out);
        k += 1;
    }
    proof {
        assert(ids@.take(ids@.len() as int) =~= ids@);
    }
}

/// Attributes each kernel under node `node_id` to the model layer that
/// encloses it, depth first: `active` is the layer enclosing the node and
/// `scopes[t]` the scope name of template `t`.  Appends `(layer, gpu
/// template, gpu instance)` for each kernel that has a layer.
pub fn walk_layers_arena(
    arena: &NodeArena,
    node_id: NodeId,
    templates: &Vec<Template>,
    scopes: &Vec<String>,
    active: ActiveLayer,
    out: &mut Vec<(String, u32, u32)>,
)
    requires
        arena.wf(),
        (node_id as int) < arena.nodes@.len(),
        scopes@.len() == templates@.len(),
    ensures
        items_view(final(out)@) == items_view(old(out)@) + node_layer_kernels(
            *arena,
            templates@,
            scopes@,
            node_id as int,
            layer_view(active),
        ),
    decreases arena.nodes@.len() - node_id, 1int,
{
    let ghost id = node_id as int;
    let ghost ts = templates@;
    let ghost sc = scopes@;
    let ghost lv = layer_view(active);
    proof {
        assert(arena.node_ok(id));
    }
    match arena.get(node_id) {
        ArenaNode::Root { children } => {
            let ids = arena.children(*children);
            walk_layer_ids(arena, ids, node_id, templates, scopes, &active, out);
        },
        ArenaNode::Cpu { template, instance, children, slots } => {
            let (template, instance, children, slots) = (*template, *instance, *children, *slots);
            let own = instance_layer(templates, scopes, template, instance);
            let next = ActiveLayer::from_option(own).or(active);
            let ids = arena.children(children);
            walk_layer_ids(arena, ids, node_id, templates, scopes, &next, out);
            let sids = arena.children(slots);
            walk_layer_ids(arena, sids, node_id, templates, scopes, &next, out);
            assert(items_view(out@) =~= items_view(old(out)@) + node_layer_kernels(*arena, ts, sc, id, lv));
        },
        ArenaNode::SameCpu { template, instances, children, slots_start, slots_len } => {
            let (template, instances, children, slots_start, slots_len) = (
                *template,
                *instances,
                *children,
                *slots_start,
                *slots_len,
            );
            let insts = arena.instances(instances);
            let layers = grouped_node_layers(templates, scopes, template, insts, &active);
            let next = layers_to_active(layers).or(active);
            let ghost nv = layer_view(next);
            let ids = arena.children(children);
            walk_layer_ids(arena, ids, node_id, templates, scopes, &next, out);
            let ghost mid = items_view(out@);
            let slots = arena.slots_slice(slots_start, slots_len);
            let mut k: usize = 0;
            while k < slots.len()
                invariant
                    arena.wf(),
                    arena.node_ok(id),
                    id == node_id,
                    id < arena.nodes@.len(),
                    scopes@.len() == templates@.len(),
                    ts == templates@,
                    sc == scopes@,
                    nv == layer_view(next),
                    arena.nodes@[id] matches ArenaNode::SameCpu { slots_start: ss, slots_len: sl, .. } && ss == slots_start
                        && sl == slots_len,
                    slots@ == arena.slot_range(slots_start, slots_len),
                    k <= slots@.len(),
                    items_view(out@) == mid + slots_layer_kernels(*arena, ts, sc, slots@.take(k as int), id, nv),
                decreases slots@.len() - k,
            {
                let slot = slots[k];
                proof {
                    assert(slots@.take(k + 1).drop_last() =~= slots@.take(k as int));
                    assert(slots@.take(k + 1).last() == slot);
                    assert(slot == arena.slot_range(slots_start, slots_len)[k as int]);
                }
                let slot_layer = ActiveLayer::from_option(next.at(k));
                let sids = arena.children(slot.children);
                walk_layer_ids(arena, sids, node_id, templates, scopes, &slot_layer, out);
                k += 1;
            }
            proof {
                assert(slots@.take(slots@.len() as int) =~= slots@);
            }
            assert(items_view(out@) =~= items_view(old(out)@) + node_layer_kernels(*arena, ts, sc, id, lv));
        },
        ArenaNode::Gpu { refs_start, refs_len } => {
            let (refs_start, refs_len) = (*refs_start, *refs_len);
            let refs = arena.gpu_refs_slice(refs_start, refs_len);
            match &active {
                ActiveLayer::One(l) => {
                    let ghost lw = l@;
                    let mut k: usize = 0;
                    while k < refs.len()
                        invariant
                            k <= refs@.len(),
                            lw == l@,
                            items_view(out@) == items_view(old(out)@) + refs@.take(k as int).map_values(
                                |r: GpuRef| (lw, r.template, r.instance),
                            ),
                        decreases refs@.len() - k,
                    {
                        let r = refs[k];
                        push_item(out, l.clone(), r.template, r.instance);
                        proof {
                            assert(refs@.take(k + 1).map_values(|r: GpuRef| (lw, r.template, r.instance)) =~= refs@.take(
                                k as int,
                            ).map_values(|r: GpuRef| (lw, r.template, r.instance)).push((lw, r.template, r.instance)));
                        }
                        k += 1;
                    }
                    proof {
                        assert(refs@.take(refs@.len() as int) =~= refs@);
                    }
                },
                ActiveLayer::Many(ls) => {
                    if ls.len() == refs.len() {
                        let ghost lsv = opt_views(ls@);
                        let mut k: usize = 0;
                        while k < refs.len()
                            invariant
                                k <= refs@.len(),
                                ls@.len() == refs@.len(),
                                lsv == opt_views(ls@),
                                items_view(out@) == items_view(old(out)@) + many_layer_kernels(lsv, refs@.take(k as int)),
                            decreases refs@.len() - k,
                        {
                            let r = refs[k];
                            proof {
                                assert(refs@.take(k + 1).drop_last() =~= refs@.take(k as int));
                                assert(refs@.take(k + 1).last() == r);
                            }
                            match &ls[k] {
                                Some(l) => {
                                    push_item(out, l.clone(), r.template, r.instance);
                                },
                                None => {
                                    assert(items_view(out@) =~= items_view(old(out)@) + many_layer_kernels(lsv, refs@.take(k + 1)));
                                },
                            }
                            k += 1;
                        }
                        proof {
                            assert(refs@.take(refs@.len() as int) =~= refs@);
                        }
                    } else {
                        assert(items_view(out@) =~= items_view(old(out)@) + node_layer_kernels(*arena, ts, sc, id, lv));
                    }
                },
                ActiveLayer::NoLayer => {
                    assert(items_view(out@) =~= items_view(old(out)@) + node_layer_kernels(*arena, ts, sc, id, lv));
                },
            }
        },
        ArenaNode::KernelLaunch { cpu_template, cpu_instance, gpu_template, gpu_instance } => {
            let own = instance_layer(templates, scopes, *cpu_template, *cpu_instance);
            let l = match own {
                Some(l) => Some(l),
                None => active.scalar(),
            };
            match l {
                Some(l) => {
                    push_item(out, l, *gpu_template, *gpu_instance);
                },
                None => {
                    assert(items_view(out@) =~= items_view(old(out)@) + node_layer_kernels(*arena, ts, sc, id, lv));
                },
            }
        },
        ArenaNode::KernelsLaunch { cpu_template, refs_start, refs_len } => {
            let (cpu_template, refs_start, refs_len) = (*cpu_template, *refs_start, *refs_len);
            let refs = arena.kernels_refs_slice(refs_start, refs_len);
            let mut k: usize = 0;
            while k < refs.len()
                invariant
                    k <= refs@.len(),
                    scopes@.len() == templates@.len(),
                    ts == templates@,
                    sc == scopes@,
                    lv == layer_view(active),
                    items_view(out@) == items_view(old(out)@) + launch_layer_kernels(ts, sc, cpu_template, refs@.take(k as int), lv),
                decreases refs@.len() - k,
            {
                let r = refs[k];
                proof {
                    assert(refs@.take(k + 1).drop_last() =~= refs@.take(k as int));
                    assert(refs@.take(k + 1).last() == r);
                }
                let own = instance_layer(templates, scopes, cpu_template, r.cpu_instance);
                let l = match own {
                    Some(l) => Some(l),
                    None => active.at(k),
                };
                match l {
                    Some(l) => {
                        push_item(out, l, r.gpu_template, r.gpu_instance);
                    },
                    None => {
                        assert(items_view(out@) =~= items_view(old(out)@) + launch_layer_kernels(
                            ts,
                            sc,
                            cpu_template,
                            refs@.take(k + 1),
                            lv,
                        ));
                    },
                }
                k += 1;
            }
            proof {
                assert(refs@.take(refs@.len() as int) =~= refs@);
            }
        },
    }
}

/// The value at `i` of a column, 0 past its end.
pub open spec fn value_or_zero(s: Seq<i64>, i: int) -> i64 {
    if 0 <= i < s.len() {
        s[i]
    } else {
        0
    }
}

/// The kernel that an attributed reference names, with its rank and layer:
/// `(rank, layer, name, ts, dur)` when the reference names a GPU template
/// of category `kernel` (a missing `ts` or `dur` reads as 0).
pub open spec fn layer_item(ts: Seq<Template>, rank: Seq<char>, x: (Seq<char>, u32, u32)) -> Seq<
    (Seq<char>, Seq<char>, Seq<char>, i64, i64),
> {
    if (x.1 as int) < ts.len() {
        match ts[x.1 as int] {
            Template::Gpu(g) => if is_kernel_cat(g.cat) {
                seq![(rank, x.0, g.name_pattern@, value_or_zero(g.ts@, x.2 as int), value_or_zero(g.dur@, x.2 as int))]
            } else {
                Seq::empty()
            },
            Template::Cpu(_) => Seq::empty(),
        }
    } else {
        Seq::empty()
    }
}

/// The kernels of attributed references, in order.
pub open spec fn layer_items(ts: Seq<Template>, rank: Seq<char>, xs: Seq<(Seq<char>, u32, u32)>) -> Seq<
    (Seq<char>, Seq<char>, Seq<char>, i64, i64),
>
    decreases xs.len(),
{
    if xs.len() == 0 {
        Seq::empty()
    } else {
        layer_items(ts, rank, xs.drop_last()) + layer_item(ts, rank, xs.last())
    }
}

/// The view of a layer-attributed kernel.
pub open spec fn raw_item_view(r: RawLayerGpu) -> (Seq<char>, Seq<char>, Seq<char>, i64, i64) {
    (r.rank@, r.layer@, r.gpu.name@, r.gpu.ts, r.gpu.dur)
}

/// The kernels that attributed references of `rank` name, as the items the
/// layer analyses read: references to anything but a `kernel` GPU template
/// are dropped.
pub fn layer_kernel_items(rank: &str, templates: &Vec<Template>, walked: &Vec<(String, u32, u32)>) -> (r: Vec<RawLayerGpu>)
    ensures
        r@.map_values(|x: RawLayerGpu| raw_item_view(x)) == layer_items(templates@, rank@, items_view(walked@)),
{
    let ghost xs = items_view(walked@);
    let mut r: Vec<RawLayerGpu> = Vec::new();
    let mut k: usize = 0;
    while k < walked.len()
        invariant
            k <= walked@.len(),
            xs == items_view(walked@),
            r@.map_values(|x: RawLayerGpu| raw_item_view(x)) == layer_items(templates@, rank@, xs.take(k as int)),
        decreases walked@.len() - k,
    {
        let (layer, t, i) = (&walked[k].0, walked[k].1, walked[k].2);
        proof {
            assert(xs.take(k + 1).drop_last() =~= xs.take(k as int));
            assert(xs.take(k + 1).last() == xs[k as int]);
            assert(xs[k as int] == (layer@, t, i));
        }
        let ghost before = r@;
        if (t as usize) < templates.len() {
            match &templates[t as usize] {
                Template::Gpu(g) => {
                    if cat_is_kernel(&g.cat) {
                        let ts = match g.ts.get(i as usize) {
                            Some(v) => v,
                            None => 0,
                        };
                        let dur = match g.dur.get(i as usize) {
                            Some(v) => v,
                            None => 0,
                        };
                        let item = RawLayerGpu {
                            rank: rank.to_string(),
                            layer: layer.clone(),
                            gpu: RawGpuKernel { name: g.name_pattern.clone(), ts, dur },
                        };
                        r.push(item);
                        proof {
                            assert(r@.map_values(|x: RawLayerGpu| raw_item_view(x)) =~= before.map_values(
                                |x: RawLayerGpu| raw_item_view(x),
                            ).push(raw_item_view(item)));
                        }
                    }
                },
                Template::Cpu(_) => {},
            }
        }
        proof {
            assert(r@.map_values(|x: RawLayerGpu| raw_item_view(x)) =~= layer_items(templates@, rank@, xs.take(k + 1)));
        }
        k += 1;
    }
    proof {
        assert(xs.take(walked@.len() as int) =~= xs);
    }
    r
}

/// The kernels `(template, instance)` of attributed items.
pub open spec fn item_refs(items: Seq<(Seq<char>, u32, u32)>) -> Seq<(u32, u32)> {
    items.map_values(|x: (Seq<char>, u32, u32)| (x.1, x.2))
}

/// Each GPU reference gets the one layer.
proof fn lemma_one_layer_refs(refs: Seq<GpuRef>, l: Seq<char>)
    ensures
        item_refs(gpu_layer_kernels(refs, LayerView::One(l))) =~= refs.map_values(|r: GpuRef| (r.template, r.instance)),
        forall|k: int| 0 <= k < refs.len() ==> (#[trigger] gpu_layer_kernels(refs, LayerView::One(l))[k]).0 == l,
{
}

/// Under one layer every launch keeps its kernel, under its own layer or
/// else that one.
proof fn lemma_one_layer_launches(ts: Seq<Template>, scopes: Seq<String>, t: u32, refs: Seq<KernelsLaunchRef>, l: Seq<char>)
    ensures
        item_refs(launch_layer_kernels(ts, scopes, t, refs, LayerView::One(l))) =~= refs.map_values(
            |r: KernelsLaunchRef| (r.gpu_template, r.gpu_instance),
        ),
        forall|k: int|
            0 <= k < refs.len() ==> (#[trigger] launch_layer_kernels(ts, scopes, t, refs, LayerView::One(l))[k]).0 == (
            match inst_layer(ts, scopes, t, refs[k].cpu_instance) {
                Some(x) => x,
                None => l,
            }),
    decreases refs.len(),
{
    if refs.len() > 0 {
        let p = refs.drop_last();
        lemma_one_layer_launches(ts, scopes, t, p, l);
        let a = launch_layer_kernels(ts, scopes, t, p, LayerView::One(l));
        let b = launch_layer_kernels(ts, scopes, t, refs, LayerView::One(l));
        assert(a.len() == p.len()) by {
            assert(item_refs(a).len() == a.len());
        }
        assert forall|k: int| 0 <= k < refs.len() implies (#[trigger] b[k]).0 == (match inst_layer(
            ts,
            scopes,
            t,
            refs[k].cpu_instance,
        ) {
            Some(x) => x,
            None => l,
        }) by {
            if k < p.len() {
                assert(b[k] == a[k]);
                assert(p[k] == refs[k]);
            }
        }
        assert(item_refs(b) =~= refs.map_values(|r: KernelsLaunchRef| (r.gpu_template, r.gpu_instance))) by {
            assert forall|k: int| 0 <= k < refs.len() implies #[trigger] item_refs(b)[k] == (
                refs[k].gpu_template,
                refs[k].gpu_instance,
            ) by {
                if k < p.len() {
                    assert(b[k] == a[k]);
                    assert(item_refs(a)[k] == (p[k].gpu_template, p[k].gpu_instance));
                    assert(p[k] == refs[k]);
                }
            }
        }
    }
}

/// Under one enclosing layer no kernel of a GPU or launch node is dropped:
/// the node's attributed kernels are exactly the kernels it refers to, in
/// order, each under the launch's own layer when it names one, else under
/// the enclosing layer.
pub proof fn lemma_one_layer_keeps_kernels(a: NodeArena, ts: Seq<Template>, scopes: Seq<String>, d: int, l: Seq<char>)
    requires
        a.wf(),
        0 <= d < a.nodes@.len(),
        a.nodes@[d] is Gpu || a.nodes@[d] is KernelLaunch || a.nodes@[d] is KernelsLaunch,
    ensures
        item_refs(node_layer_kernels(a, ts, scopes, d, LayerView::One(l))) == own_kernel_refs(a, d),
        forall|k: int|
            0 <= k < own_kernel_refs(a, d).len() ==> {
                let x = (#[trigger] node_layer_kernels(a, ts, scopes, d, LayerView::One(l))[k]).0;
                match a.nodes@[d] {
                    ArenaNode::KernelLaunch { cpu_template, cpu_instance, .. } => x == (match inst_layer(
                        ts,
                        scopes,
                        cpu_template,
                        cpu_instance,
                    ) {
                        Some(y) => y,
                        None => l,
                    }),
                    ArenaNode::KernelsLaunch { cpu_template, refs_start, .. } => x == (match inst_layer(
                        ts,
                        scopes,
                        cpu_template,
                        a.kernels_refs@[refs_start + k].cpu_instance,
                    ) {
                        Some(y) => y,
                        None => l,
                    }),
                    _ => x == l,
                }
            },
{
    assert(a.node_ok(d));
    match a.nodes@[d] {
        ArenaNode::Gpu { refs_start, refs_len } => {
            lemma_one_layer_refs(a.gpu_refs@.subrange(refs_start as int, refs_start + refs_len), l);
        },
        ArenaNode::KernelLaunch { cpu_template, cpu_instance, gpu_template, gpu_instance } => {
            let items = node_layer_kernels(a, ts, scopes, d, LayerView::One(l));
            assert(item_refs(items) =~= own_kernel_refs(a, d));
        },
        ArenaNode::KernelsLaunch { cpu_template, refs_start, refs_len } => {
            let refs = a.kernels_refs@.subrange(refs_start as int, refs_start + refs_len);
            lemma_one_layer_launches(ts, scopes, cpu_template, refs, l);
            assert forall|k: int| 0 <= k < refs.len() implies #[trigger] refs[k] == a.kernels_refs@[refs_start + k] by {}
        },
        _ => {},
    }
}

/// The kernels under each listed child are among the list's.
proof fn lemma_ids_layer_kid(
    a: NodeArena,
    ts: Seq<Template>,
    scopes: Seq<String>,
    ids: Seq<NodeId>,
    parent: int,
    active: LayerView,
    k: int,
)
    requires
        0 <= k < ids.len(),
        parent < ids[k] < a.nodes@.len(),
    ensures
        included(
            node_layer_kernels(a, ts, scopes, ids[k] as int, active),
            ids_layer_kernels(a, ts, scopes, ids, parent, active),
        ),
    decreases ids.len(),
{
    let p = ids.drop_last();
    let last = if parent < ids.last() as int && (ids.last() as int) < a.nodes@.len() {
        node_layer_kernels(a, ts, scopes, ids.last() as int, active)
    } else {
        Seq::empty()
    };
    lemma_included_add(ids_layer_kernels(a, ts, scopes, p, parent, active), last);
    if k < ids.len() - 1 {
        assert(p[k] == ids[k]);
        lemma_ids_layer_kid(a, ts, scopes, p, parent, active, k);
        lemma_included_trans(
            node_layer_kernels(a, ts, scopes, ids[k] as int, active),
            ids_layer_kernels(a, ts, scopes, p, parent, active),
            ids_layer_kernels(a, ts, scopes, ids, parent, active),
        );
    }
}

/// The layer that a root or CPU node hands its kids: a CPU instance's own
/// layer when it names one, else the enclosing layer.
pub open spec fn handed_layer(a: NodeArena, ts: Seq<Template>, scopes: Seq<String>, p: int, active: LayerView) -> LayerView {
    match a.nodes@[p] {
        ArenaNode::Cpu { template, instance, .. } => match inst_layer(ts, scopes, template, instance) {
            Some(x) => LayerView::One(x),
            None => active,
        },
        _ => active,
    }
}

/// No kernel below a root or CPU node is dropped on the way down: every
/// kernel attributed under one of its kids, walked under the layer the
/// node hands down (the CPU instance's own layer, else the enclosing one),
/// is attributed under the node, with the same layer.
pub proof fn lemma_kid_layer_kernels_included(
    a: NodeArena,
    ts: Seq<Template>,
    scopes: Seq<String>,
    p: int,
    active: LayerView,
    k: int,
)
    requires
        0 <= p < a.nodes@.len(),
        a.nodes@[p] is Root || a.nodes@[p] is Cpu,
        0 <= k < arena_kids(a, p).len(),
        p < arena_kids(a, p)[k] < a.nodes@.len(),
    ensures
        included(
            node_layer_kernels(a, ts, scopes, arena_kids(a, p)[k] as int, handed_layer(a, ts, scopes, p, active)),
            node_layer_kernels(a, ts, scopes, p, active),
        ),
{
    let c = arena_kids(a, p)[k];
    let h = handed_layer(a, ts, scopes, p, active);
    match a.nodes@[p] {
        ArenaNode::Root { children } => {
            lemma_ids_layer_kid(a, ts, scopes, span_of(a.child_ids@, children), p, active, k);
        },
        ArenaNode::Cpu { template, instance, children, slots } => {
            let next = lv_or(lv_from_option(inst_layer(ts, scopes, template, instance)), active);
            assert(next == h);
            let x = span_of(a.child_ids@, children);
            let y = span_of(a.child_ids@, slots);
            let whole = node_layer_kernels(a, ts, scopes, p, active);
            lemma_included_add(ids_layer_kernels(a, ts, scopes, x, p, h), ids_layer_kernels(a, ts, scopes, y, p, h));
            if k < x.len() {
                assert(c == x[k]);
                lemma_ids_layer_kid(a, ts, scopes, x, p, h, k);
                lemma_included_trans(
                    node_layer_kernels(a, ts, scopes, c as int, h),
                    ids_layer_kernels(a, ts, scopes, x, p, h),
                    whole,
                );
            } else {
                assert(c == y[k - x.len()]);
                lemma_ids_layer_kid(a, ts, scopes, y, p, h, k - x.len());
                lemma_included_trans(
                    node_layer_kernels(a, ts, scopes, c as int, h),
                    ids_layer_kernels(a, ts, scopes, y, p, h),
                    whole,
                );
            }
        },
        _ => {},
    }
}

/// A run of instances that all have layer `l` has `l` first.
proof fn lemma_first_layer_all(v: Seq<Option<Seq<char>>>, l: Seq<char>)
    requires
        v.len() > 0,
        forall|i: int| 0 <= i < v.len() ==> v[i] == Some(l),
    ensures
        first_layer(v) == Some(l),
    decreases v.len(),
{
    if v.len() > 1 {
        let p = v.drop_last();
        assert forall|i: int| 0 <= i < p.len() implies p[i] == Some(l) by {
            assert(p[i] == v[i]);
        }
        lemma_first_layer_all(p, l);
    } else {
        assert(v.drop_last() =~= Seq::<Option<Seq<char>>>::empty());
        assert(first_layer(v.drop_last()) is None);
        assert(v.last() == v[0]);
    }
}

/// The kernels under each slot child, walked under one layer, are among
/// the slots' kernels under that layer.
proof fn lemma_slots_layer_kid(
    a: NodeArena,
    ts: Seq<Template>,
    scopes: Seq<String>,
    slots: Seq<ArenaSlot>,
    parent: int,
    l: Seq<char>,
    k: int,
)
    requires
        0 <= k < slots_child_ids(a.child_ids@, slots).len(),
        parent < slots_child_ids(a.child_ids@, slots)[k] < a.nodes@.len(),
    ensures
        included(
            node_layer_kernels(a, ts, scopes, slots_child_ids(a.child_ids@, slots)[k] as int, LayerView::One(l)),
            slots_layer_kernels(a, ts, scopes, slots, parent, LayerView::One(l)),
        ),
    decreases slots.len(),
{
    let p = slots.drop_last();
    let x = slots_child_ids(a.child_ids@, p);
    let y = span_of(a.child_ids@, slots.last().children);
    let c = slots_child_ids(a.child_ids@, slots)[k];
    let one = LayerView::One(l);
    assert(lv_from_option(lv_at(one, slots.len() - 1)) == one);
    lemma_included_add(
        slots_layer_kernels(a, ts, scopes, p, parent, one),
        ids_layer_kernels(a, ts, scopes, y, parent, one),
    );
    if k < x.len() {
        assert(c == x[k]);
        lemma_slots_layer_kid(a, ts, scopes, p, parent, l, k);
        lemma_included_trans(
            node_layer_kernels(a, ts, scopes, c as int, one),
            slots_layer_kernels(a, ts, scopes, p, parent, one),
            slots_layer_kernels(a, ts, scopes, slots, parent, one),
        );
    } else {
        assert(c == y[k - x.len()]);
        lemma_ids_layer_kid(a, ts, scopes, y, parent, one, k - x.len());
        lemma_included_trans(
            node_layer_kernels(a, ts, scopes, c as int, one),
            ids_layer_kernels(a, ts, scopes, y, parent, one),
            slots_layer_kernels(a, ts, scopes, slots, parent, one),
        );
    }
}

/// A grouped node whose instances name no layer, and which repeats no
/// scope, hands the enclosing layer down unchanged: every kernel attributed
/// under one of its kids (children or slot children) under layer `l` is
/// attributed under the node, enclosed by `l`, with the same layer.
pub proof fn lemma_grouped_passes_layer(a: NodeArena, ts: Seq<Template>, scopes: Seq<String>, p: int, l: Seq<char>, k: int)
    requires
        0 <= p < a.nodes@.len(),
        a.nodes@[p] matches ArenaNode::SameCpu { template, instances, .. } && rep_scope(
            ts,
            scopes,
            template,
            span_of(a.instance_ids@, instances).len() as int,
        ) is None && forall|i: int|
            0 <= i < span_of(a.instance_ids@, instances).len() ==> #[trigger] inst_layer(
                ts,
                scopes,
                template,
                span_of(a.instance_ids@, instances)[i],
            ) is None,
        0 <= k < arena_kids(a, p).len(),
        p < arena_kids(a, p)[k] < a.nodes@.len(),
    ensures
        included(
            node_layer_kernels(a, ts, scopes, arena_kids(a, p)[k] as int, LayerView::One(l)),
            node_layer_kernels(a, ts, scopes, p, LayerView::One(l)),
        ),
{
    let one = LayerView::One(l);
    let c = arena_kids(a, p)[k];
    match a.nodes@[p] {
        ArenaNode::SameCpu { template, instances, children, slots_start, slots_len } => {
            let insts = span_of(a.instance_ids@, instances);
            let v = grouped_layers(ts, scopes, template, insts, one);
            assert forall|i: int| 0 <= i < v.len() implies v[i] == Some(l) by {
                assert(inst_layer(ts, scopes, template, insts[i]) is None);
            }
            if v.len() > 0 {
                lemma_first_layer_all(v, l);
            }
            let next = lv_or(lv_from_layers(v), one);
            assert(next == one);
            let x = span_of(a.child_ids@, children);
            let sl = a.slots@.subrange(slots_start as int, slots_start + slots_len);
            let y = slots_child_ids(a.child_ids@, sl);
            let whole = node_layer_kernels(a, ts, scopes, p, one);
            lemma_included_add(ids_layer_kernels(a, ts, scopes, x, p, one), slots_layer_kernels(a, ts, scopes, sl, p, one));
            if k < x.len() {
                assert(c == x[k]);
                lemma_ids_layer_kid(a, ts, scopes, x, p, one, k);
                lemma_included_trans(
                    node_layer_kernels(a, ts, scopes, c as int, one),
                    ids_layer_kernels(a, ts, scopes, x, p, one),
                    whole,
                );
            } else {
                assert(c == y[k - x.len()]);
                lemma_slots_layer_kid(a, ts, scopes, sl, p, l, k - x.len());
                lemma_included_trans(
                    node_layer_kernels(a, ts, scopes, c as int, one),
                    slots_layer_kernels(a, ts, scopes, sl, p, one),
                    whole,
                );
            }
        },
        _ => {},
    }
}

/// Each reference whose position has a layer is attributed to it.
proof fn lemma_many_layer_has_prefix(ls: Seq<Option<Seq<char>>>, refs: Seq<GpuRef>, k: int)
    requires
        0 <= k < refs.len(),
        refs.len() <= ls.len(),
        ls[k] is Some,
    ensures
        many_layer_kernels(ls, refs).contains((ls[k]->0, refs[k].template, refs[k].instance)),
    decreases refs.len(),
{
    let p = refs.drop_last();
    let last = match ls[refs.len() - 1] {
        Some(l) => seq![(l, refs.last().template, refs.last().instance)],
        None => Seq::empty(),
    };
    lemma_included_add(many_layer_kernels(ls, p), last);
    if k < refs.len() - 1 {
        assert(p[k] == refs[k]);
        lemma_many_layer_has_prefix(ls, p, k);
    } else {
        assert(last[0] == (ls[k]->0, refs[k].template, refs[k].instance));
        assert(last.contains((ls[k]->0, refs[k].template, refs[k].instance)));
    }
}

/// Under per-instance layers, one for each of its references, a GPU node
/// attributes each kernel whose position has a layer to that layer.
pub proof fn lemma_many_layers_keep_kernels(
    a: NodeArena,
    ts: Seq<Template>,
    scopes: Seq<String>,
    d: int,
    ls: Seq<Option<Seq<char>>>,
    k: int,
)
    requires
        a.wf(),
        0 <= d < a.nodes@.len(),
        a.nodes@[d] is Gpu,
        ls.len() == own_kernel_refs(a, d).len(),
        0 <= k < ls.len(),
        ls[k] is Some,
    ensures
        node_layer_kernels(a, ts, scopes, d, LayerView::Many(ls)).contains(
            (ls[k]->0, own_kernel_refs(a, d)[k].0, own_kernel_refs(a, d)[k].1),
        ),
{
    assert(a.node_ok(d));
    match a.nodes@[d] {
        ArenaNode::Gpu { refs_start, refs_len } => {
            let refs = a.gpu_refs@.subrange(refs_start as int, refs_start + refs_len);
            assert(own_kernel_refs(a, d)[k] == (refs[k].template, refs[k].instance));
            lemma_many_layer_has_prefix(ls, refs, k);
        },
        _ => {},
    }
}

} // verus!
