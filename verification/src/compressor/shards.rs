//! Merging of the per-rank outputs of the compressor into one trace: the
//! template tables are deduplicated by signature into a global table, and
//! every call tree is renumbered into it.

use vstd::prelude::*;

use crate::analysis::layer_gpu::opt_view;
use crate::compressor::interning::{encode_sig, key_sig, key_valid, lemma_key_grown, lemma_key_injective, sig_view, SigView};
use crate::compressor::merge::{
    both_per_instance, cpu_merge_outcome, extend_template, gpu_merge_outcome, key_views, name_nums_mergeable,
    template_signature,
};
use crate::dict::{SeqDict, StringDict};
use crate::event::{lemma_sorted_texts_unique, string_list_view, Template};
use crate::node::{ids_below, rewrite_node, rewrite_tree, tree_ids_below, tree_of, Node};
use crate::text::{bytes_le, utf8};
use crate::Error;

verus! {

/// The category of a template.
pub open spec fn t_cat(t: Template) -> Option<Seq<char>> {
    match t {
        Template::Cpu(m) => opt_view(m.cat),
        Template::Gpu(g) => opt_view(g.cat),
    }
}

/// The binding point of a template (none for a kernel template).
pub open spec fn t_bp(t: Template) -> Option<Seq<char>> {
    match t {
        Template::Cpu(m) => opt_view(m.bp),
        Template::Gpu(_) => None,
    }
}

/// The scope of a template (none for a kernel template).
pub open spec fn t_s(t: Template) -> Option<Seq<char>> {
    match t {
        Template::Cpu(m) => opt_view(m.s),
        Template::Gpu(_) => None,
    }
}

/// The argument keys of a template.
pub open spec fn t_keys(t: Template) -> Seq<Seq<char>> {
    match t {
        Template::Cpu(m) => string_list_view(m.arg_keys@),
        Template::Gpu(g) => string_list_view(g.arg_keys@),
    }
}

/// The signature of a template: its name pattern, category, binding
/// point, scope, and its argument keys as a multiset.  The kind is not
/// part of it.
#[verifier::opaque]
pub open spec fn tsig(t: Template) -> (Seq<char>, Option<Seq<char>>, Option<Seq<char>>, Option<Seq<char>>, vstd::multiset::Multiset<Seq<char>>) {
    (t.pattern_view(), t_cat(t), t_bp(t), t_s(t), t_keys(t).to_multiset())
}

/// Two templates have the same signature.
pub open spec fn same_sig(a: Template, b: Template) -> bool {
    tsig(a) == tsig(b)
}

/// `sv` is the signature of `t`, its keys in ascending byte order.
#[verifier::opaque]
pub open spec fn sig_of(t: Template, sv: SigView) -> bool {
    &&& sv.0 == t.pattern_view()
    &&& sv.1 == t_cat(t)
    &&& sv.2 == t_bp(t)
    &&& sv.3 == t_s(t)
    &&& sv.4.to_multiset() == t_keys(t).to_multiset()
    &&& forall|i: int, j: int| 0 <= i < j < sv.4.len() ==> bytes_le(utf8(sv.4[i]), utf8(sv.4[j]))
}

/// `src` can be merged into `acc`: the same kind, the same keys in the
/// same order, as many argument columns, all of them per instance on both
/// sides, and digit fillers in row form.
#[verifier::opaque]
pub open spec fn mergeable(acc: Template, src: Template) -> bool {
    match (acc, src) {
        (Template::Cpu(o), Template::Cpu(s)) => {
            &&& key_views(o.arg_keys@) == key_views(s.arg_keys@)
            &&& o.args_columns@.len() == s.args_columns@.len()
            &&& forall|i: int| 0 <= i < s.args_columns@.len() ==> both_per_instance(#[trigger] o.args_columns@[i], s.args_columns@[i])
            &&& name_nums_mergeable(o.name_nums, s.name_nums)
        },
        (Template::Gpu(o), Template::Gpu(s)) => {
            &&& key_views(o.arg_keys@) == key_views(s.arg_keys@)
            &&& o.args_columns@.len() == s.args_columns@.len()
            &&& forall|i: int| 0 <= i < s.args_columns@.len() ==> both_per_instance(#[trigger] o.args_columns@[i], s.args_columns@[i])
            &&& name_nums_mergeable(o.name_nums, s.name_nums)
        },
        _ => false,
    }
}

/// What decides whether a template can take others: its kind, keys,
/// number of argument columns, which of them are per instance, and whether
/// its digit fillers are in row form.
#[verifier::opaque]
pub open spec fn same_shape(a: Template, b: Template) -> bool {
    match (a, b) {
        (Template::Cpu(x), Template::Cpu(y)) => {
            &&& key_views(x.arg_keys@) == key_views(y.arg_keys@)
            &&& x.args_columns@.len() == y.args_columns@.len()
            &&& forall|i: int|
                0 <= i < x.args_columns@.len() ==> ((#[trigger] x.args_columns@[i]) is PerInstance <==> y.args_columns@[i] is PerInstance)
            &&& ((x.name_nums is Empty || x.name_nums is Rows) <==> (y.name_nums is Empty || y.name_nums is Rows))
        },
        (Template::Gpu(x), Template::Gpu(y)) => {
            &&& key_views(x.arg_keys@) == key_views(y.arg_keys@)
            &&& x.args_columns@.len() == y.args_columns@.len()
            &&& forall|i: int|
                0 <= i < x.args_columns@.len() ==> ((#[trigger] x.args_columns@[i]) is PerInstance <==> y.args_columns@[i] is PerInstance)
            &&& ((x.name_nums is Empty || x.name_nums is Rows) <==> (y.name_nums is Empty || y.name_nums is Rows))
        },
        _ => false,
    }
}

/// The local templates of all tables, table after table.
pub open spec fn flat(tables: Seq<Vec<Template>>) -> Seq<Template>
    decreases tables.len(),
{
    if tables.len() == 0 {
        Seq::empty()
    } else {
        flat(tables.drop_last()) + tables.last()@
    }
}

/// No earlier template has the signature of template `j`.
pub open spec fn is_first(ls: Seq<Template>, j: int) -> bool {
    forall|k: int| 0 <= k < j ==> !same_sig(#[trigger] ls[k], ls[j])
}

/// Every template that repeats an earlier signature can be merged into the
/// first template with that signature.
pub open spec fn merge_ok(ls: Seq<Template>) -> bool {
    forall|j: int, i: int|
        #![trigger ls[j], ls[i]]
        0 <= j < i < ls.len() && is_first(ls, j) && same_sig(ls[j], ls[i]) ==> mergeable(ls[j], ls[i])
}

/// The instances of all templates, together.
pub open spec fn total_instances(ls: Seq<Template>) -> nat
    decreases ls.len(),
{
    if ls.len() == 0 {
        0
    } else {
        total_instances(ls.drop_last()) + ls.last().ts_view().len()
    }
}

/// The number of argument keys of all templates, together.
pub open spec fn total_keys(ls: Seq<Template>) -> nat
    decreases ls.len(),
{
    if ls.len() == 0 {
        0
    } else {
        total_keys(ls.drop_last()) + t_keys(ls.last()).len()
    }
}

/// The merged table: the templates' signatures are pairwise different;
/// each local template `t` of table `s` went to `globals[remaps[s][t].0]`,
/// of its kind and signature, where its instances start at
/// `remaps[s][t].1`.
pub open spec fn tables_merged(tables: Seq<Vec<Template>>, globals: Seq<Template>, remaps: Seq<Vec<(u32, u32)>>) -> bool {
    &&& forall|a: int, b: int| 0 <= a < b < globals.len() ==> !same_sig(#[trigger] globals[a], #[trigger] globals[b])
    &&& remaps.len() == tables.len()
    &&& forall|s: int| 0 <= s < tables.len() ==> (#[trigger] remaps[s])@.len() == tables[s]@.len()
    &&& forall|s: int, t: int|
        #![trigger remaps[s]@[t]]
        0 <= s < tables.len() && 0 <= t < tables[s]@.len() ==> {
            let (g, off) = remaps[s]@[t];
            let local = tables[s]@[t];
            &&& (g as int) < globals.len()
            &&& same_sig(globals[g as int], local)
            &&& (globals[g as int] is Cpu <==> local is Cpu)
            &&& off + local.ts_view().len() <= globals[g as int].ts_view().len()
            &&& globals[g as int].ts_view().subrange(off as int, off + local.ts_view().len()) == local.ts_view()
        }
}

/// Two templates with the same signature have one signature view.
proof fn lemma_sig_unique(a: Template, b: Template, sa: SigView, sb: SigView)
    requires
        sig_of(a, sa),
        sig_of(b, sb),
    ensures
        same_sig(a, b) <==> sa == sb,
{
    reveal(sig_of);
    reveal(tsig);
    if same_sig(a, b) {
        lemma_sorted_texts_unique(sa.4, sb.4);
    }
}

/// Templates with the same signature have the same signature view.
proof fn lemma_sig_of_same(a: Template, b: Template, sv: SigView)
    requires
        same_sig(a, b),
        sig_of(a, sv),
    ensures
        sig_of(b, sv),
{
    reveal(sig_of);
    reveal(tsig);
}

/// The signature computed for a template is its signature.
proof fn lemma_template_signature(t: Template, sig: crate::event::EventSignature)
    requires
        sig.normalized_name@ == t.pattern_view(),
        match t {
            Template::Cpu(m) => sig.cat == m.cat && sig.bp == m.bp && sig.s == m.s && crate::event::sorted_keys_of(
                sig.arg_keys@,
                string_list_view(m.arg_keys@),
            ),
            Template::Gpu(m) => sig.cat == m.cat && sig.bp is None && sig.s is None && crate::event::sorted_keys_of(
                sig.arg_keys@,
                string_list_view(m.arg_keys@),
            ),
        },
    ensures
        sig_of(t, sig_view(sig)),
{
    reveal(sig_of);
    let sv = sig_view(sig);
    assert forall|i: int, j: int| 0 <= i < j < sv.4.len() implies bytes_le(utf8(sv.4[i]), utf8(sv.4[j])) by {
        assert(sv.4[i] == sig.arg_keys@[i]@);
        assert(sv.4[j] == sig.arg_keys@[j]@);
    }
}

/// Merging keeps a template's shape when the source can be merged in.
proof fn lemma_shape_kept(old: Template, src: Template, new: Template)
    requires
        mergeable(old, src),
        match (old, src) {
            (Template::Cpu(o), Template::Cpu(s)) => new is Cpu && cpu_merge_outcome(o, s, new->Cpu_0, true),
            (Template::Gpu(o), Template::Gpu(s)) => new is Gpu && gpu_merge_outcome(o, s, new->Gpu_0, true),
            _ => false,
        },
    ensures
        same_shape(new, old),
        same_sig(new, old),
        new is Cpu <==> old is Cpu,
        new.ts_view() == old.ts_view() + src.ts_view(),
{
    reveal(mergeable);
    reveal(same_shape);
    reveal(tsig);
    match (old, src) {
        (Template::Cpu(o), Template::Cpu(s)) => {
            let n = new->Cpu_0;
            assert forall|i: int| 0 <= i < n.args_columns@.len() implies ((#[trigger] n.args_columns@[i]) is PerInstance
                <==> o.args_columns@[i] is PerInstance) by {
                assert(both_per_instance(o.args_columns@[i], s.args_columns@[i]));
            }
        },
        (Template::Gpu(o), Template::Gpu(s)) => {
            let n = new->Gpu_0;
            assert forall|i: int| 0 <= i < n.args_columns@.len() implies ((#[trigger] n.args_columns@[i]) is PerInstance
                <==> o.args_columns@[i] is PerInstance) by {
                assert(both_per_instance(o.args_columns@[i], s.args_columns@[i]));
            }
        },
        _ => {},
    }
}

/// Templates of one shape take the same templates.
proof fn lemma_shape_mergeable(a: Template, b: Template, src: Template)
    requires
        same_shape(a, b),
    ensures
        mergeable(a, src) == mergeable(b, src),
{
    reveal(mergeable);
    reveal(same_shape);
    match (a, b, src) {
        (Template::Cpu(x), Template::Cpu(y), Template::Cpu(s)) => {
            if mergeable(a, src) {
                assert forall|i: int| 0 <= i < s.args_columns@.len() implies both_per_instance(
                    #[trigger] y.args_columns@[i],
                    s.args_columns@[i],
                ) by {
                    assert(both_per_instance(x.args_columns@[i], s.args_columns@[i]));
                }
            }
            if mergeable(b, src) {
                assert forall|i: int| 0 <= i < s.args_columns@.len() implies both_per_instance(
                    #[trigger] x.args_columns@[i],
                    s.args_columns@[i],
                ) by {
                    assert(both_per_instance(y.args_columns@[i], s.args_columns@[i]));
                }
            }
        },
        (Template::Gpu(x), Template::Gpu(y), Template::Gpu(s)) => {
            if mergeable(a, src) {
                assert forall|i: int| 0 <= i < s.args_columns@.len() implies both_per_instance(
                    #[trigger] y.args_columns@[i],
                    s.args_columns@[i],
                ) by {
                    assert(both_per_instance(x.args_columns@[i], s.args_columns@[i]));
                }
            }
            if mergeable(b, src) {
                assert forall|i: int| 0 <= i < s.args_columns@.len() implies both_per_instance(
                    #[trigger] x.args_columns@[i],
                    s.args_columns@[i],
                ) by {
                    assert(both_per_instance(y.args_columns@[i], s.args_columns@[i]));
                }
            }
        },
        _ => {},
    }
}

/// The totals of a prefix grow by the next template.
proof fn lemma_totals_take(ls: Seq<Template>, i: int)
    requires
        0 <= i < ls.len(),
    ensures
        total_instances(ls.take(i + 1)) == total_instances(ls.take(i)) + ls[i].ts_view().len(),
        total_keys(ls.take(i + 1)) == total_keys(ls.take(i)) + t_keys(ls[i]).len(),
{
    assert(ls.take(i + 1).drop_last() =~= ls.take(i));
}

/// The totals of a prefix are at most those of the whole.
proof fn lemma_totals_prefix(ls: Seq<Template>, i: int)
    requires
        0 <= i <= ls.len(),
    ensures
        total_instances(ls.take(i)) <= total_instances(ls),
        total_keys(ls.take(i)) <= total_keys(ls),
    decreases ls.len() - i,
{
    if i < ls.len() {
        lemma_totals_take(ls, i);
        lemma_totals_prefix(ls, i + 1);
    } else {
        assert(ls.take(i) =~= ls);
    }
}

/// The flat list of the first `s + 1` tables is that of the first `s`
/// followed by table `s`.
proof fn lemma_flat_take(tables: Seq<Vec<Template>>, s: int)
    requires
        0 <= s < tables.len(),
    ensures
        flat(tables.take(s + 1)) == flat(tables.take(s)) + tables[s]@,
{
    assert(tables.take(s + 1).drop_last() =~= tables.take(s));
}

/// The flat list of a prefix of the tables is a prefix of the flat list.
proof fn lemma_flat_prefix(tables: Seq<Vec<Template>>, s: int)
    requires
        0 <= s <= tables.len(),
    ensures
        flat(tables.take(s)).len() <= flat(tables).len(),
        flat(tables.take(s)) == flat(tables).take(flat(tables.take(s)).len() as int),
    decreases tables.len() - s,
{
    if s < tables.len() {
        lemma_flat_take(tables, s);
        lemma_flat_prefix(tables, s + 1);
        let a = flat(tables.take(s));
        let b = flat(tables.take(s + 1));
        assert(a =~= b.take(a.len() as int));
        assert(a =~= flat(tables).take(b.len() as int).take(a.len() as int));
    } else {
        assert(tables.take(s) =~= tables);
        assert(flat(tables).take(flat(tables).len() as int) =~= flat(tables));
    }
}


/// Template `g` of `gs` has the kind and signature of `local`, and holds
/// its instances from `e.1` on.
pub open spec fn placed(gs: Seq<Template>, e: (u32, u32), local: Template) -> bool {
    let g = e.0 as int;
    let off = e.1 as int;
    &&& g < gs.len()
    &&& same_sig(gs[g], local)
    &&& (gs[g] is Cpu <==> local is Cpu)
    &&& off + local.ts_view().len() <= gs[g].ts_view().len()
    &&& gs[g].ts_view().subrange(off, off + local.ts_view().len()) == local.ts_view()
}

/// `b` keeps the templates of `a`: each with its kind and signature, its
/// instances a prefix of the new ones.
pub open spec fn extends_tables(a: Seq<Template>, b: Seq<Template>) -> bool {
    &&& a.len() <= b.len()
    &&& forall|g: int|
        0 <= g < a.len() ==> {
            &&& same_sig(#[trigger] b[g], a[g])
            &&& (b[g] is Cpu <==> a[g] is Cpu)
            &&& a[g].ts_view().len() <= b[g].ts_view().len()
            &&& b[g].ts_view().subrange(0, a[g].ts_view().len() as int) == a[g].ts_view()
        }
}

/// The global table after the first `i` local templates of `ls`: one
/// template per signature met, each keyed in `idx` by its signature's
/// texts in `strs`, each of the shape of the first local template with its
/// signature; the merges so far could all be made.
#[verifier::opaque]
pub open spec fn table_ok(
    gs: Seq<Template>,
    strs: Seq<Seq<char>>,
    idx: Seq<Seq<u32>>,
    ls: Seq<Template>,
    i: int,
    homes: Seq<int>,
) -> bool {
    &&& 0 <= i <= ls.len()
    &&& idx.len() == gs.len()
    &&& gs.len() <= i
    &&& forall|g: int|
        0 <= g < gs.len() ==> key_valid(strs, #[trigger] idx[g]) && idx[g][0] == 0 && sig_of(gs[g], key_sig(strs, idx[g]))
    &&& forall|a: int, b: int| 0 <= a < b < gs.len() ==> !same_sig(#[trigger] gs[a], #[trigger] gs[b])
    &&& forall|g: int|
        #![trigger gs[g]]
        0 <= g < gs.len() ==> exists|j: int|
            0 <= j < i && is_first(ls, j) && same_sig(#[trigger] ls[j], gs[g]) && same_shape(gs[g], ls[j])
    &&& homes.len() == i
    &&& forall|k: int| 0 <= k < i ==> 0 <= #[trigger] homes[k] < gs.len() && same_sig(gs[homes[k]], ls[k])
    &&& forall|j: int, k: int|
        #![trigger ls[j], ls[k]]
        0 <= j < k < i && is_first(ls, j) && same_sig(ls[j], ls[k]) ==> mergeable(ls[j], ls[k])
    &&& forall|g: int| 0 <= g < gs.len() ==> (#[trigger] gs[g]).ts_view().len() <= total_instances(ls.take(i))
    &&& strs.len() <= 4 * i + total_keys(ls.take(i))
}

/// Shapes compare as an equivalence.
proof fn lemma_shape_trans(a: Template, b: Template, c: Template)
    requires
        same_shape(a, b),
        same_shape(b, c),
    ensures
        same_shape(a, c),
{
    reveal(same_shape);
    match (a, b, c) {
        (Template::Cpu(x), Template::Cpu(y), Template::Cpu(z)) => {
            assert forall|i: int| 0 <= i < x.args_columns@.len() implies ((#[trigger] x.args_columns@[i]) is PerInstance
                <==> z.args_columns@[i] is PerInstance) by {
                assert(x.args_columns@[i] is PerInstance <==> y.args_columns@[i] is PerInstance);
            }
        },
        (Template::Gpu(x), Template::Gpu(y), Template::Gpu(z)) => {
            assert forall|i: int| 0 <= i < x.args_columns@.len() implies ((#[trigger] x.args_columns@[i]) is PerInstance
                <==> z.args_columns@[i] is PerInstance) by {
                assert(x.args_columns@[i] is PerInstance <==> y.args_columns@[i] is PerInstance);
            }
        },
        _ => {},
    }
}

/// Every template has its own shape.
proof fn lemma_shape_refl(a: Template)
    ensures
        same_shape(a, a),
{
    reveal(same_shape);
}

/// A placed template stays placed in a table that keeps the templates.
proof fn lemma_placed_kept(a: Seq<Template>, b: Seq<Template>, e: (u32, u32), local: Template)
    requires
        placed(a, e, local),
        extends_tables(a, b),
    ensures
        placed(b, e, local),
{
    let g = e.0 as int;
    let off = e.1 as int;
    let n = local.ts_view().len() as int;
    let old_ts = a[g].ts_view();
    let new_ts = b[g].ts_view();
    assert(new_ts.subrange(0, old_ts.len() as int) == old_ts);
    assert(new_ts.subrange(off, off + n) =~= old_ts.subrange(off, off + n)) by {
        assert forall|q: int| 0 <= q < n implies #[trigger] new_ts.subrange(off, off + n)[q] == old_ts.subrange(off, off + n)[q] by {
            assert(new_ts.subrange(0, old_ts.len() as int)[off + q] == new_ts[off + q]);
        }
    }
}

/// The table stays in order when the `i`-th local template is merged
/// into template `gid`, the one of its signature.
#[verifier::spinoff_prover]
proof fn lemma_absorb_merged(
    g0: Seq<Template>,
    gs: Seq<Template>,
    s0: Seq<Seq<char>>,
    s1: Seq<Seq<char>>,
    x0: Seq<Seq<u32>>,
    ls: Seq<Template>,
    i: int,
    gid: int,
    j0: int,
    homes: Seq<int>,
)
    requires
        table_ok(g0, s0, x0, ls, i, homes),
        forall|g: int| 0 <= g < g0.len() ==> key_valid(s1, #[trigger] x0[g]) && key_sig(s1, x0[g]) == key_sig(s0, x0[g]),
        s1.len() <= s0.len() + 4 + t_keys(ls[i]).len(),
        0 <= i < ls.len(),
        0 <= gid < g0.len(),
        0 <= j0 < i,
        is_first(ls, j0),
        same_sig(ls[j0], g0[gid]),
        same_shape(g0[gid], ls[j0]),
        same_sig(g0[gid], ls[i]),
        mergeable(g0[gid], ls[i]),
        match (g0[gid], ls[i]) {
            (Template::Cpu(o), Template::Cpu(s)) => gs[gid] is Cpu && cpu_merge_outcome(o, s, gs[gid]->Cpu_0, true),
            (Template::Gpu(o), Template::Gpu(s)) => gs[gid] is Gpu && gpu_merge_outcome(o, s, gs[gid]->Gpu_0, true),
            _ => false,
        },
        gs == g0.update(gid, gs[gid]),
        ls.len() <= u32::MAX,
        total_instances(ls.take(i + 1)) <= u32::MAX,
        total_instances(ls.take(i + 1)) == total_instances(ls.take(i)) + ls[i].ts_view().len(),
        total_keys(ls.take(i + 1)) == total_keys(ls.take(i)) + t_keys(ls[i]).len(),
    ensures
        table_ok(gs, s1, x0, ls, i + 1, homes.push(gid)),
        extends_tables(g0, gs),
        placed(gs, (gid as u32, g0[gid].ts_view().len() as u32), ls[i]),
{
    reveal(table_ok);
    let newg = gs[gid];
    let tmp = ls[i];
    lemma_shape_kept(g0[gid], tmp, newg);
    lemma_shape_trans(newg, g0[gid], ls[j0]);
    assert forall|j: int| 0 <= j < i && is_first(ls, j) && same_sig(#[trigger] ls[j], ls[i]) implies j == j0 by {
        if j < j0 {
            assert(!same_sig(ls[j], ls[j0]));
        } else if j0 < j {
            assert(!same_sig(ls[j0], ls[j]));
        }
    }
    lemma_shape_mergeable(g0[gid], ls[j0], tmp);
    assert forall|a: int, b: int| 0 <= a < b < gs.len() implies !same_sig(#[trigger] gs[a], #[trigger] gs[b]) by {
        assert(!same_sig(g0[a], g0[b]));
    }
    assert forall|g: int|
        #![trigger gs[g]]
        0 <= g < gs.len() implies exists|j: int|
        0 <= j < i + 1 && is_first(ls, j) && same_sig(#[trigger] ls[j], gs[g]) && same_shape(gs[g], ls[j]) by {
        if g == gid {
            assert(0 <= j0 < i + 1 && is_first(ls, j0) && same_sig(ls[j0], gs[g]) && same_shape(gs[g], ls[j0]));
        } else {
            let j = choose|j: int| 0 <= j < i && is_first(ls, j) && same_sig(#[trigger] ls[j], g0[g]) && same_shape(g0[g], ls[j]);
            assert(0 <= j < i + 1 && is_first(ls, j) && same_sig(ls[j], gs[g]) && same_shape(gs[g], ls[j]));
        }
    }
    let h1 = homes.push(gid);
    assert forall|k: int| 0 <= k < i + 1 implies 0 <= #[trigger] h1[k] < gs.len() && same_sig(gs[h1[k]], ls[k]) by {
        if k < i {
            assert(h1[k] == homes[k]);
            assert(same_sig(g0[homes[k]], ls[k]));
        }
    }
    assert forall|j: int, k: int|
        #![trigger ls[j], ls[k]]
        0 <= j < k < i + 1 && is_first(ls, j) && same_sig(ls[j], ls[k]) implies mergeable(ls[j], ls[k]) by {
        if k == i {
            assert(j == j0);
        }
    }
    assert forall|g: int| 0 <= g < gs.len() implies (#[trigger] gs[g]).ts_view().len() <= total_instances(ls.take(i + 1)) by {
        if g != gid {
            assert(gs[g] == g0[g]);
        }
    }
    assert forall|g: int| 0 <= g < gs.len() implies key_valid(s1, #[trigger] x0[g]) && x0[g][0] == 0 && sig_of(gs[g], key_sig(s1, x0[g])) by {
        if g != gid {
            assert(gs[g] == g0[g]);
        } else {
            lemma_sig_of_same(g0[g], gs[g], key_sig(s0, x0[g]));
        }
    }
    assert forall|g: int| 0 <= g < g0.len() implies {
        &&& same_sig(#[trigger] gs[g], g0[g])
        &&& (gs[g] is Cpu <==> g0[g] is Cpu)
        &&& g0[g].ts_view().len() <= gs[g].ts_view().len()
        &&& gs[g].ts_view().subrange(0, g0[g].ts_view().len() as int) == g0[g].ts_view()
    } by {
        if g == gid {
            assert(gs[g].ts_view().subrange(0, g0[g].ts_view().len() as int) =~= g0[g].ts_view());
        } else {
            assert(gs[g] == g0[g]);
            assert(gs[g].ts_view().subrange(0, g0[g].ts_view().len() as int) =~= g0[g].ts_view());
        }
    }
    let off = g0[gid].ts_view().len() as int;
    assert(newg.ts_view().subrange(off, off + tmp.ts_view().len()) =~= tmp.ts_view());
}

/// The table stays in order when the `i`-th local template, whose
/// signature no template has, is added as a new template.
#[verifier::spinoff_prover]
proof fn lemma_absorb_new(
    g0: Seq<Template>,
    gs: Seq<Template>,
    s0: Seq<Seq<char>>,
    s1: Seq<Seq<char>>,
    x0: Seq<Seq<u32>>,
    key: Seq<u32>,
    ls: Seq<Template>,
    i: int,
    homes: Seq<int>,
)
    requires
        table_ok(g0, s0, x0, ls, i, homes),
        forall|g: int| 0 <= g < g0.len() ==> key_valid(s1, #[trigger] x0[g]) && key_sig(s1, x0[g]) == key_sig(s0, x0[g]),
        s1.len() <= s0.len() + 4 + t_keys(ls[i]).len(),
        0 <= i < ls.len(),
        forall|g: int| 0 <= g < g0.len() ==> !same_sig(#[trigger] g0[g], ls[i]),
        key_valid(s1, key),
        key[0] == 0,
        sig_of(ls[i], key_sig(s1, key)),
        gs == g0.push(ls[i]),
        ls.len() <= u32::MAX,
        total_instances(ls.take(i + 1)) == total_instances(ls.take(i)) + ls[i].ts_view().len(),
        total_keys(ls.take(i + 1)) == total_keys(ls.take(i)) + t_keys(ls[i]).len(),
    ensures
        is_first(ls, i),
        table_ok(gs, s1, x0.push(key), ls, i + 1, homes.push(g0.len() as int)),
        extends_tables(g0, gs),
        placed(gs, (g0.len() as u32, 0u32), ls[i]),
{
    reveal(table_ok);
    let tv = ls[i];
    let nid = g0.len() as int;
    let x1 = x0.push(key);
    assert forall|k: int| 0 <= k < i implies !same_sig(#[trigger] ls[k], ls[i]) by {
        let g = homes[k];
        assert(0 <= g < g0.len() && same_sig(g0[g], ls[k]));
        if same_sig(ls[k], ls[i]) {
            assert(same_sig(g0[g], tv));
        }
    }
    lemma_shape_refl(tv);
    assert forall|a: int, b: int| 0 <= a < b < gs.len() implies !same_sig(#[trigger] gs[a], #[trigger] gs[b]) by {
        if b == nid {
            assert(!same_sig(g0[a], tv));
        } else {
            assert(!same_sig(g0[a], g0[b]));
        }
    }
    assert forall|g: int|
        #![trigger gs[g]]
        0 <= g < gs.len() implies exists|j: int|
        0 <= j < i + 1 && is_first(ls, j) && same_sig(#[trigger] ls[j], gs[g]) && same_shape(gs[g], ls[j]) by {
        if g == nid {
            assert(0 <= i < i + 1 && is_first(ls, i) && same_sig(ls[i], gs[g]) && same_shape(gs[g], ls[i]));
        } else {
            let j = choose|j: int| 0 <= j < i && is_first(ls, j) && same_sig(#[trigger] ls[j], g0[g]) && same_shape(g0[g], ls[j]);
            assert(0 <= j < i + 1 && is_first(ls, j) && same_sig(ls[j], gs[g]) && same_shape(gs[g], ls[j]));
        }
    }
    let h1 = homes.push(nid);
    assert forall|k: int| 0 <= k < i + 1 implies 0 <= #[trigger] h1[k] < gs.len() && same_sig(gs[h1[k]], ls[k]) by {
        if k < i {
            assert(h1[k] == homes[k]);
            assert(same_sig(g0[homes[k]], ls[k]));
        }
    }
    assert forall|j: int, k: int|
        #![trigger ls[j], ls[k]]
        0 <= j < k < i + 1 && is_first(ls, j) && same_sig(ls[j], ls[k]) implies mergeable(ls[j], ls[k]) by {
        if k == i {
            assert(!same_sig(ls[j], ls[i]));
        }
    }
    assert forall|g: int| 0 <= g < gs.len() implies (#[trigger] gs[g]).ts_view().len() <= total_instances(ls.take(i + 1)) by {
        if g != nid {
            assert(gs[g] == g0[g]);
        }
    }
    assert forall|g: int| 0 <= g < gs.len() implies key_valid(s1, #[trigger] x1[g]) && x1[g][0] == 0 && sig_of(gs[g], key_sig(s1, x1[g])) by {
        if g != nid {
            assert(gs[g] == g0[g]);
            assert(x1[g] == x0[g]);
        }
    }
    assert forall|g: int| 0 <= g < g0.len() implies {
        &&& same_sig(#[trigger] gs[g], g0[g])
        &&& (gs[g] is Cpu <==> g0[g] is Cpu)
        &&& g0[g].ts_view().len() <= gs[g].ts_view().len()
        &&& gs[g].ts_view().subrange(0, g0[g].ts_view().len() as int) == g0[g].ts_view()
    } by {
        assert(gs[g] == g0[g]);
        assert(gs[g].ts_view().subrange(0, g0[g].ts_view().len() as int) =~= g0[g].ts_view());
    }
    assert(gs[nid].ts_view().subrange(0, tv.ts_view().len() as int) =~= tv.ts_view());
}

/// Merges local template `tmp`, the `i`-th of `ls`, into the table: into
/// the template of its signature when there is one, else as a new
/// template.  Fails iff it repeats a signature and cannot be merged into
/// the first template with it.
#[verifier::spinoff_prover]
fn absorb(
    globals: &mut Vec<Template>,
    strings: &mut StringDict,
    index: &mut SeqDict,
    tmp: Template,
    Ghost(ls): Ghost<Seq<Template>>,
    Ghost(i): Ghost<int>,
    Ghost(homes): Ghost<Seq<int>>,
) -> (r: Result<(u32, u32), Error>)
    requires
        old(strings).wf(),
        old(index).wf(),
        table_ok(old(globals)@, old(strings)@, old(index)@, ls, i, homes),
        0 <= i < ls.len(),
        ls[i] == tmp,
        4 * ls.len() + total_keys(ls) + 4 <= u32::MAX,
        total_instances(ls) <= u32::MAX,
    ensures
        r is Ok <==> (forall|j: int| 0 <= j < i && is_first(ls, j) && same_sig(#[trigger] ls[j], ls[i]) ==> mergeable(ls[j], ls[i])),
        r matches Ok(e) ==> {
            &&& final(strings).wf()
            &&& final(index).wf()
            &&& table_ok(final(globals)@, final(strings)@, final(index)@, ls, i + 1, homes.push(e.0 as int))
            &&& extends_tables(old(globals)@, final(globals)@)
            &&& placed(final(globals)@, e, tmp)
        },
{
    let ghost g0 = globals@;
    let ghost s0 = strings@;
    let ghost x0 = index@;
    proof {
        lemma_totals_take(ls, i);
        lemma_totals_prefix(ls, i + 1);
        lemma_totals_prefix(ls, i);
        assert(x0.len() == g0.len() && g0.len() <= i && s0.len() <= 4 * i + total_keys(ls.take(i)) && (forall|g: int|
            0 <= g < g0.len() ==> key_valid(s0, #[trigger] x0[g]) && x0[g][0] == 0 && sig_of(g0[g], key_sig(s0, x0[g])))
            && (forall|g: int| 0 <= g < g0.len() ==> (#[trigger] g0[g]).ts_view().len() <= total_instances(ls.take(i)))) by {
            reveal(table_ok);
        }
    }
    let sig = template_signature(&tmp);
    proof {
        lemma_template_signature(tmp, sig);
        assert(t_keys(tmp).len() == sig.arg_keys@.len()) by {
            vstd::seq_lib::to_multiset_len(t_keys(tmp));
            vstd::seq_lib::to_multiset_len(string_list_view(sig.arg_keys@));
        }
    }
    let key = encode_sig(strings, 0, &sig);
    let ghost s1 = strings@;
    proof {
        assert forall|g: int| 0 <= g < g0.len() implies key_valid(s1, #[trigger] x0[g]) && key_sig(s1, x0[g]) == key_sig(s0, x0[g]) by {
            lemma_key_grown(s0, s1, x0[g]);
        }
        strings.lemma_distinct();
    }
    let n0 = index.len();
    let id = index.intern(&key);
    if (id as usize) < n0 {
        let ghost gid = id as int;
        proof {
            assert(x0.contains(key@));
            assert(x0[gid] == key@);
            lemma_sig_unique(g0[gid], tmp, key_sig(s1, x0[gid]), sig_view(sig));
            assert(exists|j: int| 0 <= j < i && is_first(ls, j) && same_sig(#[trigger] ls[j], g0[gid]) && same_shape(g0[gid], ls[j])) by {
                reveal(table_ok);
            }
        }
        let ghost j0 = choose|j: int| 0 <= j < i && is_first(ls, j) && same_sig(#[trigger] ls[j], g0[gid]) && same_shape(g0[gid], ls[j]);
        proof {
            assert(0 <= j0 < i && is_first(ls, j0) && same_sig(ls[j0], g0[gid]) && same_shape(g0[gid], ls[j0]));
            lemma_shape_mergeable(g0[gid], ls[j0], tmp);
        }
        let off = globals[id as usize].instance_count() as u32;
        let r = extend_template(&mut globals[id as usize], tmp);
        match r {
            Err(e) => {
                proof {
                    assert(!mergeable(g0[gid], tmp)) by {
                        reveal(mergeable);
                    }
                    assert(!mergeable(ls[j0], ls[i]));
                }
                return Err(e);
            },
            Ok(()) => {},
        }
        proof {
            assert(mergeable(g0[gid], tmp)) by {
                reveal(mergeable);
            }
            lemma_absorb_merged(g0, globals@, s0, s1, x0, ls, i, gid, j0, homes);
            assert forall|j: int| 0 <= j < i && is_first(ls, j) && same_sig(#[trigger] ls[j], ls[i]) implies mergeable(ls[j], ls[i]) by {
                reveal(table_ok);
                assert(mergeable(ls[j], ls[i]));
            }
        }
        Ok((id, off))
    } else {
        proof {
            index.lemma_distinct();
            assert(!x0.contains(key@));
            assert forall|g: int| 0 <= g < g0.len() implies !same_sig(#[trigger] g0[g], tmp) by {
                if same_sig(g0[g], tmp) {
                    lemma_sig_unique(g0[g], tmp, key_sig(s1, x0[g]), sig_view(sig));
                    lemma_key_injective(s1, x0[g], key@);
                    assert(x0[g] == key@);
                    assert(x0.contains(key@));
                }
            }
        }
        globals.push(tmp);
        proof {
            lemma_absorb_new(g0, globals@, s0, s1, x0, key@, ls, i, homes);
        }
        Ok((id, 0))
    }
}


/// Merges the template tables of the ranks, in order, into one table with
/// one template per signature: a template whose signature is new is added,
/// one whose signature is known has its instances appended to the
/// template with that signature.  Returns that table and, for each table,
/// where each of its templates went: `(global id, first instance)`.  Fails
/// iff some template cannot be merged into the first template with its
/// signature.
pub fn merge_template_tables(tables: Vec<Vec<Template>>) -> (r: Result<(Vec<Template>, Vec<Vec<(u32, u32)>>), Error>)
    requires
        4 * flat(tables@).len() + total_keys(flat(tables@)) + 4 <= u32::MAX,
        total_instances(flat(tables@)) <= u32::MAX,
    ensures
        r is Ok <==> merge_ok(flat(tables@)),
        r matches Ok(m) ==> tables_merged(tables@, m.0@, m.1@),
{
    let ghost orig = tables@;
    let ghost ls = flat(orig);
    let mut work = tables;
    let mut globals: Vec<Template> = Vec::new();
    let mut strings = StringDict::new();
    let mut index = SeqDict::new();
    let mut remaps: Vec<Vec<(u32, u32)>> = Vec::new();
    let ghost mut homes: Seq<int> = Seq::empty();
    proof {
        assert(orig.take(0) =~= Seq::<Vec<Template>>::empty());
        assert(ls.take(0) =~= Seq::<Template>::empty());
        assert(table_ok(globals@, strings@, index@, ls, 0, homes)) by {
            reveal(table_ok);
        }
    }
    let mut s: usize = 0;
    while s < work.len()
        invariant
            orig == tables@,
            work@.len() == orig.len(),
            ls == flat(orig),
            forall|q: int| s <= q < orig.len() ==> #[trigger] work@[q] == orig[q],
            s <= orig.len(),
            strings.wf(),
            index.wf(),
            table_ok(globals@, strings@, index@, ls, flat(orig.take(s as int)).len() as int, homes),
            flat(orig.take(s as int)).len() <= ls.len(),
            flat(orig.take(s as int)) == ls.take(flat(orig.take(s as int)).len() as int),
            4 * ls.len() + total_keys(ls) + 4 <= u32::MAX,
            total_instances(ls) <= u32::MAX,
            remaps@.len() == s,
            forall|q: int| 0 <= q < s ==> (#[trigger] remaps@[q])@.len() == orig[q]@.len(),
            forall|q: int, t: int|
                #![trigger remaps@[q]@[t]]
                0 <= q < s && 0 <= t < orig[q]@.len() ==> placed(globals@, remaps@[q]@[t], orig[q]@[t]),
        decreases orig.len() - s,
    {
        let ghost base = flat(orig.take(s as int)).len() as int;
        proof {
            lemma_flat_take(orig, s as int);
            lemma_flat_prefix(orig, s + 1);
        }
        let mut cur: Vec<Template> = Vec::new();
        std::mem::swap(&mut cur, &mut work[s]);
        let ghost os = orig[s as int]@;
        let n = cur.len();
        let mut rev: Vec<Template> = Vec::new();
        while cur.len() > 0
            invariant
                os.len() == n,
                cur@ == os.take(cur@.len() as int),
                cur@.len() + rev@.len() == n,
                forall|q: int| 0 <= q < rev@.len() ==> #[trigger] rev@[q] == os[n - 1 - q],
            decreases cur@.len(),
        {
            let x = cur.pop();
            match x {
                Some(v) => {
                    rev.push(v);
                    proof {
                        assert(cur@ =~= os.take(cur@.len() as int));
                    }
                },
                None => {},
            }
        }
        let mut remap: Vec<(u32, u32)> = Vec::new();
        let mut t: usize = 0;
        while t < n
            invariant
                orig == tables@,
                os.len() == n,
                t <= n,
                rev@.len() == n - t,
                forall|q: int| 0 <= q < rev@.len() ==> #[trigger] rev@[q] == os[n - 1 - q],
                os == orig[s as int]@,
                s < orig.len(),
                ls == flat(orig),
                flat(orig.take(s + 1)) == flat(orig.take(s as int)) + os,
                flat(orig.take(s + 1)).len() <= ls.len(),
                flat(orig.take(s + 1)) == ls.take(flat(orig.take(s + 1)).len() as int),
                base == flat(orig.take(s as int)).len(),
                strings.wf(),
                index.wf(),
                table_ok(globals@, strings@, index@, ls, base + t, homes),
                4 * ls.len() + total_keys(ls) + 4 <= u32::MAX,
                total_instances(ls) <= u32::MAX,
                remaps@.len() == s,
                forall|q: int| 0 <= q < s ==> (#[trigger] remaps@[q])@.len() == orig[q]@.len(),
                forall|q: int, u: int|
                    #![trigger remaps@[q]@[u]]
                    0 <= q < s && 0 <= u < orig[q]@.len() ==> placed(globals@, remaps@[q]@[u], orig[q]@[u]),
                remap@.len() == t,
                forall|u: int| 0 <= u < t ==> placed(globals@, #[trigger] remap@[u], os[u]),
            decreases n - t,
        {
            let tmp = match rev.pop() {
                Some(v) => v,
                None => {
                    proof {
                        assert(false);
                    }
                    return Err(Error::Other(String::new()));
                },
            };
            let ghost i = base + t;
            let ghost g0 = globals@;
            proof {
                assert(tmp == os[t as int]);
                assert(ls[i] == flat(orig.take(s + 1))[i]);
                assert(ls[i] == tmp);
            }
            let r = absorb(&mut globals, &mut strings, &mut index, tmp, Ghost(ls), Ghost(i), Ghost(homes));
            match r {
                Err(e) => {
                    proof {
                        let j = choose|j: int| 0 <= j < i && is_first(ls, j) && same_sig(#[trigger] ls[j], ls[i]) && !mergeable(ls[j], ls[i]);
                        assert(0 <= j < i < ls.len() && is_first(ls, j) && same_sig(ls[j], ls[i]) && !mergeable(ls[j], ls[i]));
                        assert(!merge_ok(ls)) by {
                            if merge_ok(ls) {
                                assert(mergeable(ls[j], ls[i]));
                            }
                        }
                    }
                    return Err(e);
                },
                Ok(e) => {
                    proof {
                        homes = homes.push(e.0 as int);
                        assert forall|q: int, u: int|
                            #![trigger remaps@[q]@[u]]
                            0 <= q < s && 0 <= u < orig[q]@.len() implies placed(globals@, remaps@[q]@[u], orig[q]@[u]) by {
                            lemma_placed_kept(g0, globals@, remaps@[q]@[u], orig[q]@[u]);
                        }
                        assert forall|u: int| 0 <= u < t implies placed(globals@, #[trigger] remap@[u], os[u]) by {
                            lemma_placed_kept(g0, globals@, remap@[u], os[u]);
                        }
                    }
                    remap.push(e);
                },
            }
            t += 1;
        }
        remaps.push(remap);
        s += 1;
        proof {
            assert(os.len() == orig[s - 1]@.len());
        }
    }
    proof {
        assert(orig.take(orig.len() as int) =~= orig);
        let n = ls.len() as int;
        assert(ls.take(n) =~= ls);
        reveal(table_ok);
    }
    Ok((globals, remaps))
}


/// The call tree of one `(pid, tid, phase)` of a rank.
#[derive(Debug)]
pub struct ThreadRoot {
    pub pid: i64,
    pub tid: String,
    pub ph: u8,
    pub node: Node,
}

/// One rank's compressor output before the global merge: its templates,
/// whose ids its trees use, and its trees.
#[derive(Debug)]
pub struct RankShard {
    pub rank: String,
    pub templates: Vec<Template>,
    pub roots: Vec<ThreadRoot>,
    pub start_timestamp: Option<i64>,
}

/// One rank of the merged trace: its trees, renumbered into the global
/// templates.
#[derive(Debug)]
pub struct RankTrees {
    pub rank: String,
    pub roots: Vec<ThreadRoot>,
    pub start_timestamp: Option<i64>,
}

/// The merged trace: the global templates (not yet compacted), every
/// rank's trees, and for each rank where each of its templates went:
/// `(global id, first instance)`.
#[derive(Debug)]
pub struct MergedTrace {
    pub templates: Vec<Template>,
    pub ranks: Vec<RankTrees>,
    pub remaps: Vec<Vec<(u32, u32)>>,
}

/// The template tables of the shards.
pub open spec fn shard_tables(shards: Seq<RankShard>) -> Seq<Vec<Template>> {
    shards.map_values(|r: RankShard| r.templates)
}

/// Every tree of every shard names only templates of its shard.
pub open spec fn shard_trees_ok(shards: Seq<RankShard>) -> bool {
    forall|s: int, k: int|
        #![trigger shards[s].roots@[k]]
        0 <= s < shards.len() && 0 <= k < shards[s].roots@.len() ==> ids_below(
            tree_of(shards[s].roots@[k].node),
            shards[s].templates@.len(),
        )
}

/// Rank `s` of the merged trace is shard `s` with its trees renumbered by
/// `remaps[s]`: same rank, start and `(pid, tid, phase)` of each tree.
pub open spec fn ranks_rewritten(shards: Seq<RankShard>, ranks: Seq<RankTrees>, remaps: Seq<Vec<(u32, u32)>>) -> bool {
    &&& ranks.len() == shards.len()
    &&& forall|s: int|
        0 <= s < shards.len() ==> {
            let a = #[trigger] shards[s];
            let b = ranks[s];
            &&& b.rank@ == a.rank@
            &&& b.start_timestamp == a.start_timestamp
            &&& b.roots@.len() == a.roots@.len()
            &&& forall|k: int|
                0 <= k < a.roots@.len() ==> {
                    let x = #[trigger] a.roots@[k];
                    let y = b.roots@[k];
                    &&& y.pid == x.pid
                    &&& y.tid@ == x.tid@
                    &&& y.ph == x.ph
                    &&& tree_of(y.node) == rewrite_tree(tree_of(x.node), remaps[s]@)
                }
        }
}

/// Merges the outputs of the ranks into one trace: the template tables
/// are merged by signature (see [`merge_template_tables`]) and every tree
/// is renumbered into the global table.  Fails iff some template cannot be
/// merged into the first template with its signature.  The templates come
/// out not yet compacted.
pub fn merge_shards(shards: Vec<RankShard>) -> (r: Result<MergedTrace, Error>)
    requires
        4 * flat(shard_tables(shards@)).len() + total_keys(flat(shard_tables(shards@))) + 4 <= u32::MAX,
        total_instances(flat(shard_tables(shards@))) <= u32::MAX,
        shard_trees_ok(shards@),
    ensures
        r is Ok <==> merge_ok(flat(shard_tables(shards@))),
        r matches Ok(m) ==> tables_merged(shard_tables(shards@), m.templates@, m.remaps@) && ranks_rewritten(
            shards@,
            m.ranks@,
            m.remaps@,
        ),
{
    let ghost orig = shards@;
    let mut work = shards;
    let mut tables: Vec<Vec<Template>> = Vec::new();
    let mut s: usize = 0;
    while s < work.len()
        invariant
            orig == shards@,
            work@.len() == orig.len(),
            s <= orig.len(),
            tables@.len() == s,
            forall|q: int| 0 <= q < s ==> #[trigger] tables@[q] == orig[q].templates,
            forall|q: int|
                0 <= q < orig.len() ==> (#[trigger] work@[q]).rank == orig[q].rank && work@[q].roots == orig[q].roots
                    && work@[q].start_timestamp == orig[q].start_timestamp,
            forall|q: int| s <= q < orig.len() ==> (#[trigger] work@[q]).templates == orig[q].templates,
        decreases orig.len() - s,
    {
        let mut t: Vec<Template> = Vec::new();
        let mut shard = RankShard { rank: String::new(), templates: Vec::new(), roots: Vec::new(), start_timestamp: None };
        std::mem::swap(&mut shard, &mut work[s]);
        std::mem::swap(&mut t, &mut shard.templates);
        std::mem::swap(&mut shard, &mut work[s]);
        tables.push(t);
        s += 1;
    }
    proof {
        assert(tables@ =~= shard_tables(orig));
    }
    let merged = merge_template_tables(tables);
    let (globals, remaps) = match merged {
        Err(e) => {
            return Err(e);
        },
        Ok(m) => m,
    };
    let ghost rm = remaps@;
    let mut ranks: Vec<RankTrees> = Vec::new();
    let mut s: usize = 0;
    while s < work.len()
        invariant
            orig == shards@,
            work@.len() == orig.len(),
            s <= orig.len(),
            rm == remaps@,
            tables_merged(shard_tables(orig), globals@, rm),
            shard_trees_ok(orig),
            forall|q: int|
                0 <= q < orig.len() ==> (#[trigger] work@[q]).rank == orig[q].rank && work@[q].roots == orig[q].roots
                    && work@[q].start_timestamp == orig[q].start_timestamp,
            ranks@.len() == s,
            ranks_rewritten(orig.take(s as int), ranks@, rm),
        decreases orig.len() - s,
    {
        let sh = &work[s];
        proof {
            assert(shard_tables(orig)[s as int] == orig[s as int].templates);
            assert(remaps@[s as int]@.len() == orig[s as int].templates@.len());
        }
        let mut roots: Vec<ThreadRoot> = Vec::new();
        let mut k: usize = 0;
        while k < sh.roots.len()
            invariant
                s < orig.len(),
                remaps@.len() == orig.len(),
                *sh == work@[s as int],
                sh.roots == orig[s as int].roots,
                rm == remaps@,
                remaps@[s as int]@.len() == orig[s as int].templates@.len(),
                shard_trees_ok(orig),
                k <= sh.roots@.len(),
                roots@.len() == k,
                forall|q: int|
                    0 <= q < k ==> {
                        let x = #[trigger] sh.roots@[q];
                        let y = roots@[q];
                        &&& y.pid == x.pid
                        &&& y.tid@ == x.tid@
                        &&& y.ph == x.ph
                        &&& tree_of(y.node) == rewrite_tree(tree_of(x.node), rm[s as int]@)
                    },
            decreases sh.roots@.len() - k,
        {
            let x = &sh.roots[k];
            proof {
                assert(orig[s as int].roots@[k as int] == *x);
                assert(ids_below(tree_of(x.node), orig[s as int].templates@.len()));
            }
            let node = rewrite_node(&x.node, &remaps[s]);
            roots.push(ThreadRoot { pid: x.pid, tid: x.tid.clone(), ph: x.ph, node });
            k += 1;
        }
        let ghost r0 = ranks@;
        ranks.push(RankTrees { rank: sh.rank.clone(), roots, start_timestamp: sh.start_timestamp });
        proof {
            assert forall|q: int| 0 <= q < s + 1 implies {
                let a = #[trigger] orig.take(s + 1)[q];
                let b = ranks@[q];
                &&& b.rank@ == a.rank@
                &&& b.start_timestamp == a.start_timestamp
                &&& b.roots@.len() == a.roots@.len()
                &&& forall|k: int|
                    0 <= k < a.roots@.len() ==> {
                        let x = #[trigger] a.roots@[k];
                        let y = b.roots@[k];
                        &&& y.pid == x.pid
                        &&& y.tid@ == x.tid@
                        &&& y.ph == x.ph
                        &&& tree_of(y.node) == rewrite_tree(tree_of(x.node), rm[q]@)
                    }
            } by {
                if q < s {
                    assert(orig.take(s + 1)[q] == orig.take(s as int)[q]);
                    assert(ranks@[q] == r0[q]);
                }
            }
        }
        s += 1;
    }
    proof {
        assert(orig.take(orig.len() as int) =~= orig);
        assert(tables_merged(shard_tables(shards@), globals@, rm) && ranks_rewritten(shards@, ranks@, rm));
    }
    Ok(MergedTrace { templates: globals, ranks, remaps })
}


/// Whether every tree of every shard names only templates of its shard
/// (see [`shard_trees_ok`]).
pub fn shard_trees_check(shards: &Vec<RankShard>) -> (b: bool)
    ensures
        b == shard_trees_ok(shards@),
{
    let mut s: usize = 0;
    while s < shards.len()
        invariant
            s <= shards@.len(),
            forall|q: int, k: int|
                #![trigger shards@[q].roots@[k]]
                0 <= q < s && 0 <= k < shards@[q].roots@.len() ==> ids_below(
                    tree_of(shards@[q].roots@[k].node),
                    shards@[q].templates@.len(),
                ),
        decreases shards@.len() - s,
    {
        let sh = &shards[s];
        let n = sh.templates.len();
        let mut k: usize = 0;
        while k < sh.roots.len()
            invariant
                s < shards@.len(),
                *sh == shards@[s as int],
                n == sh.templates@.len(),
                k <= sh.roots@.len(),
                forall|j: int|
                    0 <= j < k ==> ids_below(tree_of(#[trigger] sh.roots@[j].node), sh.templates@.len()),
            decreases sh.roots@.len() - k,
        {
            let ok = tree_ids_below(&sh.roots[k].node, n as u64);
            if !ok {
                proof {
                    assert(shards@[s as int].roots@[k as int] == sh.roots@[k as int]);
                }
                return false;
            }
            k += 1;
        }
        s += 1;
    }
    true
}

} // verus!
