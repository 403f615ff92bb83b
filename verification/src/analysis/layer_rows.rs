//! The rows of the layer analyses, from GPU kernels attributed to a rank
//! and a model layer: kernels grouped by a key of two strings, then per
//! group the kernel counts and times, the busy unions and the overlaps.

use vstd::prelude::*;

use crate::analysis::compute_comm_overlap::fits_i64;
use crate::analysis::kernel_class::{is_nccl_kernel, spec_is_nccl_kernel};
use crate::analysis::layer_gpu::{
    checked_overlap_len, checked_union_len, lemma_overlap_within_unions, merged, push_interval, sweep_fits,
    sweep_overlap, total_len, total_len_fits, well_formed, IntervalAgg, RankLayerAgg,
};
use crate::baselines::insitu::{top_by_total, top_n_of};
use crate::analysis::rank::{
    key_before, key_precedes, lemma_key_before_asymmetric, lemma_rank_before_asymmetric, rank_before, rank_precedes,
};
use crate::text::{bytes_less, compare_bytes, lemma_bytes_less_irreflexive, lemma_bytes_less_transitive, utf8};
use crate::dict::{SeqDict, StringDict};

verus! {

/// A GPU kernel read from a raw trace.
#[derive(Clone, Debug)]
pub struct RawGpuKernel {
    pub name: String,
    pub ts: i64,
    pub dur: i64,
}

/// A GPU kernel attributed to a rank and a model layer.
#[derive(Clone, Debug)]
pub struct RawLayerGpu {
    pub rank: String,
    pub layer: String,
    pub gpu: RawGpuKernel,
}

/// A key of two strings, by their characters.
pub open spec fn pair_view(p: (String, String)) -> (Seq<char>, Seq<char>) {
    (p.0@, p.1@)
}

/// The positions at which `k` occurs among `keys`, ascending.
pub open spec fn positions_of(keys: Seq<(String, String)>, k: (Seq<char>, Seq<char>)) -> Seq<usize>
    decreases keys.len(),
{
    if keys.len() == 0 {
        Seq::empty()
    } else {
        positions_of(keys.drop_last(), k) + if pair_view(keys.last()) == k {
            seq![(keys.len() - 1) as usize]
        } else {
            Seq::empty()
        }
    }
}

/// A key that occurs nowhere has no positions.
pub proof fn lemma_positions_absent(keys: Seq<(String, String)>, k: (Seq<char>, Seq<char>))
    requires
        forall|i: int| 0 <= i < keys.len() ==> pair_view(#[trigger] keys[i]) != k,
    ensures
        positions_of(keys, k) == Seq::<usize>::empty(),
    decreases keys.len(),
{
    if keys.len() > 0 {
        let p = keys.drop_last();
        assert forall|i: int| 0 <= i < p.len() implies pair_view(#[trigger] p[i]) != k by {
            assert(p[i] == keys[i]);
        }
        lemma_positions_absent(p, k);
        assert(pair_view(keys[keys.len() - 1]) != k);
    }
}

/// Every position of a key lies below the number of keys.
pub proof fn lemma_positions_bounded(keys: Seq<(String, String)>, k: (Seq<char>, Seq<char>))
    requires
        keys.len() <= usize::MAX,
    ensures
        forall|j: int| 0 <= j < positions_of(keys, k).len() ==> (#[trigger] positions_of(keys, k)[j] as int) < keys.len()
            && pair_view(keys[positions_of(keys, k)[j] as int]) == k,
    decreases keys.len(),
{
    if keys.len() > 0 {
        let p = keys.drop_last();
        lemma_positions_bounded(p, k);
        let ps = positions_of(keys, k);
        let pp = positions_of(p, k);
        if pair_view(keys.last()) == k {
            assert(ps =~= pp.push((keys.len() - 1) as usize));
        } else {
            assert(ps =~= pp);
        }
        assert forall|j: int| 0 <= j < ps.len() implies (#[trigger] ps[j] as int) < keys.len() && pair_view(
            keys[ps[j] as int],
        ) == k by {
            if j < pp.len() {
                assert(ps[j] == pp[j]);
                assert(keys[pp[j] as int] == p[pp[j] as int]);
            }
        }
    }
}

/// Positions of `k` among one more key.
proof fn lemma_positions_step(keys: Seq<(String, String)>, t: int, k: (Seq<char>, Seq<char>))
    requires
        0 <= t < keys.len(),
        t <= usize::MAX,
    ensures
        positions_of(keys.take(t + 1), k) == if pair_view(keys[t]) == k {
            positions_of(keys.take(t), k).push(t as usize)
        } else {
            positions_of(keys.take(t), k)
        },
{
    let s = keys.take(t + 1);
    assert(s.drop_last() =~= keys.take(t));
    assert(s.last() == keys[t]);
    if pair_view(keys[t]) == k {
        assert(positions_of(s, k) =~= positions_of(keys.take(t), k).push(t as usize));
    } else {
        assert(positions_of(s, k) =~= positions_of(keys.take(t), k));
    }
}

/// The keys that are equal, and where they occur.
#[derive(Debug)]
pub struct PairGroup {
    pub first: String,
    pub second: String,
    pub members: Vec<usize>,
}

impl PairGroup {
    /// The group's key, by its characters.
    pub open spec fn key(&self) -> (Seq<char>, Seq<char>) {
        (self.first@, self.second@)
    }
}

/// `groups` are the distinct keys of `keys`, each with every position at
/// which it occurs, ascending.
pub open spec fn grouped(keys: Seq<(String, String)>, groups: Seq<PairGroup>) -> bool {
    &&& forall|g: int| 0 <= g < groups.len() ==> (#[trigger] groups[g]).members@ == positions_of(keys, groups[g].key())
    &&& forall|g: int| 0 <= g < groups.len() ==> (#[trigger] groups[g]).members@.len() > 0
    &&& forall|a: int, b: int| 0 <= a < b < groups.len() ==> (#[trigger] groups[a]).key() != (#[trigger] groups[b]).key()
    &&& forall|i: int| 0 <= i < keys.len() ==> #[trigger] has_group(groups, pair_view(keys[i]))
}

/// Some group has the key `k`.
pub open spec fn has_group(groups: Seq<PairGroup>, k: (Seq<char>, Seq<char>)) -> bool {
    exists|g: int| 0 <= g < groups.len() && #[trigger] groups[g].key() == k
}

/// Each group's key, as the ids of its two strings in the two dictionaries.
pub open spec fn linked(
    firsts: Seq<Seq<char>>,
    seconds: Seq<Seq<char>>,
    pairs: Seq<Seq<u32>>,
    groups: Seq<PairGroup>,
) -> bool {
    &&& pairs.len() == groups.len()
    &&& forall|g: int|
        0 <= g < groups.len() ==> {
            &&& (#[trigger] pairs[g]).len() == 2
            &&& (pairs[g][0] as int) < firsts.len()
            &&& (pairs[g][1] as int) < seconds.len()
            &&& firsts[pairs[g][0] as int] == groups[g].first@
            &&& seconds[pairs[g][1] as int] == groups[g].second@
        }
}

/// Keys grouped, with a hash index from each key to its group.
pub struct KeyGroups {
    groups: Vec<PairGroup>,
    firsts: StringDict,
    seconds: StringDict,
    pairs: SeqDict,
}

impl KeyGroups {
    /// The groups, in the order of their keys' first occurrence.
    pub closed spec fn key_groups(&self) -> Seq<PairGroup> {
        self.groups@
    }

    /// The groups.
    pub fn groups(&self) -> (g: &Vec<PairGroup>)
        ensures
            g@ == self.key_groups(),
    {
        &self.groups
    }

    /// The index agrees with the groups.
    pub closed spec fn wf(&self) -> bool {
        &&& self.firsts.wf()
        &&& self.seconds.wf()
        &&& self.pairs.wf()
        &&& linked(self.firsts@, self.seconds@, self.pairs@, self.groups@)
    }

    /// The group of the key `(first, second)`, if there is one.
    pub fn find(&self, first: &str, second: &str) -> (r: Option<usize>)
        requires
            self.wf(),
        ensures
            r matches Some(g) ==> g < self.key_groups().len() && self.key_groups()[g as int].key() == (first@, second@),
            r is None ==> forall|g: int|
                0 <= g < self.key_groups().len() ==> (#[trigger] self.key_groups()[g]).key() != (first@, second@),
    {
        let gs = &self.groups;
        let ghost p = self.pairs@;
        match self.firsts.find(first) {
            None => {
                proof {
                    assert forall|g: int| 0 <= g < gs@.len() implies (#[trigger] gs@[g]).key() != (first@, second@) by {
                        if gs@[g].key() == (first@, second@) {
                            assert(self.firsts@[p[g][0] as int] == first@);
                        }
                    }
                }
                None
            },
            Some(f) => match self.seconds.find(second) {
                None => {
                    proof {
                        assert forall|g: int| 0 <= g < gs@.len() implies (#[trigger] gs@[g]).key() != (first@, second@) by {
                            if gs@[g].key() == (first@, second@) {
                                assert(self.seconds@[p[g][1] as int] == second@);
                            }
                        }
                    }
                    None
                },
                Some(s) => {
                    let mut kv: Vec<u32> = Vec::new();
                    kv.push(f);
                    kv.push(s);
                    match self.pairs.find(&kv) {
                        Some(g) => {
                            proof {
                                assert(p[g as int] == kv@);
                            }
                            Some(g as usize)
                        },
                        None => {
                            proof {
                                self.firsts.lemma_distinct();
                                self.seconds.lemma_distinct();
                                assert forall|g: int| 0 <= g < gs@.len() implies (#[trigger] gs@[g]).key() != (
                                    first@,
                                    second@,
                                ) by {
                                    if gs@[g].key() == (first@, second@) {
                                        assert(p[g][0] == f);
                                        assert(p[g][1] == s);
                                        assert(p[g] =~= kv@);
                                        assert(p.contains(kv@));
                                    }
                                }
                            }
                            None
                        },
                    }
                },
            },
        }
    }
}

/// Groups equal keys, in the order of their first occurrence.
pub fn group_pairs(keys: &Vec<(String, String)>) -> (kg: KeyGroups)
    requires
        keys@.len() <= u32::MAX,
    ensures
        kg.wf(),
        grouped(keys@, kg.key_groups()),
{
    let mut firsts = StringDict::new();
    let mut seconds = StringDict::new();
    let mut pairs = SeqDict::new();
    let mut groups: Vec<PairGroup> = Vec::new();
    let mut t: usize = 0;
    proof {
        assert(keys@.take(0) =~= Seq::<(String, String)>::empty());
    }
    while t < keys.len()
        invariant
            t <= keys@.len(),
            keys@.len() <= u32::MAX,
            firsts.wf(),
            seconds.wf(),
            pairs.wf(),
            firsts@.len() <= t,
            seconds@.len() <= t,
            groups@.len() <= t,
            linked(firsts@, seconds@, pairs@, groups@),
            grouped(keys@.take(t as int), groups@),
        decreases keys@.len() - t,
    {
        let ghost pre = keys@.take(t as int);
        let ghost k = pair_view(keys@[t as int]);
        let ghost f0 = firsts@;
        let ghost s0 = seconds@;
        let f = firsts.intern(keys[t].0.as_str());
        let s = seconds.intern(keys[t].1.as_str());
        proof {
            assert forall|g: int| 0 <= g < groups@.len() implies {
                &&& (#[trigger] pairs@[g]).len() == 2
                &&& (pairs@[g][0] as int) < firsts@.len()
                &&& (pairs@[g][1] as int) < seconds@.len()
                &&& firsts@[pairs@[g][0] as int] == groups@[g].first@
                &&& seconds@[pairs@[g][1] as int] == groups@[g].second@
            } by {
                assert(f0[pairs@[g][0] as int] == groups@[g].first@);
                assert(s0[pairs@[g][1] as int] == groups@[g].second@);
            }
            firsts.lemma_distinct();
            seconds.lemma_distinct();
        }
        let mut kv: Vec<u32> = Vec::new();
        kv.push(f);
        kv.push(s);
        let ghost p0 = pairs@;
        let ghost g0 = groups@;
        let gid = pairs.intern(&kv);
        proof {
            lemma_positions_step(keys@, t as int, k);
            assert forall|g: int| 0 <= g < g0.len() && (#[trigger] g0[g]).key() == k implies p0[g] == kv@ by {
                assert(p0[g][0] == f);
                assert(p0[g][1] == s);
                assert(p0[g] =~= kv@);
            }
        }
        if (gid as usize) == groups.len() {
            proof {
                if p0.contains(kv@) {
                    assert(pairs@ == p0);
                }
                assert forall|g: int| 0 <= g < g0.len() implies (#[trigger] g0[g]).key() != k by {
                    if g0[g].key() == k {
                        assert(p0[g] == kv@);
                        assert(p0.contains(kv@));
                    }
                }
                assert forall|i: int| 0 <= i < pre.len() implies pair_view(#[trigger] pre[i]) != k by {
                    assert(has_group(g0, pair_view(pre[i])));
                    let g = choose|g: int| 0 <= g < g0.len() && #[trigger] g0[g].key() == pair_view(pre[i]);
                }
                lemma_positions_absent(pre, k);
            }
            let mut members: Vec<usize> = Vec::new();
            members.push(t);
            let first = keys[t].0.clone();
            let second = keys[t].1.clone();
            groups.push(PairGroup { first, second, members });
            proof {
                assert(pairs@ == p0.push(kv@));
                assert(groups@[g0.len() as int].key() == k);
                assert(groups@[g0.len() as int].members@ =~= positions_of(keys@.take(t + 1), k));
                assert forall|g: int| 0 <= g < g0.len() implies (#[trigger] groups@[g]).members@ == positions_of(
                    keys@.take(t + 1),
                    groups@[g].key(),
                ) by {
                    assert(groups@[g] == g0[g]);
                    lemma_positions_step(keys@, t as int, g0[g].key());
                }
            }
        } else {
            proof {
                if !p0.contains(kv@) {
                    assert(pairs@ == p0.push(kv@));
                    assert(p0[gid as int] == kv@);
                    assert(p0.contains(kv@));
                }
                assert(pairs@ == p0);
                assert(p0[gid as int] == kv@);
                assert(g0[gid as int].key() == k);
            }
            let mut grp = PairGroup { first: String::new(), second: String::new(), members: Vec::new() };
            std::mem::swap(&mut grp, &mut groups[gid as usize]);
            grp.members.push(t);
            std::mem::swap(&mut grp, &mut groups[gid as usize]);
            proof {
                assert(groups@ == g0.update(gid as int, groups@[gid as int]));
                assert forall|g: int| 0 <= g < groups@.len() implies (#[trigger] groups@[g]).members@ == positions_of(
                    keys@.take(t + 1),
                    groups@[g].key(),
                ) by {
                    lemma_positions_step(keys@, t as int, groups@[g].key());
                    if g != gid as int {
                        assert(groups@[g] == g0[g]);
                        assert(g0[g].key() != g0[gid as int].key());
                    }
                }
            }
        }
        t += 1;
        proof {
            let post = keys@.take(t as int);
            assert forall|i: int| 0 <= i < post.len() implies #[trigger] has_group(groups@, pair_view(post[i])) by {
                if i < pre.len() {
                    assert(post[i] == pre[i]);
                    assert(has_group(g0, pair_view(pre[i])));
                    let g = choose|g: int| 0 <= g < g0.len() && #[trigger] g0[g].key() == pair_view(pre[i]);
                    assert(groups@[g].key() == g0[g].key());
                } else {
                    assert(post[i] == keys@[i]);
                    if (gid as int) < g0.len() {
                        assert(groups@[gid as int].key() == k);
                    } else {
                        assert(groups@[g0.len() as int].key() == k);
                    }
                }
            }
            assert forall|a: int, b: int| 0 <= a < b < groups@.len() implies (#[trigger] groups@[a]).key() != (
            #[trigger] groups@[b]).key() by {
                if b < g0.len() {
                    assert(groups@[a].key() == g0[a].key());
                    assert(groups@[b].key() == g0[b].key());
                }
            }
        }
    }
    proof {
        assert(keys@.take(keys@.len() as int) =~= keys@);
    }
    KeyGroups { groups, firsts, seconds, pairs }
}

/// The keys `(rank, layer)` of attributed kernels.
pub open spec fn rank_layer_keys(items: Seq<RawLayerGpu>) -> Seq<(String, String)> {
    items.map_values(|it: RawLayerGpu| (it.rank, it.layer))
}

/// The key `(rank, layer)` of an attributed kernel, by its characters.
pub open spec fn item_key(it: RawLayerGpu) -> (Seq<char>, Seq<char>) {
    (it.rank@, it.layer@)
}

/// The kernels at the given positions of `items`.
pub open spec fn kernels_at(items: Seq<RawLayerGpu>, members: Seq<usize>) -> Seq<RawGpuKernel> {
    members.map_values(|m: usize| items[m as int].gpu)
}

/// The kernels attributed to the rank and layer `k`, in trace order.
pub open spec fn kernels_of(items: Seq<RawLayerGpu>, k: (Seq<char>, Seq<char>)) -> Seq<RawGpuKernel> {
    kernels_at(items, positions_of(rank_layer_keys(items), k))
}

/// The `(rank, layer)` keys of the kernels.
fn rank_layer_pairs(items: &Vec<RawLayerGpu>) -> (keys: Vec<(String, String)>)
    ensures
        keys@ == rank_layer_keys(items@),
{
    let mut keys: Vec<(String, String)> = Vec::new();
    let mut i: usize = 0;
    while i < items.len()
        invariant
            i <= items@.len(),
            keys@ == rank_layer_keys(items@.take(i as int)),
        decreases items@.len() - i,
    {
        keys.push((items[i].rank.clone(), items[i].layer.clone()));
        i += 1;
        proof {
            assert(rank_layer_keys(items@.take(i as int)) =~= rank_layer_keys(items@.take(i - 1)).push(
                (items@[i - 1].rank, items@[i - 1].layer),
            ));
        }
    }
    proof {
        assert(items@.take(items@.len() as int) =~= items@);
    }
    keys
}

/// The intervals `[ts, ts + dur)` of the kernels of one class: the NCCL
/// (communication) kernels when `comm`, the others otherwise.
pub open spec fn class_spans(ks: Seq<RawGpuKernel>, comm: bool) -> Seq<(i64, i64)>
    decreases ks.len(),
{
    if ks.len() == 0 {
        Seq::empty()
    } else {
        let p = class_spans(ks.drop_last(), comm);
        let k = ks.last();
        if spec_is_nccl_kernel(k.name@) == comm {
            p.push((k.ts, (k.ts + k.dur) as i64))
        } else {
            p
        }
    }
}

/// The summed durations of the kernels of one class.
pub open spec fn class_dur(ks: Seq<RawGpuKernel>, comm: bool) -> int
    decreases ks.len(),
{
    if ks.len() == 0 {
        0
    } else {
        class_dur(ks.drop_last(), comm) + if spec_is_nccl_kernel(ks.last().name@) == comm {
            ks.last().dur as int
        } else {
            0
        }
    }
}

/// Taking the kernels in order, every interval end and every running sum
/// of durations of a class fits in an `i64`.
pub open spec fn spans_fit(ks: Seq<RawGpuKernel>) -> bool
    decreases ks.len(),
{
    if ks.len() == 0 {
        true
    } else {
        &&& spans_fit(ks.drop_last())
        &&& fits_i64(ks.last().ts + ks.last().dur)
        &&& fits_i64(class_dur(ks, spec_is_nccl_kernel(ks.last().name@)))
    }
}

/// A prefix of kernels that fit fits.
proof fn lemma_spans_fit_prefix(ks: Seq<RawGpuKernel>, n: int)
    requires
        0 <= n <= ks.len(),
        spans_fit(ks),
    ensures
        spans_fit(ks.take(n)),
    decreases ks.len(),
{
    if n == ks.len() {
        assert(ks.take(n) =~= ks);
    } else {
        lemma_spans_fit_prefix(ks.drop_last(), n);
        assert(ks.drop_last().take(n) =~= ks.take(n));
    }
}

/// `a` holds the intervals and the summed durations of the kernels `ks`.
pub open spec fn agg_is(a: IntervalAgg, ks: Seq<RawGpuKernel>) -> bool {
    &&& a.compute@ == class_spans(ks, false)
    &&& a.comm@ == class_spans(ks, true)
    &&& a.compute_total_us == class_dur(ks, false)
    &&& a.comm_total_us == class_dur(ks, true)
}

/// The intervals and summed durations of the kernels at `members`, or
/// `None` when an interval end or a running sum leaves `i64`.
fn interval_agg(items: &Vec<RawLayerGpu>, members: &Vec<usize>) -> (r: Option<IntervalAgg>)
    requires
        forall|j: int| 0 <= j < members@.len() ==> (#[trigger] members@[j] as int) < items@.len(),
    ensures
        r is Some <==> spans_fit(kernels_at(items@, members@)),
        r matches Some(a) ==> agg_is(a, kernels_at(items@, members@)),
{
    let ghost ks = kernels_at(items@, members@);
    let mut agg = IntervalAgg::default();
    let mut i: usize = 0;
    proof {
        assert(ks.take(0) =~= Seq::<RawGpuKernel>::empty());
        assert(agg.compute@ =~= class_spans(ks.take(0), false));
        assert(agg.comm@ =~= class_spans(ks.take(0), true));
    }
    while i < members.len()
        invariant
            i <= members@.len(),
            ks == kernels_at(items@, members@),
            forall|j: int| 0 <= j < members@.len() ==> (#[trigger] members@[j] as int) < items@.len(),
            spans_fit(ks.take(i as int)),
            agg_is(agg, ks.take(i as int)),
        decreases members@.len() - i,
    {
        let k = &items[members[i]].gpu;
        let ghost pre = ks.take(i as int);
        let ghost cur = ks.take(i + 1);
        proof {
            assert(ks[i as int] == *k);
            assert(cur.drop_last() =~= pre);
            assert(cur.last() == *k);
        }
        let comm = is_nccl_kernel(k.name.as_str());
        let end_ok = k.ts.checked_add(k.dur);
        let total_ok = if comm {
            agg.comm_total_us.checked_add(k.dur)
        } else {
            agg.compute_total_us.checked_add(k.dur)
        };
        if end_ok.is_none() || total_ok.is_none() {
            proof {
                assert(!spans_fit(cur));
                if spans_fit(ks) {
                    lemma_spans_fit_prefix(ks, i + 1);
                }
            }
            return None;
        }
        push_interval(&mut agg, k.name.as_str(), k.ts, k.dur);
        i += 1;
        proof {
            assert(agg.compute@ =~= class_spans(cur, false));
            assert(agg.comm@ =~= class_spans(cur, true));
        }
    }
    proof {
        assert(ks.take(members@.len() as int) =~= ks);
    }
    Some(agg)
}

/// A copy of a list of intervals.
fn copy_spans(v: &Vec<(i64, i64)>) -> (r: Vec<(i64, i64)>)
    ensures
        r@ == v@,
{
    let mut r: Vec<(i64, i64)> = Vec::new();
    let mut i: usize = 0;
    while i < v.len()
        invariant
            i <= v@.len(),
            r@ == v@.take(i as int),
        decreases v@.len() - i,
    {
        r.push(v[i]);
        i += 1;
        proof {
            assert(r@ =~= v@.take(i as int));
        }
    }
    proof {
        assert(v@.take(v@.len() as int) =~= v@);
    }
    r
}

/// Compute/communication overlap of one rank and layer.
#[derive(Clone, Debug)]
pub struct LayerOverlapRow {
    pub rank: String,
    pub layer: String,
    pub compute_total_us: i64,
    pub comm_total_us: i64,
    pub compute_union_us: i64,
    pub comm_union_us: i64,
    pub overlap_us: i64,
}

/// The key `(rank, layer)` of a row, by its characters.
pub open spec fn overlap_row_key(r: LayerOverlapRow) -> (Seq<char>, Seq<char>) {
    (r.rank@, r.layer@)
}

/// Everything the row of the kernels `ks` holds fits in an `i64`: the
/// interval ends and summed durations, the merged lengths and the overlap.
pub open spec fn overlap_fits(ks: Seq<RawGpuKernel>) -> bool {
    &&& spans_fit(ks)
    &&& total_len_fits(merged(class_spans(ks, false)))
    &&& total_len_fits(merged(class_spans(ks, true)))
    &&& sweep_fits(merged(class_spans(ks, false)), merged(class_spans(ks, true)), 0)
}

/// `row` holds the totals of the kernels `ks`: the summed durations of the
/// compute and of the communication kernels, the lengths of their merged
/// intervals, and the length during which the two overlap.
pub open spec fn overlap_row_is(ks: Seq<RawGpuKernel>, row: LayerOverlapRow) -> bool {
    &&& row.compute_total_us == class_dur(ks, false)
    &&& row.comm_total_us == class_dur(ks, true)
    &&& row.compute_union_us == total_len(merged(class_spans(ks, false)))
    &&& row.comm_union_us == total_len(merged(class_spans(ks, true)))
    &&& row.overlap_us == sweep_overlap(merged(class_spans(ks, false)), merged(class_spans(ks, true)))
}

/// Some row has the key `k`.
pub open spec fn has_overlap_row(rows: Seq<LayerOverlapRow>, k: (Seq<char>, Seq<char>)) -> bool {
    exists|j: int| 0 <= j < rows.len() && #[trigger] overlap_row_key(rows[j]) == k
}

/// No row comes before the row ahead of it, by rank and then layer.
pub open spec fn rows_ordered(rows: Seq<LayerOverlapRow>) -> bool {
    forall|j: int|
        0 <= j < rows.len() - 1 ==> !key_before(overlap_row_key(#[trigger] rows[j + 1]), overlap_row_key(rows[j]))
}

/// No two rows have the same rank and layer.
pub open spec fn rows_distinct(rows: Seq<LayerOverlapRow>) -> bool {
    forall|a: int, b: int| 0 <= a < b < rows.len() ==> overlap_row_key(#[trigger] rows[a]) != overlap_row_key(#[trigger] rows[b])
}

/// The row holds the totals of the kernels of its rank and layer, which
/// has kernels.
pub open spec fn overlap_row_ok(items: Seq<RawLayerGpu>, row: LayerOverlapRow) -> bool {
    &&& positions_of(rank_layer_keys(items), overlap_row_key(row)).len() > 0
    &&& overlap_row_is(kernels_of(items, overlap_row_key(row)), row)
}

/// `rows` are the overlap rows of the kernels `items`: one per rank and
/// layer that has kernels, with that rank and layer's totals, ordered by
/// rank (numerically where both are integers) and then by layer.
pub open spec fn overlap_listing(items: Seq<RawLayerGpu>, rows: Seq<LayerOverlapRow>) -> bool {
    &&& forall|j: int| 0 <= j < rows.len() ==> #[trigger] overlap_row_ok(items, rows[j])
    &&& rows_distinct(rows)
    &&& forall|i: int| 0 <= i < items.len() ==> #[trigger] has_overlap_row(rows, item_key(items[i]))
    &&& rows_ordered(rows)
}

/// Inserts a row with a new key into ordered rows, after every row that it
/// does not come before.
fn insert_overlap_row(rows: &mut Vec<LayerOverlapRow>, row: LayerOverlapRow)
    requires
        rows_ordered(old(rows)@),
        rows_distinct(old(rows)@),
        forall|j: int| 0 <= j < old(rows)@.len() ==> overlap_row_key(#[trigger] old(rows)@[j]) != overlap_row_key(row),
    ensures
        rows_ordered(final(rows)@),
        rows_distinct(final(rows)@),
        exists|pos: int| 0 <= pos <= old(rows)@.len() && final(rows)@ == old(rows)@.insert(pos, row),
{
    let ghost key = overlap_row_key(row);
    let mut pos: usize = 0;
    loop
        invariant
            pos <= rows@.len(),
            rows@ == old(rows)@,
            key == overlap_row_key(row),
            forall|j: int| 0 <= j < pos ==> !key_before(key, overlap_row_key(#[trigger] rows@[j])),
        ensures
            pos <= rows@.len(),
            rows@ == old(rows)@,
            forall|j: int| 0 <= j < pos ==> !key_before(key, overlap_row_key(#[trigger] rows@[j])),
            pos < rows@.len() ==> key_before(key, overlap_row_key(rows@[pos as int])),
        decreases rows@.len() - pos,
    {
        if pos >= rows.len() {
            break;
        }
        if key_precedes(row.rank.as_str(), row.layer.as_str(), rows[pos].rank.as_str(), rows[pos].layer.as_str()) {
            break;
        }
        pos += 1;
    }
    let ghost before = rows@;
    rows.insert(pos, row);
    proof {
        let p = pos as int;
        before.insert_ensures(p, row);
        let after = rows@;
        assert forall|j: int| 0 <= j < after.len() - 1 implies !key_before(
            overlap_row_key(#[trigger] after[j + 1]),
            overlap_row_key(after[j]),
        ) by {
            if j + 1 < p {
                assert(after[j + 1] == before[j + 1]);
            } else if j + 1 == p {
            } else if j == p {
                assert(after[j + 1] == before[j]);
                lemma_key_before_asymmetric(key, overlap_row_key(before[j]));
            } else {
                assert(after[j] == before[j - 1]);
            }
        }
        assert forall|a: int, b: int| 0 <= a < b < after.len() implies overlap_row_key(#[trigger] after[a])
            != overlap_row_key(#[trigger] after[b]) by {
            if a < p && b > p {
                assert(after[b] == before[b - 1]);
            } else if a > p {
                assert(after[a] == before[a - 1]);
                assert(after[b] == before[b - 1]);
            } else if b > p {
                assert(after[b] == before[b - 1]);
            }
        }
    }
}

/// The overlap row of one group of kernels, or `None` when one of its
/// values leaves `i64`.
fn overlap_row_of(items: &Vec<RawLayerGpu>, grp: &PairGroup) -> (r: Option<LayerOverlapRow>)
    requires
        forall|j: int| 0 <= j < grp.members@.len() ==> (#[trigger] grp.members@[j] as int) < items@.len(),
    ensures
        r is Some <==> overlap_fits(kernels_at(items@, grp.members@)),
        r matches Some(row) ==> overlap_row_key(row) == grp.key() && overlap_row_is(
            kernels_at(items@, grp.members@),
            row,
        ),
{
    let agg = match interval_agg(items, &grp.members) {
        Some(a) => a,
        None => {
            return None;
        },
    };
    let IntervalAgg { compute, comm, compute_total_us, comm_total_us } = agg;
    let compute_union = match checked_union_len(copy_spans(&compute)) {
        Some(v) => v,
        None => {
            return None;
        },
    };
    let comm_union = match checked_union_len(copy_spans(&comm)) {
        Some(v) => v,
        None => {
            return None;
        },
    };
    let overlap = match checked_overlap_len(compute, comm) {
        Some(v) => v,
        None => {
            return None;
        },
    };
    Some(
        LayerOverlapRow {
            rank: grp.first.clone(),
            layer: grp.second.clone(),
            compute_total_us,
            comm_total_us,
            compute_union_us: compute_union,
            comm_union_us: comm_union,
            overlap_us: overlap,
        },
    )
}

/// Kernels with non-negative durations whose ends fit give well-formed
/// intervals.
proof fn lemma_class_spans_well_formed(ks: Seq<RawGpuKernel>, comm: bool)
    requires
        spans_fit(ks),
        forall|k: int| 0 <= k < ks.len() ==> (#[trigger] ks[k]).dur >= 0,
    ensures
        well_formed(class_spans(ks, comm)),
    decreases ks.len(),
{
    if ks.len() > 0 {
        let p = ks.drop_last();
        assert forall|k: int| 0 <= k < p.len() implies (#[trigger] p[k]).dur >= 0 by {
            assert(p[k] == ks[k]);
        }
        lemma_class_spans_well_formed(p, comm);
        assert(ks.last().dur >= 0);
        let c = class_spans(ks, comm);
        let cp = class_spans(p, comm);
        if spec_is_nccl_kernel(ks.last().name@) == comm {
            assert forall|k: int| 0 <= k < c.len() implies (#[trigger] c[k]).0 <= c[k].1 by {
                if k < cp.len() {
                    assert(c[k] == cp[k]);
                }
            }
        }
    }
}

/// For kernels whose durations are all non-negative, every overlap row
/// has an overlap between 0 and the smaller of its two unions, so the
/// overlap as a fraction of the smaller union lies between 0 and 1.
pub proof fn lemma_overlap_rows_within_unions(items: Seq<RawLayerGpu>, rows: Seq<LayerOverlapRow>)
    requires
        items.len() <= usize::MAX,
        overlap_listing(items, rows),
        forall|i: int| 0 <= i < items.len() ==> #[trigger] overlap_fits(kernels_of(items, item_key(items[i]))),
        forall|i: int| 0 <= i < items.len() ==> (#[trigger] items[i]).gpu.dur >= 0,
    ensures
        forall|j: int|
            0 <= j < rows.len() ==> 0 <= (#[trigger] rows[j]).overlap_us <= rows[j].compute_union_us
                && rows[j].overlap_us <= rows[j].comm_union_us,
{
    assert forall|j: int| 0 <= j < rows.len() implies 0 <= (#[trigger] rows[j]).overlap_us <= rows[j].compute_union_us
        && rows[j].overlap_us <= rows[j].comm_union_us by {
        let key = overlap_row_key(rows[j]);
        let keys = rank_layer_keys(items);
        assert(overlap_row_ok(items, rows[j]));
        let ps = positions_of(keys, key);
        lemma_positions_bounded(keys, key);
        let i0 = ps[0] as int;
        assert(pair_view(keys[i0]) == key);
        assert(item_key(items[i0]) == key);
        assert(overlap_fits(kernels_of(items, item_key(items[i0]))));
        let ks = kernels_of(items, key);
        assert forall|k: int| 0 <= k < ks.len() implies (#[trigger] ks[k]).dur >= 0 by {
            assert(ks[k] == items[ps[k] as int].gpu);
        }
        lemma_class_spans_well_formed(ks, false);
        lemma_class_spans_well_formed(ks, true);
        lemma_overlap_within_unions(class_spans(ks, false), class_spans(ks, true));
    }
}

/// The overlap row of each rank and layer of the kernels, ordered by rank
/// and layer; `None` when a value of some row leaves `i64`.
pub fn layer_overlap_rows(items: &Vec<RawLayerGpu>) -> (r: Option<Vec<LayerOverlapRow>>)
    requires
        items@.len() <= u32::MAX,
    ensures
        r is Some <==> forall|i: int|
            0 <= i < items@.len() ==> #[trigger] overlap_fits(kernels_of(items@, item_key(items@[i]))),
        r matches Some(rows) ==> overlap_listing(items@, rows@),
{
    let keys = rank_layer_pairs(items);
    let kg = group_pairs(&keys);
    let groups = kg.groups();
    let ghost gs = groups@;
    let mut rows: Vec<LayerOverlapRow> = Vec::new();
    let mut g: usize = 0;
    proof {
        assert forall|i: int| 0 <= i < items@.len() implies pair_view(#[trigger] keys@[i]) == item_key(items@[i]) by {}
    }
    while g < groups.len()
        invariant
            keys@ == rank_layer_keys(items@),
            keys@.len() == items@.len(),
            keys@.len() <= u32::MAX,
            forall|i: int| 0 <= i < items@.len() ==> pair_view(#[trigger] keys@[i]) == item_key(items@[i]),
            gs == groups@,
            grouped(keys@, gs),
            g <= gs.len(),
            rows@.len() == g,
            forall|q: int| 0 <= q < g ==> #[trigger] overlap_fits(kernels_of(items@, gs[q].key())),
            forall|j: int| 0 <= j < rows@.len() ==> #[trigger] overlap_row_ok(items@, rows@[j]),
            rows_distinct(rows@),
            rows_ordered(rows@),
            forall|j: int| 0 <= j < rows@.len() ==> #[trigger] has_group(gs.take(g as int), overlap_row_key(rows@[j])),
            forall|q: int| 0 <= q < g ==> #[trigger] has_overlap_row(rows@, gs[q].key()),
        decreases gs.len() - g,
    {
        let grp = &groups[g];
        let ghost key = grp.key();
        proof {
            lemma_positions_bounded(keys@, key);
            assert(grp.members@ == positions_of(keys@, key));
        }
        let row = match overlap_row_of(items, grp) {
            Some(row) => row,
            None => {
                proof {
                    let i0 = grp.members@[0] as int;
                    assert(pair_view(keys@[i0]) == key);
                    assert(!overlap_fits(kernels_of(items@, item_key(items@[i0]))));
                }
                return None;
            },
        };
        let ghost before = rows@;
        let ghost g_before = gs.take(g as int);
        proof {
            assert forall|j: int| 0 <= j < before.len() implies overlap_row_key(#[trigger] before[j]) != key by {
                assert(has_group(g_before, overlap_row_key(before[j])));
                let q = choose|q: int| 0 <= q < g_before.len() && #[trigger] g_before[q].key() == overlap_row_key(before[j]);
                assert(g_before[q] == gs[q]);
            }
        }
        insert_overlap_row(&mut rows, row);
        g += 1;
        proof {
            let after = rows@;
            let pos = choose|pos: int| 0 <= pos <= before.len() && after == before.insert(pos, row);
            before.insert_ensures(pos, row);
            let gt = gs.take(g as int);
            assert(gt =~= g_before.push(gs[g - 1]));
            assert forall|j: int| 0 <= j < after.len() implies #[trigger] overlap_row_ok(items@, after[j]) by {
                if j != pos {
                    let jj = if j < pos { j } else { j - 1 };
                    assert(after[j] == before[jj]);
                }
            }
            assert forall|j: int| 0 <= j < after.len() implies #[trigger] has_group(gt, overlap_row_key(after[j])) by {
                if j == pos {
                    assert(gt[g - 1] == gs[g - 1]);
                } else {
                    let jj = if j < pos { j } else { j - 1 };
                    assert(after[j] == before[jj]);
                    assert(has_group(g_before, overlap_row_key(before[jj])));
                    let q = choose|q: int| 0 <= q < g_before.len() && #[trigger] g_before[q].key() == overlap_row_key(before[jj]);
                    assert(gt[q] == g_before[q]);
                }
            }
            assert forall|q: int| 0 <= q < g implies #[trigger] has_overlap_row(after, gs[q].key()) by {
                if q == g - 1 {
                    assert(overlap_row_key(after[pos]) == gs[q].key());
                } else {
                    assert(has_overlap_row(before, gs[q].key()));
                    let j = choose|j: int| 0 <= j < before.len() && #[trigger] overlap_row_key(before[j]) == gs[q].key();
                    if j < pos {
                        assert(after[j] == before[j]);
                    } else {
                        assert(after[j + 1] == before[j]);
                    }
                }
            }
        }
    }
    proof {
        assert(gs.take(gs.len() as int) =~= gs);
        assert forall|i: int| 0 <= i < items@.len() implies #[trigger] overlap_fits(kernels_of(items@, item_key(items@[i]))) by {
            assert(has_group(gs, pair_view(keys@[i])));
            let q = choose|q: int| 0 <= q < gs.len() && #[trigger] gs[q].key() == pair_view(keys@[i]);
        }
        assert forall|i: int| 0 <= i < items@.len() implies #[trigger] has_overlap_row(rows@, item_key(items@[i])) by {
            assert(has_group(gs, pair_view(keys@[i])));
            let q = choose|q: int| 0 <= q < gs.len() && #[trigger] gs[q].key() == pair_view(keys@[i]);
            assert(has_overlap_row(rows@, gs[q].key()));
        }
    }
    Some(rows)
}

/// `a` comes before `b`: as rank names when `by_rank`, else by bytes.
pub open spec fn name_before(by_rank: bool, a: Seq<char>, b: Seq<char>) -> bool {
    if by_rank {
        rank_before(a, b)
    } else {
        bytes_less(utf8(a), utf8(b))
    }
}

/// No name comes before the name ahead of it.
pub open spec fn names_ordered(by_rank: bool, names: Seq<String>) -> bool {
    forall|j: int| 0 <= j < names.len() - 1 ==> !name_before(by_rank, (#[trigger] names[j + 1])@, names[j]@)
}

/// No name occurs twice.
pub open spec fn names_distinct(names: Seq<String>) -> bool {
    forall|a: int, b: int| 0 <= a < b < names.len() ==> (#[trigger] names[a])@ != (#[trigger] names[b])@
}

/// Some name is `x`.
pub open spec fn name_listed(names: Seq<String>, x: Seq<char>) -> bool {
    exists|j: int| 0 <= j < names.len() && (#[trigger] names[j])@ == x
}

/// Of two names, at most one comes before the other.
proof fn lemma_name_before_asymmetric(by_rank: bool, a: Seq<char>, b: Seq<char>)
    requires
        name_before(by_rank, a, b),
    ensures
        !name_before(by_rank, b, a),
{
    if by_rank {
        lemma_rank_before_asymmetric(a, b);
    } else if bytes_less(utf8(b), utf8(a)) {
        lemma_bytes_less_transitive(utf8(a), utf8(b), utf8(a));
        lemma_bytes_less_irreflexive(utf8(a));
    }
}

/// Whether `a` comes before `b`: as rank names when `by_rank`, else by
/// bytes.
fn name_precedes(by_rank: bool, a: &str, b: &str) -> (r: bool)
    ensures
        r == name_before(by_rank, a@, b@),
{
    if by_rank {
        rank_precedes(a, b)
    } else {
        compare_bytes(a.as_bytes(), b.as_bytes()) == -1
    }
}

/// Inserts a new name into ordered names, after every name that it does
/// not come before.
fn insert_name(names: &mut Vec<String>, x: String, by_rank: bool)
    requires
        names_ordered(by_rank, old(names)@),
        names_distinct(old(names)@),
        !name_listed(old(names)@, x@),
    ensures
        names_ordered(by_rank, final(names)@),
        names_distinct(final(names)@),
        exists|pos: int| 0 <= pos <= old(names)@.len() && final(names)@ == old(names)@.insert(pos, x),
{
    let mut pos: usize = 0;
    loop
        invariant
            pos <= names@.len(),
            names@ == old(names)@,
            forall|j: int| 0 <= j < pos ==> !name_before(by_rank, x@, (#[trigger] names@[j])@),
        ensures
            pos <= names@.len(),
            names@ == old(names)@,
            forall|j: int| 0 <= j < pos ==> !name_before(by_rank, x@, (#[trigger] names@[j])@),
            pos < names@.len() ==> name_before(by_rank, x@, names@[pos as int]@),
        decreases names@.len() - pos,
    {
        if pos >= names.len() {
            break;
        }
        if name_precedes(by_rank, x.as_str(), names[pos].as_str()) {
            break;
        }
        pos += 1;
    }
    let ghost before = names@;
    names.insert(pos, x);
    proof {
        let p = pos as int;
        before.insert_ensures(p, x);
        let after = names@;
        assert forall|j: int| 0 <= j < after.len() - 1 implies !name_before(by_rank, (#[trigger] after[j + 1])@, after[j]@) by {
            if j + 1 < p {
                assert(after[j + 1] == before[j + 1]);
            } else if j + 1 == p {
            } else if j == p {
                assert(after[j + 1] == before[j]);
                lemma_name_before_asymmetric(by_rank, x@, before[j]@);
            } else {
                assert(after[j] == before[j - 1]);
            }
        }
        assert forall|a: int, b: int| 0 <= a < b < after.len() implies (#[trigger] after[a])@ != (#[trigger] after[b])@ by {
            if a < p && b > p {
                assert(after[b] == before[b - 1]);
            } else if a > p {
                assert(after[a] == before[a - 1]);
                assert(after[b] == before[b - 1]);
            } else if b > p {
                assert(after[b] == before[b - 1]);
            }
        }
    }
}

/// The first (when `use_first`) or second string of a group's key.
pub open spec fn group_name(grp: PairGroup, use_first: bool) -> Seq<char> {
    if use_first {
        grp.first@
    } else {
        grp.second@
    }
}

/// Some group's key has `x` on the chosen side.
pub open spec fn names_a_group(groups: Seq<PairGroup>, use_first: bool, x: Seq<char>) -> bool {
    exists|g: int| 0 <= g < groups.len() && #[trigger] group_name(groups[g], use_first) == x
}

/// The distinct strings on one side of the groups' keys, ordered as rank
/// names when `by_rank`, else by bytes.
fn group_names(groups: &Vec<PairGroup>, use_first: bool, by_rank: bool) -> (names: Vec<String>)
    ensures
        names_ordered(by_rank, names@),
        names_distinct(names@),
        forall|j: int| 0 <= j < names@.len() ==> #[trigger] names_a_group(groups@, use_first, names@[j]@),
        forall|g: int| 0 <= g < groups@.len() ==> #[trigger] name_listed(names@, group_name(groups@[g], use_first)),
{
    let mut names: Vec<String> = Vec::new();
    let mut g: usize = 0;
    while g < groups.len()
        invariant
            g <= groups@.len(),
            names_ordered(by_rank, names@),
            names_distinct(names@),
            forall|j: int| 0 <= j < names@.len() ==> #[trigger] names_a_group(groups@.take(g as int), use_first, names@[j]@),
            forall|q: int| 0 <= q < g ==> #[trigger] name_listed(names@, group_name(groups@[q], use_first)),
        decreases groups@.len() - g,
    {
        let x = if use_first {
            groups[g].first.clone()
        } else {
            groups[g].second.clone()
        };
        let ghost gt = groups@.take(g + 1);
        let ghost before = names@;
        proof {
            assert(gt =~= groups@.take(g as int).push(groups@[g as int]));
            assert forall|j: int| 0 <= j < before.len() implies #[trigger] names_a_group(gt, use_first, before[j]@) by {
                assert(names_a_group(groups@.take(g as int), use_first, before[j]@));
                let q = choose|q: int| 0 <= q < g && #[trigger] group_name(groups@.take(g as int)[q], use_first) == before[j]@;
                assert(gt[q] == groups@.take(g as int)[q]);
            }
            assert(group_name(gt[g as int], use_first) == x@);
        }
        let mut found = false;
        let mut j: usize = 0;
        while j < names.len()
            invariant
                j <= names@.len(),
                names@ == before,
                found ==> name_listed(names@, x@),
                !found ==> forall|i: int| 0 <= i < j ==> (#[trigger] names@[i])@ != x@,
            decreases names@.len() - j,
        {
            if !found && compare_bytes(names[j].as_str().as_bytes(), x.as_str().as_bytes()) == 0 {
                proof {
                    vstd::utf8::encode_utf8_decode_utf8(names@[j as int]@);
                    vstd::utf8::encode_utf8_decode_utf8(x@);
                }
                found = true;
            }
            j += 1;
        }
        if !found {
            insert_name(&mut names, x, by_rank);
        }
        g += 1;
        proof {
            let after = names@;
            if !found {
                let pos = choose|pos: int| 0 <= pos <= before.len() && after == before.insert(pos, x);
                before.insert_ensures(pos, x);
                assert forall|i: int| 0 <= i < after.len() implies #[trigger] names_a_group(gt, use_first, after[i]@) by {
                    if i < pos {
                        assert(after[i] == before[i]);
                    } else if i > pos {
                        assert(after[i] == before[i - 1]);
                    }
                }
                assert forall|q: int| 0 <= q < g implies #[trigger] name_listed(after, group_name(groups@[q], use_first)) by {
                    if q < g - 1 {
                        assert(name_listed(before, group_name(groups@[q], use_first)));
                        let i = choose|i: int| 0 <= i < before.len() && (#[trigger] before[i])@ == group_name(groups@[q], use_first);
                        if i < pos {
                            assert(after[i] == before[i]);
                        } else {
                            assert(after[i + 1] == before[i]);
                        }
                    } else {
                        assert(after[pos] == x);
                    }
                }
            }
        }
    }
    proof {
        assert(groups@.take(groups@.len() as int) =~= groups@);
    }
    names
}

/// Taking the kernels in order, every running sum of durations of a class
/// fits in an `i64`.
pub open spec fn durs_fit(ks: Seq<RawGpuKernel>) -> bool
    decreases ks.len(),
{
    if ks.len() == 0 {
        true
    } else {
        durs_fit(ks.drop_last()) && fits_i64(class_dur(ks, spec_is_nccl_kernel(ks.last().name@)))
    }
}

/// A prefix of kernels whose sums fit has sums that fit.
proof fn lemma_durs_fit_prefix(ks: Seq<RawGpuKernel>, n: int)
    requires
        0 <= n <= ks.len(),
        durs_fit(ks),
    ensures
        durs_fit(ks.take(n)),
    decreases ks.len(),
{
    if n == ks.len() {
        assert(ks.take(n) =~= ks);
    } else {
        lemma_durs_fit_prefix(ks.drop_last(), n);
        assert(ks.drop_last().take(n) =~= ks.take(n));
    }
}

/// The running sums of the kernels `ks`, and their compute plus
/// communication total, fit in an `i64`.
pub open spec fn balance_fits(ks: Seq<RawGpuKernel>) -> bool {
    durs_fit(ks) && fits_i64(class_dur(ks, false) + class_dur(ks, true))
}

/// The compute and communication time of the kernels at `members`, or
/// `None` when a running sum or their total leaves `i64`.
fn class_durs(items: &Vec<RawLayerGpu>, members: &Vec<usize>) -> (r: Option<RankLayerAgg>)
    requires
        forall|j: int| 0 <= j < members@.len() ==> (#[trigger] members@[j] as int) < items@.len(),
    ensures
        r is Some <==> balance_fits(kernels_at(items@, members@)),
        r matches Some(a) ==> a.compute_us == class_dur(kernels_at(items@, members@), false) && a.comm_us == class_dur(
            kernels_at(items@, members@),
            true,
        ),
{
    let ghost ks = kernels_at(items@, members@);
    let mut agg = RankLayerAgg::default();
    let mut i: usize = 0;
    proof {
        assert(ks.take(0) =~= Seq::<RawGpuKernel>::empty());
    }
    while i < members.len()
        invariant
            i <= members@.len(),
            ks == kernels_at(items@, members@),
            forall|j: int| 0 <= j < members@.len() ==> (#[trigger] members@[j] as int) < items@.len(),
            durs_fit(ks.take(i as int)),
            agg.compute_us == class_dur(ks.take(i as int), false),
            agg.comm_us == class_dur(ks.take(i as int), true),
        decreases members@.len() - i,
    {
        let k = &items[members[i]].gpu;
        let ghost cur = ks.take(i + 1);
        proof {
            assert(ks[i as int] == *k);
            assert(cur.drop_last() =~= ks.take(i as int));
            assert(cur.last() == *k);
        }
        let comm = is_nccl_kernel(k.name.as_str());
        let sum_ok = if comm {
            agg.comm_us.checked_add(k.dur)
        } else {
            agg.compute_us.checked_add(k.dur)
        };
        if sum_ok.is_none() {
            proof {
                assert(!durs_fit(cur));
                if durs_fit(ks) {
                    lemma_durs_fit_prefix(ks, i + 1);
                }
            }
            return None;
        }
        agg.add(k.name.as_str(), k.dur);
        i += 1;
    }
    proof {
        assert(ks.take(members@.len() as int) =~= ks);
    }
    if agg.compute_us.checked_add(agg.comm_us).is_none() {
        return None;
    }
    Some(agg)
}

/// Per layer, the compute, communication and total time of each rank.
#[derive(Clone, Debug)]
pub struct LayerBalanceRow {
    pub layer: String,
    pub compute: Vec<i64>,
    pub comm: Vec<i64>,
    pub total: Vec<i64>,
}

/// Some kernel is attributed to the rank named `x`.
pub open spec fn is_item_rank(items: Seq<RawLayerGpu>, x: Seq<char>) -> bool {
    exists|i: int| 0 <= i < items.len() && (#[trigger] items[i]).rank@ == x
}

/// Some kernel is attributed to the layer named `x`.
pub open spec fn is_item_layer(items: Seq<RawLayerGpu>, x: Seq<char>) -> bool {
    exists|i: int| 0 <= i < items.len() && (#[trigger] items[i]).layer@ == x
}

/// The layers of balance rows.
pub open spec fn row_layers(rows: Seq<LayerBalanceRow>) -> Seq<String> {
    rows.map_values(|r: LayerBalanceRow| r.layer)
}

/// `row` holds, for the rank `ranks[j]` at each `j`, the compute and the
/// communication time of its kernels in the row's layer, and their sum.
pub open spec fn balance_row_is(items: Seq<RawLayerGpu>, ranks: Seq<String>, row: LayerBalanceRow) -> bool {
    &&& row.compute@.len() == ranks.len()
    &&& row.comm@.len() == ranks.len()
    &&& row.total@.len() == ranks.len()
    &&& forall|j: int|
        0 <= j < ranks.len() ==> {
            &&& #[trigger] row.compute@[j] == class_dur(kernels_of(items, (ranks[j]@, row.layer@)), false)
            &&& row.comm@[j] == class_dur(kernels_of(items, (ranks[j]@, row.layer@)), true)
            &&& row.total@[j] == row.compute@[j] + row.comm@[j]
        }
}

/// `ranks` and `rows` are the balance table of the kernels `items`: the
/// distinct ranks in rank order, the distinct layers in byte order, and
/// per layer the time of each rank.
pub open spec fn balance_table(items: Seq<RawLayerGpu>, ranks: Seq<String>, rows: Seq<LayerBalanceRow>) -> bool {
    &&& names_distinct(ranks)
    &&& names_ordered(true, ranks)
    &&& forall|j: int| 0 <= j < ranks.len() ==> #[trigger] is_item_rank(items, ranks[j]@)
    &&& forall|i: int| 0 <= i < items.len() ==> #[trigger] name_listed(ranks, items[i].rank@)
    &&& names_distinct(row_layers(rows))
    &&& names_ordered(false, row_layers(rows))
    &&& forall|j: int| 0 <= j < rows.len() ==> #[trigger] is_item_layer(items, rows[j].layer@)
    &&& forall|i: int| 0 <= i < items.len() ==> #[trigger] name_listed(row_layers(rows), items[i].layer@)
    &&& forall|j: int| 0 <= j < rows.len() ==> #[trigger] balance_row_is(items, ranks, rows[j])
}

/// `sums` holds, per group, the compute and communication time of the
/// group's kernels, all of whose sums fit.
pub open spec fn sums_are(items: Seq<RawLayerGpu>, gs: Seq<PairGroup>, sums: Seq<RankLayerAgg>) -> bool {
    &&& sums.len() == gs.len()
    &&& forall|q: int|
        0 <= q < gs.len() ==> {
            &&& #[trigger] balance_fits(kernels_of(items, gs[q].key()))
            &&& sums[q].compute_us == class_dur(kernels_of(items, gs[q].key()), false)
            &&& sums[q].comm_us == class_dur(kernels_of(items, gs[q].key()), true)
        }
}

/// The balance row of one layer: per rank, the time of the group of that
/// rank and layer, or 0 where there is none.
fn balance_row(
    items: &Vec<RawLayerGpu>,
    keys: &Vec<(String, String)>,
    kg: &KeyGroups,
    sums: &Vec<RankLayerAgg>,
    ranks: &Vec<String>,
    layer: &String,
) -> (row: LayerBalanceRow)
    requires
        kg.wf(),
        keys@ == rank_layer_keys(items@),
        grouped(keys@, kg.key_groups()),
        sums_are(items@, kg.key_groups(), sums@),
    ensures
        row.layer == *layer,
        balance_row_is(items@, ranks@, row),
{
    let ghost gs = kg.key_groups();
    let mut compute: Vec<i64> = Vec::new();
    let mut comm: Vec<i64> = Vec::new();
    let mut total: Vec<i64> = Vec::new();
    let mut k: usize = 0;
    while k < ranks.len()
        invariant
            kg.wf(),
            gs == kg.key_groups(),
            keys@ == rank_layer_keys(items@),
            grouped(keys@, gs),
            sums_are(items@, gs, sums@),
            k <= ranks@.len(),
            compute@.len() == k,
            comm@.len() == k,
            total@.len() == k,
            forall|j: int|
                0 <= j < k ==> {
                    &&& #[trigger] compute@[j] == class_dur(kernels_of(items@, (ranks@[j]@, layer@)), false)
                    &&& comm@[j] == class_dur(kernels_of(items@, (ranks@[j]@, layer@)), true)
                    &&& total@[j] == compute@[j] + comm@[j]
                },
        decreases ranks@.len() - k,
    {
        let ghost cell = (ranks@[k as int]@, layer@);
        match kg.find(ranks[k].as_str(), layer.as_str()) {
            Some(q) => {
                let a = sums[q];
                proof {
                    assert(gs[q as int].key() == cell);
                    assert(balance_fits(kernels_of(items@, gs[q as int].key())));
                }
                compute.push(a.compute_us);
                comm.push(a.comm_us);
                total.push(a.compute_us + a.comm_us);
            },
            None => {
                proof {
                    assert forall|i: int| 0 <= i < keys@.len() implies pair_view(#[trigger] keys@[i]) != cell by {
                        assert(has_group(gs, pair_view(keys@[i])));
                        let q = choose|q: int| 0 <= q < gs.len() && #[trigger] gs[q].key() == pair_view(keys@[i]);
                    }
                    lemma_positions_absent(keys@, cell);
                    assert(kernels_of(items@, cell) =~= Seq::<RawGpuKernel>::empty());
                }
                compute.push(0);
                comm.push(0);
                total.push(0);
            },
        }
        k += 1;
    }
    LayerBalanceRow { layer: layer.clone(), compute, comm, total }
}

/// The balance table of the kernels: the ranks in rank order, and per
/// layer, in byte order, the compute, communication and total time of each
/// rank (0 where a rank has no kernel in the layer); `None` when a sum
/// leaves `i64`.
pub fn layer_balance_table(items: &Vec<RawLayerGpu>) -> (r: Option<(Vec<String>, Vec<LayerBalanceRow>)>)
    requires
        items@.len() <= u32::MAX,
    ensures
        r is Some <==> forall|i: int|
            0 <= i < items@.len() ==> #[trigger] balance_fits(kernels_of(items@, item_key(items@[i]))),
        r matches Some(t) ==> balance_table(items@, t.0@, t.1@),
{
    let keys = rank_layer_pairs(items);
    let kg = group_pairs(&keys);
    let groups = kg.groups();
    let ghost gs = groups@;
    proof {
        assert forall|i: int| 0 <= i < items@.len() implies pair_view(#[trigger] keys@[i]) == item_key(items@[i]) by {}
    }
    let mut sums: Vec<RankLayerAgg> = Vec::new();
    let mut g: usize = 0;
    while g < groups.len()
        invariant
            keys@ == rank_layer_keys(items@),
            keys@.len() == items@.len(),
            keys@.len() <= u32::MAX,
            forall|i: int| 0 <= i < items@.len() ==> pair_view(#[trigger] keys@[i]) == item_key(items@[i]),
            gs == groups@,
            grouped(keys@, gs),
            g <= gs.len(),
            sums@.len() == g,
            forall|q: int|
                0 <= q < g ==> {
                    &&& #[trigger] balance_fits(kernels_of(items@, gs[q].key()))
                    &&& sums@[q].compute_us == class_dur(kernels_of(items@, gs[q].key()), false)
                    &&& sums@[q].comm_us == class_dur(kernels_of(items@, gs[q].key()), true)
                },
        decreases gs.len() - g,
    {
        let grp = &groups[g];
        let ghost key = grp.key();
        proof {
            lemma_positions_bounded(keys@, key);
            assert(grp.members@ == positions_of(keys@, key));
        }
        match class_durs(items, &grp.members) {
            Some(a) => {
                sums.push(a);
            },
            None => {
                proof {
                    let i0 = grp.members@[0] as int;
                    assert(pair_view(keys@[i0]) == key);
                    assert(!balance_fits(kernels_of(items@, item_key(items@[i0]))));
                }
                return None;
            },
        }
        g += 1;
    }
    let ranks = group_names(groups, true, true);
    let layers = group_names(groups, false, false);
    let mut rows: Vec<LayerBalanceRow> = Vec::new();
    let mut l: usize = 0;
    while l < layers.len()
        invariant
            kg.wf(),
            kg.key_groups() == gs,
            keys@ == rank_layer_keys(items@),
            forall|i: int| 0 <= i < items@.len() ==> pair_view(#[trigger] keys@[i]) == item_key(items@[i]),
            grouped(keys@, gs),
            sums_are(items@, gs, sums@),
            l <= layers@.len(),
            rows@.len() == l,
            forall|j: int| 0 <= j < l ==> (#[trigger] rows@[j]).layer == layers@[j],
            forall|j: int| 0 <= j < l ==> #[trigger] balance_row_is(items@, ranks@, rows@[j]),
        decreases layers@.len() - l,
    {
        let row = balance_row(items, &keys, &kg, &sums, &ranks, &layers[l]);
        let ghost before = rows@;
        rows.push(row);
        proof {
            assert forall|j: int| 0 <= j < l implies #[trigger] balance_row_is(items@, ranks@, rows@[j]) by {
                assert(rows@[j] == before[j]);
            }
        }
        l += 1;
    }
    proof {
        assert(row_layers(rows@) =~= layers@);
        assert forall|i: int| 0 <= i < items@.len() implies #[trigger] balance_fits(kernels_of(items@, item_key(items@[i]))) by {
            assert(has_group(gs, pair_view(keys@[i])));
            let q = choose|q: int| 0 <= q < gs.len() && #[trigger] gs[q].key() == pair_view(keys@[i]);
        }
        assert forall|j: int| 0 <= j < ranks@.len() implies #[trigger] is_item_rank(items@, ranks@[j]@) by {
            assert(names_a_group(gs, true, ranks@[j]@));
            let q = choose|q: int| 0 <= q < gs.len() && #[trigger] group_name(gs[q], true) == ranks@[j]@;
            lemma_positions_bounded(keys@, gs[q].key());
            let i0 = gs[q].members@[0] as int;
            assert(pair_view(keys@[i0]) == gs[q].key());
            assert(items@[i0].rank@ == ranks@[j]@);
        }
        assert forall|j: int| 0 <= j < layers@.len() implies #[trigger] is_item_layer(items@, rows@[j].layer@) by {
            assert(names_a_group(gs, false, layers@[j]@));
            let q = choose|q: int| 0 <= q < gs.len() && #[trigger] group_name(gs[q], false) == layers@[j]@;
            lemma_positions_bounded(keys@, gs[q].key());
            let i0 = gs[q].members@[0] as int;
            assert(pair_view(keys@[i0]) == gs[q].key());
            assert(items@[i0].layer@ == layers@[j]@);
        }
        assert forall|i: int| 0 <= i < items@.len() implies #[trigger] name_listed(ranks@, items@[i].rank@) by {
            assert(has_group(gs, pair_view(keys@[i])));
            let q = choose|q: int| 0 <= q < gs.len() && #[trigger] gs[q].key() == pair_view(keys@[i]);
            assert(name_listed(ranks@, group_name(gs[q], true)));
        }
        assert forall|i: int| 0 <= i < items@.len() implies #[trigger] name_listed(row_layers(rows@), items@[i].layer@) by {
            assert(has_group(gs, pair_view(keys@[i])));
            let q = choose|q: int| 0 <= q < gs.len() && #[trigger] gs[q].key() == pair_view(keys@[i]);
            assert(name_listed(layers@, group_name(gs[q], false)));
        }
    }
    Some((ranks, rows))
}

/// The keys `(layer, kernel name)` of attributed kernels.
pub open spec fn layer_kernel_keys(items: Seq<RawLayerGpu>) -> Seq<(String, String)> {
    items.map_values(|it: RawLayerGpu| (it.layer, it.gpu.name))
}

/// The key `(layer, kernel name)` of an attributed kernel, by its
/// characters.
pub open spec fn hot_key(it: RawLayerGpu) -> (Seq<char>, Seq<char>) {
    (it.layer@, it.gpu.name@)
}

/// The kernels named `k.1` attributed to the layer `k.0`.
pub open spec fn kernel_runs(items: Seq<RawLayerGpu>, k: (Seq<char>, Seq<char>)) -> Seq<RawGpuKernel> {
    kernels_at(items, positions_of(layer_kernel_keys(items), k))
}

/// The summed durations of kernels.
pub open spec fn dur_total(ks: Seq<RawGpuKernel>) -> int
    decreases ks.len(),
{
    if ks.len() == 0 {
        0
    } else {
        dur_total(ks.drop_last()) + ks.last().dur
    }
}

/// Every running sum of the durations fits in an `i64`.
pub open spec fn dur_total_fits(ks: Seq<RawGpuKernel>) -> bool {
    forall|n: int| 0 < n <= ks.len() ==> #[trigger] fits_i64(dur_total(ks.take(n)))
}

/// A hotspot entry: the key `(layer, kernel)` and kernel count, with the
/// summed duration.
pub type HotEntry = ((String, String, u64), i64);

/// The key of a hotspot entry, by its characters.
pub open spec fn hot_entry_key(e: HotEntry) -> (Seq<char>, Seq<char>) {
    (e.0.0@, e.0.1@)
}

/// `e` is the entry of its layer and kernel: how many of the kernels have
/// that key, and their summed duration.
pub open spec fn hot_entry_is(items: Seq<RawLayerGpu>, e: HotEntry) -> bool {
    let ps = positions_of(layer_kernel_keys(items), hot_entry_key(e));
    &&& ps.len() > 0
    &&& e.0.2 == ps.len()
    &&& e.1 == dur_total(kernels_at(items, ps))
}

/// Some entry has the key `k`.
pub open spec fn has_hot_entry(e: Seq<HotEntry>, k: (Seq<char>, Seq<char>)) -> bool {
    exists|j: int| 0 <= j < e.len() && #[trigger] hot_entry_key(e[j]) == k
}

/// `e` lists each layer and kernel of the kernels once, with its count and
/// summed duration.
pub open spec fn hot_entries(items: Seq<RawLayerGpu>, e: Seq<HotEntry>) -> bool {
    &&& forall|j: int| 0 <= j < e.len() ==> #[trigger] hot_entry_is(items, e[j])
    &&& forall|a: int, b: int| 0 <= a < b < e.len() ==> hot_entry_key(#[trigger] e[a]) != hot_entry_key(#[trigger] e[b])
    &&& forall|i: int| 0 <= i < items.len() ==> #[trigger] has_hot_entry(e, hot_key(items[i]))
}

/// The `(layer, kernel name)` keys of the kernels.
fn layer_kernel_pairs(items: &Vec<RawLayerGpu>) -> (keys: Vec<(String, String)>)
    ensures
        keys@ == layer_kernel_keys(items@),
{
    let mut keys: Vec<(String, String)> = Vec::new();
    let mut i: usize = 0;
    while i < items.len()
        invariant
            i <= items@.len(),
            keys@ == layer_kernel_keys(items@.take(i as int)),
        decreases items@.len() - i,
    {
        keys.push((items[i].layer.clone(), items[i].gpu.name.clone()));
        i += 1;
        proof {
            assert(layer_kernel_keys(items@.take(i as int)) =~= layer_kernel_keys(items@.take(i - 1)).push(
                (items@[i - 1].layer, items@[i - 1].gpu.name),
            ));
        }
    }
    proof {
        assert(items@.take(items@.len() as int) =~= items@);
    }
    keys
}

/// The summed duration of the kernels at `members`, or `None` when a
/// running sum leaves `i64`.
fn members_dur(items: &Vec<RawLayerGpu>, members: &Vec<usize>) -> (r: Option<i64>)
    requires
        forall|j: int| 0 <= j < members@.len() ==> (#[trigger] members@[j] as int) < items@.len(),
    ensures
        r is Some <==> dur_total_fits(kernels_at(items@, members@)),
        r matches Some(t) ==> t == dur_total(kernels_at(items@, members@)),
{
    let ghost ks = kernels_at(items@, members@);
    let mut total: i64 = 0;
    let mut i: usize = 0;
    proof {
        assert(ks.take(0) =~= Seq::<RawGpuKernel>::empty());
    }
    while i < members.len()
        invariant
            i <= members@.len(),
            ks == kernels_at(items@, members@),
            forall|j: int| 0 <= j < members@.len() ==> (#[trigger] members@[j] as int) < items@.len(),
            forall|n: int| 0 < n <= i ==> #[trigger] fits_i64(dur_total(ks.take(n))),
            total == dur_total(ks.take(i as int)),
        decreases members@.len() - i,
    {
        let d = items[members[i]].gpu.dur;
        proof {
            assert(ks[i as int].dur == d);
            assert(ks.take(i + 1).drop_last() =~= ks.take(i as int));
        }
        total = match total.checked_add(d) {
            Some(t) => t,
            None => {
                proof {
                    assert(!fits_i64(dur_total(ks.take(i + 1))));
                }
                return None;
            },
        };
        i += 1;
    }
    proof {
        assert(ks.take(members@.len() as int) =~= ks);
    }
    Some(total)
}

/// The kernels with the most time per layer: each layer and kernel name
/// with its kernel count and summed duration, the `top_k` with the largest
/// sums first; `None` when a sum leaves `i64`. Kernel names are taken as
/// given.
pub fn layer_kernel_hotspot(items: &Vec<RawLayerGpu>, top_k: usize) -> (r: Option<Vec<HotEntry>>)
    requires
        items@.len() <= u32::MAX,
    ensures
        r is Some <==> forall|i: int|
            0 <= i < items@.len() ==> #[trigger] dur_total_fits(kernel_runs(items@, hot_key(items@[i]))),
        r matches Some(rows) ==> exists|e: Seq<HotEntry>| hot_entries(items@, e) && top_n_of(e, top_k as nat, rows@),
{
    let keys = layer_kernel_pairs(items);
    let kg = group_pairs(&keys);
    let groups = kg.groups();
    let ghost gs = groups@;
    proof {
        assert forall|i: int| 0 <= i < items@.len() implies pair_view(#[trigger] keys@[i]) == hot_key(items@[i]) by {}
    }
    let mut entries: Vec<HotEntry> = Vec::new();
    let mut g: usize = 0;
    while g < groups.len()
        invariant
            keys@ == layer_kernel_keys(items@),
            keys@.len() == items@.len(),
            keys@.len() <= u32::MAX,
            forall|i: int| 0 <= i < items@.len() ==> pair_view(#[trigger] keys@[i]) == hot_key(items@[i]),
            gs == groups@,
            grouped(keys@, gs),
            g <= gs.len(),
            entries@.len() == g,
            forall|q: int| 0 <= q < g ==> #[trigger] dur_total_fits(kernel_runs(items@, gs[q].key())),
            forall|q: int| 0 <= q < g ==> hot_entry_key(#[trigger] entries@[q]) == gs[q].key(),
            forall|q: int| 0 <= q < g ==> #[trigger] hot_entry_is(items@, entries@[q]),
        decreases gs.len() - g,
    {
        let grp = &groups[g];
        let ghost key = grp.key();
        proof {
            lemma_positions_bounded(keys@, key);
            assert(grp.members@ == positions_of(keys@, key));
        }
        let total = match members_dur(items, &grp.members) {
            Some(t) => t,
            None => {
                proof {
                    let i0 = grp.members@[0] as int;
                    assert(pair_view(keys@[i0]) == key);
                    assert(!dur_total_fits(kernel_runs(items@, hot_key(items@[i0]))));
                }
                return None;
            },
        };
        let count = grp.members.len() as u64;
        entries.push(((grp.first.clone(), grp.second.clone(), count), total));
        g += 1;
    }
    let ghost e = entries@;
    proof {
        assert forall|a: int, b: int| 0 <= a < b < e.len() implies hot_entry_key(#[trigger] e[a]) != hot_entry_key(
        #[trigger] e[b]) by {
            assert(gs[a].key() != gs[b].key());
        }
        assert forall|i: int| 0 <= i < items@.len() implies #[trigger] has_hot_entry(e, hot_key(items@[i])) by {
            assert(has_group(gs, pair_view(keys@[i])));
            let q = choose|q: int| 0 <= q < gs.len() && #[trigger] gs[q].key() == pair_view(keys@[i]);
            assert(hot_entry_key(e[q]) == gs[q].key());
        }
        assert forall|i: int| 0 <= i < items@.len() implies #[trigger] dur_total_fits(kernel_runs(items@, hot_key(items@[i]))) by {
            assert(has_group(gs, pair_view(keys@[i])));
            let q = choose|q: int| 0 <= q < gs.len() && #[trigger] gs[q].key() == pair_view(keys@[i]);
        }
        assert(hot_entries(items@, e));
    }
    let rows = top_by_total(entries, top_k);
    Some(rows)
}

} // verus!
