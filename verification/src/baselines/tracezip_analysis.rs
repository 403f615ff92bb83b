//! In-situ analyses of a bucket payload: the rows each analysis reads from
//! the bucket columns (kernel events by rank, kernel time by class,
//! durations by event name), and what it computes from them.

use vstd::prelude::*;

use crate::analysis::compute_comm_overlap::fits_i64;
use crate::analysis::kernel_class::{is_nccl_kernel, spec_is_nccl_kernel};
use crate::baselines::insitu::{
    prefix_sums_fit_all, busy_rows_ok, has_rank, named_busy_of, named_listing, named_rank_busy, named_rank_totals, rank_events,
    rank_totals_of, totals_rows_ok, RankBusy, RankTotals,
};
use crate::baselines::scalatrace::dict_view;
use crate::baselines::tracezip::{GlobalBucket, TraceZipPayload};

verus! {

/// Entry `i` of a bucket is a kernel with a duration: its category is
/// `kernel` and its duration is present.
pub open spec fn tz_kernel_at(dict: Seq<Seq<char>>, bk: GlobalBucket, i: int) -> bool {
    &&& bk.cat_dict_id_plus1@[i] != 0
    &&& dict[bk.cat_dict_id_plus1@[i] - 1] == "kernel"@
    &&& bk.dur_present@[i]
}

/// Reading whether entry `i` is a kernel stays inside the columns and the
/// dictionary.
pub open spec fn tz_kind_readable(dict: Seq<Seq<char>>, bk: GlobalBucket, i: int) -> bool {
    &&& i < bk.cat_dict_id_plus1@.len()
    &&& bk.cat_dict_id_plus1@[i] != 0 ==> {
        &&& bk.cat_dict_id_plus1@[i] - 1 < dict.len()
        &&& dict[bk.cat_dict_id_plus1@[i] - 1] == "kernel"@ ==> i < bk.dur_present@.len()
    }
}

/// The bubble analysis can read entry `i` of bucket `b`: its kind, and for
/// a kernel its stream, its `ts` (within `i64`) and its `dur`.
pub open spec fn tz_bubble_ok_at(p: TraceZipPayload, b: int, i: int) -> bool {
    let dict = dict_view(p.dict_strings@);
    let bk = p.global_buckets@[b];
    &&& tz_kind_readable(dict, bk, i)
    &&& tz_kernel_at(dict, bk, i) ==> {
        &&& (bk.stream_ids@[i] as int) < p.streams@.len()
        &&& i < bk.ts_offsets@.len()
        &&& i < bk.dur@.len()
        &&& fits_i64(p.streams@[bk.stream_ids@[i] as int].time_base + bk.ts_offsets@[i])
    }
}

/// The bubble analysis can read every entry of every bucket.
pub open spec fn tz_bubble_ok(p: TraceZipPayload) -> bool {
    forall|b: int, i: int|
        0 <= b < p.global_buckets@.len() && 0 <= i < p.global_buckets@[b].stream_ids@.len()
            ==> #[trigger] tz_bubble_ok_at(p, b, i)
}

/// The kernel rows `(rank, (ts, dur))` of the first `n` entries of bucket
/// `b`: `ts` is the entry's offset from its stream's time base.
pub open spec fn tz_bucket_kernel_rows(p: TraceZipPayload, b: int, n: int) -> Seq<(u32, (i64, i64))>
    decreases n,
{
    if n <= 0 {
        Seq::empty()
    } else {
        let bk = p.global_buckets@[b];
        let i = n - 1;
        tz_bucket_kernel_rows(p, b, n - 1) + if tz_kernel_at(dict_view(p.dict_strings@), bk, i) {
            let st = p.streams@[bk.stream_ids@[i] as int];
            seq![(st.rank_dict_id, ((st.time_base + bk.ts_offsets@[i]) as i64, bk.dur@[i]))]
        } else {
            Seq::empty()
        }
    }
}

/// The kernel rows of the first `k` buckets, bucket after bucket.
pub open spec fn tz_kernel_rows(p: TraceZipPayload, k: int) -> Seq<(u32, (i64, i64))>
    decreases k,
{
    if k <= 0 {
        Seq::empty()
    } else {
        tz_kernel_rows(p, k - 1) + tz_bucket_kernel_rows(p, k - 1, p.global_buckets@[k - 1].stream_ids@.len() as int)
    }
}

/// The text is `kernel`.
fn is_kernel_text(s: &String) -> (b: bool)
    ensures
        b == (s@ == "kernel"@),
{
    let k = "kernel".to_owned();
    *s == k
}

/// Whether entry `i` of a bucket is a kernel with a duration.
fn entry_is_kernel(dict: &Vec<String>, bk: &GlobalBucket, i: usize) -> (r: bool)
    requires
        tz_kind_readable(dict_view(dict@), *bk, i as int),
    ensures
        r == tz_kernel_at(dict_view(dict@), *bk, i as int),
{
    let cat = bk.cat_dict_id_plus1[i];
    if cat == 0 {
        return false;
    }
    if !is_kernel_text(&dict[(cat - 1) as usize]) {
        return false;
    }
    bk.dur_present[i]
}

/// The kernel rows `(rank, (ts, dur))` of every bucket: each entry whose
/// category is `kernel` and whose duration is present, placed at its
/// stream's time base plus its offset, bucket after bucket.
pub fn tz_collect_kernel_rows(p: &TraceZipPayload) -> (rows: Vec<(u32, (i64, i64))>)
    requires
        tz_bubble_ok(*p),
    ensures
        rows@ == tz_kernel_rows(*p, p.global_buckets@.len() as int),
{
    let mut rows: Vec<(u32, (i64, i64))> = Vec::new();
    let mut b: usize = 0;
    while b < p.global_buckets.len()
        invariant
            b <= p.global_buckets@.len(),
            tz_bubble_ok(*p),
            rows@ == tz_kernel_rows(*p, b as int),
        decreases p.global_buckets@.len() - b,
    {
        let bk = &p.global_buckets[b];
        let ghost base = rows@;
        let mut i: usize = 0;
        while i < bk.stream_ids.len()
            invariant
                i <= bk.stream_ids@.len(),
                *bk == p.global_buckets@[b as int],
                b < p.global_buckets@.len(),
                tz_bubble_ok(*p),
                rows@ == base + tz_bucket_kernel_rows(*p, b as int, i as int),
            decreases bk.stream_ids@.len() - i,
        {
            proof {
                assert(tz_bubble_ok_at(*p, b as int, i as int));
            }
            if entry_is_kernel(&p.dict_strings, bk, i) {
                let st = &p.streams[bk.stream_ids[i] as usize];
                rows.push((st.rank_dict_id, (st.time_base + bk.ts_offsets[i], bk.dur[i])));
            }
            i += 1;
            proof {
                assert(rows@ =~= base + tz_bucket_kernel_rows(*p, b as int, i as int));
            }
        }
        b += 1;
    }
    rows
}

/// The busy time, span and kernel count of every rank of a bucket
/// payload, ranks ascending, each with its name.
pub fn tz_bubble_stats(p: &TraceZipPayload) -> (out: Vec<(String, RankBusy)>)
    requires
        tz_bubble_ok(*p),
        busy_rows_ok(tz_kernel_rows(*p, p.global_buckets@.len() as int), p.dict_strings@.len()),
    ensures
        named_busy_of(tz_kernel_rows(*p, p.global_buckets@.len() as int), p.dict_strings@, out@),
{
    let rows = tz_collect_kernel_rows(p);
    named_rank_busy(&rows, &p.dict_strings)
}

/// The name of the schema of bucket `b`.
pub open spec fn tz_bucket_name(p: TraceZipPayload, b: int) -> Seq<char> {
    dict_view(p.dict_strings@)[p.schemas@[p.global_buckets@[b].schema_id as int].name_dict_id as int]
}

/// Bucket `b`'s schema, and its name, lie inside the payload.
pub open spec fn tz_schema_readable(p: TraceZipPayload, b: int) -> bool {
    let bk = p.global_buckets@[b];
    &&& (bk.schema_id as int) < p.schemas@.len()
    &&& (p.schemas@[bk.schema_id as int].name_dict_id as int) < p.dict_strings@.len()
}

/// The balance analysis can read entry `i` of bucket `b`: its kind, and
/// for a kernel its `dur` and its stream.
pub open spec fn tz_balance_ok_at(p: TraceZipPayload, b: int, i: int) -> bool {
    let dict = dict_view(p.dict_strings@);
    let bk = p.global_buckets@[b];
    &&& tz_kind_readable(dict, bk, i)
    &&& tz_kernel_at(dict, bk, i) ==> i < bk.dur@.len() && (bk.stream_ids@[i] as int) < p.streams@.len()
}

/// The balance analysis can read every bucket's schema and every entry.
pub open spec fn tz_balance_ok(p: TraceZipPayload) -> bool {
    &&& forall|b: int| 0 <= b < p.global_buckets@.len() ==> #[trigger] tz_schema_readable(p, b)
    &&& forall|b: int, i: int|
        0 <= b < p.global_buckets@.len() && 0 <= i < p.global_buckets@[b].stream_ids@.len()
            ==> #[trigger] tz_balance_ok_at(p, b, i)
}

/// The balance rows `(rank, (dur, is_comm))` of the first `n` entries of
/// bucket `b`: a kernel is communication when its schema's name is that
/// of a collective.
pub open spec fn tz_bucket_balance_rows(p: TraceZipPayload, b: int, n: int) -> Seq<(u32, (i64, bool))>
    decreases n,
{
    if n <= 0 {
        Seq::empty()
    } else {
        let bk = p.global_buckets@[b];
        let i = n - 1;
        tz_bucket_balance_rows(p, b, n - 1) + if tz_kernel_at(dict_view(p.dict_strings@), bk, i) {
            seq![
                (
                    p.streams@[bk.stream_ids@[i] as int].rank_dict_id,
                    (bk.dur@[i], spec_is_nccl_kernel(tz_bucket_name(p, b))),
                ),
            ]
        } else {
            Seq::empty()
        }
    }
}

/// The balance rows of the first `k` buckets, bucket after bucket.
pub open spec fn tz_balance_rows(p: TraceZipPayload, k: int) -> Seq<(u32, (i64, bool))>
    decreases k,
{
    if k <= 0 {
        Seq::empty()
    } else {
        tz_balance_rows(p, k - 1) + tz_bucket_balance_rows(p, k - 1, p.global_buckets@[k - 1].stream_ids@.len() as int)
    }
}

/// The balance rows `(rank, (dur, is_comm))` of every bucket, bucket after
/// bucket.
pub fn tz_collect_balance_rows(p: &TraceZipPayload) -> (rows: Vec<(u32, (i64, bool))>)
    requires
        tz_balance_ok(*p),
    ensures
        rows@ == tz_balance_rows(*p, p.global_buckets@.len() as int),
{
    let mut rows: Vec<(u32, (i64, bool))> = Vec::new();
    let mut b: usize = 0;
    while b < p.global_buckets.len()
        invariant
            b <= p.global_buckets@.len(),
            tz_balance_ok(*p),
            rows@ == tz_balance_rows(*p, b as int),
        decreases p.global_buckets@.len() - b,
    {
        let bk = &p.global_buckets[b];
        proof {
            assert(tz_schema_readable(*p, b as int));
        }
        let schema = &p.schemas[bk.schema_id as usize];
        let comm = is_nccl_kernel(p.dict_strings[schema.name_dict_id as usize].as_str());
        let ghost base = rows@;
        let mut i: usize = 0;
        while i < bk.stream_ids.len()
            invariant
                i <= bk.stream_ids@.len(),
                *bk == p.global_buckets@[b as int],
                b < p.global_buckets@.len(),
                tz_balance_ok(*p),
                comm == spec_is_nccl_kernel(tz_bucket_name(*p, b as int)),
                rows@ == base + tz_bucket_balance_rows(*p, b as int, i as int),
            decreases bk.stream_ids@.len() - i,
        {
            proof {
                assert(tz_balance_ok_at(*p, b as int, i as int));
            }
            if entry_is_kernel(&p.dict_strings, bk, i) {
                let rank = p.streams[bk.stream_ids[i] as usize].rank_dict_id;
                rows.push((rank, (bk.dur[i], comm)));
            }
            i += 1;
            proof {
                assert(rows@ =~= base + tz_bucket_balance_rows(*p, b as int, i as int));
            }
        }
        b += 1;
    }
    rows
}

/// The compute and communication kernel time of every rank of a bucket
/// payload, under the rank names, names ascending.
pub fn tz_rank_load_balance(p: &TraceZipPayload) -> (out: Vec<(String, i64, i64)>)
    requires
        tz_balance_ok(*p),
        totals_rows_ok(tz_balance_rows(*p, p.global_buckets@.len() as int), p.dict_strings@.len()),
    ensures
        exists|t: Seq<RankTotals>|
            rank_totals_of(tz_balance_rows(*p, p.global_buckets@.len() as int), t) && named_listing(
                p.dict_strings@,
                t,
                out@,
            ),
{
    let rows = tz_collect_balance_rows(p);
    named_rank_totals(&rows, &p.dict_strings)
}

/// The sum of the durations whose presence flag is set, over the first
/// `n` entries.
pub open spec fn present_total(dur: Seq<i64>, present: Seq<bool>, n: int) -> int
    decreases n,
{
    if n <= 0 {
        0
    } else {
        present_total(dur, present, n - 1) + if present[n - 1] {
            dur[n - 1] as int
        } else {
            0
        }
    }
}

/// The number of entries that both the duration and the presence columns
/// of a bucket have.
pub open spec fn paired_len(bk: GlobalBucket) -> int {
    if bk.dur@.len() <= bk.dur_present@.len() {
        bk.dur@.len() as int
    } else {
        bk.dur_present@.len() as int
    }
}

/// The present durations of bucket `b`, summed.
pub open spec fn tz_bucket_total(p: TraceZipPayload, b: int) -> int {
    let bk = p.global_buckets@[b];
    present_total(bk.dur@, bk.dur_present@, paired_len(bk))
}

/// The rows `(name, total)` of the first `k` buckets.
pub open spec fn tz_name_rows(p: TraceZipPayload, k: int) -> Seq<(Seq<char>, int)>
    decreases k,
{
    if k <= 0 {
        Seq::empty()
    } else {
        tz_name_rows(p, k - 1).push((tz_bucket_name(p, k - 1), tz_bucket_total(p, k - 1)))
    }
}

/// There is one name row per bucket.
proof fn lemma_name_rows_len(p: TraceZipPayload, k: int)
    requires
        k >= 0,
    ensures
        tz_name_rows(p, k).len() == k,
    decreases k,
{
    if k > 0 {
        lemma_name_rows_len(p, k - 1);
    }
}

/// The totals of the rows named `s`, in row order.
pub open spec fn name_events(rows: Seq<(Seq<char>, int)>, s: Seq<char>) -> Seq<int>
    decreases rows.len(),
{
    if rows.len() == 0 {
        Seq::empty()
    } else {
        name_events(rows.drop_last(), s) + if rows.last().0 == s {
            seq![rows.last().1]
        } else {
            Seq::empty()
        }
    }
}

/// The sum of a sequence of integers.
pub open spec fn int_sum(v: Seq<int>) -> int
    decreases v.len(),
{
    if v.len() == 0 {
        0
    } else {
        int_sum(v.drop_last()) + v.last()
    }
}

/// Some row is named `s`.
pub open spec fn has_name(rows: Seq<(Seq<char>, int)>, s: Seq<char>) -> bool {
    exists|i: int| 0 <= i < rows.len() && #[trigger] rows[i].0 == s
}

/// The hotspot analysis can read every bucket's schema and sum its
/// durations, and every running total by name stays within `i64`.
pub open spec fn tz_hotspot_ok(p: TraceZipPayload) -> bool {
    let rows = tz_name_rows(p, p.global_buckets@.len() as int);
    &&& tz_buckets_summable(p)
    &&& forall|s: Seq<char>, n: int|
        0 <= n <= name_events(rows, s).len() ==> fits_i64(#[trigger] int_sum(name_events(rows, s).take(n)))
}

/// `e` lists each name of the rows once, with the sum of its totals.
pub open spec fn name_sums(rows: Seq<(Seq<char>, int)>, e: Seq<(String, i64)>) -> bool {
    &&& forall|a: int, b: int| 0 <= a < b < e.len() ==> e[a].0@ != e[b].0@
    &&& forall|s: Seq<char>| (exists|j: int| 0 <= j < e.len() && #[trigger] e[j].0@ == s) <==> has_name(rows, s)
    &&& forall|j: int| 0 <= j < e.len() ==> (#[trigger] e[j]).1 == int_sum(name_events(rows, e[j].0@))
}

/// The present durations of a bucket, summed.
fn bucket_total(bk: &GlobalBucket) -> (t: i64)
    requires
        forall|n: int| 0 <= n <= paired_len(*bk) ==> fits_i64(#[trigger] present_total(bk.dur@, bk.dur_present@, n)),
    ensures
        t == present_total(bk.dur@, bk.dur_present@, paired_len(*bk)),
{
    let n: usize = if bk.dur.len() <= bk.dur_present.len() {
        bk.dur.len()
    } else {
        bk.dur_present.len()
    };
    let mut total: i64 = 0;
    let mut j: usize = 0;
    while j < n
        invariant
            j <= n,
            n == paired_len(*bk),
            forall|m: int| 0 <= m <= paired_len(*bk) ==> fits_i64(#[trigger] present_total(bk.dur@, bk.dur_present@, m)),
            total == present_total(bk.dur@, bk.dur_present@, j as int),
        decreases n - j,
    {
        proof {
            assert(fits_i64(present_total(bk.dur@, bk.dur_present@, j + 1)));
        }
        if bk.dur_present[j] {
            total = total + bk.dur[j];
        }
        j += 1;
    }
    total
}

/// Rows keyed by dictionary id stand for rows named by the dictionary's
/// strings, which are distinct: the totals of a key are those of its name.
proof fn lemma_key_rows(
    names: Seq<Seq<char>>,
    keyed: Seq<(u32, i64)>,
    named: Seq<(Seq<char>, int)>,
    k: u32,
)
    requires
        keyed.len() == named.len(),
        forall|a: int, b: int| 0 <= a < b < names.len() ==> names[a] != names[b],
        (k as int) < names.len(),
        forall|t: int|
            0 <= t < keyed.len() ==> (#[trigger] keyed[t].0 as int) < names.len() && names[keyed[t].0 as int]
                == named[t].0 && keyed[t].1 as int == named[t].1,
    ensures
        rank_events(keyed, k).map_values(|v: i64| v as int) == name_events(named, names[k as int]),
    decreases keyed.len(),
{
    if keyed.len() > 0 {
        let n = keyed.len() - 1;
        lemma_key_rows(names, keyed.drop_last(), named.drop_last(), k);
        assert(keyed[n].0 == k <==> named[n].0 == names[k as int]) by {
            if named[n].0 == names[k as int] && keyed[n].0 != k {
                if keyed[n].0 < k {
                    assert(names[keyed[n].0 as int] != names[k as int]);
                } else {
                    assert(names[k as int] != names[keyed[n].0 as int]);
                }
            }
        }
        assert(rank_events(keyed, k).map_values(|v: i64| v as int) =~= name_events(named, names[k as int]));
    }
}

/// The sums of a list of values, read as integers, agree.
proof fn lemma_sum_as_int(v: Seq<i64>)
    ensures
        crate::event::seq_sum(v) == int_sum(v.map_values(|x: i64| x as int)),
    decreases v.len(),
{
    if v.len() > 0 {
        lemma_sum_as_int(v.drop_last());
        assert(v.drop_last().map_values(|x: i64| x as int) =~= v.map_values(|x: i64| x as int).drop_last());
    }
}

/// Every bucket's schema and name lie inside the payload, and the running
/// sum of each bucket's present durations stays within `i64`.
pub open spec fn tz_buckets_summable(p: TraceZipPayload) -> bool {
    &&& forall|b: int| 0 <= b < p.global_buckets@.len() ==> #[trigger] tz_schema_readable(p, b)
    &&& forall|b: int, n: int|
        0 <= b < p.global_buckets@.len() && 0 <= n <= paired_len(p.global_buckets@[b]) ==> fits_i64(
            #[trigger] present_total(p.global_buckets@[b].dur@, p.global_buckets@[b].dur_present@, n),
        )
}

/// Rows keyed by dictionary id that stand for the name rows: the
/// dictionary holds each name once, and row `t` has the id of the name
/// and the total of name row `t`.
pub open spec fn keyed_like(names: Seq<String>, keyed: Seq<(u32, i64)>, rows: Seq<(Seq<char>, int)>) -> bool {
    &&& keyed.len() == rows.len()
    &&& forall|a: int, b: int| 0 <= a < b < names.len() ==> names[a]@ != names[b]@
    &&& forall|t: int|
        0 <= t < keyed.len() ==> (#[trigger] keyed[t].0 as int) < names.len() && names[keyed[t].0 as int]@
            == rows[t].0 && keyed[t].1 as int == rows[t].1
    &&& forall|s: Seq<char>| (exists|k: int| 0 <= k < names.len() && #[trigger] names[k]@ == s) <==> has_name(rows, s)
}

/// The name rows of a bucket payload, with each name replaced by its index
/// in a dictionary of the names (first seen first).
fn tz_keyed_name_rows(p: &TraceZipPayload) -> (r: (Vec<String>, Vec<(u32, i64)>))
    requires
        tz_buckets_summable(*p),
        p.global_buckets@.len() <= u32::MAX,
    ensures
        keyed_like(r.0@, r.1@, tz_name_rows(*p, p.global_buckets@.len() as int)),
{
    let mut names = crate::dict::StringDict::new();
    let mut keyed: Vec<(u32, i64)> = Vec::new();
    let mut b: usize = 0;
    while b < p.global_buckets.len()
        invariant
            b <= p.global_buckets@.len(),
            p.global_buckets@.len() <= u32::MAX,
            tz_buckets_summable(*p),
            names.wf(),
            names@.len() <= b,
            keyed@.len() == b,
            forall|t: int|
                0 <= t < b ==> (#[trigger] keyed@[t].0 as int) < names@.len() && names@[keyed@[t].0 as int]
                    == tz_name_rows(*p, b as int)[t].0 && keyed@[t].1 as int == tz_name_rows(*p, b as int)[t].1,
            forall|s: Seq<char>| #[trigger] names@.contains(s) <==> has_name(tz_name_rows(*p, b as int), s),
        decreases p.global_buckets@.len() - b,
    {
        let bk = &p.global_buckets[b];
        proof {
            assert(tz_schema_readable(*p, b as int));
            assert forall|n: int| 0 <= n <= paired_len(*bk) implies fits_i64(#[trigger] present_total(bk.dur@, bk.dur_present@, n)) by {
                assert(fits_i64(present_total(p.global_buckets@[b as int].dur@, p.global_buckets@[b as int].dur_present@, n)));
            }
        }
        let schema = &p.schemas[bk.schema_id as usize];
        let name = p.dict_strings[schema.name_dict_id as usize].as_str();
        let total = bucket_total(bk);
        let ghost before = names@;
        let key = names.intern(name);
        keyed.push((key, total));
        b += 1;
        proof {
            let rows = tz_name_rows(*p, b as int);
            lemma_name_rows_len(*p, b - 1);
            assert(rows == tz_name_rows(*p, b - 1).push((tz_bucket_name(*p, b - 1), tz_bucket_total(*p, b - 1))));
            assert(name@ == tz_bucket_name(*p, b - 1));
            assert forall|t: int|
                0 <= t < b implies (#[trigger] keyed@[t].0 as int) < names@.len() && names@[keyed@[t].0 as int]
                    == rows[t].0 && keyed@[t].1 as int == rows[t].1 by {
                if t < b - 1 {
                    assert(rows[t] == tz_name_rows(*p, b - 1)[t]);
                    assert(names@[keyed@[t].0 as int] == before[keyed@[t].0 as int]);
                }
            }
            assert forall|s: Seq<char>| #[trigger] names@.contains(s) <==> has_name(rows, s) by {
                let prev = tz_name_rows(*p, b - 1);
                if has_name(rows, s) && s != name@ {
                    let i = choose|i: int| 0 <= i < rows.len() && #[trigger] rows[i].0 == s;
                    assert(prev[i].0 == s);
                    assert(has_name(prev, s));
                    assert(before.contains(s));
                    let j = choose|j: int| 0 <= j < before.len() && before[j] == s;
                    assert(names@[j] == s);
                }
                if names@.contains(s) && s != name@ {
                    let j = choose|j: int| 0 <= j < names@.len() && names@[j] == s;
                    if before.contains(name@) {
                        assert(before[j] == s);
                    } else {
                        assert(j < before.len());
                        assert(before[j] == s);
                    }
                    assert(before.contains(s));
                    let i = choose|i: int| 0 <= i < prev.len() && #[trigger] prev[i].0 == s;
                    assert(rows[i].0 == s);
                }
                if s == name@ {
                    assert(rows[b - 1].0 == s);
                    let j = keyed@[b - 1].0 as int;
                    assert(names@[j] == s);
                }
            }
        }
    }
    proof {
        names.lemma_distinct();
        lemma_name_rows_len(*p, p.global_buckets@.len() as int);
    }
    let ghost nv = names@;
    let strings = names.into_strings();
    proof {
        let all = tz_name_rows(*p, p.global_buckets@.len() as int);
        assert(strings@.map(|_i: int, s: String| s@) == nv);
        assert forall|a: int, b: int| 0 <= a < b < strings@.len() implies strings@[a]@ != strings@[b]@ by {
            assert(strings@[a]@ == nv[a]);
            assert(strings@[b]@ == nv[b]);
        }
        assert forall|t: int|
            0 <= t < keyed@.len() implies (#[trigger] keyed@[t].0 as int) < strings@.len() && strings@[keyed@[t].0 as int]@
                == all[t].0 && keyed@[t].1 as int == all[t].1 by {
            assert(strings@[keyed@[t].0 as int]@ == nv[keyed@[t].0 as int]);
        }
        assert forall|s: Seq<char>| (exists|k: int| 0 <= k < strings@.len() && #[trigger] strings@[k]@ == s) <==> has_name(all, s) by {
            if exists|k: int| 0 <= k < strings@.len() && #[trigger] strings@[k]@ == s {
                let k = choose|k: int| 0 <= k < strings@.len() && #[trigger] strings@[k]@ == s;
                assert(nv[k] == s);
                assert(nv.contains(s));
            }
            if has_name(all, s) {
                assert(nv.contains(s));
                let k = choose|k: int| 0 <= k < nv.len() && nv[k] == s;
                assert(strings@[k]@ == s);
            }
        }
    }
    (strings, keyed)
}

/// Under keyed rows, the totals of a key are those of its name.
proof fn lemma_keyed_events(names: Seq<String>, keyed: Seq<(u32, i64)>, rows: Seq<(Seq<char>, int)>, k: u32)
    requires
        keyed_like(names, keyed, rows),
        (k as int) < names.len(),
    ensures
        rank_events(keyed, k).map_values(|v: i64| v as int) == name_events(rows, names[k as int]@),
{
    let nv = names.map(|_i: int, s: String| s@);
    assert forall|a: int, b: int| 0 <= a < b < nv.len() implies nv[a] != nv[b] by {}
    assert forall|t: int|
        0 <= t < keyed.len() implies (#[trigger] keyed[t].0 as int) < nv.len() && nv[keyed[t].0 as int] == rows[t].0
            && keyed[t].1 as int == rows[t].1 by {}
    lemma_key_rows(nv, keyed, rows, k);
}

/// A name no row has gets no totals.
proof fn lemma_no_name_no_events(rows: Seq<(Seq<char>, int)>, s: Seq<char>)
    requires
        !has_name(rows, s),
    ensures
        name_events(rows, s) == Seq::<int>::empty(),
    decreases rows.len(),
{
    if rows.len() > 0 {
        assert(!has_name(rows.drop_last(), s)) by {
            if has_name(rows.drop_last(), s) {
                let i = choose|i: int| 0 <= i < rows.drop_last().len() && #[trigger] rows.drop_last()[i].0 == s;
                assert(rows[i].0 == s);
            }
        }
        lemma_no_name_no_events(rows.drop_last(), s);
        assert(rows[rows.len() - 1].0 != s);
    }
}

/// The name-level running totals stay within `i64` exactly when the
/// key-level ones do.
proof fn lemma_keyed_fits(names: Seq<String>, keyed: Seq<(u32, i64)>, rows: Seq<(Seq<char>, int)>)
    requires
        keyed_like(names, keyed, rows),
    ensures
        (forall|x: u32| has_rank(keyed, x) ==> crate::event::prefix_sums_fit(#[trigger] rank_events(keyed, x))) <==> (forall|
            s: Seq<char>,
            n: int,
        | 0 <= n <= name_events(rows, s).len() ==> fits_i64(#[trigger] int_sum(name_events(rows, s).take(n)))),
{
    if forall|x: u32| has_rank(keyed, x) ==> crate::event::prefix_sums_fit(#[trigger] rank_events(keyed, x)) {
        assert forall|s: Seq<char>, n: int| 0 <= n <= name_events(rows, s).len() implies fits_i64(
            #[trigger] int_sum(name_events(rows, s).take(n)),
        ) by {
            if has_name(rows, s) {
                let k = choose|k: int| 0 <= k < names.len() && #[trigger] names[k]@ == s;
                let i = choose|i: int| 0 <= i < rows.len() && #[trigger] rows[i].0 == s;
                assert(names[keyed[i].0 as int]@ == s);
                let x = keyed[i].0;
                assert(has_rank(keyed, x));
                lemma_keyed_events(names, keyed, rows, x);
                let ev = rank_events(keyed, x);
                assert(crate::event::prefix_sums_fit(ev));
                lemma_sum_as_int(ev.take(n));
                assert(ev.take(n).map_values(|v: i64| v as int) =~= ev.map_values(|v: i64| v as int).take(n));
                assert(i64::MIN <= crate::event::seq_sum(ev.take(n)) <= i64::MAX);
            } else {
                lemma_no_name_no_events(rows, s);
                assert(name_events(rows, s).take(n) =~= Seq::<int>::empty());
            }
        }
    }
    if forall|s: Seq<char>, n: int|
        0 <= n <= name_events(rows, s).len() ==> fits_i64(#[trigger] int_sum(name_events(rows, s).take(n))) {
        assert forall|x: u32| has_rank(keyed, x) implies crate::event::prefix_sums_fit(#[trigger] rank_events(keyed, x)) by {
            let t = choose|t: int| 0 <= t < keyed.len() && #[trigger] keyed[t].0 == x;
            lemma_keyed_events(names, keyed, rows, x);
            let ev = rank_events(keyed, x);
            assert forall|n: int| 0 <= n <= ev.len() implies i64::MIN <= #[trigger] crate::event::seq_sum(ev.take(n)) <= i64::MAX by {
                lemma_sum_as_int(ev.take(n));
                assert(ev.take(n).map_values(|v: i64| v as int) =~= ev.map_values(|v: i64| v as int).take(n));
                assert(fits_i64(int_sum(name_events(rows, names[x as int]@).take(n))));
            }
        }
    }
}

/// The event names with the most time in a bucket payload: each schema
/// name with the sum of the present durations of its buckets, largest
/// first, at most [`crate::baselines::insitu::HOTSPOT_LIMIT`].
pub fn tz_operator_hotspot(p: &TraceZipPayload) -> (out: Vec<(String, i64)>)
    requires
        tz_hotspot_ok(*p),
        p.global_buckets@.len() <= u32::MAX,
    ensures
        exists|e: Seq<(String, i64)>|
            name_sums(tz_name_rows(*p, p.global_buckets@.len() as int), e) && crate::baselines::insitu::top_of(e, out@),
{
    let ghost all = tz_name_rows(*p, p.global_buckets@.len() as int);
    let (strings, keyed) = tz_keyed_name_rows(p);
    let ghost kv = keyed@;
    proof {
        lemma_keyed_fits(strings@, kv, all);
        assert forall|x: u32| #[trigger] has_rank(kv, x) implies (x as int) < strings@.len() by {
            let t = choose|t: int| 0 <= t < kv.len() && #[trigger] kv[t].0 == x;
        }
    }
    let out = crate::baselines::insitu::heaviest_keys(&keyed, &strings);
    proof {
        let e = choose|e: Seq<(String, i64)>|
            crate::baselines::insitu::key_sums(strings@, kv, e) && crate::baselines::insitu::top_of(e, out@);
        let ids = choose|ids: Seq<u32>|
            {
                &&& ids.len() == e.len()
                &&& forall|a: int, b: int| 0 <= a < b < ids.len() ==> ids[a] < ids[b]
                &&& forall|x: u32| #[trigger] ids.contains(x) <==> has_rank(kv, x)
                &&& forall|j: int|
                    0 <= j < ids.len() ==> (#[trigger] e[j]).0 == strings@[ids[j] as int] && e[j].1 == crate::event::seq_sum(
                        rank_events(kv, ids[j]),
                    )
            };
        assert forall|j: int| 0 <= j < e.len() implies (ids[j] as int) < strings@.len() && (#[trigger] e[j]).0@
            == strings@[ids[j] as int]@ by {
            assert(ids.contains(ids[j]));
            let t = choose|t: int| 0 <= t < kv.len() && #[trigger] kv[t].0 == ids[j];
        }
        assert forall|a: int, b: int| 0 <= a < b < e.len() implies e[a].0@ != e[b].0@ by {
            assert(e[a].0@ == strings@[ids[a] as int]@);
            assert(e[b].0@ == strings@[ids[b] as int]@);
            if ids[a] < ids[b] {
                assert(strings@[ids[a] as int]@ != strings@[ids[b] as int]@);
            }
        }
        assert forall|s: Seq<char>| (exists|j: int| 0 <= j < e.len() && #[trigger] e[j].0@ == s) <==> has_name(all, s) by {
            if exists|j: int| 0 <= j < e.len() && #[trigger] e[j].0@ == s {
                let j = choose|j: int| 0 <= j < e.len() && #[trigger] e[j].0@ == s;
                assert(strings@[ids[j] as int]@ == s);
            }
            if has_name(all, s) {
                let i = choose|i: int| 0 <= i < all.len() && #[trigger] all[i].0 == s;
                assert(strings@[kv[i].0 as int]@ == s);
                assert(has_rank(kv, kv[i].0));
                assert(ids.contains(kv[i].0));
                let j = choose|j: int| 0 <= j < ids.len() && ids[j] == kv[i].0;
                assert(e[j].0@ == s);
            }
        }
        assert forall|j: int| 0 <= j < e.len() implies (#[trigger] e[j]).1 == int_sum(name_events(all, e[j].0@)) by {
            assert(ids.contains(ids[j]));
            let t = choose|t: int| 0 <= t < kv.len() && #[trigger] kv[t].0 == ids[j];
            lemma_keyed_events(strings@, kv, all, ids[j]);
            lemma_sum_as_int(rank_events(kv, ids[j]));
        }
        assert(name_sums(all, e));
    }
    out
}

/// Whether every bucket's schema is readable and its present durations
/// sum within `i64` (see [`tz_buckets_summable`]).
fn tz_buckets_summable_check(p: &TraceZipPayload) -> (b: bool)
    ensures
        b == tz_buckets_summable(*p),
{
    let mut b: usize = 0;
    while b < p.global_buckets.len()
        invariant
            b <= p.global_buckets@.len(),
            forall|b2: int| 0 <= b2 < b ==> #[trigger] tz_schema_readable(*p, b2),
            forall|b2: int, n: int|
                0 <= b2 < b && 0 <= n <= paired_len(p.global_buckets@[b2]) ==> fits_i64(
                    #[trigger] present_total(p.global_buckets@[b2].dur@, p.global_buckets@[b2].dur_present@, n),
                ),
        decreases p.global_buckets@.len() - b,
    {
        let bk = &p.global_buckets[b];
        if !((bk.schema_id as usize) < p.schemas.len() && (p.schemas[bk.schema_id as usize].name_dict_id as usize)
            < p.dict_strings.len()) {
            proof {
                assert(!tz_schema_readable(*p, b as int));
            }
            return false;
        }
        let n: usize = if bk.dur.len() <= bk.dur_present.len() {
            bk.dur.len()
        } else {
            bk.dur_present.len()
        };
        let mut total: i128 = 0;
        let mut j: usize = 0;
        while j < n
            invariant
                j <= n,
                b < p.global_buckets@.len(),
                *bk == p.global_buckets@[b as int],
                n == paired_len(*bk),
                total == present_total(bk.dur@, bk.dur_present@, j as int),
                forall|m: int| 0 <= m <= j ==> fits_i64(#[trigger] present_total(bk.dur@, bk.dur_present@, m)),
            decreases n - j,
        {
            if bk.dur_present[j] {
                total = total + bk.dur[j] as i128;
            }
            if total > 0x7fff_ffff_ffff_ffffi128 || total < -0x8000_0000_0000_0000i128 {
                proof {
                    assert(!fits_i64(present_total(bk.dur@, bk.dur_present@, j + 1)));
                    assert(!fits_i64(
                        present_total(p.global_buckets@[b as int].dur@, p.global_buckets@[b as int].dur_present@, j + 1),
                    ));
                }
                return false;
            }
            j += 1;
        }
        b += 1;
    }
    true
}

/// [`tz_operator_hotspot`] where the analysis can read the payload, `None`
/// where it cannot (a schema or dictionary id out of range, or a running
/// total past `i64`).
pub fn tz_operator_hotspot_checked(p: &TraceZipPayload) -> (r: Option<Vec<(String, i64)>>)
    requires
        p.global_buckets@.len() <= u32::MAX,
    ensures
        r is Some <==> tz_hotspot_ok(*p),
        r matches Some(out) ==> exists|e: Seq<(String, i64)>|
            name_sums(tz_name_rows(*p, p.global_buckets@.len() as int), e) && crate::baselines::insitu::top_of(e, out@),
{
    if !tz_buckets_summable_check(p) {
        return None;
    }
    let (strings, keyed) = tz_keyed_name_rows(p);
    proof {
        lemma_keyed_fits(strings@, keyed@, tz_name_rows(*p, p.global_buckets@.len() as int));
    }
    if !prefix_sums_fit_all(&keyed) {
        return None;
    }
    let out = tz_operator_hotspot(p);
    let r = Some(out);
    proof {
        assert(r->0 == out);
    }
    r
}

/// Whether reading the kind of entry `i` of a bucket stays inside the
/// columns and the dictionary.
fn kind_readable_check(dict: &Vec<String>, bk: &GlobalBucket, i: usize) -> (b: bool)
    ensures
        b == tz_kind_readable(dict_view(dict@), *bk, i as int),
{
    if i >= bk.cat_dict_id_plus1.len() {
        return false;
    }
    let cat = bk.cat_dict_id_plus1[i];
    if cat == 0 {
        return true;
    }
    if (cat - 1) as usize >= dict.len() {
        return false;
    }
    if is_kernel_text(&dict[(cat - 1) as usize]) {
        i < bk.dur_present.len()
    } else {
        true
    }
}

/// Whether the bubble analysis can read entry `i` of bucket `b`.
fn tz_bubble_ok_at_check(p: &TraceZipPayload, b: usize, i: usize) -> (r: bool)
    requires
        b < p.global_buckets@.len(),
        i < p.global_buckets@[b as int].stream_ids@.len(),
    ensures
        r == tz_bubble_ok_at(*p, b as int, i as int),
{
    let bk = &p.global_buckets[b];
    if !kind_readable_check(&p.dict_strings, bk, i) {
        return false;
    }
    if !entry_is_kernel(&p.dict_strings, bk, i) {
        return true;
    }
    let sid = bk.stream_ids[i] as usize;
    if sid >= p.streams.len() || i >= bk.ts_offsets.len() || i >= bk.dur.len() {
        return false;
    }
    let sum: i128 = p.streams[sid].time_base as i128 + bk.ts_offsets[i] as i128;
    sum <= 0x7fff_ffff_ffff_ffffi128 && sum >= -0x8000_0000_0000_0000i128
}

/// Whether the balance analysis can read entry `i` of bucket `b`.
fn tz_balance_ok_at_check(p: &TraceZipPayload, b: usize, i: usize) -> (r: bool)
    requires
        b < p.global_buckets@.len(),
        i < p.global_buckets@[b as int].stream_ids@.len(),
    ensures
        r == tz_balance_ok_at(*p, b as int, i as int),
{
    let bk = &p.global_buckets[b];
    if !kind_readable_check(&p.dict_strings, bk, i) {
        return false;
    }
    if !entry_is_kernel(&p.dict_strings, bk, i) {
        return true;
    }
    i < bk.dur.len() && (bk.stream_ids[i] as usize) < p.streams.len()
}

/// Whether the bubble analysis can read every entry of a bucket payload
/// (see [`tz_bubble_ok`]).
pub fn tz_bubble_ok_check(p: &TraceZipPayload) -> (r: bool)
    ensures
        r == tz_bubble_ok(*p),
{
    let mut b: usize = 0;
    while b < p.global_buckets.len()
        invariant
            b <= p.global_buckets@.len(),
            forall|b2: int, i: int|
                0 <= b2 < b && 0 <= i < p.global_buckets@[b2].stream_ids@.len() ==> #[trigger] tz_bubble_ok_at(*p, b2, i),
        decreases p.global_buckets@.len() - b,
    {
        let mut i: usize = 0;
        while i < p.global_buckets[b].stream_ids.len()
            invariant
                b < p.global_buckets@.len(),
                i <= p.global_buckets@[b as int].stream_ids@.len(),
                forall|b2: int, i2: int|
                    0 <= b2 < b && 0 <= i2 < p.global_buckets@[b2].stream_ids@.len() ==> #[trigger] tz_bubble_ok_at(*p, b2, i2),
                forall|i2: int| 0 <= i2 < i ==> #[trigger] tz_bubble_ok_at(*p, b as int, i2),
            decreases p.global_buckets@[b as int].stream_ids@.len() - i,
        {
            if !tz_bubble_ok_at_check(p, b, i) {
                return false;
            }
            i += 1;
        }
        b += 1;
    }
    true
}

/// Whether the balance analysis can read every schema and entry of a
/// bucket payload (see [`tz_balance_ok`]).
pub fn tz_balance_ok_check(p: &TraceZipPayload) -> (r: bool)
    ensures
        r == tz_balance_ok(*p),
{
    let mut b: usize = 0;
    while b < p.global_buckets.len()
        invariant
            b <= p.global_buckets@.len(),
            forall|b2: int| 0 <= b2 < b ==> #[trigger] tz_schema_readable(*p, b2),
            forall|b2: int, i: int|
                0 <= b2 < b && 0 <= i < p.global_buckets@[b2].stream_ids@.len() ==> #[trigger] tz_balance_ok_at(*p, b2, i),
        decreases p.global_buckets@.len() - b,
    {
        let bk = &p.global_buckets[b];
        if !((bk.schema_id as usize) < p.schemas.len() && (p.schemas[bk.schema_id as usize].name_dict_id as usize)
            < p.dict_strings.len()) {
            proof {
                assert(!tz_schema_readable(*p, b as int));
            }
            return false;
        }
        let mut i: usize = 0;
        while i < bk.stream_ids.len()
            invariant
                b < p.global_buckets@.len(),
                *bk == p.global_buckets@[b as int],
                i <= bk.stream_ids@.len(),
                forall|b2: int| 0 <= b2 <= b ==> #[trigger] tz_schema_readable(*p, b2),
                forall|b2: int, i2: int|
                    0 <= b2 < b && 0 <= i2 < p.global_buckets@[b2].stream_ids@.len() ==> #[trigger] tz_balance_ok_at(*p, b2, i2),
                forall|i2: int| 0 <= i2 < i ==> #[trigger] tz_balance_ok_at(*p, b as int, i2),
            decreases bk.stream_ids@.len() - i,
        {
            if !tz_balance_ok_at_check(p, b, i) {
                return false;
            }
            i += 1;
        }
        b += 1;
    }
    true
}

/// [`tz_bubble_stats`] where the analysis can read the payload, `None`
/// where it cannot (a column, stream or dictionary id out of range, a
/// rank without a name, or a time or sweep past `i64`).
pub fn tz_bubble_stats_checked(p: &TraceZipPayload) -> (r: Option<Vec<(String, RankBusy)>>)
    ensures
        r is Some <==> tz_bubble_ok(*p) && busy_rows_ok(
            tz_kernel_rows(*p, p.global_buckets@.len() as int),
            p.dict_strings@.len(),
        ),
        r matches Some(out) ==> named_busy_of(tz_kernel_rows(*p, p.global_buckets@.len() as int), p.dict_strings@, out@),
{
    if !tz_bubble_ok_check(p) {
        return None;
    }
    let rows = tz_collect_kernel_rows(p);
    if !crate::baselines::insitu::ranks_below(&rows, p.dict_strings.len()) || !crate::baselines::insitu::busy_fits_all(
        &rows,
    ) {
        return None;
    }
    Some(named_rank_busy(&rows, &p.dict_strings))
}

/// [`tz_rank_load_balance`] where the analysis can read the payload,
/// `None` where it cannot (a schema, column, stream or dictionary id out
/// of range, a rank without a name, or a running total past `i64`).
pub fn tz_rank_load_balance_checked(p: &TraceZipPayload) -> (r: Option<Vec<(String, i64, i64)>>)
    ensures
        r is Some <==> tz_balance_ok(*p) && totals_rows_ok(
            tz_balance_rows(*p, p.global_buckets@.len() as int),
            p.dict_strings@.len(),
        ),
        r matches Some(out) ==> exists|t: Seq<RankTotals>|
            rank_totals_of(tz_balance_rows(*p, p.global_buckets@.len() as int), t) && named_listing(
                p.dict_strings@,
                t,
                out@,
            ),
{
    if !tz_balance_ok_check(p) {
        return None;
    }
    let rows = tz_collect_balance_rows(p);
    if !crate::baselines::insitu::ranks_below(&rows, p.dict_strings.len())
        || !crate::baselines::insitu::class_sums_fit_all(&rows) {
        return None;
    }
    let out = named_rank_totals(&rows, &p.dict_strings);
    proof {
        let t = choose|t: Seq<RankTotals>| rank_totals_of(rows@, t) && named_listing(p.dict_strings@, t, out@);
        assert(rank_totals_of(tz_balance_rows(*p, p.global_buckets@.len() as int), t));
        assert(named_listing(p.dict_strings@, t, out@));
    }
    let r = Some(out);
    proof {
        assert(r->0 == out);
    }
    r
}

} // verus!
