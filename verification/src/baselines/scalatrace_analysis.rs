//! In-situ analyses of a descriptor payload: the rows each analysis reads
//! from the stream columns (kernel events by rank, kernel time by class,
//! durations by event name), and what it computes from them.

use vstd::prelude::*;

use crate::analysis::kernel_class::{is_nccl_kernel, spec_is_nccl_kernel};
use crate::baselines::insitu::{
    busy_fits_all, busy_rows_ok, class_sums_fit_all, named_busy_of, named_listing, named_rank_busy, prefix_sums_fit_all,
    ranks_below, sums_rows_ok, totals_rows_ok, RankBusy,
};
use crate::baselines::rsd::{expand_all, expand_known_rsd_ids, picked};
use crate::baselines::scalatrace::{dict_view, type_at, ScalaTracePayload, StreamPayload, TypeEntry};

verus! {

/// The type sequence of stream `k`: its known descriptors, expanded.
pub open spec fn st_type_seq(p: ScalaTracePayload, k: int) -> Seq<u32> {
    expand_all(picked(p.rsds@, p.streams@[k].rsd_ids@))
}

/// The type has the category `kernel`.
pub open spec fn kernel_type(dict: Seq<Seq<char>>, t: TypeEntry) -> bool {
    t.cat_id_plus1 != 0 && dict[t.cat_id_plus1 - 1] == "kernel"@
}

/// Event `i` of a stream has a duration and a known type whose category
/// is `kernel`.
pub open spec fn st_kernel_at(dict: Seq<Seq<char>>, types: Seq<TypeEntry>, tseq: Seq<u32>, st: StreamPayload, i: int) -> bool {
    &&& st.dur_present@[i]
    &&& type_at(types, tseq, i) matches Some(t) && kernel_type(dict, t)
}

/// Reading the category of event `i` (when it has a duration and a known
/// type with a category) stays inside the dictionary.
pub open spec fn st_cat_readable(dict: Seq<Seq<char>>, types: Seq<TypeEntry>, tseq: Seq<u32>, st: StreamPayload, i: int) -> bool {
    st.dur_present@[i] ==> match type_at(types, tseq, i) {
        Some(t) => t.cat_id_plus1 != 0 ==> t.cat_id_plus1 - 1 < dict.len(),
        None => true,
    }
}

/// The bubble analysis can read event `i`: its category, and for a kernel
/// its `ts` and `dur`.
pub open spec fn st_bubble_ok_at(dict: Seq<Seq<char>>, types: Seq<TypeEntry>, tseq: Seq<u32>, st: StreamPayload, i: int) -> bool {
    &&& st_cat_readable(dict, types, tseq, st, i)
    &&& st_kernel_at(dict, types, tseq, st, i) ==> i < st.ts@.len() && i < st.dur@.len()
}

/// The kernel rows `(rank, (ts, dur))` of the first `n` events of a stream.
pub open spec fn st_stream_kernel_rows(
    dict: Seq<Seq<char>>,
    types: Seq<TypeEntry>,
    tseq: Seq<u32>,
    st: StreamPayload,
    n: int,
) -> Seq<(u32, (i64, i64))>
    decreases n,
{
    if n <= 0 {
        Seq::empty()
    } else {
        st_stream_kernel_rows(dict, types, tseq, st, n - 1) + if st_kernel_at(dict, types, tseq, st, n - 1) {
            seq![(st.rank_id, (st.ts@[n - 1], st.dur@[n - 1]))]
        } else {
            Seq::empty()
        }
    }
}

/// The kernel rows of the first `k` streams, stream after stream.
pub open spec fn st_kernel_rows(p: ScalaTracePayload, k: int) -> Seq<(u32, (i64, i64))>
    decreases k,
{
    if k <= 0 {
        Seq::empty()
    } else {
        st_kernel_rows(p, k - 1) + st_stream_kernel_rows(
            dict_view(p.dict@),
            p.types@,
            st_type_seq(p, k - 1),
            p.streams@[k - 1],
            p.streams@[k - 1].dur_present@.len() as int,
        )
    }
}

/// The bubble analysis can read every event of every stream.
pub open spec fn st_bubble_ok(p: ScalaTracePayload) -> bool {
    forall|k: int, i: int|
        0 <= k < p.streams@.len() && 0 <= i < p.streams@[k].dur_present@.len() ==> #[trigger] st_bubble_ok_at(
            dict_view(p.dict@),
            p.types@,
            st_type_seq(p, k),
            p.streams@[k],
            i,
        )
}

/// The type at position `i` of a type sequence (0 past its end), when the
/// table has it.
fn type_index(types: &Vec<TypeEntry>, tseq: &Vec<u32>, i: usize) -> (r: Option<usize>)
    ensures
        r is Some <==> type_at(types@, tseq@, i as int) is Some,
        r matches Some(t) ==> t < types@.len() && type_at(types@, tseq@, i as int) == Some(types@[t as int]),
{
    let tid: u32 = if i < tseq.len() {
        tseq[i]
    } else {
        0
    };
    if (tid as usize) < types.len() {
        Some(tid as usize)
    } else {
        None
    }
}

/// The text is `kernel`.
fn is_kernel_text(s: &String) -> (b: bool)
    ensures
        b == (s@ == "kernel"@),
{
    let k = "kernel".to_owned();
    *s == k
}

/// Whether a type's category is `kernel`; its category id, when it has
/// one, lies inside the dictionary.
fn type_is_kernel(dict: &Vec<String>, t: &TypeEntry) -> (b: bool)
    requires
        t.cat_id_plus1 != 0 ==> t.cat_id_plus1 - 1 < dict@.len(),
    ensures
        b == kernel_type(dict_view(dict@), *t),
{
    if t.cat_id_plus1 == 0 {
        false
    } else {
        is_kernel_text(&dict[(t.cat_id_plus1 - 1) as usize])
    }
}

/// The kernel rows `(rank, (ts, dur))` of every stream: each event with a
/// duration and a known type whose category is `kernel`, in stream order.
pub fn st_collect_kernel_rows(p: &ScalaTracePayload) -> (rows: Vec<(u32, (i64, i64))>)
    requires
        st_bubble_ok(*p),
    ensures
        rows@ == st_kernel_rows(*p, p.streams@.len() as int),
{
    let ghost dict = dict_view(p.dict@);
    let mut rows: Vec<(u32, (i64, i64))> = Vec::new();
    let mut k: usize = 0;
    while k < p.streams.len()
        invariant
            k <= p.streams@.len(),
            dict == dict_view(p.dict@),
            st_bubble_ok(*p),
            rows@ == st_kernel_rows(*p, k as int),
        decreases p.streams@.len() - k,
    {
        let st = &p.streams[k];
        let tseq = expand_known_rsd_ids(&p.rsds, &st.rsd_ids);
        let ghost base = rows@;
        let mut i: usize = 0;
        while i < st.dur_present.len()
            invariant
                i <= st.dur_present@.len(),
                *st == p.streams@[k as int],
                k < p.streams@.len(),
                tseq@ == st_type_seq(*p, k as int),
                dict == dict_view(p.dict@),
                st_bubble_ok(*p),
                rows@ == base + st_stream_kernel_rows(dict, p.types@, tseq@, *st, i as int),
            decreases st.dur_present@.len() - i,
        {
            proof {
                assert(st_bubble_ok_at(dict, p.types@, st_type_seq(*p, k as int), p.streams@[k as int], i as int));
            }
            if st.dur_present[i] {
                match type_index(&p.types, &tseq, i) {
                    Some(t) => {
                        if type_is_kernel(&p.dict, &p.types[t]) {
                            rows.push((st.rank_id, (st.ts[i], st.dur[i])));
                        }
                    },
                    None => {},
                }
            }
            i += 1;
            proof {
                assert(rows@ =~= base + st_stream_kernel_rows(dict, p.types@, tseq@, *st, i as int));
            }
        }
        k += 1;
    }
    rows
}

/// The busy time, span and kernel count of every rank of a descriptor
/// payload, ranks ascending, each with its name.
pub fn st_bubble_stats(p: &ScalaTracePayload) -> (out: Vec<(String, RankBusy)>)
    requires
        st_bubble_ok(*p),
        busy_rows_ok(st_kernel_rows(*p, p.streams@.len() as int), p.dict@.len()),
    ensures
        named_busy_of(st_kernel_rows(*p, p.streams@.len() as int), p.dict@, out@),
{
    let rows = st_collect_kernel_rows(p);
    named_rank_busy(&rows, &p.dict)
}

/// The name of the type of event `i` (empty when the type is unknown).
pub open spec fn st_type_name(dict: Seq<Seq<char>>, types: Seq<TypeEntry>, tseq: Seq<u32>, i: int) -> Seq<char> {
    match type_at(types, tseq, i) {
        Some(t) => dict[t.name_id as int],
        None => Seq::empty(),
    }
}

/// The balance analysis can read event `i`: its category, and for a
/// kernel its `dur` and its type's name.
pub open spec fn st_balance_ok_at(dict: Seq<Seq<char>>, types: Seq<TypeEntry>, tseq: Seq<u32>, st: StreamPayload, i: int) -> bool {
    &&& st_cat_readable(dict, types, tseq, st, i)
    &&& st_kernel_at(dict, types, tseq, st, i) ==> i < st.dur@.len() && match type_at(types, tseq, i) {
        Some(t) => (t.name_id as int) < dict.len(),
        None => true,
    }
}

/// The balance rows `(rank, (dur, is_comm))` of the first `n` events of a
/// stream: a kernel is communication when its type's name is that of a
/// collective.
pub open spec fn st_stream_balance_rows(
    dict: Seq<Seq<char>>,
    types: Seq<TypeEntry>,
    tseq: Seq<u32>,
    st: StreamPayload,
    n: int,
) -> Seq<(u32, (i64, bool))>
    decreases n,
{
    if n <= 0 {
        Seq::empty()
    } else {
        st_stream_balance_rows(dict, types, tseq, st, n - 1) + if st_kernel_at(dict, types, tseq, st, n - 1) {
            seq![(st.rank_id, (st.dur@[n - 1], spec_is_nccl_kernel(st_type_name(dict, types, tseq, n - 1))))]
        } else {
            Seq::empty()
        }
    }
}

/// The balance rows of the first `k` streams, stream after stream.
pub open spec fn st_balance_rows(p: ScalaTracePayload, k: int) -> Seq<(u32, (i64, bool))>
    decreases k,
{
    if k <= 0 {
        Seq::empty()
    } else {
        st_balance_rows(p, k - 1) + st_stream_balance_rows(
            dict_view(p.dict@),
            p.types@,
            st_type_seq(p, k - 1),
            p.streams@[k - 1],
            p.streams@[k - 1].dur_present@.len() as int,
        )
    }
}

/// The balance analysis can read every event of every stream.
pub open spec fn st_balance_ok(p: ScalaTracePayload) -> bool {
    forall|k: int, i: int|
        0 <= k < p.streams@.len() && 0 <= i < p.streams@[k].dur_present@.len() ==> #[trigger] st_balance_ok_at(
            dict_view(p.dict@),
            p.types@,
            st_type_seq(p, k),
            p.streams@[k],
            i,
        )
}

/// The balance rows `(rank, (dur, is_comm))` of every stream, in stream
/// order.
pub fn st_collect_balance_rows(p: &ScalaTracePayload) -> (rows: Vec<(u32, (i64, bool))>)
    requires
        st_balance_ok(*p),
    ensures
        rows@ == st_balance_rows(*p, p.streams@.len() as int),
{
    let ghost dict = dict_view(p.dict@);
    let mut rows: Vec<(u32, (i64, bool))> = Vec::new();
    let mut k: usize = 0;
    while k < p.streams.len()
        invariant
            k <= p.streams@.len(),
            dict == dict_view(p.dict@),
            st_balance_ok(*p),
            rows@ == st_balance_rows(*p, k as int),
        decreases p.streams@.len() - k,
    {
        let st = &p.streams[k];
        let tseq = expand_known_rsd_ids(&p.rsds, &st.rsd_ids);
        let ghost base = rows@;
        let mut i: usize = 0;
        while i < st.dur_present.len()
            invariant
                i <= st.dur_present@.len(),
                *st == p.streams@[k as int],
                k < p.streams@.len(),
                tseq@ == st_type_seq(*p, k as int),
                dict == dict_view(p.dict@),
                st_balance_ok(*p),
                rows@ == base + st_stream_balance_rows(dict, p.types@, tseq@, *st, i as int),
            decreases st.dur_present@.len() - i,
        {
            proof {
                assert(st_balance_ok_at(dict, p.types@, st_type_seq(*p, k as int), p.streams@[k as int], i as int));
            }
            if st.dur_present[i] {
                match type_index(&p.types, &tseq, i) {
                    Some(t) => {
                        let ty = &p.types[t];
                        if type_is_kernel(&p.dict, ty) {
                            let comm = is_nccl_kernel(p.dict[ty.name_id as usize].as_str());
                            rows.push((st.rank_id, (st.dur[i], comm)));
                        }
                    },
                    None => {},
                }
            }
            i += 1;
            proof {
                assert(rows@ =~= base + st_stream_balance_rows(dict, p.types@, tseq@, *st, i as int));
            }
        }
        k += 1;
    }
    rows
}

/// The compute and communication kernel time of every rank of a
/// descriptor payload, under the rank names, names ascending.
pub fn st_rank_load_balance(p: &ScalaTracePayload) -> (out: Vec<(String, i64, i64)>)
    requires
        st_balance_ok(*p),
        totals_rows_ok(st_balance_rows(*p, p.streams@.len() as int), p.dict@.len()),
    ensures
        exists|t: Seq<crate::baselines::insitu::RankTotals>|
            crate::baselines::insitu::rank_totals_of(st_balance_rows(*p, p.streams@.len() as int), t)
                && named_listing(p.dict@, t, out@),
{
    let rows = st_collect_balance_rows(p);
    crate::baselines::insitu::named_rank_totals(&rows, &p.dict)
}

/// The hotspot analysis can read event `i`: for an event with a duration,
/// its `dur` and its name id.
pub open spec fn st_hotspot_ok(p: ScalaTracePayload) -> bool {
    forall|k: int, i: int|
        0 <= k < p.streams@.len() && 0 <= i < p.streams@[k].dur_present@.len() && #[trigger] p.streams@[k].dur_present@[i]
            ==> i < p.streams@[k].dur@.len() && i < p.streams@[k].payload_name_ids@.len()
}

/// The rows `(name id, dur)` of the first `n` events of a stream that
/// have a duration.
pub open spec fn st_stream_name_rows(st: StreamPayload, n: int) -> Seq<(u32, i64)>
    decreases n,
{
    if n <= 0 {
        Seq::empty()
    } else {
        st_stream_name_rows(st, n - 1) + if st.dur_present@[n - 1] {
            seq![(st.payload_name_ids@[n - 1], st.dur@[n - 1])]
        } else {
            Seq::empty()
        }
    }
}

/// The name rows of the first `k` streams, stream after stream.
pub open spec fn st_name_rows(p: ScalaTracePayload, k: int) -> Seq<(u32, i64)>
    decreases k,
{
    if k <= 0 {
        Seq::empty()
    } else {
        st_name_rows(p, k - 1) + st_stream_name_rows(p.streams@[k - 1], p.streams@[k - 1].dur_present@.len() as int)
    }
}

/// The rows `(name id, dur)` of every event with a duration, in stream
/// order.
pub fn st_collect_name_rows(p: &ScalaTracePayload) -> (rows: Vec<(u32, i64)>)
    requires
        st_hotspot_ok(*p),
    ensures
        rows@ == st_name_rows(*p, p.streams@.len() as int),
{
    let mut rows: Vec<(u32, i64)> = Vec::new();
    let mut k: usize = 0;
    while k < p.streams.len()
        invariant
            k <= p.streams@.len(),
            st_hotspot_ok(*p),
            rows@ == st_name_rows(*p, k as int),
        decreases p.streams@.len() - k,
    {
        let st = &p.streams[k];
        let ghost base = rows@;
        let mut i: usize = 0;
        while i < st.dur_present.len()
            invariant
                i <= st.dur_present@.len(),
                *st == p.streams@[k as int],
                k < p.streams@.len(),
                st_hotspot_ok(*p),
                rows@ == base + st_stream_name_rows(*st, i as int),
            decreases st.dur_present@.len() - i,
        {
            if st.dur_present[i] {
                rows.push((st.payload_name_ids[i], st.dur[i]));
            }
            i += 1;
            proof {
                assert(rows@ =~= base + st_stream_name_rows(*st, i as int));
            }
        }
        k += 1;
    }
    rows
}

/// The event names with the most time in a descriptor payload: each name
/// id's name with the sum of its durations, largest first, at most
/// [`crate::baselines::insitu::HOTSPOT_LIMIT`].
pub fn st_operator_hotspot(p: &ScalaTracePayload) -> (out: Vec<(String, i64)>)
    requires
        st_hotspot_ok(*p),
        sums_rows_ok(st_name_rows(*p, p.streams@.len() as int), p.dict@.len()),
    ensures
        exists|e: Seq<(String, i64)>|
            crate::baselines::insitu::key_sums(p.dict@, st_name_rows(*p, p.streams@.len() as int), e)
                && crate::baselines::insitu::top_of(e, out@),
{
    let rows = st_collect_name_rows(p);
    crate::baselines::insitu::heaviest_keys(&rows, &p.dict)
}

/// Whether the bubble analysis can read event `i` of a stream.
fn st_bubble_ok_at_check(p: &ScalaTracePayload, st: &StreamPayload, tseq: &Vec<u32>, i: usize) -> (b: bool)
    requires
        i < st.dur_present@.len(),
    ensures
        b == st_bubble_ok_at(dict_view(p.dict@), p.types@, tseq@, *st, i as int),
{
    if !st.dur_present[i] {
        return true;
    }
    match type_index(&p.types, tseq, i) {
        None => true,
        Some(t) => {
            let ty = &p.types[t];
            if ty.cat_id_plus1 == 0 {
                return true;
            }
            if (ty.cat_id_plus1 - 1) as usize >= p.dict.len() {
                return false;
            }
            if type_is_kernel(&p.dict, ty) {
                i < st.ts.len() && i < st.dur.len()
            } else {
                true
            }
        },
    }
}

/// Whether the balance analysis can read event `i` of a stream.
fn st_balance_ok_at_check(p: &ScalaTracePayload, st: &StreamPayload, tseq: &Vec<u32>, i: usize) -> (b: bool)
    requires
        i < st.dur_present@.len(),
    ensures
        b == st_balance_ok_at(dict_view(p.dict@), p.types@, tseq@, *st, i as int),
{
    if !st.dur_present[i] {
        return true;
    }
    match type_index(&p.types, tseq, i) {
        None => true,
        Some(t) => {
            let ty = &p.types[t];
            if ty.cat_id_plus1 == 0 {
                return true;
            }
            if (ty.cat_id_plus1 - 1) as usize >= p.dict.len() {
                return false;
            }
            if type_is_kernel(&p.dict, ty) {
                i < st.dur.len() && (ty.name_id as usize) < p.dict.len()
            } else {
                true
            }
        },
    }
}

/// Whether the bubble analysis can read every event of a descriptor
/// payload (see [`st_bubble_ok`]).
pub fn st_bubble_ok_check(p: &ScalaTracePayload) -> (b: bool)
    ensures
        b == st_bubble_ok(*p),
{
    let mut k: usize = 0;
    while k < p.streams.len()
        invariant
            k <= p.streams@.len(),
            forall|k2: int, i: int|
                0 <= k2 < k && 0 <= i < p.streams@[k2].dur_present@.len() ==> #[trigger] st_bubble_ok_at(
                    dict_view(p.dict@),
                    p.types@,
                    st_type_seq(*p, k2),
                    p.streams@[k2],
                    i,
                ),
        decreases p.streams@.len() - k,
    {
        let st = &p.streams[k];
        let tseq = expand_known_rsd_ids(&p.rsds, &st.rsd_ids);
        let mut i: usize = 0;
        while i < st.dur_present.len()
            invariant
                i <= st.dur_present@.len(),
                *st == p.streams@[k as int],
                k < p.streams@.len(),
                tseq@ == st_type_seq(*p, k as int),
                forall|k2: int, i2: int|
                    0 <= k2 < k && 0 <= i2 < p.streams@[k2].dur_present@.len() ==> #[trigger] st_bubble_ok_at(
                        dict_view(p.dict@),
                        p.types@,
                        st_type_seq(*p, k2),
                        p.streams@[k2],
                        i2,
                    ),
                forall|i2: int| 0 <= i2 < i ==> #[trigger] st_bubble_ok_at(
                    dict_view(p.dict@),
                    p.types@,
                    st_type_seq(*p, k as int),
                    p.streams@[k as int],
                    i2,
                ),
            decreases st.dur_present@.len() - i,
        {
            if !st_bubble_ok_at_check(p, st, &tseq, i) {
                return false;
            }
            i += 1;
        }
        k += 1;
    }
    true
}

/// Whether the balance analysis can read every event of a descriptor
/// payload (see [`st_balance_ok`]).
pub fn st_balance_ok_check(p: &ScalaTracePayload) -> (b: bool)
    ensures
        b == st_balance_ok(*p),
{
    let mut k: usize = 0;
    while k < p.streams.len()
        invariant
            k <= p.streams@.len(),
            forall|k2: int, i: int|
                0 <= k2 < k && 0 <= i < p.streams@[k2].dur_present@.len() ==> #[trigger] st_balance_ok_at(
                    dict_view(p.dict@),
                    p.types@,
                    st_type_seq(*p, k2),
                    p.streams@[k2],
                    i,
                ),
        decreases p.streams@.len() - k,
    {
        let st = &p.streams[k];
        let tseq = expand_known_rsd_ids(&p.rsds, &st.rsd_ids);
        let mut i: usize = 0;
        while i < st.dur_present.len()
            invariant
                i <= st.dur_present@.len(),
                *st == p.streams@[k as int],
                k < p.streams@.len(),
                tseq@ == st_type_seq(*p, k as int),
                forall|k2: int, i2: int|
                    0 <= k2 < k && 0 <= i2 < p.streams@[k2].dur_present@.len() ==> #[trigger] st_balance_ok_at(
                        dict_view(p.dict@),
                        p.types@,
                        st_type_seq(*p, k2),
                        p.streams@[k2],
                        i2,
                    ),
                forall|i2: int| 0 <= i2 < i ==> #[trigger] st_balance_ok_at(
                    dict_view(p.dict@),
                    p.types@,
                    st_type_seq(*p, k as int),
                    p.streams@[k as int],
                    i2,
                ),
            decreases st.dur_present@.len() - i,
        {
            if !st_balance_ok_at_check(p, st, &tseq, i) {
                return false;
            }
            i += 1;
        }
        k += 1;
    }
    true
}

/// Whether the hotspot analysis can read every event of a descriptor
/// payload (see [`st_hotspot_ok`]).
pub fn st_hotspot_ok_check(p: &ScalaTracePayload) -> (b: bool)
    ensures
        b == st_hotspot_ok(*p),
{
    let mut k: usize = 0;
    while k < p.streams.len()
        invariant
            k <= p.streams@.len(),
            forall|k2: int, i: int|
                0 <= k2 < k && 0 <= i < p.streams@[k2].dur_present@.len() && #[trigger] p.streams@[k2].dur_present@[i]
                    ==> i < p.streams@[k2].dur@.len() && i < p.streams@[k2].payload_name_ids@.len(),
        decreases p.streams@.len() - k,
    {
        let st = &p.streams[k];
        let mut i: usize = 0;
        while i < st.dur_present.len()
            invariant
                i <= st.dur_present@.len(),
                *st == p.streams@[k as int],
                k < p.streams@.len(),
                forall|k2: int, i2: int|
                    0 <= k2 < k && 0 <= i2 < p.streams@[k2].dur_present@.len() && #[trigger] p.streams@[k2].dur_present@[i2]
                        ==> i2 < p.streams@[k2].dur@.len() && i2 < p.streams@[k2].payload_name_ids@.len(),
                forall|i2: int|
                    0 <= i2 < i && #[trigger] st.dur_present@[i2] ==> i2 < st.dur@.len() && i2 < st.payload_name_ids@.len(),
            decreases st.dur_present@.len() - i,
        {
            if st.dur_present[i] && !(i < st.dur.len() && i < st.payload_name_ids.len()) {
                return false;
            }
            i += 1;
        }
        k += 1;
    }
    true
}

/// [`st_bubble_stats`] where the analysis can read the payload, `None`
/// where it cannot (a column or dictionary id out of range, a rank
/// without a name, or a sweep past `i64`).
pub fn st_bubble_stats_checked(p: &ScalaTracePayload) -> (r: Option<Vec<(String, RankBusy)>>)
    ensures
        r is Some <==> st_bubble_ok(*p) && busy_rows_ok(st_kernel_rows(*p, p.streams@.len() as int), p.dict@.len()),
        r matches Some(out) ==> named_busy_of(st_kernel_rows(*p, p.streams@.len() as int), p.dict@, out@),
{
    if !st_bubble_ok_check(p) {
        return None;
    }
    let rows = st_collect_kernel_rows(p);
    if !ranks_below(&rows, p.dict.len()) || !busy_fits_all(&rows) {
        return None;
    }
    Some(named_rank_busy(&rows, &p.dict))
}

/// [`st_rank_load_balance`] where the analysis can read the payload,
/// `None` where it cannot (a column or dictionary id out of range, a rank
/// without a name, or a running total past `i64`).
pub fn st_rank_load_balance_checked(p: &ScalaTracePayload) -> (r: Option<Vec<(String, i64, i64)>>)
    ensures
        r is Some <==> st_balance_ok(*p) && totals_rows_ok(st_balance_rows(*p, p.streams@.len() as int), p.dict@.len()),
        r matches Some(out) ==> exists|t: Seq<crate::baselines::insitu::RankTotals>|
            crate::baselines::insitu::rank_totals_of(st_balance_rows(*p, p.streams@.len() as int), t)
                && named_listing(p.dict@, t, out@),
{
    if !st_balance_ok_check(p) {
        return None;
    }
    let rows = st_collect_balance_rows(p);
    if !ranks_below(&rows, p.dict.len()) || !class_sums_fit_all(&rows) {
        return None;
    }
    let out = crate::baselines::insitu::named_rank_totals(&rows, &p.dict);
    proof {
        let t = choose|t: Seq<crate::baselines::insitu::RankTotals>|
            crate::baselines::insitu::rank_totals_of(rows@, t) && named_listing(p.dict@, t, out@);
        assert(crate::baselines::insitu::rank_totals_of(st_balance_rows(*p, p.streams@.len() as int), t));
        assert(named_listing(p.dict@, t, out@));
    }
    let r = Some(out);
    proof {
        assert(r->0 == out);
    }
    r
}

/// [`st_operator_hotspot`] where the analysis can read the payload, `None`
/// where it cannot (a column or dictionary id out of range, or a running
/// total past `i64`).
pub fn st_operator_hotspot_checked(p: &ScalaTracePayload) -> (r: Option<Vec<(String, i64)>>)
    ensures
        r is Some <==> st_hotspot_ok(*p) && sums_rows_ok(st_name_rows(*p, p.streams@.len() as int), p.dict@.len()),
        r matches Some(out) ==> exists|e: Seq<(String, i64)>|
            crate::baselines::insitu::key_sums(p.dict@, st_name_rows(*p, p.streams@.len() as int), e)
                && crate::baselines::insitu::top_of(e, out@),
{
    if !st_hotspot_ok_check(p) {
        return None;
    }
    let rows = st_collect_name_rows(p);
    if !ranks_below(&rows, p.dict.len()) || !prefix_sums_fit_all(&rows) {
        return None;
    }
    let out = crate::baselines::insitu::heaviest_keys(&rows, &p.dict);
    proof {
        let e = choose|e: Seq<(String, i64)>|
            crate::baselines::insitu::key_sums(p.dict@, rows@, e) && crate::baselines::insitu::top_of(e, out@);
        assert(crate::baselines::insitu::key_sums(p.dict@, st_name_rows(*p, p.streams@.len() as int), e));
        assert(crate::baselines::insitu::top_of(e, out@));
    }
    let r = Some(out);
    proof {
        assert(r->0 == out);
    }
    r
}

} // verus!
