//! The TraceZip-style baseline: a global string dictionary, one schema per
//! event name (its name and the sorted union of its argument keys), per
//! stream metadata with a time base, and one global bucket per schema
//! holding every event of that name, whatever its stream.

use vstd::prelude::*;

use crate::analysis::compute_comm_overlap::fits_i64;
use crate::analysis::layer_gpu::opt_view;
use crate::baselines::scalatrace::{
    args_entries, args_insert, dict_view, encodes_opt, extends, get_or, lemma_arg_value_found, lemma_opt_persists, lookup,
    lookup_exec, lookup_opt, lookup_opt_exec,
};
use crate::dict::StringDict;
use crate::text::{bytes_le, sort_strings, utf8};
use crate::event::{
    arg_count_of, arg_value, event_arg, find_arg, has_arg_key, lemma_total_args_nonneg, lemma_total_args_prefix,
    lemma_total_args_push, total_args, ArgValue, Event, Phase,
};

verus! {

/// A schema: the dictionary id of an event name and the ids of the keys of
/// its arguments.
#[derive(Clone, Debug)]
pub struct SrtSchema {
    pub name_dict_id: u32,
    pub arg_key_ids: Vec<u32>,
}

/// One `(rank, pid, tid, ph)` stream, with the smallest `ts` of its events.
#[derive(Clone, Copy, Debug)]
pub struct StreamMeta {
    pub rank_dict_id: u32,
    pub pid: i64,
    pub tid_dict_id: u32,
    pub ph: u8,
    pub time_base: i64,
}

/// Every event of one schema, from all streams, as columns.
#[derive(Clone, Debug)]
pub struct GlobalBucket {
    pub schema_id: u32,
    pub stream_ids: Vec<u32>,
    /// `ts` minus the time base of the event's stream.
    pub ts_offsets: Vec<i64>,
    pub dur_present: Vec<bool>,
    pub dur: Vec<i64>,
    pub id_present: Vec<bool>,
    pub ids: Vec<i64>,
    pub cat_dict_id_plus1: Vec<u32>,
    pub bp_dict_id_plus1: Vec<u32>,
    pub s_dict_id_plus1: Vec<u32>,
    /// Per event, which of the schema's keys it has.
    pub arg_present: Vec<Vec<bool>>,
    /// Per event, the values of the keys it has, in key order.
    pub arg_values: Vec<Vec<ArgValue>>,
}

/// A whole encoded trace.
#[derive(Clone, Debug)]
pub struct TraceZipPayload {
    pub dict_strings: Vec<String>,
    pub schemas: Vec<SrtSchema>,
    pub streams: Vec<StreamMeta>,
    pub global_buckets: Vec<GlobalBucket>,
}

/// One `(rank, pid, tid, ph)` stream of a trace.
#[derive(Clone, Debug)]
pub struct EventStream {
    pub rank: String,
    pub pid: i64,
    pub tid: String,
    pub ph: Phase,
    pub events: Vec<Event>,
}

/// The map that the present keys of a schema build with the values listed
/// for them, in order: the `j`-th present key takes the `j`-th value
/// (`Null` past the end of the values).
pub open spec fn present_map(keys: Seq<Seq<char>>, present: Seq<bool>, vals: Seq<ArgValue>) -> Map<Seq<char>, ArgValue>
    decreases keys.len(),
{
    if keys.len() == 0 || present.len() == 0 {
        Map::empty()
    } else if keys.len() <= present.len() && present[keys.len() - 1] {
        let j = present_count(present.take(keys.len() - 1));
        present_map(keys.drop_last(), present, vals).insert(
            keys.last(),
            if 0 <= j < vals.len() {
                vals[j]
            } else {
                ArgValue::Null
            },
        )
    } else {
        present_map(keys.drop_last(), present, vals)
    }
}

/// How many flags are set.
pub open spec fn present_count(p: Seq<bool>) -> int
    decreases p.len(),
{
    if p.len() == 0 {
        0
    } else {
        present_count(p.drop_last()) + if p.last() {
            1int
        } else {
            0
        }
    }
}

/// The argument entries `a` hold exactly the map `m` (first entry per key),
/// and are absent exactly when `m` is empty.
pub open spec fn zip_args_hold(a: Option<Vec<(String, ArgValue)>>, m: Map<Seq<char>, ArgValue>) -> bool {
    match a {
        None => m.dom() == Set::<Seq<char>>::empty(),
        Some(v) => {
            &&& m.dom() != Set::<Seq<char>>::empty()
            &&& forall|key: Seq<char>| #[trigger] arg_value(v@, key) == (if m.dom().contains(key) {
                Some(m[key])
            } else {
                None::<ArgValue>
            })
        },
    }
}

/// `(rank, ev)` is entry `i` of a bucket decoded, given the schema's name and
/// keys and the entry's stream.
pub open spec fn entry_decodes(
    dict: Seq<Seq<char>>,
    name: Seq<char>,
    keys: Seq<Seq<char>>,
    b: GlobalBucket,
    s: StreamMeta,
    i: int,
    rank: Seq<char>,
    ev: Event,
) -> bool {
    let present = if 0 <= i < b.arg_present@.len() {
        b.arg_present@[i]@
    } else {
        Seq::empty()
    };
    let vals = if 0 <= i < b.arg_values@.len() {
        b.arg_values@[i]@
    } else {
        Seq::empty()
    };
    &&& rank == lookup(dict, s.rank_dict_id)
    &&& ev.name@ == name
    &&& ev.ts == s.time_base + b.ts_offsets@[i]
    &&& ev.dur == (if get_or(b.dur_present@, i, false) {
        Some(get_or(b.dur@, i, 0i64))
    } else {
        None::<i64>
    })
    &&& ev.id == (if get_or(b.id_present@, i, false) {
        Some(get_or(b.ids@, i, 0i64))
    } else {
        None::<i64>
    })
    &&& opt_view(ev.cat) == lookup_opt(dict, get_or(b.cat_dict_id_plus1@, i, 0u32))
    &&& opt_view(ev.bp) == lookup_opt(dict, get_or(b.bp_dict_id_plus1@, i, 0u32))
    &&& opt_view(ev.s) == lookup_opt(dict, get_or(b.s_dict_id_plus1@, i, 0u32))
    &&& ev.ph == Phase(s.ph)
    &&& ev.pid == s.pid
    &&& ev.tid@ == lookup(dict, s.tid_dict_id)
    &&& zip_args_hold(ev.args, present_map(keys, present, vals))
}

/// When bucket `b`'s schema exists, every entry whose stream exists can be
/// placed: its offset is there, and the time base plus offset fits in an
/// `i64`.
pub open spec fn bucket_decodable(p: TraceZipPayload, b: int) -> bool {
    let bk = p.global_buckets@[b];
    (bk.schema_id as int) < p.schemas@.len() ==> forall|i: int|
        0 <= i < bk.stream_ids@.len() && (#[trigger] bk.stream_ids@[i] as int) < p.streams@.len() ==> i
            < bk.ts_offsets@.len() && fits_i64(p.streams@[bk.stream_ids@[i] as int].time_base + bk.ts_offsets@[i])
}

/// The keys of a schema, against the dictionary.
pub open spec fn schema_keys(dict: Seq<Seq<char>>, s: SrtSchema) -> Seq<Seq<char>> {
    s.arg_key_ids@.map(|_k: int, id: u32| lookup(dict, id))
}

/// Whether bucket `b` can be decoded (see [`bucket_decodable`]): when its
/// schema exists, each entry of a known stream has its offset, and its time
/// lies within `i64`.
pub fn bucket_decodable_check(p: &TraceZipPayload, b: usize) -> (r: bool)
    requires
        b < p.global_buckets@.len(),
    ensures
        r == bucket_decodable(*p, b as int),
{
    let bk = &p.global_buckets[b];
    if bk.schema_id as usize >= p.schemas.len() {
        return true;
    }
    let mut i: usize = 0;
    while i < bk.stream_ids.len()
        invariant
            *bk == p.global_buckets@[b as int],
            b < p.global_buckets@.len(),
            (bk.schema_id as int) < p.schemas@.len(),
            i <= bk.stream_ids@.len(),
            forall|j: int|
                0 <= j < i && (#[trigger] bk.stream_ids@[j] as int) < p.streams@.len() ==> j < bk.ts_offsets@.len()
                    && fits_i64(p.streams@[bk.stream_ids@[j] as int].time_base + bk.ts_offsets@[j]),
        decreases bk.stream_ids@.len() - i,
    {
        let sid = bk.stream_ids[i] as usize;
        if sid < p.streams.len() {
            proof {
                assert((bk.stream_ids@[i as int] as int) < p.streams@.len());
            }
            if i >= bk.ts_offsets.len() {
                return false;
            }
            let t: i128 = p.streams[sid].time_base as i128 + bk.ts_offsets[i] as i128;
            if t > 0x7fff_ffff_ffff_ffffi128 || t < -0x8000_0000_0000_0000i128 {
                return false;
            }
        }
        i += 1;
    }
    true
}

/// Decodes bucket `b`: one entry per event, `None` for an event whose
/// stream does not exist (every entry, when the schema does not); otherwise
/// the event's rank and the event rebuilt from the columns, the schema and
/// its stream.
pub fn decode_bucket(p: &TraceZipPayload, b: usize) -> (out: Vec<Option<(String, Event)>>)
    requires
        b < p.global_buckets@.len(),
        bucket_decodable(*p, b as int),
    ensures
        out@.len() == p.global_buckets@[b as int].stream_ids@.len(),
        forall|i: int|
            0 <= i < out@.len() ==> {
                let bk = p.global_buckets@[b as int];
                let known = (bk.schema_id as int) < p.schemas@.len() && (bk.stream_ids@[i] as int) < p.streams@.len();
                &&& (#[trigger] out@[i] is Some <==> known)
                &&& out@[i] matches Some((rank, ev)) ==> entry_decodes(
                    dict_view(p.dict_strings@),
                    lookup(dict_view(p.dict_strings@), p.schemas@[bk.schema_id as int].name_dict_id),
                    schema_keys(dict_view(p.dict_strings@), p.schemas@[bk.schema_id as int]),
                    bk,
                    p.streams@[bk.stream_ids@[i] as int],
                    i,
                    rank@,
                    ev,
                )
            },
{
    let bk = &p.global_buckets[b];
    let ghost dict = dict_view(p.dict_strings@);
    let n = bk.stream_ids.len();
    let mut out: Vec<Option<(String, Event)>> = Vec::new();
    if (bk.schema_id as usize) >= p.schemas.len() {
        let mut i: usize = 0;
        while i < n
            invariant
                i <= n,
                n == bk.stream_ids@.len(),
                out@.len() == i,
                forall|j: int| 0 <= j < i ==> #[trigger] out@[j] is None,
            decreases n - i,
        {
            out.push(None);
            i += 1;
        }
        return out;
    }
    let schema = &p.schemas[bk.schema_id as usize];
    let name = lookup_exec(&p.dict_strings, schema.name_dict_id);
    let mut keys: Vec<String> = Vec::new();
    let mut q: usize = 0;
    while q < schema.arg_key_ids.len()
        invariant
            q <= schema.arg_key_ids@.len(),
            keys@.len() == q,
            dict == dict_view(p.dict_strings@),
            forall|j: int| 0 <= j < q ==> #[trigger] keys@[j]@ == lookup(dict, schema.arg_key_ids@[j]),
        decreases schema.arg_key_ids@.len() - q,
    {
        keys.push(lookup_exec(&p.dict_strings, schema.arg_key_ids[q]));
        q += 1;
    }
    let ghost key_views = keys@.map(|_j: int, s: String| s@);
    proof {
        assert(key_views =~= schema_keys(dict, *schema));
    }
    let mut i: usize = 0;
    while i < n
        invariant
            i <= n,
            n == bk.stream_ids@.len(),
            *bk == p.global_buckets@[b as int],
            bucket_decodable(*p, b as int),
            (bk.schema_id as int) < p.schemas@.len(),
            *schema == p.schemas@[bk.schema_id as int],
            dict == dict_view(p.dict_strings@),
            name@ == lookup(dict, schema.name_dict_id),
            key_views == keys@.map(|_j: int, s: String| s@),
            key_views == schema_keys(dict, *schema),
            out@.len() == i,
            forall|j: int|
                0 <= j < i ==> {
                    let known = (bk.stream_ids@[j] as int) < p.streams@.len();
                    &&& (#[trigger] out@[j] is Some <==> known)
                    &&& out@[j] matches Some((rank, ev)) ==> entry_decodes(
                        dict,
                        name@,
                        key_views,
                        *bk,
                        p.streams@[bk.stream_ids@[j] as int],
                        j,
                        rank@,
                        ev,
                    )
                },
        decreases n - i,
    {
        let sid = bk.stream_ids[i] as usize;
        if sid >= p.streams.len() {
            out.push(None);
            i += 1;
            continue;
        }
        let st = &p.streams[sid];
        let ghost present: Seq<bool> = if i < bk.arg_present@.len() {
            bk.arg_present@[i as int]@
        } else {
            Seq::empty()
        };
        let ghost vals: Seq<ArgValue> = if i < bk.arg_values@.len() {
            bk.arg_values@[i as int]@
        } else {
            Seq::empty()
        };
        let mut args: Vec<(String, ArgValue)> = Vec::new();
        if i < bk.arg_present.len() {
            let pres = &bk.arg_present[i];
            let mut k: usize = 0;
            let mut vi: usize = 0;
            while k < keys.len() && k < pres.len()
                invariant
                    k <= keys@.len(),
                    k <= pres@.len(),
                    pres@ == present,
                    i < bk.arg_present@.len(),
                    *bk == p.global_buckets@[b as int],
                    vals == (if i < bk.arg_values@.len() {
                        bk.arg_values@[i as int]@
                    } else {
                        Seq::<ArgValue>::empty()
                    }),
                    key_views == keys@.map(|_j: int, s: String| s@),
                    vi == present_count(present.take(k as int)),
                    vi <= k,
                    forall|key: Seq<char>| #[trigger] arg_value(args@, key) == (if present_map(key_views.take(k as int), present, vals).dom().contains(key) {
                        Some(present_map(key_views.take(k as int), present, vals)[key])
                    } else {
                        None::<ArgValue>
                    }),
                    args@.len() == 0 <==> present_map(key_views.take(k as int), present, vals).dom() == Set::<Seq<char>>::empty(),
                decreases keys@.len() - k,
            {
                let ghost m0 = present_map(key_views.take(k as int), present, vals);
                proof {
                    assert(key_views.take(k + 1).drop_last() =~= key_views.take(k as int));
                    assert(key_views.take(k + 1).last() == keys@[k as int]@);
                    assert(present.take(k + 1).drop_last() =~= present.take(k as int));
                    assert(present.take(k + 1).last() == present[k as int]);
                }
                if pres[k] {
                    let v = if i < bk.arg_values.len() && vi < bk.arg_values[i].len() {
                        bk.arg_values[i][vi].copy()
                    } else {
                        ArgValue::Null
                    };
                    args_insert(&mut args, keys[k].clone(), v);
                    proof {
                        let m1 = present_map(key_views.take(k + 1), present, vals);
                        assert(m1 == m0.insert(keys@[k as int]@, v));
                        assert(m1.dom().contains(keys@[k as int]@));
                    }
                    vi += 1;
                } else {
                    proof {
                        assert(present_map(key_views.take(k + 1), present, vals) == m0);
                    }
                }
                k += 1;
            }
            proof {
                lemma_present_map_saturates(key_views, present, vals, k as int);
            }
        } else {
            proof {
                assert(present_map(key_views, present, vals) == Map::<Seq<char>, ArgValue>::empty());
            }
        }
        let ev_args = if args.len() == 0 {
            None
        } else {
            Some(args)
        };
        let dur = if i < bk.dur_present.len() && bk.dur_present[i] {
            Some(if i < bk.dur.len() {
                bk.dur[i]
            } else {
                0
            })
        } else {
            None
        };
        let id = if i < bk.id_present.len() && bk.id_present[i] {
            Some(if i < bk.ids.len() {
                bk.ids[i]
            } else {
                0
            })
        } else {
            None
        };
        let cat_code = if i < bk.cat_dict_id_plus1.len() {
            bk.cat_dict_id_plus1[i]
        } else {
            0
        };
        let bp_code = if i < bk.bp_dict_id_plus1.len() {
            bk.bp_dict_id_plus1[i]
        } else {
            0
        };
        let s_code = if i < bk.s_dict_id_plus1.len() {
            bk.s_dict_id_plus1[i]
        } else {
            0
        };
        proof {
            assert(fits_i64(p.streams@[bk.stream_ids@[i as int] as int].time_base + bk.ts_offsets@[i as int]));
        }
        let ev = Event {
            name: name.clone(),
            ts: st.time_base + bk.ts_offsets[i],
            dur,
            cat: lookup_opt_exec(&p.dict_strings, cat_code),
            ph: Phase(st.ph),
            pid: st.pid,
            tid: lookup_exec(&p.dict_strings, st.tid_dict_id),
            args: ev_args,
            id,
            bp: lookup_opt_exec(&p.dict_strings, bp_code),
            s: lookup_opt_exec(&p.dict_strings, s_code),
        };
        let rank = lookup_exec(&p.dict_strings, st.rank_dict_id);
        proof {
            let m = present_map(key_views, present, vals);
            if ev.args is Some {
                let a = ev.args->0;
                assert(a@.len() > 0);
                assert(m.dom() != Set::<Seq<char>>::empty());
            }
            assert(zip_args_hold(ev.args, m));
            assert(entry_decodes(dict, name@, key_views, *bk, *st, i as int, rank@, ev));
        }
        out.push(Some((rank, ev)));
        i += 1;
    }
    out
}

/// Once the keys or the flags are used up, the map stops growing.
proof fn lemma_present_map_saturates(keys: Seq<Seq<char>>, present: Seq<bool>, vals: Seq<ArgValue>, k: int)
    requires
        0 <= k <= keys.len(),
        k <= present.len(),
        k == keys.len() || k == present.len(),
    ensures
        present_map(keys, present, vals) == present_map(keys.take(k), present, vals),
    decreases keys.len(),
{
    if k == keys.len() {
        assert(keys.take(k) =~= keys);
    } else {
        lemma_present_map_saturates(keys.drop_last(), present, vals, k);
        assert(keys.drop_last().take(k) =~= keys.take(k));
    }
}

/// The events of all streams, stream after stream.
pub open spec fn all_events(cells: Seq<EventStream>) -> Seq<Event>
    decreases cells.len(),
{
    if cells.len() == 0 {
        Seq::empty()
    } else {
        all_events(cells.drop_last()) + cells.last().events@
    }
}

/// Some event named `name` among `evs` has an argument `key`.
pub open spec fn name_key_in(evs: Seq<Event>, name: Seq<char>, key: Seq<char>) -> bool {
    exists|t: int| 0 <= t < evs.len() && (#[trigger] evs[t]).name@ == name && has_arg_key(evs[t].args, key)
}

/// The argument key `q` of an event's argument entries.
pub open spec fn entry_key(a: Seq<(String, ArgValue)>, q: int) -> Seq<char> {
    a[q].0@
}

/// The views of a list of strings hold no string twice.
pub open spec fn distinct_views(v: Seq<Seq<char>>) -> bool {
    forall|i: int, j: int| 0 <= i < j < v.len() ==> v[i] != v[j]
}

/// For each name of `name_order`, the distinct argument keys of the events
/// with that name (first-seen order).
pub fn collect_name_keys(cells: &Vec<EventStream>, name_order: &Vec<String>) -> (r: Vec<Vec<String>>)
    requires
        distinct_views(dict_view(name_order@)),
        name_order@.len() <= u32::MAX,
        forall|t: int| 0 <= t < all_events(cells@).len() ==> dict_view(name_order@).contains(#[trigger] all_events(cells@)[t].name@),
        total_args(all_events(cells@)) <= u32::MAX,
    ensures
        r@.len() == name_order@.len(),
        nat_sum(list_sizes(r@)) <= total_args(all_events(cells@)),
        forall|j: int| 0 <= j < r@.len() ==> distinct_views(dict_view(#[trigger] r@[j]@)),
        forall|j: int, key: Seq<char>|
            0 <= j < r@.len() ==> (#[trigger] dict_view(r@[j]@).contains(key) <==> name_key_in(
                all_events(cells@),
                name_order@[j]@,
                key,
            )),
{
    let mut order = StringDict::new();
    let mut sets: Vec<StringDict> = Vec::new();
    let mut j: usize = 0;
    while j < name_order.len()
        invariant
            j <= name_order@.len(),
            name_order@.len() <= u32::MAX,
            distinct_views(dict_view(name_order@)),
            order.wf(),
            order@ == dict_view(name_order@).take(j as int),
            sets@.len() == j,
            forall|k: int| 0 <= k < j ==> (#[trigger] sets@[k]).wf() && sets@[k]@.len() == 0,
        decreases name_order@.len() - j,
    {
        proof {
            assert(!order@.contains(name_order@[j as int]@)) by {
                if order@.contains(name_order@[j as int]@) {
                    let k = choose|k: int| 0 <= k < order@.len() && order@[k] == name_order@[j as int]@;
                    assert(dict_view(name_order@)[k] == dict_view(name_order@)[j as int]);
                }
            }
        }
        order.intern(name_order[j].as_str());
        sets.push(StringDict::new());
        j += 1;
        proof {
            assert(order@ =~= dict_view(name_order@).take(j as int));
        }
    }
    proof {
        assert(dict_view(name_order@).take(name_order@.len() as int) =~= dict_view(name_order@));
    }
    let ghost names = dict_view(name_order@);
    let ghost mut seen: Seq<Event> = Seq::empty();
    let mut c: usize = 0;
    proof {
        assert(cells@.take(0) =~= Seq::<EventStream>::empty());
        assert(all_events(cells@.take(0)) =~= Seq::<Event>::empty());
        lemma_total_args_prefix(all_events(cells@), 0);
        assert(all_events(cells@).take(0) =~= seen);
        assert(dict_sizes(sets@) =~= Seq::new(sets@.len(), |_i: int| 0nat));
        lemma_nat_sum_zero(dict_sizes(sets@));
    }
    while c < cells.len()
        invariant
            c <= cells@.len(),
            order.wf(),
            order@ == names,
            names == dict_view(name_order@),
            distinct_views(names),
            sets@.len() == names.len(),
            forall|t: int| 0 <= t < all_events(cells@).len() ==> names.contains(#[trigger] all_events(cells@)[t].name@),
            total_args(all_events(cells@)) <= u32::MAX,
            seen == all_events(cells@.take(c as int)),
            seen == all_events(cells@).take(seen.len() as int),
            seen.len() <= all_events(cells@).len(),
            forall|k: int| 0 <= k < sets@.len() ==> (#[trigger] sets@[k]).wf(),
            forall|k: int, key: Seq<char>|
                0 <= k < sets@.len() ==> (#[trigger] sets@[k]@.contains(key) <==> name_key_in(seen, names[k], key)),
            nat_sum(dict_sizes(sets@)) <= total_args(seen),
        decreases cells@.len() - c,
    {
        let cell = &cells[c];
        let ghost seen0 = seen;
        proof {
            lemma_all_events_take(cells@, c as int);
        }
        let mut e: usize = 0;
        while e < cell.events.len()
            invariant
                e <= cell.events@.len(),
                *cell == cells@[c as int],
                c < cells@.len(),
                order.wf(),
                order@ == names,
                names == dict_view(name_order@),
                distinct_views(names),
                sets@.len() == names.len(),
                forall|t: int| 0 <= t < all_events(cells@).len() ==> names.contains(#[trigger] all_events(cells@)[t].name@),
                total_args(all_events(cells@)) <= u32::MAX,
                seen0 == all_events(cells@.take(c as int)),
                all_events(cells@.take(c + 1)) == seen0 + cell.events@,
                seen == seen0 + cell.events@.take(e as int),
                all_events(cells@.take(c + 1)) == all_events(cells@).take(all_events(cells@.take(c + 1)).len() as int),
                all_events(cells@.take(c + 1)).len() <= all_events(cells@).len(),
                forall|k: int| 0 <= k < sets@.len() ==> (#[trigger] sets@[k]).wf(),
                forall|k: int, key: Seq<char>|
                    0 <= k < sets@.len() ==> (#[trigger] sets@[k]@.contains(key) <==> name_key_in(seen, names[k], key)),
                nat_sum(dict_sizes(sets@)) <= total_args(seen),
            decreases cell.events@.len() - e,
        {
            let ev = &cell.events[e];
            let ghost pos = seen.len() as int;
            proof {
                assert(seen0 + cell.events@.take(e + 1) =~= seen.push(*ev));
                assert(all_events(cells@)[pos] == *ev) by {
                    assert(all_events(cells@.take(c + 1))[pos] == *ev);
                    assert(all_events(cells@).take(all_events(cells@.take(c + 1)).len() as int)[pos] == all_events(cells@)[pos]);
                }
                lemma_total_args_prefix(all_events(cells@), pos + 1);
                lemma_total_args_push(seen, *ev);
                assert(all_events(cells@).take(pos + 1) =~= seen.push(*ev)) by {
                    assert(all_events(cells@).take(pos) =~= seen) by {
                        assert(all_events(cells@.take(c + 1)).take(pos) =~= seen);
                        assert(all_events(cells@).take(pos) =~= all_events(cells@).take(all_events(cells@.take(c + 1)).len() as int).take(pos));
                    }
                }
                assert(names.contains(ev.name@));
            }
            let found = order.find(ev.name.as_str());
            let ghost seen1 = seen.push(*ev);
            match found {
                Some(j) => {
                    let ghost sets_before = sets@;
                    let mut set = StringDict::new();
                    std::mem::swap(&mut set, &mut sets[j as usize]);
                    let ghost set0 = set@;
                    assert(set.wf());
                    proof {
                        lemma_nat_sum_elem(dict_sizes(sets_before), j as int);
                        assert(dict_sizes(sets_before)[j as int] == set0.len());
                    }
                    match &ev.args {
                        Some(a) => {
                            let mut q: usize = 0;
                            while q < a.len()
                                invariant
                                    q <= a@.len(),
                                    ev.args == Some(*a),
                                    set.wf(),
                                    set@.len() <= set0.len() + q,
                                    set0.len() + a@.len() <= u32::MAX,
                                    forall|key: Seq<char>| #[trigger] set@.contains(key) <==> (set0.contains(key) || exists|q2: int|
                                        0 <= q2 < q && entry_key(a@, q2) == key),
                                decreases a@.len() - q,
                            {
                                let ghost before = set@;
                                set.intern(a[q].0.as_str());
                                proof {
                                    assert forall|key: Seq<char>| #[trigger] set@.contains(key) <==> (set0.contains(key) || exists|q2: int|
                                        0 <= q2 < q + 1 && entry_key(a@, q2) == key) by {
                                        if key == a@[q as int].0@ {
                                            assert(entry_key(a@, q as int) == key);
                                            assert(set@.contains(key)) by {
                                                let id = choose|id: int| 0 <= id < set@.len() && set@[id] == key;
                                            }
                                        }
                                        if before.contains(key) {
                                            let i = choose|i: int| 0 <= i < before.len() && before[i] == key;
                                            if before.contains(a@[q as int].0@) {
                                                assert(set@[i] == key);
                                            } else {
                                                assert(set@[i] == key);
                                            }
                                        }
                                        if set@.contains(key) && key != a@[q as int].0@ {
                                            let i = choose|i: int| 0 <= i < set@.len() && set@[i] == key;
                                            if !before.contains(a@[q as int].0@) {
                                                assert(i < before.len());
                                            }
                                            assert(before[i] == key);
                                        }
                                    }
                                }
                                q += 1;
                            }
                        },
                        None => {},
                    }
                    let ghost set1 = set@;
                    std::mem::swap(&mut set, &mut sets[j as usize]);
                    proof {
                        seen = seen1;
                        assert forall|k: int, key: Seq<char>|
                            0 <= k < sets@.len() implies (#[trigger] sets@[k]@.contains(key) <==> name_key_in(seen, names[k], key)) by {
                            lemma_name_key_push(seen.drop_last(), *ev, names[k], key);
                            assert(seen.drop_last() =~= seen0 + cell.events@.take(e as int));
                            if k == j as int {
                                assert(names[k] == ev.name@);
                                if has_arg_key(ev.args, key) {
                                    let a = ev.args->0;
                                    let q2 = choose|q2: int| 0 <= q2 < a@.len() && #[trigger] a@[q2].0@ == key;
                                    assert(entry_key(a@, q2) == key);
                                }
                                match ev.args {
                                    Some(a) => {
                                        if exists|q2: int| 0 <= q2 < a@.len() && entry_key(a@, q2) == key {
                                            let q2 = choose|q2: int| 0 <= q2 < a@.len() && entry_key(a@, q2) == key;
                                            assert(a@[q2].0@ == key);
                                        }
                                    },
                                    None => {},
                                }
                            } else {
                                assert(names[k] != ev.name@) by {
                                    assert(names[j as int] == ev.name@);
                                }
                            }
                        }
                        lemma_total_args_push(seen.drop_last(), *ev);
                        assert(sets@ == sets_before.update(j as int, sets@[j as int]));
                        assert(dict_sizes(sets@) =~= dict_sizes(sets_before).update(j as int, set1.len()));
                        lemma_nat_sum_update(dict_sizes(sets_before), j as int, set1.len());
                    }
                },
                None => {
                    proof {
                        assert(false);
                    }
                },
            }
            e += 1;
            proof {
                assert(seen =~= seen0 + cell.events@.take(e as int));
            }
        }
        c += 1;
        proof {
            assert(cell.events@.take(cell.events@.len() as int) =~= cell.events@);
            assert(seen == all_events(cells@.take(c as int)));
        }
    }
    proof {
        assert(cells@.take(cells@.len() as int) =~= cells@);
    }
    let mut r: Vec<Vec<String>> = Vec::new();
    let mut k: usize = 0;
    let ghost sets0 = sets@;
    proof {
        assert(list_sizes(r@) =~= dict_sizes(sets0).take(0));
    }
    while k < sets.len()
        invariant
            k <= sets@.len(),
            sets@.len() == names.len(),
            sets0.len() == names.len(),
            forall|i: int| k <= i < sets@.len() ==> #[trigger] sets@[i] == sets0[i],
            list_sizes(r@) == dict_sizes(sets0).take(k as int),
            nat_sum(dict_sizes(sets0)) <= total_args(all_events(cells@)),
            r@.len() == k,
            forall|i: int| k <= i < sets@.len() ==> (#[trigger] sets@[i]).wf() && forall|key: Seq<char>| #[trigger] sets@[i]@.contains(key) <==> name_key_in(all_events(cells@), names[i], key),
            forall|i: int| 0 <= i < k ==> distinct_views(dict_view(#[trigger] r@[i]@)),
            forall|i: int, key: Seq<char>|
                0 <= i < k ==> (#[trigger] dict_view(r@[i]@).contains(key) <==> name_key_in(all_events(cells@), names[i], key)),
        decreases sets@.len() - k,
    {
        let mut set = StringDict::new();
        std::mem::swap(&mut set, &mut sets[k]);
        proof {
            set.lemma_distinct();
        }
        let ghost sv = set@;
        let v = set.into_strings();
        proof {
            assert(dict_view(v@) == sv);
        }
        r.push(v);
        k += 1;
        proof {
            assert(list_sizes(r@) =~= dict_sizes(sets0).take(k as int));
        }
    }
    proof {
        assert(dict_sizes(sets0).take(k as int) =~= dict_sizes(sets0));
    }
    r
}

proof fn lemma_all_events_take(cells: Seq<EventStream>, c: int)
    requires
        0 <= c < cells.len(),
    ensures
        all_events(cells.take(c + 1)) == all_events(cells.take(c)) + cells[c].events@,
        all_events(cells.take(c + 1)) == all_events(cells).take(all_events(cells.take(c + 1)).len() as int),
        all_events(cells.take(c + 1)).len() <= all_events(cells).len(),
    decreases cells.len(),
{
    assert(cells.take(c + 1).drop_last() =~= cells.take(c));
    if c + 1 == cells.len() {
        assert(cells.take(c + 1) =~= cells);
        assert(all_events(cells).take(all_events(cells).len() as int) =~= all_events(cells));
    } else {
        lemma_all_events_take(cells.drop_last(), c);
        assert(cells.drop_last().take(c + 1) =~= cells.take(c + 1));
        assert(cells.drop_last().take(c) =~= cells.take(c));
        let x = all_events(cells.take(c + 1));
        let dl = all_events(cells.drop_last());
        assert(all_events(cells) == dl + cells.last().events@);
        assert(all_events(cells).take(x.len() as int) =~= dl.take(x.len() as int));
    }
}

proof fn lemma_name_key_push(evs: Seq<Event>, e: Event, name: Seq<char>, key: Seq<char>)
    ensures
        name_key_in(evs.push(e), name, key) <==> (name_key_in(evs, name, key) || (e.name@ == name && has_arg_key(e.args, key))),
{
    let p = evs.push(e);
    if name_key_in(evs, name, key) {
        let t = choose|t: int| 0 <= t < evs.len() && (#[trigger] evs[t]).name@ == name && has_arg_key(evs[t].args, key);
        assert(p[t] == evs[t]);
    }
    if e.name@ == name && has_arg_key(e.args, key) {
        assert(p[evs.len() as int] == e);
    }
    if name_key_in(p, name, key) {
        let t = choose|t: int| 0 <= t < p.len() && (#[trigger] p[t]).name@ == name && has_arg_key(p[t].args, key);
        if t < evs.len() {
            assert(p[t] == evs[t]);
        }
    }
}

/// The values of the keys among `keys` that the event has, in key order.
pub open spec fn present_values(keys: Seq<Seq<char>>, args: Option<Vec<(String, ArgValue)>>) -> Seq<ArgValue>
    decreases keys.len(),
{
    if keys.len() == 0 {
        Seq::empty()
    } else if has_arg_key(args, keys.last()) {
        present_values(keys.drop_last(), args).push(event_arg(args, keys.last()))
    } else {
        present_values(keys.drop_last(), args)
    }
}

/// Entry `i` of a bucket encodes event `ev` of a stream with time base
/// `tb`, against the dictionary and the schema's keys.
pub open spec fn entry_encodes(dict: Seq<Seq<char>>, keys: Seq<Seq<char>>, b: GlobalBucket, i: int, tb: i64, ev: Event) -> bool {
    &&& b.ts_offsets@[i] == ev.ts - tb
    &&& b.dur_present@[i] == (ev.dur is Some)
    &&& b.dur@[i] == or_zero(ev.dur)
    &&& b.id_present@[i] == (ev.id is Some)
    &&& b.ids@[i] == or_zero(ev.id)
    &&& encodes_opt(dict, b.cat_dict_id_plus1@[i], ev.cat)
    &&& encodes_opt(dict, b.bp_dict_id_plus1@[i], ev.bp)
    &&& encodes_opt(dict, b.s_dict_id_plus1@[i], ev.s)
    &&& b.arg_present@[i]@.len() == keys.len()
    &&& forall|k: int| 0 <= k < keys.len() ==> (#[trigger] b.arg_present@[i]@[k]) == has_arg_key(ev.args, keys[k])
    &&& b.arg_values@[i]@ == present_values(keys, ev.args)
}

/// A bucket's columns all have one entry per event.
pub open spec fn bucket_shaped(b: GlobalBucket) -> bool {
    let n = b.stream_ids@.len();
    &&& b.ts_offsets@.len() == n
    &&& b.dur_present@.len() == n
    &&& b.dur@.len() == n
    &&& b.id_present@.len() == n
    &&& b.ids@.len() == n
    &&& b.cat_dict_id_plus1@.len() == n
    &&& b.bp_dict_id_plus1@.len() == n
    &&& b.s_dict_id_plus1@.len() == n
    &&& b.arg_present@.len() == n
    &&& b.arg_values@.len() == n
}

/// The smallest `ts` of a non-empty list of events.
pub open spec fn min_ts(evs: Seq<Event>) -> i64
    decreases evs.len(),
{
    if evs.len() <= 1 {
        if evs.len() == 1 {
            evs[0].ts
        } else {
            i64::MAX
        }
    } else {
        let m = min_ts(evs.drop_last());
        if evs.last().ts < m {
            evs.last().ts
        } else {
            m
        }
    }
}

/// The streams that have events, in order.
pub open spec fn kept_streams(cells: Seq<EventStream>) -> Seq<EventStream>
    decreases cells.len(),
{
    if cells.len() == 0 {
        Seq::empty()
    } else if cells.last().events@.len() > 0 {
        kept_streams(cells.drop_last()).push(cells.last())
    } else {
        kept_streams(cells.drop_last())
    }
}

/// The value of an optional integer, 0 when absent.
pub open spec fn or_zero(v: Option<i64>) -> i64 {
    match v {
        Some(x) => x,
        None => 0,
    }
}

/// Interns a string into the dictionary, keeping its earlier entries.
fn intern_keep(dict: &mut StringDict, s: &str) -> (id: u32)
    requires
        old(dict).wf(),
        old(dict)@.len() < u32::MAX,
    ensures
        final(dict).wf(),
        extends(final(dict)@, old(dict)@),
        final(dict)@.len() <= old(dict)@.len() + 1,
        (id as int) < final(dict)@.len(),
        final(dict)@[id as int] == s@,
{
    let ghost before = dict@;
    let id = dict.intern(s);
    proof {
        assert(dict@.take(before.len() as int) =~= before);
    }
    id
}

/// `0` for an absent string, else its id plus one.
fn intern_opt_keep(dict: &mut StringDict, s: &Option<String>) -> (code: u32)
    requires
        old(dict).wf(),
        old(dict)@.len() < u32::MAX - 1,
    ensures
        final(dict).wf(),
        extends(final(dict)@, old(dict)@),
        final(dict)@.len() <= old(dict)@.len() + 1,
        encodes_opt(final(dict)@, code, *s),
{
    match s {
        Some(v) => intern_keep(dict, v.as_str()) + 1,
        None => {
            assert(dict@.take(dict@.len() as int) =~= dict@);
            0
        },
    }
}

/// The columns of bucket entry `i` are unchanged between two buckets.
pub open spec fn same_entry(a: GlobalBucket, b: GlobalBucket, i: int) -> bool {
    &&& a.stream_ids@[i] == b.stream_ids@[i]
    &&& a.ts_offsets@[i] == b.ts_offsets@[i]
    &&& a.dur_present@[i] == b.dur_present@[i]
    &&& a.dur@[i] == b.dur@[i]
    &&& a.id_present@[i] == b.id_present@[i]
    &&& a.ids@[i] == b.ids@[i]
    &&& a.cat_dict_id_plus1@[i] == b.cat_dict_id_plus1@[i]
    &&& a.bp_dict_id_plus1@[i] == b.bp_dict_id_plus1@[i]
    &&& a.s_dict_id_plus1@[i] == b.s_dict_id_plus1@[i]
    &&& a.arg_present@[i] == b.arg_present@[i]
    &&& a.arg_values@[i] == b.arg_values@[i]
}

/// Appends event `ev` of stream `stream_id` (time base `tb`) to a bucket
/// whose schema has the keys `keys`.
fn push_entry(b: &mut GlobalBucket, stream_id: u32, tb: i64, ev: &Event, keys: &Vec<String>, dict: &mut StringDict)
    requires
        bucket_shaped(*old(b)),
        old(dict).wf(),
        old(dict)@.len() + 3 < u32::MAX,
        fits_i64(ev.ts - tb),
    ensures
        bucket_shaped(*final(b)),
        final(b).schema_id == old(b).schema_id,
        final(b).stream_ids@.len() == old(b).stream_ids@.len() + 1,
        forall|i: int| 0 <= i < old(b).stream_ids@.len() ==> #[trigger] same_entry(*old(b), *final(b), i),
        final(b).stream_ids@.last() == stream_id,
        final(b).stream_ids@ == old(b).stream_ids@.push(stream_id),
        final(dict).wf(),
        extends(final(dict)@, old(dict)@),
        final(dict)@.len() <= old(dict)@.len() + 3,
        entry_encodes(final(dict)@, dict_view(keys@), *final(b), old(b).stream_ids@.len() as int, tb, *ev),
{
    let ghost old_b = *b;
    let ghost n = b.stream_ids@.len() as int;
    b.stream_ids.push(stream_id);
    b.ts_offsets.push(ev.ts - tb);
    match ev.dur {
        Some(d) => {
            b.dur_present.push(true);
            b.dur.push(d);
        },
        None => {
            b.dur_present.push(false);
            b.dur.push(0);
        },
    }
    match ev.id {
        Some(x) => {
            b.id_present.push(true);
            b.ids.push(x);
        },
        None => {
            b.id_present.push(false);
            b.ids.push(0);
        },
    }
    let ghost d0 = dict@;
    let cat = intern_opt_keep(dict, &ev.cat);
    let ghost d1 = dict@;
    let bp = intern_opt_keep(dict, &ev.bp);
    let ghost d2 = dict@;
    let sc = intern_opt_keep(dict, &ev.s);
    proof {
        let d = dict@;
        assert(d.take(d1.len() as int) =~= d.take(d2.len() as int).take(d1.len() as int));
        lemma_opt_persists(d1, d, cat, ev.cat);
        lemma_opt_persists(d2, d, bp, ev.bp);
        assert(d.take(d0.len() as int) =~= d.take(d1.len() as int).take(d0.len() as int));
    }
    b.cat_dict_id_plus1.push(cat);
    b.bp_dict_id_plus1.push(bp);
    b.s_dict_id_plus1.push(sc);
    let ghost kv = dict_view(keys@);
    let mut presence: Vec<bool> = Vec::new();
    let mut values: Vec<ArgValue> = Vec::new();
    let mut k: usize = 0;
    while k < keys.len()
        invariant
            k <= keys@.len(),
            kv == dict_view(keys@),
            presence@.len() == k,
            forall|q: int| 0 <= q < k ==> (#[trigger] presence@[q]) == has_arg_key(ev.args, kv[q]),
            values@ == present_values(kv.take(k as int), ev.args),
        decreases keys@.len() - k,
    {
        let found = find_arg(&ev.args, &keys[k]);
        proof {
            assert(kv.take(k + 1).drop_last() =~= kv.take(k as int));
            assert(kv.take(k + 1).last() == keys@[k as int]@);
            if ev.args is Some {
                let a = ev.args->0;
                lemma_arg_value_found(a@, keys@[k as int]@);
                if has_arg_key(ev.args, kv[k as int]) {
                    let q2 = choose|q2: int| 0 <= q2 < a@.len() && #[trigger] a@[q2].0@ == kv[k as int];
                    assert(a@[q2].0@ == keys@[k as int]@);
                }
                if found is Some {
                    let q2 = choose|q2: int| 0 <= q2 < a@.len() && a@[q2].0@ == keys@[k as int]@;
                    assert(a@[q2].0@ == kv[k as int]);
                }
            }
        }
        match found {
            Some(v) => {
                presence.push(true);
                values.push(v);
            },
            None => {
                presence.push(false);
            },
        }
        k += 1;
    }
    proof {
        assert(kv.take(keys@.len() as int) =~= kv);
    }
    b.arg_present.push(presence);
    b.arg_values.push(values);
    proof {
        assert forall|i: int| 0 <= i < old_b.stream_ids@.len() implies #[trigger] same_entry(old_b, *b, i) by {
        }
    }
}

/// The sum of a list of naturals.
pub open spec fn nat_sum(s: Seq<nat>) -> int
    decreases s.len(),
{
    if s.len() == 0 {
        0
    } else {
        nat_sum(s.drop_last()) + s.last()
    }
}

/// The sizes of a list of dictionaries.
pub open spec fn dict_sizes(d: Seq<StringDict>) -> Seq<nat> {
    d.map(|_i: int, x: StringDict| x@.len())
}

/// The lengths of a list of string lists.
pub open spec fn list_sizes(r: Seq<Vec<String>>) -> Seq<nat> {
    r.map(|_i: int, x: Vec<String>| x@.len())
}

proof fn lemma_nat_sum_update(s: Seq<nat>, j: int, v: nat)
    requires
        0 <= j < s.len(),
    ensures
        nat_sum(s.update(j, v)) == nat_sum(s) - s[j] + v,
    decreases s.len(),
{
    if j < s.len() - 1 {
        assert(s.update(j, v).drop_last() =~= s.drop_last().update(j, v));
        lemma_nat_sum_update(s.drop_last(), j, v);
    } else {
        assert(s.update(j, v).drop_last() =~= s.drop_last());
    }
}

proof fn lemma_nat_sum_elem(s: Seq<nat>, j: int)
    requires
        0 <= j < s.len(),
    ensures
        s[j] <= nat_sum(s),
        0 <= nat_sum(s),
    decreases s.len(),
{
    lemma_nat_sum_nonneg(s.drop_last());
    if j < s.len() - 1 {
        lemma_nat_sum_elem(s.drop_last(), j);
    }
}

proof fn lemma_nat_sum_nonneg(s: Seq<nat>)
    ensures
        0 <= nat_sum(s),
    decreases s.len(),
{
    if s.len() > 0 {
        lemma_nat_sum_nonneg(s.drop_last());
    }
}

proof fn lemma_nat_sum_zero(s: Seq<nat>)
    requires
        forall|k: int| 0 <= k < s.len() ==> s[k] == 0,
    ensures
        nat_sum(s) == 0,
    decreases s.len(),
{
    if s.len() > 0 {
        lemma_nat_sum_zero(s.drop_last());
    }
}

proof fn lemma_nat_sum_prefix(s: Seq<nat>, k: int)
    requires
        0 <= k <= s.len(),
    ensures
        nat_sum(s.take(k)) <= nat_sum(s),
        k < s.len() ==> nat_sum(s.take(k + 1)) == nat_sum(s.take(k)) + s[k],
    decreases s.len(),
{
    if k < s.len() {
        assert(s.take(k + 1).drop_last() =~= s.take(k));
    }
    if k == s.len() {
        assert(s.take(k) =~= s);
    } else {
        lemma_nat_sum_prefix(s.drop_last(), k);
        assert(s.drop_last().take(k) =~= s.take(k));
        lemma_nat_sum_nonneg(s.drop_last());
    }
}

/// The time base of a stream: its smallest `ts` (0 when that is
/// `i64::MAX`).
pub open spec fn time_base_of(evs: Seq<Event>) -> i64 {
    if min_ts(evs) == i64::MAX {
        0
    } else {
        min_ts(evs)
    }
}

/// Schema `s` describes the events named `name`: its name, and its keys
/// (ascending, none twice) are exactly the argument keys of those events.
pub open spec fn schema_ok(dict: Seq<Seq<char>>, s: SrtSchema, name: Seq<char>, evs: Seq<Event>) -> bool {
    let keys = schema_keys(dict, s);
    &&& (s.name_dict_id as int) < dict.len()
    &&& dict[s.name_dict_id as int] == name
    &&& forall|k: int| 0 <= k < s.arg_key_ids@.len() ==> (#[trigger] s.arg_key_ids@[k] as int) < dict.len()
    &&& distinct_views(keys)
    &&& forall|i: int, j: int| 0 <= i < j < keys.len() ==> bytes_le(utf8(#[trigger] keys[i]), utf8(#[trigger] keys[j]))
    &&& forall|key: Seq<char>| #[trigger] keys.contains(key) <==> name_key_in(evs, name, key)
}

/// Stream `m` describes the stream `c`.
pub open spec fn stream_ok(dict: Seq<Seq<char>>, m: StreamMeta, c: EventStream) -> bool {
    &&& lookup(dict, m.rank_dict_id) == c.rank@
    &&& (m.rank_dict_id as int) < dict.len()
    &&& lookup(dict, m.tid_dict_id) == c.tid@
    &&& (m.tid_dict_id as int) < dict.len()
    &&& m.pid == c.pid
    &&& m.ph == c.ph.0
    &&& m.time_base == time_base_of(c.events@)
}

/// Entry `i` of bucket `b` (of schema `j`) is an event of its stream named
/// like the schema, encoded.
pub open spec fn entry_of(
    dict: Seq<Seq<char>>,
    schemas: Seq<SrtSchema>,
    streams: Seq<StreamMeta>,
    kept: Seq<EventStream>,
    names: Seq<Seq<char>>,
    b: GlobalBucket,
    i: int,
) -> bool {
    let sid = b.stream_ids@[i] as int;
    &&& sid < streams.len()
    &&& sid < kept.len()
    &&& exists|e: int|
        0 <= e < kept[sid].events@.len() && kept[sid].events@[e].name@ == names[b.schema_id as int] && entry_encodes(
            dict,
            schema_keys(dict, schemas[b.schema_id as int]),
            b,
            i,
            streams[sid].time_base,
            kept[sid].events@[e],
        )
}

/// The payload encodes the streams: one schema per name of `name_order`,
/// one stream entry per stream with events, and buckets (ascending schema
/// ids, none empty) whose entries are events of their streams.
pub open spec fn zip_encodes(p: TraceZipPayload, cells: Seq<EventStream>, name_order: Seq<String>) -> bool {
    let dict = dict_view(p.dict_strings@);
    let kept = kept_streams(cells);
    let names = dict_view(name_order);
    let evs = all_events(cells);
    &&& p.schemas@.len() == names.len()
    &&& forall|j: int| 0 <= j < names.len() ==> schema_ok(dict, #[trigger] p.schemas@[j], names[j], evs)
    &&& p.streams@.len() == kept.len()
    &&& forall|k: int| 0 <= k < kept.len() ==> stream_ok(dict, #[trigger] p.streams@[k], kept[k])
    &&& forall|a: int, b: int|
        0 <= a < b < p.global_buckets@.len() ==> (#[trigger] p.global_buckets@[a]).schema_id < (#[trigger] p.global_buckets@[b]).schema_id
    &&& forall|b: int|
        0 <= b < p.global_buckets@.len() ==> {
            let bk = #[trigger] p.global_buckets@[b];
            &&& bucket_shaped(bk)
            &&& (bk.schema_id as int) < names.len()
            &&& bk.stream_ids@.len() > 0
            &&& forall|i: int| 0 <= i < bk.stream_ids@.len() ==> #[trigger] entry_of(dict, p.schemas@, p.streams@, kept, names, bk, i)
        }
    &&& zip_exact(p, cells, name_order)
}

/// No event is left out or repeated: the bucket of each schema holds, of
/// each stream with events, exactly the stream's events of the schema's
/// name, each once and in the stream's order; a name without a bucket has
/// no events.
pub open spec fn zip_exact(p: TraceZipPayload, cells: Seq<EventStream>, name_order: Seq<String>) -> bool {
    let dict = dict_view(p.dict_strings@);
    let names = dict_view(name_order);
    let evss = stream_events(kept_streams(cells));
    let tbs = stream_tbs(p.streams@);
    &&& forall|b: int|
        0 <= b < p.global_buckets@.len() ==> {
            let bk = #[trigger] p.global_buckets@[b];
            bucket_exact(dict, schema_keys(dict, p.schemas@[bk.schema_id as int]), tbs, evss, names[bk.schema_id as int], bk)
        }
    &&& forall|j: int, sid: int|
        #![trigger named_events(evss[sid], names[j])]
        0 <= j < names.len() && 0 <= sid < evss.len() && named_events(evss[sid], names[j]).len() > 0 ==> exists|b: int|
            0 <= b < p.global_buckets@.len() && #[trigger] p.global_buckets@[b].schema_id == j
}

/// The strings the encoding may add to the dictionary, at most.
pub open spec fn zip_budget(cells: Seq<EventStream>, name_order: Seq<String>) -> int {
    name_order.len() + total_args(all_events(cells)) + 2 * cells.len() + 3 * all_events(cells).len()
}

/// A dictionary of the names of `name_order`, each with its position as id.
fn order_dict(name_order: &Vec<String>) -> (d: StringDict)
    requires
        distinct_views(dict_view(name_order@)),
        name_order@.len() <= u32::MAX,
    ensures
        d.wf(),
        d@ == dict_view(name_order@),
{
    let mut order = StringDict::new();
    let mut j: usize = 0;
    while j < name_order.len()
        invariant
            j <= name_order@.len(),
            name_order@.len() <= u32::MAX,
            distinct_views(dict_view(name_order@)),
            order.wf(),
            order@ == dict_view(name_order@).take(j as int),
        decreases name_order@.len() - j,
    {
        proof {
            assert(!order@.contains(name_order@[j as int]@)) by {
                if order@.contains(name_order@[j as int]@) {
                    let k = choose|k: int| 0 <= k < order@.len() && order@[k] == name_order@[j as int]@;
                    assert(dict_view(name_order@)[k] == dict_view(name_order@)[j as int]);
                }
            }
        }
        order.intern(name_order[j].as_str());
        j += 1;
        proof {
            assert(order@ =~= dict_view(name_order@).take(j as int));
        }
    }
    proof {
        assert(dict_view(name_order@).take(name_order@.len() as int) =~= dict_view(name_order@));
    }
    order
}

/// The schema keys are unchanged when the dictionary grows.
proof fn lemma_schema_keys_persist(d1: Seq<Seq<char>>, d2: Seq<Seq<char>>, s: SrtSchema)
    requires
        extends(d2, d1),
        forall|k: int| 0 <= k < s.arg_key_ids@.len() ==> (#[trigger] s.arg_key_ids@[k] as int) < d1.len(),
    ensures
        schema_keys(d2, s) == schema_keys(d1, s),
{
    assert forall|k: int| 0 <= k < s.arg_key_ids@.len() implies #[trigger] schema_keys(d2, s)[k] == schema_keys(d1, s)[k] by {
        assert(d2.take(d1.len() as int)[s.arg_key_ids@[k] as int] == d2[s.arg_key_ids@[k] as int]);
    }
    assert(schema_keys(d2, s) =~= schema_keys(d1, s));
}

/// A schema stays well described when the dictionary grows.
proof fn lemma_schema_ok_persist(d1: Seq<Seq<char>>, d2: Seq<Seq<char>>, s: SrtSchema, name: Seq<char>, evs: Seq<Event>)
    requires
        extends(d2, d1),
        schema_ok(d1, s, name, evs),
    ensures
        schema_ok(d2, s, name, evs),
{
    lemma_schema_keys_persist(d1, d2, s);
    assert(d2.take(d1.len() as int)[s.name_dict_id as int] == d2[s.name_dict_id as int]);
}

/// A stream stays well described when the dictionary grows.
proof fn lemma_stream_ok_persist(d1: Seq<Seq<char>>, d2: Seq<Seq<char>>, m: StreamMeta, c: EventStream)
    requires
        extends(d2, d1),
        stream_ok(d1, m, c),
    ensures
        stream_ok(d2, m, c),
{
    assert(d2.take(d1.len() as int)[m.rank_dict_id as int] == d2[m.rank_dict_id as int]);
    assert(d2.take(d1.len() as int)[m.tid_dict_id as int] == d2[m.tid_dict_id as int]);
}

/// An encoded entry stays encoded when the dictionary grows.
proof fn lemma_entry_persist(d1: Seq<Seq<char>>, d2: Seq<Seq<char>>, keys: Seq<Seq<char>>, b: GlobalBucket, i: int, tb: i64, ev: Event)
    requires
        extends(d2, d1),
        entry_encodes(d1, keys, b, i, tb, ev),
    ensures
        entry_encodes(d2, keys, b, i, tb, ev),
{
    lemma_opt_persists(d1, d2, b.cat_dict_id_plus1@[i], ev.cat);
    lemma_opt_persists(d1, d2, b.bp_dict_id_plus1@[i], ev.bp);
    lemma_opt_persists(d1, d2, b.s_dict_id_plus1@[i], ev.s);
}

/// An entry keeps its encoding when it is copied unchanged into another
/// bucket of the same schema.
proof fn lemma_entry_same(d: Seq<Seq<char>>, keys: Seq<Seq<char>>, a: GlobalBucket, b: GlobalBucket, i: int, tb: i64, ev: Event)
    requires
        same_entry(a, b, i),
        entry_encodes(d, keys, a, i, tb, ev),
    ensures
        entry_encodes(d, keys, b, i, tb, ev),
{
}

/// How many of the first `i` stream ids are `x`.
pub open spec fn count_before(ids: Seq<u32>, i: int, x: u32) -> nat
    decreases i,
{
    if i <= 0 {
        0
    } else {
        count_before(ids, i - 1, x) + if ids[i - 1] == x {
            1nat
        } else {
            0nat
        }
    }
}

/// The events named `name`, in order.
pub open spec fn named_events(evs: Seq<Event>, name: Seq<char>) -> Seq<Event>
    decreases evs.len(),
{
    if evs.len() == 0 {
        Seq::empty()
    } else {
        named_events(evs.drop_last(), name) + if evs.last().name@ == name {
            seq![evs.last()]
        } else {
            Seq::empty()
        }
    }
}

/// Entry `i` of bucket `b`, of a stream with time base `tb` whose events
/// named like the bucket's schema are `evs`, encodes the event whose place
/// among those is the entry's place among the bucket's entries of that
/// stream.
pub open spec fn entry_ranked(dict: Seq<Seq<char>>, keys: Seq<Seq<char>>, b: GlobalBucket, i: int, tb: i64, evs: Seq<Event>) -> bool {
    let k = count_before(b.stream_ids@, i, b.stream_ids@[i]) as int;
    &&& k < evs.len()
    &&& entry_encodes(dict, keys, b, i, tb, evs[k])
}

/// Bucket `b`, whose schema has the keys `keys` and the name `name`, holds
/// of each stream (time bases `tbs`, events `evss`) exactly its events
/// named `name`: each once, in the stream's order.
pub open spec fn bucket_exact(
    dict: Seq<Seq<char>>,
    keys: Seq<Seq<char>>,
    tbs: Seq<i64>,
    evss: Seq<Seq<Event>>,
    name: Seq<char>,
    b: GlobalBucket,
) -> bool {
    &&& forall|i: int|
        0 <= i < b.stream_ids@.len() ==> (#[trigger] b.stream_ids@[i] as int) < evss.len() && (b.stream_ids@[i] as int)
            < tbs.len() && entry_ranked(
            dict,
            keys,
            b,
            i,
            tbs[b.stream_ids@[i] as int],
            named_events(evss[b.stream_ids@[i] as int], name),
        )
    &&& forall|sid: int|
        0 <= sid < evss.len() ==> #[trigger] count_before(b.stream_ids@, b.stream_ids@.len() as int, sid as u32)
            == named_events(evss[sid], name).len()
}

/// Ids that agree on a prefix count alike over it.
proof fn lemma_count_prefix(a: Seq<u32>, b: Seq<u32>, i: int, x: u32)
    requires
        0 <= i <= a.len(),
        i <= b.len(),
        forall|k: int| 0 <= k < i ==> a[k] == b[k],
    ensures
        count_before(a, i, x) == count_before(b, i, x),
    decreases i,
{
    if i > 0 {
        lemma_count_prefix(a, b, i - 1, x);
    }
}

/// No id below `i` is `x`: none counted.
proof fn lemma_count_none(a: Seq<u32>, i: int, x: u32)
    requires
        0 <= i <= a.len(),
        forall|k: int| 0 <= k < i ==> a[k] != x,
    ensures
        count_before(a, i, x) == 0,
    decreases i,
{
    if i > 0 {
        lemma_count_none(a, i - 1, x);
    }
}

/// The named events of one more event.
proof fn lemma_named_push(evs: Seq<Event>, ev: Event, name: Seq<char>)
    ensures
        named_events(evs.push(ev), name) == if ev.name@ == name {
            named_events(evs, name).push(ev)
        } else {
            named_events(evs, name)
        },
{
    assert(evs.push(ev).drop_last() =~= evs);
    if ev.name@ == name {
        assert(named_events(evs, name) + seq![ev] =~= named_events(evs, name).push(ev));
    } else {
        assert(named_events(evs, name) + Seq::<Event>::empty() =~= named_events(evs, name));
    }
}

/// An exact bucket stays exact when the dictionary grows.
proof fn lemma_exact_dict(
    d1: Seq<Seq<char>>,
    d2: Seq<Seq<char>>,
    keys: Seq<Seq<char>>,
    tbs: Seq<i64>,
    evss: Seq<Seq<Event>>,
    name: Seq<char>,
    b: GlobalBucket,
)
    requires
        extends(d2, d1),
        bucket_exact(d1, keys, tbs, evss, name, b),
    ensures
        bucket_exact(d2, keys, tbs, evss, name, b),
{
    assert forall|i: int| 0 <= i < b.stream_ids@.len() implies (#[trigger] b.stream_ids@[i] as int) < evss.len() && (
    b.stream_ids@[i] as int) < tbs.len() && entry_ranked(
        d2,
        keys,
        b,
        i,
        tbs[b.stream_ids@[i] as int],
        named_events(evss[b.stream_ids@[i] as int], name),
    ) by {
        let sid = b.stream_ids@[i] as int;
        let evs = named_events(evss[sid], name);
        let k = count_before(b.stream_ids@, i, b.stream_ids@[i]) as int;
        lemma_entry_persist(d1, d2, keys, b, i, tbs[sid], evs[k]);
    }
}

/// An exact bucket stays exact when a stream without events is added.
proof fn lemma_exact_new_stream(
    d: Seq<Seq<char>>,
    keys: Seq<Seq<char>>,
    tbs: Seq<i64>,
    evss: Seq<Seq<Event>>,
    tb: i64,
    name: Seq<char>,
    b: GlobalBucket,
)
    requires
        tbs.len() == evss.len(),
        evss.len() <= u32::MAX,
        bucket_exact(d, keys, tbs, evss, name, b),
    ensures
        bucket_exact(d, keys, tbs.push(tb), evss.push(Seq::empty()), name, b),
{
    let e2 = evss.push(Seq::<Event>::empty());
    let t2 = tbs.push(tb);
    assert forall|i: int| 0 <= i < b.stream_ids@.len() implies (#[trigger] b.stream_ids@[i] as int) < e2.len() && (
    b.stream_ids@[i] as int) < t2.len() && entry_ranked(
        d,
        keys,
        b,
        i,
        t2[b.stream_ids@[i] as int],
        named_events(e2[b.stream_ids@[i] as int], name),
    ) by {
        let sid = b.stream_ids@[i] as int;
        assert(e2[sid] == evss[sid]);
        assert(t2[sid] == tbs[sid]);
    }
    assert forall|sid: int| 0 <= sid < e2.len() implies #[trigger] count_before(
        b.stream_ids@,
        b.stream_ids@.len() as int,
        sid as u32,
    ) == named_events(e2[sid], name).len() by {
        if sid == evss.len() {
            assert forall|k: int| 0 <= k < b.stream_ids@.len() implies b.stream_ids@[k] != sid as u32 by {
                assert((b.stream_ids@[k] as int) < evss.len());
            }
            lemma_count_none(b.stream_ids@, b.stream_ids@.len() as int, sid as u32);
            assert(named_events(Seq::<Event>::empty(), name) == Seq::<Event>::empty());
        } else {
            assert(e2[sid] == evss[sid]);
        }
    }
}

/// An exact bucket of another name stays exact when an event is added to
/// a stream.
proof fn lemma_exact_other(
    d: Seq<Seq<char>>,
    keys: Seq<Seq<char>>,
    tbs: Seq<i64>,
    evss: Seq<Seq<Event>>,
    sid: int,
    ev: Event,
    name: Seq<char>,
    b: GlobalBucket,
)
    requires
        0 <= sid < evss.len(),
        ev.name@ != name,
        bucket_exact(d, keys, tbs, evss, name, b),
    ensures
        bucket_exact(d, keys, tbs, evss.update(sid, evss[sid].push(ev)), name, b),
{
    let e2 = evss.update(sid, evss[sid].push(ev));
    lemma_named_push(evss[sid], ev, name);
    assert forall|s: int| 0 <= s < evss.len() implies named_events(#[trigger] e2[s], name) == named_events(evss[s], name) by {}
    assert forall|i: int| 0 <= i < b.stream_ids@.len() implies (#[trigger] b.stream_ids@[i] as int) < e2.len() && (
    b.stream_ids@[i] as int) < tbs.len() && entry_ranked(
        d,
        keys,
        b,
        i,
        tbs[b.stream_ids@[i] as int],
        named_events(e2[b.stream_ids@[i] as int], name),
    ) by {
        assert(named_events(e2[b.stream_ids@[i] as int], name) == named_events(evss[b.stream_ids@[i] as int], name));
    }
    assert forall|s: int| 0 <= s < e2.len() implies #[trigger] count_before(
        b.stream_ids@,
        b.stream_ids@.len() as int,
        s as u32,
    ) == named_events(e2[s], name).len() by {
        assert(named_events(e2[s], name) == named_events(evss[s], name));
    }
}

/// The bucket of an event's name stays exact when the event is appended to
/// it as an entry of its stream.
proof fn lemma_exact_push(
    d: Seq<Seq<char>>,
    keys: Seq<Seq<char>>,
    tbs: Seq<i64>,
    evss: Seq<Seq<Event>>,
    sid: int,
    ev: Event,
    name: Seq<char>,
    b: GlobalBucket,
    b2: GlobalBucket,
)
    requires
        0 <= sid < evss.len(),
        sid < tbs.len(),
        evss.len() <= u32::MAX,
        ev.name@ == name,
        bucket_exact(d, keys, tbs, evss, name, b),
        b2.stream_ids@ == b.stream_ids@.push(sid as u32),
        forall|i: int| 0 <= i < b.stream_ids@.len() ==> #[trigger] same_entry(b, b2, i),
        entry_encodes(d, keys, b2, b.stream_ids@.len() as int, tbs[sid], ev),
    ensures
        bucket_exact(d, keys, tbs, evss.update(sid, evss[sid].push(ev)), name, b2),
{
    let e2 = evss.update(sid, evss[sid].push(ev));
    let n = b.stream_ids@.len() as int;
    let ids = b.stream_ids@;
    let ids2 = b2.stream_ids@;
    lemma_named_push(evss[sid], ev, name);
    assert forall|s: int| 0 <= s < evss.len() && s != sid implies named_events(#[trigger] e2[s], name) == named_events(
        evss[s],
        name,
    ) by {}
    assert forall|i: int| 0 <= i < ids2.len() implies (#[trigger] b2.stream_ids@[i] as int) < e2.len() && (
    b2.stream_ids@[i] as int) < tbs.len() && entry_ranked(
        d,
        keys,
        b2,
        i,
        tbs[b2.stream_ids@[i] as int],
        named_events(e2[b2.stream_ids@[i] as int], name),
    ) by {
        let x = ids2[i];
        if i < n {
            assert(ids2[i] == ids[i]);
            lemma_count_prefix(ids, ids2, i, x);
            let s = x as int;
            let k = count_before(ids, i, x) as int;
            assert(entry_ranked(d, keys, b, i, tbs[s], named_events(evss[s], name)));
            lemma_entry_same(d, keys, b, b2, i, tbs[s], named_events(evss[s], name)[k]);
            if s == sid {
                assert(named_events(e2[s], name)[k] == named_events(evss[s], name)[k]);
            } else {
                assert(named_events(e2[s], name) == named_events(evss[s], name));
            }
        } else {
            assert(i == n);
            assert(x == sid as u32);
            lemma_count_prefix(ids, ids2, n, x);
            assert(count_before(ids, n, sid as u32) == named_events(evss[sid], name).len());
            assert(named_events(e2[sid], name)[named_events(evss[sid], name).len() as int] == ev);
        }
    }
    assert forall|s: int| 0 <= s < e2.len() implies #[trigger] count_before(ids2, ids2.len() as int, s as u32)
        == named_events(e2[s], name).len() by {
        lemma_count_prefix(ids, ids2, n, s as u32);
        assert(count_before(ids, n, s as u32) == named_events(evss[s], name).len());
        if s == sid {
        } else {
            assert((s as u32) != (sid as u32));
        }
    }
}

/// The events of each stream.
pub open spec fn stream_events(kept: Seq<EventStream>) -> Seq<Seq<Event>> {
    kept.map_values(|c: EventStream| c.events@)
}

/// The time bases of the streams.
pub open spec fn stream_tbs(streams: Seq<StreamMeta>) -> Seq<i64> {
    streams.map_values(|m: StreamMeta| m.time_base)
}

/// Every bucket of the list, of the schema with that index, is exact.
pub open spec fn buckets_exact(
    dict: Seq<Seq<char>>,
    strs: Seq<Vec<String>>,
    tbs: Seq<i64>,
    evss: Seq<Seq<Event>>,
    names: Seq<Seq<char>>,
    bs: Seq<GlobalBucket>,
) -> bool {
    forall|k: int| 0 <= k < bs.len() ==> #[trigger] bucket_exact(dict, dict_view(strs[k]@), tbs, evss, names[k], bs[k])
}

/// The buckets stay exact when the dictionary grows.
proof fn lemma_buckets_dict(
    d1: Seq<Seq<char>>,
    d2: Seq<Seq<char>>,
    strs: Seq<Vec<String>>,
    tbs: Seq<i64>,
    evss: Seq<Seq<Event>>,
    names: Seq<Seq<char>>,
    bs: Seq<GlobalBucket>,
)
    requires
        extends(d2, d1),
        buckets_exact(d1, strs, tbs, evss, names, bs),
    ensures
        buckets_exact(d2, strs, tbs, evss, names, bs),
{
    assert forall|k: int| 0 <= k < bs.len() implies #[trigger] bucket_exact(d2, dict_view(strs[k]@), tbs, evss, names[k], bs[k]) by {
        lemma_exact_dict(d1, d2, dict_view(strs[k]@), tbs, evss, names[k], bs[k]);
    }
}

/// The buckets stay exact when a stream without events is added.
proof fn lemma_buckets_new_stream(
    d: Seq<Seq<char>>,
    strs: Seq<Vec<String>>,
    tbs: Seq<i64>,
    evss: Seq<Seq<Event>>,
    tb: i64,
    names: Seq<Seq<char>>,
    bs: Seq<GlobalBucket>,
)
    requires
        tbs.len() == evss.len(),
        evss.len() <= u32::MAX,
        buckets_exact(d, strs, tbs, evss, names, bs),
    ensures
        buckets_exact(d, strs, tbs.push(tb), evss.push(Seq::empty()), names, bs),
{
    assert forall|k: int| 0 <= k < bs.len() implies #[trigger] bucket_exact(
        d,
        dict_view(strs[k]@),
        tbs.push(tb),
        evss.push(Seq::empty()),
        names[k],
        bs[k],
    ) by {
        lemma_exact_new_stream(d, dict_view(strs[k]@), tbs, evss, tb, names[k], bs[k]);
    }
}

/// The buckets stay exact when an event of stream `sid` is appended to the
/// bucket `j` of its name (the dictionary growing from `de` to `d`).
proof fn lemma_buckets_step(
    de: Seq<Seq<char>>,
    d: Seq<Seq<char>>,
    strs: Seq<Vec<String>>,
    tbs: Seq<i64>,
    evss: Seq<Seq<Event>>,
    names: Seq<Seq<char>>,
    sid: int,
    ev: Event,
    j: int,
    bs: Seq<GlobalBucket>,
    bs2: Seq<GlobalBucket>,
)
    requires
        extends(d, de),
        0 <= j < bs.len(),
        bs2.len() == bs.len(),
        names.len() == bs.len(),
        distinct_views(names),
        ev.name@ == names[j],
        0 <= sid < evss.len(),
        sid < tbs.len(),
        evss.len() <= u32::MAX,
        buckets_exact(de, strs, tbs, evss, names, bs),
        forall|k: int| 0 <= k < bs.len() && k != j ==> #[trigger] bs2[k] == bs[k],
        bs2[j].stream_ids@ == bs[j].stream_ids@.push(sid as u32),
        forall|i: int| 0 <= i < bs[j].stream_ids@.len() ==> #[trigger] same_entry(bs[j], bs2[j], i),
        entry_encodes(d, dict_view(strs[j]@), bs2[j], bs[j].stream_ids@.len() as int, tbs[sid], ev),
    ensures
        buckets_exact(d, strs, tbs, evss.update(sid, evss[sid].push(ev)), names, bs2),
{
    lemma_buckets_dict(de, d, strs, tbs, evss, names, bs);
    assert forall|k: int| 0 <= k < bs2.len() implies #[trigger] bucket_exact(
        d,
        dict_view(strs[k]@),
        tbs,
        evss.update(sid, evss[sid].push(ev)),
        names[k],
        bs2[k],
    ) by {
        assert(bucket_exact(d, dict_view(strs[k]@), tbs, evss, names[k], bs[k]));
        if k == j {
            lemma_exact_push(d, dict_view(strs[j]@), tbs, evss, sid, ev, names[j], bs[j], bs2[j]);
        } else {
            if k < j {
                assert(names[k] != names[j]);
            } else {
                assert(names[j] != names[k]);
            }
            lemma_exact_other(d, dict_view(strs[k]@), tbs, evss, sid, ev, names[k], bs[k]);
        }
    }
}

/// A permutation of a list with no string twice has no string twice.
proof fn lemma_distinct_permutation(a: Seq<Seq<char>>, b: Seq<Seq<char>>)
    requires
        distinct_views(a),
        a.to_multiset() == b.to_multiset(),
    ensures
        distinct_views(b),
{
    assert(a.no_duplicates()) by {
        assert forall|i: int, j: int| 0 <= i < a.len() && 0 <= j < a.len() && i != j implies a[i] != a[j] by {
            if i < j {
            } else {
                assert(a[j] != a[i]);
            }
        }
    }
    a.lemma_multiset_has_no_duplicates();
    b.lemma_multiset_has_no_duplicates_conv();
}

/// Interns each name and the keys of its events (sorted) into the
/// dictionary: one schema per name, in order; also returns each schema's
/// key strings.
fn build_schemas(
    dict: &mut StringDict,
    name_order: &Vec<String>,
    name_keys: Vec<Vec<String>>,
    Ghost(evs): Ghost<Seq<Event>>,
) -> (r: (Vec<SrtSchema>, Vec<Vec<String>>))
    requires
        old(dict).wf(),
        name_keys@.len() == name_order@.len(),
        forall|j: int| 0 <= j < name_keys@.len() ==> distinct_views(dict_view(#[trigger] name_keys@[j]@)),
        forall|j: int, key: Seq<char>|
            0 <= j < name_keys@.len() ==> (#[trigger] dict_view(name_keys@[j]@).contains(key) <==> name_key_in(
                evs,
                name_order@[j]@,
                key,
            )),
        old(dict)@.len() + name_order@.len() + nat_sum(list_sizes(name_keys@)) + 1 < u32::MAX,
    ensures
        final(dict).wf(),
        extends(final(dict)@, old(dict)@),
        final(dict)@.len() <= old(dict)@.len() + name_order@.len() + nat_sum(list_sizes(name_keys@)),
        r.0@.len() == name_order@.len(),
        r.1@.len() == name_order@.len(),
        forall|j: int| 0 <= j < r.0@.len() ==> schema_ok(final(dict)@, #[trigger] r.0@[j], name_order@[j]@, evs),
        forall|j: int| 0 <= j < r.0@.len() ==> dict_view((#[trigger] r.1@[j])@) == schema_keys(final(dict)@, r.0@[j]),
{
    broadcast use vstd::seq_lib::group_to_multiset_ensures;

    let ghost d0 = dict@;
    let ghost nk0 = name_keys@;
    let mut name_keys = name_keys;
    let mut schemas: Vec<SrtSchema> = Vec::new();
    let mut strs: Vec<Vec<String>> = Vec::new();
    let n = name_order.len();
    let mut j: usize = 0;
    proof {
        lemma_nat_sum_prefix(list_sizes(nk0), 0);
        assert(d0.take(d0.len() as int) =~= d0);
    }
    while j < n
        invariant
            n == name_order@.len(),
            nk0.len() == n,
            name_keys@.len() == n,
            forall|k: int| j <= k < n ==> #[trigger] name_keys@[k] == nk0[k],
            forall|k: int| 0 <= k < n ==> distinct_views(dict_view(#[trigger] nk0[k]@)),
            forall|k: int, key: Seq<char>|
                0 <= k < n ==> (#[trigger] dict_view(nk0[k]@).contains(key) <==> name_key_in(evs, name_order@[k]@, key)),
            d0.len() + n + nat_sum(list_sizes(nk0)) + 1 < u32::MAX,
            j <= n,
            dict.wf(),
            extends(dict@, d0),
            dict@.len() <= d0.len() + j + nat_sum(list_sizes(nk0).take(j as int)),
            schemas@.len() == j,
            strs@.len() == j,
            forall|k: int| 0 <= k < j ==> schema_ok(dict@, #[trigger] schemas@[k], name_order@[k]@, evs),
            forall|k: int| 0 <= k < j ==> dict_view((#[trigger] strs@[k])@) == schema_keys(dict@, schemas@[k]),
        decreases n - j,
    {
        proof {
            lemma_nat_sum_prefix(list_sizes(nk0), j as int);
            lemma_nat_sum_prefix(list_sizes(nk0), j + 1);
        }
        let ghost dj = dict@;
        let name_id = intern_keep(dict, name_order[j].as_str());
        let mut ks: Vec<String> = Vec::new();
        std::mem::swap(&mut ks, &mut name_keys[j]);
        let ghost ksv = dict_view(ks@);
        proof {
            assert(ks == nk0[j as int]);
            assert(list_sizes(nk0)[j as int] == ks@.len());
        }
        let ghost ks_seq = ks@;
        let sorted = sort_strings(ks);
        let ghost sv = dict_view(sorted@);
        proof {
            assert(sv =~= sorted@.map(|_i: int, s: String| s@));
            assert(ksv =~= ks_seq.map(|_i: int, s: String| s@));
            assert(sv.to_multiset() == ksv.to_multiset());
        }
        let ghost dn = dict@;
        let mut ids: Vec<u32> = Vec::new();
        let mut q: usize = 0;
        proof {
            assert(dn.take(dn.len() as int) =~= dn);
            assert(sorted@.map(|_i: int, s: String| s@) == sv);
            assert(sv.len() == ksv.len()) by {
                sv.to_multiset_ensures();
                ksv.to_multiset_ensures();
            }
        }
        while q < sorted.len()
            invariant
                q <= sorted@.len(),
                sv == dict_view(sorted@),
                sv.len() == ksv.len(),
                ksv.len() == list_sizes(nk0)[j as int],
                dict.wf(),
                extends(dict@, dn),
                dict@.len() <= dn.len() + q,
                dn.len() <= dj.len() + 1,
                dj.len() <= d0.len() + j + nat_sum(list_sizes(nk0).take(j as int)),
                nat_sum(list_sizes(nk0).take(j + 1)) == nat_sum(list_sizes(nk0).take(j as int)) + list_sizes(nk0)[j as int],
                nat_sum(list_sizes(nk0).take(j + 1)) <= nat_sum(list_sizes(nk0)),
                j < n,
                d0.len() + n + nat_sum(list_sizes(nk0)) + 1 < u32::MAX,
                ids@.len() == q,
                forall|t: int| 0 <= t < q ==> (#[trigger] ids@[t] as int) < dict@.len() && dict@[ids@[t] as int] == sv[t],
            decreases sorted@.len() - q,
        {
            let ghost dq = dict@;
            let id = intern_keep(dict, sorted[q].as_str());
            proof {
                assert forall|t: int| 0 <= t < q implies (#[trigger] ids@[t] as int) < dict@.len() && dict@[ids@[t] as int] == sv[t] by {
                    assert(dict@.take(dq.len() as int)[ids@[t] as int] == dict@[ids@[t] as int]);
                }
                assert(dict@.take(dn.len() as int) =~= dict@.take(dq.len() as int).take(dn.len() as int));
            }
            ids.push(id);
            q += 1;
        }
        let schema = SrtSchema { name_dict_id: name_id, arg_key_ids: ids };
        proof {
            let d = dict@;
            assert(d.take(dj.len() as int) =~= d.take(dn.len() as int).take(dj.len() as int));
            assert(d[name_id as int] == d.take(dn.len() as int)[name_id as int]);
            assert(schema_keys(d, schema) =~= sv);
            lemma_distinct_permutation(ksv, sv);
            assert forall|key: Seq<char>| #[trigger] sv.contains(key) <==> name_key_in(evs, name_order@[j as int]@, key) by {
                sv.to_multiset_ensures();
                ksv.to_multiset_ensures();
                assert(sv.to_multiset().count(key) == ksv.to_multiset().count(key));
                assert(dict_view(nk0[j as int]@) == ksv);
            }
            assert forall|a: int, b: int| 0 <= a < b < sv.len() implies bytes_le(utf8(#[trigger] sv[a]), utf8(#[trigger] sv[b])) by {
                assert(sv[a] == sorted@[a]@);
                assert(sv[b] == sorted@[b]@);
            }
            assert(schema_ok(d, schema, name_order@[j as int]@, evs));
        }
        let ghost d_before_push = dict@;
        schemas.push(schema);
        strs.push(sorted);
        proof {
            let d = dict@;
            assert(d.take(d0.len() as int) =~= d.take(dj.len() as int).take(d0.len() as int));
            assert forall|k: int| 0 <= k < j + 1 implies schema_ok(d, #[trigger] schemas@[k], name_order@[k]@, evs) by {
                if k < j {
                    lemma_schema_ok_persist(dj, d, schemas@[k], name_order@[k]@, evs);
                }
            }
            assert forall|k: int| 0 <= k < j + 1 implies dict_view((#[trigger] strs@[k])@) == schema_keys(d, schemas@[k]) by {
                if k < j {
                    assert(schema_ok(dj, schemas@[k], name_order@[k]@, evs));
                    lemma_schema_keys_persist(dj, d, schemas@[k]);
                }
            }
        }
        j += 1;
    }
    proof {
        lemma_nat_sum_prefix(list_sizes(nk0), n as int);
        assert(list_sizes(nk0).take(n as int) =~= list_sizes(nk0));
    }
    (schemas, strs)
}

/// An empty bucket of schema `j`.
fn empty_bucket(j: u32) -> (b: GlobalBucket)
    ensures
        b.schema_id == j,
        bucket_shaped(b),
        b.stream_ids@.len() == 0,
{
    GlobalBucket {
        schema_id: j,
        stream_ids: Vec::new(),
        ts_offsets: Vec::new(),
        dur_present: Vec::new(),
        dur: Vec::new(),
        id_present: Vec::new(),
        ids: Vec::new(),
        cat_dict_id_plus1: Vec::new(),
        bp_dict_id_plus1: Vec::new(),
        s_dict_id_plus1: Vec::new(),
        arg_present: Vec::new(),
        arg_values: Vec::new(),
    }
}

/// The time base of a non-empty stream: its smallest `ts` (0 when that is
/// `i64::MAX`).
fn time_base(evs: &Vec<Event>) -> (tb: i64)
    requires
        evs@.len() > 0,
    ensures
        tb == time_base_of(evs@),
{
    let mut m: i64 = i64::MAX;
    let mut k: usize = 0;
    while k < evs.len()
        invariant
            k <= evs@.len(),
            evs@.len() > 0,
            k == 0 ==> m == i64::MAX,
            k > 0 ==> m == min_ts(evs@.take(k as int)),
        decreases evs@.len() - k,
    {
        proof {
            assert(evs@.take(k + 1).drop_last() =~= evs@.take(k as int));
            assert(evs@.take(k + 1).last() == evs@[k as int]);
            if k == 0 {
                assert(evs@.take(1).len() == 1);
            }
        }
        if evs[k].ts < m {
            m = evs[k].ts;
        }
        k += 1;
    }
    proof {
        assert(evs@.take(evs@.len() as int) =~= evs@);
    }
    if m == i64::MAX {
        0
    } else {
        m
    }
}

/// Every stream with events can be placed: each `ts` minus the stream's
/// time base fits in an `i64`.
pub open spec fn offsets_fit(cells: Seq<EventStream>) -> bool {
    forall|c: int, e: int|
        0 <= c < cells.len() && 0 <= e < cells[c].events@.len() ==> fits_i64(
            (#[trigger] cells[c].events@[e]).ts - time_base_of(cells[c].events@),
        )
}

proof fn lemma_kept_take(cells: Seq<EventStream>, c: int)
    requires
        0 <= c < cells.len(),
    ensures
        kept_streams(cells.take(c + 1)) == if cells[c].events@.len() > 0 {
            kept_streams(cells.take(c)).push(cells[c])
        } else {
            kept_streams(cells.take(c))
        },
{
    assert(cells.take(c + 1).drop_last() =~= cells.take(c));
    assert(cells.take(c + 1).last() == cells[c]);
}

proof fn lemma_kept_len(cells: Seq<EventStream>)
    ensures
        kept_streams(cells).len() <= cells.len(),
    decreases cells.len(),
{
    if cells.len() > 0 {
        lemma_kept_len(cells.drop_last());
    }
}

/// Places every event of every stream with events into the bucket of its
/// name's schema, registering each such stream with its time base.
fn fill_buckets(
    dict: &mut StringDict,
    cells: &Vec<EventStream>,
    name_order: &Vec<String>,
    schemas: &Vec<SrtSchema>,
    strs: &Vec<Vec<String>>,
) -> (r: (Vec<StreamMeta>, Vec<GlobalBucket>))
    requires
        old(dict).wf(),
        distinct_views(dict_view(name_order@)),
        name_order@.len() <= u32::MAX,
        schemas@.len() == name_order@.len(),
        strs@.len() == name_order@.len(),
        forall|j: int| 0 <= j < schemas@.len() ==> schema_ok(old(dict)@, #[trigger] schemas@[j], name_order@[j]@, all_events(cells@)),
        forall|j: int| 0 <= j < schemas@.len() ==> dict_view((#[trigger] strs@[j])@) == schema_keys(old(dict)@, schemas@[j]),
        forall|t: int| 0 <= t < all_events(cells@).len() ==> dict_view(name_order@).contains(#[trigger] all_events(cells@)[t].name@),
        old(dict)@.len() + 2 * cells@.len() + 3 * all_events(cells@).len() + 8 < u32::MAX,
        offsets_fit(cells@),
    ensures
        final(dict).wf(),
        extends(final(dict)@, old(dict)@),
        r.0@.len() == kept_streams(cells@).len(),
        forall|k: int| 0 <= k < r.0@.len() ==> stream_ok(final(dict)@, #[trigger] r.0@[k], kept_streams(cells@)[k]),
        r.1@.len() == name_order@.len(),
        forall|j: int|
            0 <= j < r.1@.len() ==> {
                let b = #[trigger] r.1@[j];
                &&& b.schema_id == j
                &&& bucket_shaped(b)
                &&& forall|i: int|
                    0 <= i < b.stream_ids@.len() ==> #[trigger] entry_of(
                        final(dict)@,
                        schemas@,
                        r.0@,
                        kept_streams(cells@),
                        dict_view(name_order@),
                        b,
                        i,
                    )
            },
        buckets_exact(
            final(dict)@,
            strs@,
            stream_tbs(r.0@),
            stream_events(kept_streams(cells@)),
            dict_view(name_order@),
            r.1@,
        ),
{
    let ghost d0 = dict@;
    let ghost names = dict_view(name_order@);
    let ghost evs_all = all_events(cells@);
    let order = order_dict(name_order);
    let n = name_order.len();
    let mut buckets: Vec<GlobalBucket> = Vec::new();
    let mut j: usize = 0;
    while j < n
        invariant
            j <= n,
            n == name_order@.len(),
            n <= u32::MAX,
            buckets@.len() == j,
            forall|k: int| 0 <= k < j ==> (#[trigger] buckets@[k]).schema_id == k && bucket_shaped(buckets@[k])
                && buckets@[k].stream_ids@.len() == 0,
        decreases n - j,
    {
        buckets.push(empty_bucket(j as u32));
        j += 1;
    }
    let mut streams: Vec<StreamMeta> = Vec::new();
    let ghost mut seen: Seq<Seq<Event>> = Seq::empty();
    let ghost mut done_events: int = 0;
    let mut c: usize = 0;
    proof {
        assert(cells@.take(0) =~= Seq::<EventStream>::empty());
        assert(d0.take(d0.len() as int) =~= d0);
        lemma_kept_len(cells@);
    }
    while c < cells.len()
        invariant
            c <= cells@.len(),
            order.wf(),
            order@ == names,
            names == dict_view(name_order@),
            evs_all == all_events(cells@),
            n == names.len(),
            schemas@.len() == n,
            strs@.len() == n,
            forall|k: int| 0 <= k < n ==> schema_ok(dict@, #[trigger] schemas@[k], name_order@[k]@, evs_all),
            forall|k: int| 0 <= k < n ==> dict_view((#[trigger] strs@[k])@) == schema_keys(dict@, schemas@[k]),
            forall|t: int| 0 <= t < evs_all.len() ==> names.contains(#[trigger] evs_all[t].name@),
            d0.len() + 2 * cells@.len() + 3 * evs_all.len() + 8 < u32::MAX,
            offsets_fit(cells@),
            dict.wf(),
            extends(dict@, d0),
            dict@.len() <= d0.len() + 2 * c + 3 * all_events(cells@.take(c as int)).len(),
            all_events(cells@.take(c as int)).len() <= evs_all.len(),
            streams@.len() == kept_streams(cells@.take(c as int)).len(),
            kept_streams(cells@.take(c as int)).len() <= c,
            forall|k: int| 0 <= k < streams@.len() ==> stream_ok(dict@, #[trigger] streams@[k], kept_streams(cells@.take(c as int))[k]),
            buckets@.len() == n,
            forall|k: int|
                0 <= k < n ==> {
                    let b = #[trigger] buckets@[k];
                    &&& b.schema_id == k
                    &&& bucket_shaped(b)
                    &&& forall|i: int|
                        0 <= i < b.stream_ids@.len() ==> #[trigger] entry_of(
                            dict@,
                            schemas@,
                            streams@,
                            kept_streams(cells@.take(c as int)),
                            names,
                            b,
                            i,
                        )
                },
            distinct_views(names),
            seen.len() == streams@.len(),
            forall|s: int| 0 <= s < seen.len() ==> #[trigger] seen[s] == kept_streams(cells@.take(c as int))[s].events@,
            buckets_exact(dict@, strs@, stream_tbs(streams@), seen, names, buckets@),
        decreases cells@.len() - c,
    {
        let cell = &cells[c];
        let ghost dc = dict@;
        let ghost streams0 = streams@;
        let ghost buckets0 = buckets@;
        let ghost kept0 = kept_streams(cells@.take(c as int));
        proof {
            lemma_kept_take(cells@, c as int);
            lemma_all_events_take(cells@, c as int);
        }
        let rank_id = intern_keep(dict, cell.rank.as_str());
        let ghost dr = dict@;
        let tid_id = intern_keep(dict, cell.tid.as_str());
        let ghost dt = dict@;
        proof {
            assert(dt.take(dc.len() as int) =~= dt.take(dr.len() as int).take(dc.len() as int));
            assert(dt.take(d0.len() as int) =~= dt.take(dc.len() as int).take(d0.len() as int));
            assert(dt[rank_id as int] == dt.take(dr.len() as int)[rank_id as int]);
            assert forall|k: int| 0 <= k < n implies schema_ok(dt, #[trigger] schemas@[k], name_order@[k]@, evs_all) by {
                lemma_schema_ok_persist(dc, dt, schemas@[k], name_order@[k]@, evs_all);
            }
            assert forall|k: int| 0 <= k < n implies dict_view((#[trigger] strs@[k])@) == schema_keys(dt, schemas@[k]) by {
                assert(schema_ok(dc, schemas@[k], name_order@[k]@, evs_all));
                lemma_schema_keys_persist(dc, dt, schemas@[k]);
            }
            assert forall|k: int| 0 <= k < streams@.len() implies stream_ok(dt, #[trigger] streams@[k], kept0[k]) by {
                lemma_stream_ok_persist(dc, dt, streams@[k], kept0[k]);
            }
            assert forall|k: int, i: int| 0 <= k < n && 0 <= i < buckets@[k].stream_ids@.len() implies #[trigger] entry_of(
                dt,
                schemas@,
                streams@,
                kept0,
                names,
                #[trigger] buckets@[k],
                i,
            ) by {
                let b = buckets@[k];
                assert(entry_of(dc, schemas@, streams@, kept0, names, b, i));
                let sid = b.stream_ids@[i] as int;
                let e = choose|e: int|
                    0 <= e < kept0[sid].events@.len() && kept0[sid].events@[e].name@ == names[b.schema_id as int] && entry_encodes(
                        dc,
                        schema_keys(dc, schemas@[b.schema_id as int]),
                        b,
                        i,
                        streams@[sid].time_base,
                        kept0[sid].events@[e],
                    );
                assert(schema_ok(dc, schemas@[b.schema_id as int], name_order@[b.schema_id as int]@, evs_all));
                lemma_schema_keys_persist(dc, dt, schemas@[b.schema_id as int]);
                lemma_entry_persist(dc, dt, schema_keys(dc, schemas@[b.schema_id as int]), b, i, streams@[sid].time_base, kept0[sid].events@[e]);
            }
        }
        proof {
            lemma_buckets_dict(dc, dt, strs@, stream_tbs(streams@), seen, names, buckets@);
            assert forall|s: int| 0 <= s < seen.len() implies #[trigger] seen[s] == kept_streams(cells@.take(c + 1))[s].events@ by {
                if cell.events@.len() == 0 {
                    assert(kept_streams(cells@.take(c + 1)) == kept0);
                } else {
                    assert(kept_streams(cells@.take(c + 1)) == kept0.push(*cell));
                    assert(kept0.push(*cell)[s] == kept0[s]);
                }
            }
        }
        if cell.events.len() == 0 {
            c += 1;
            continue;
        }
        let tb = time_base(&cell.events);
        let sid = streams.len() as u32;
        streams.push(StreamMeta { rank_dict_id: rank_id, pid: cell.pid, tid_dict_id: tid_id, ph: cell.ph.0, time_base: tb });
        let ghost kept1 = kept0.push(*cell);
        proof {
            lemma_buckets_new_stream(dt, strs@, stream_tbs(streams0), seen, tb, names, buckets@);
            assert(stream_tbs(streams@) =~= stream_tbs(streams0).push(tb));
            seen = seen.push(Seq::<Event>::empty());
            assert(cell.events@.take(0) =~= Seq::<Event>::empty());
            assert(kept1 == kept_streams(cells@.take(c + 1)));
            assert forall|k: int| 0 <= k < streams@.len() implies stream_ok(dt, #[trigger] streams@[k], kept1[k]) by {
                if k < streams0.len() {
                    assert(streams@[k] == streams0[k]);
                    assert(kept1[k] == kept0[k]);
                }
            }
            assert forall|k: int, i: int| 0 <= k < n && 0 <= i < buckets@[k].stream_ids@.len() implies #[trigger] entry_of(
                dt,
                schemas@,
                streams@,
                kept1,
                names,
                #[trigger] buckets@[k],
                i,
            ) by {
                let b = buckets@[k];
                assert(entry_of(dt, schemas@, streams0, kept0, names, b, i));
                let sid0 = b.stream_ids@[i] as int;
                assert(streams@[sid0] == streams0[sid0]);
                assert(kept1[sid0] == kept0[sid0]);
                let e = choose|e: int|
                    0 <= e < kept0[sid0].events@.len() && kept0[sid0].events@[e].name@ == names[b.schema_id as int] && entry_encodes(
                        dt,
                        schema_keys(dt, schemas@[b.schema_id as int]),
                        b,
                        i,
                        streams0[sid0].time_base,
                        kept0[sid0].events@[e],
                    );
                assert(0 <= e < kept1[sid0].events@.len() && kept1[sid0].events@[e].name@ == names[b.schema_id as int] && entry_encodes(
                    dt,
                    schema_keys(dt, schemas@[b.schema_id as int]),
                    b,
                    i,
                    streams@[sid0].time_base,
                    kept1[sid0].events@[e],
                ));
            }
        }
        let ghost base = all_events(cells@.take(c as int)).len();
        let mut e: usize = 0;
        while e < cell.events.len()
            invariant
                e <= cell.events@.len(),
                *cell == cells@[c as int],
                c < cells@.len(),
                order.wf(),
                order@ == names,
                names == dict_view(name_order@),
                evs_all == all_events(cells@),
                n == names.len(),
                schemas@.len() == n,
                strs@.len() == n,
                forall|k: int| 0 <= k < n ==> schema_ok(dict@, #[trigger] schemas@[k], name_order@[k]@, evs_all),
                forall|k: int| 0 <= k < n ==> dict_view((#[trigger] strs@[k])@) == schema_keys(dict@, schemas@[k]),
                forall|t: int| 0 <= t < evs_all.len() ==> names.contains(#[trigger] evs_all[t].name@),
                all_events(cells@.take(c + 1)) == all_events(cells@.take(c as int)) + cell.events@,
                all_events(cells@.take(c + 1)) == evs_all.take(all_events(cells@.take(c + 1)).len() as int),
                all_events(cells@.take(c + 1)).len() <= evs_all.len(),
                base == all_events(cells@.take(c as int)).len(),
                d0.len() + 2 * cells@.len() + 3 * evs_all.len() + 8 < u32::MAX,
                offsets_fit(cells@),
                tb == time_base_of(cell.events@),
                dict.wf(),
                extends(dict@, d0),
                dict@.len() <= d0.len() + 2 * (c + 1) + 3 * (base + e),
                sid as int == streams@.len() - 1,
                streams@.len() == kept1.len(),
                kept1.len() <= c + 1,
                kept1[sid as int] == *cell,
                streams@[sid as int].time_base == tb,
                forall|k: int| 0 <= k < streams@.len() ==> stream_ok(dict@, #[trigger] streams@[k], kept1[k]),
                buckets@.len() == n,
                forall|k: int|
                    0 <= k < n ==> {
                        let b = #[trigger] buckets@[k];
                        &&& b.schema_id == k
                        &&& bucket_shaped(b)
                        &&& forall|i: int|
                            0 <= i < b.stream_ids@.len() ==> #[trigger] entry_of(dict@, schemas@, streams@, kept1, names, b, i)
                    },
                distinct_views(names),
                seen.len() == streams@.len(),
                forall|s: int| 0 <= s < sid ==> #[trigger] seen[s] == kept1[s].events@,
                seen[sid as int] == cell.events@.take(e as int),
                buckets_exact(dict@, strs@, stream_tbs(streams@), seen, names, buckets@),
            decreases cell.events@.len() - e,
        {
            let ev = &cell.events[e];
            proof {
                assert(all_events(cells@.take(c + 1))[base + e] == *ev);
                assert(evs_all[base + e] == *ev);
                assert(names.contains(ev.name@));
                assert(fits_i64(cells@[c as int].events@[e as int].ts - time_base_of(cells@[c as int].events@)));
            }
            let found = order.find(ev.name.as_str());
            let j = match found {
                Some(j) => j,
                None => {
                    proof {
                        assert(false);
                    }
                    0
                },
            };
            let ghost de = dict@;
            let ghost buckets_e = buckets@;
            let mut b = empty_bucket(0);
            std::mem::swap(&mut b, &mut buckets[j as usize]);
            let ghost b0 = b;
            assert(b0 == buckets_e[j as int]);
            push_entry(&mut b, sid, tb, ev, &strs[j as usize], dict);
            std::mem::swap(&mut b, &mut buckets[j as usize]);
            proof {
                assert(buckets@[j as int].stream_ids@ =~= b0.stream_ids@.push(sid));
                assert(stream_tbs(streams@)[sid as int] == tb);
                lemma_buckets_step(de, dict@, strs@, stream_tbs(streams@), seen, names, sid as int, *ev, j as int, buckets_e, buckets@);
                assert(cell.events@.take(e + 1) =~= cell.events@.take(e as int).push(*ev));
                seen = seen.update(sid as int, seen[sid as int].push(*ev));
            }
            proof {
                let d = dict@;
                assert(buckets@ == buckets_e.update(j as int, buckets@[j as int]));
                assert(d.take(d0.len() as int) =~= d.take(de.len() as int).take(d0.len() as int));
                assert forall|k: int| 0 <= k < n implies schema_ok(d, #[trigger] schemas@[k], name_order@[k]@, evs_all) by {
                    lemma_schema_ok_persist(de, d, schemas@[k], name_order@[k]@, evs_all);
                }
                assert forall|k: int| 0 <= k < n implies dict_view((#[trigger] strs@[k])@) == schema_keys(d, schemas@[k]) by {
                    assert(schema_ok(de, schemas@[k], name_order@[k]@, evs_all));
                    lemma_schema_keys_persist(de, d, schemas@[k]);
                }
                assert forall|k: int| 0 <= k < streams@.len() implies stream_ok(d, #[trigger] streams@[k], kept1[k]) by {
                    lemma_stream_ok_persist(de, d, streams@[k], kept1[k]);
                }
                assert(schema_ok(de, schemas@[j as int], name_order@[j as int]@, evs_all));
                lemma_schema_keys_persist(de, d, schemas@[j as int]);
                assert forall|k: int, i: int| 0 <= k < n && 0 <= i < buckets@[k].stream_ids@.len() implies #[trigger] entry_of(
                    d,
                    schemas@,
                    streams@,
                    kept1,
                    names,
                    #[trigger] buckets@[k],
                    i,
                ) by {
                    let bk = buckets@[k];
                    if k == j as int && i == b0.stream_ids@.len() {
                        assert(bk.stream_ids@[i] == sid);
                        assert(kept1[sid as int].events@[e as int] == *ev);
                        assert(names[j as int] == ev.name@);
                        assert(entry_encodes(d, schema_keys(d, schemas@[j as int]), bk, i, tb, *ev));
                    } else {
                        let ob = buckets_e[k];
                        if k == j as int {
                            assert(same_entry(ob, bk, i));
                        } else {
                            assert(bk == ob);
                        }
                        assert(entry_of(de, schemas@, streams@, kept1, names, ob, i));
                        let sid0 = ob.stream_ids@[i] as int;
                        let w = choose|w: int|
                            0 <= w < kept1[sid0].events@.len() && kept1[sid0].events@[w].name@ == names[ob.schema_id as int]
                                && entry_encodes(
                                de,
                                schema_keys(de, schemas@[ob.schema_id as int]),
                                ob,
                                i,
                                streams@[sid0].time_base,
                                kept1[sid0].events@[w],
                            );
                        assert(schema_ok(de, schemas@[ob.schema_id as int], name_order@[ob.schema_id as int]@, evs_all));
                        lemma_schema_keys_persist(de, d, schemas@[ob.schema_id as int]);
                        lemma_entry_persist(
                            de,
                            d,
                            schema_keys(de, schemas@[ob.schema_id as int]),
                            ob,
                            i,
                            streams@[sid0].time_base,
                            kept1[sid0].events@[w],
                        );
                        if k == j as int {
                            lemma_entry_same(
                                d,
                                schema_keys(d, schemas@[ob.schema_id as int]),
                                ob,
                                bk,
                                i,
                                streams@[sid0].time_base,
                                kept1[sid0].events@[w],
                            );
                        }
                        assert(bk.stream_ids@[i] == ob.stream_ids@[i]);
                        assert(bk.schema_id == ob.schema_id);
                    }
                }
            }
            e += 1;
        }
        proof {
            assert(cell.events@.len() + base == all_events(cells@.take(c + 1)).len());
            assert(cell.events@.take(cell.events@.len() as int) =~= cell.events@);
            assert forall|s: int| 0 <= s < seen.len() implies #[trigger] seen[s] == kept_streams(cells@.take(c + 1))[s].events@ by {
            }
        }
        c += 1;
    }
    proof {
        assert(cells@.take(cells@.len() as int) =~= cells@);
        assert(seen =~= stream_events(kept_streams(cells@)));
    }
    (streams, buckets)
}

/// Encodes a trace, given as its `(rank, pid, tid, ph)` streams in order
/// and its distinct event names in the order in which their schemas are
/// numbered: every string through one dictionary, one schema per name (its
/// keys the sorted union of those of its events), and each event into the
/// bucket of its name, offset from its stream's time base.
pub fn build_tracezip_payload(cells: &Vec<EventStream>, name_order: &Vec<String>) -> (p: TraceZipPayload)
    requires
        distinct_views(dict_view(name_order@)),
        forall|t: int| 0 <= t < all_events(cells@).len() ==> dict_view(name_order@).contains(#[trigger] all_events(cells@)[t].name@),
        zip_budget(cells@, name_order@) + 8 < u32::MAX,
        offsets_fit(cells@),
    ensures
        zip_encodes(p, cells@, name_order@),
{
    proof {
        lemma_total_args_nonneg(all_events(cells@));
    }
    let name_keys = collect_name_keys(cells, name_order);
    let mut dict = StringDict::new();
    let ghost evs = all_events(cells@);
    let (schemas, strs) = build_schemas(&mut dict, name_order, name_keys, Ghost(evs));
    let ghost d1 = dict@;
    let (streams, buckets) = fill_buckets(&mut dict, cells, name_order, &schemas, &strs);
    let ghost d2 = dict@;
    let ghost names = dict_view(name_order@);
    let ghost kept = kept_streams(cells@);
    let mut global_buckets: Vec<GlobalBucket> = Vec::new();
    let mut buckets = buckets;
    let n = buckets.len();
    let ghost buckets0 = buckets@;
    let mut j: usize = 0;
    while j < n
        invariant
            j <= n,
            n == buckets0.len(),
            n == names.len(),
            buckets@.len() == n,
            forall|k: int| j <= k < n ==> #[trigger] buckets@[k] == buckets0[k],
            forall|k: int|
                0 <= k < n ==> {
                    let b = #[trigger] buckets0[k];
                    &&& b.schema_id == k
                    &&& bucket_shaped(b)
                    &&& forall|i: int| 0 <= i < b.stream_ids@.len() ==> #[trigger] entry_of(d2, schemas@, streams@, kept, names, b, i)
                },
            forall|a: int| 0 <= a < global_buckets@.len() ==> (#[trigger] global_buckets@[a]).schema_id < j,
            forall|a: int, b: int|
                0 <= a < b < global_buckets@.len() ==> (#[trigger] global_buckets@[a]).schema_id < (#[trigger] global_buckets@[b]).schema_id,
            forall|a: int|
                0 <= a < global_buckets@.len() ==> {
                    let bk = #[trigger] global_buckets@[a];
                    &&& bucket_shaped(bk)
                    &&& (bk.schema_id as int) < n
                    &&& bk.stream_ids@.len() > 0
                    &&& forall|i: int| 0 <= i < bk.stream_ids@.len() ==> #[trigger] entry_of(d2, schemas@, streams@, kept, names, bk, i)
                },
            forall|a: int| 0 <= a < global_buckets@.len() ==> #[trigger] global_buckets@[a] == buckets0[global_buckets@[a].schema_id as int],
            forall|k: int|
                0 <= k < j && (#[trigger] buckets0[k]).stream_ids@.len() > 0 ==> exists|a: int|
                    0 <= a < global_buckets@.len() && #[trigger] global_buckets@[a].schema_id == k,
        decreases n - j,
    {
        let ghost g0 = global_buckets@;
        if buckets[j].stream_ids.len() > 0 {
            let mut b = empty_bucket(0);
            std::mem::swap(&mut b, &mut buckets[j]);
            assert(b == buckets0[j as int]);
            global_buckets.push(b);
            proof {
                assert(global_buckets@[g0.len() as int].schema_id == j);
                assert forall|k: int|
                    0 <= k < j + 1 && (#[trigger] buckets0[k]).stream_ids@.len() > 0 implies exists|a: int|
                        0 <= a < global_buckets@.len() && #[trigger] global_buckets@[a].schema_id == k by {
                    if k < j {
                        let a = choose|a: int| 0 <= a < g0.len() && #[trigger] g0[a].schema_id == k;
                        assert(global_buckets@[a] == g0[a]);
                    } else {
                        assert(global_buckets@[g0.len() as int].schema_id == k);
                    }
                }
            }
        }
        j += 1;
    }
    let dict_strings = dict.into_strings();
    let p = TraceZipPayload { dict_strings, schemas, streams, global_buckets };
    proof {
        assert(dict_view(p.dict_strings@) == d2);
        assert forall|k: int| 0 <= k < names.len() implies schema_ok(d2, #[trigger] p.schemas@[k], names[k], evs) by {
            lemma_schema_ok_persist(d1, d2, schemas@[k], name_order@[k]@, evs);
        }
        let evss = stream_events(kept);
        let tbs = stream_tbs(p.streams@);
        assert forall|a: int| 0 <= a < p.global_buckets@.len() implies {
            let bk = #[trigger] p.global_buckets@[a];
            bucket_exact(d2, schema_keys(d2, p.schemas@[bk.schema_id as int]), tbs, evss, names[bk.schema_id as int], bk)
        } by {
            let bk = p.global_buckets@[a];
            let k = bk.schema_id as int;
            assert(bk == buckets0[k]);
            assert(bucket_exact(d2, dict_view(strs@[k]@), tbs, evss, names[k], buckets0[k]));
            lemma_schema_keys_persist(d1, d2, schemas@[k]);
        }
        assert forall|k: int, sid: int|
            #![trigger named_events(evss[sid], names[k])]
            0 <= k < names.len() && 0 <= sid < evss.len() && named_events(evss[sid], names[k]).len() > 0 implies exists|a: int|
                0 <= a < p.global_buckets@.len() && #[trigger] p.global_buckets@[a].schema_id == k by {
            let bk0 = buckets0[k];
            assert(bucket_exact(d2, dict_view(strs@[k]@), tbs, evss, names[k], bk0));
            lemma_kept_len(cells@);
            assert(count_before(bk0.stream_ids@, bk0.stream_ids@.len() as int, sid as u32) == named_events(evss[sid], names[k]).len());
            assert(bk0.stream_ids@.len() > 0);
            let a = choose|a: int| 0 <= a < global_buckets@.len() && #[trigger] global_buckets@[a].schema_id == k;
            assert(p.global_buckets@[a].schema_id == k);
        }
    }
    p
}

/// The values listed for the first `m` keys are a prefix of those listed
/// for all keys, as many as the first `m` keys the event has.
proof fn lemma_present_values_prefix(keys: Seq<Seq<char>>, args: Option<Vec<(String, ArgValue)>>, p: Seq<bool>, m: int)
    requires
        0 <= m <= keys.len(),
        p.len() == keys.len(),
        forall|k: int| 0 <= k < keys.len() ==> (#[trigger] p[k]) == has_arg_key(args, keys[k]),
    ensures
        present_values(keys.take(m), args).len() == present_count(p.take(m)),
        present_values(keys.take(m), args) == present_values(keys, args).take(present_values(keys.take(m), args).len() as int),
        present_values(keys.take(m), args).len() <= present_values(keys, args).len(),
    decreases keys.len() - m,
{
    if m == keys.len() {
        assert(keys.take(m) =~= keys);
        assert(p.take(m) =~= p);
        lemma_present_values_len(keys, args, p);
        assert(present_values(keys, args).take(present_values(keys, args).len() as int) =~= present_values(keys, args));
    } else {
        lemma_present_values_prefix(keys, args, p, m + 1);
        assert(keys.take(m + 1).drop_last() =~= keys.take(m));
        assert(keys.take(m + 1).last() == keys[m]);
        assert(p.take(m + 1).drop_last() =~= p.take(m));
        assert(p.take(m + 1).last() == p[m]);
        let a = present_values(keys.take(m), args);
        let b = present_values(keys.take(m + 1), args);
        let full = present_values(keys, args);
        if has_arg_key(args, keys[m]) {
            assert(b == a.push(event_arg(args, keys[m])));
            assert(a =~= full.take(b.len() as int).take(a.len() as int));
        } else {
            assert(b == a);
        }
    }
}

proof fn lemma_present_values_len(keys: Seq<Seq<char>>, args: Option<Vec<(String, ArgValue)>>, p: Seq<bool>)
    requires
        p.len() == keys.len(),
        forall|k: int| 0 <= k < keys.len() ==> (#[trigger] p[k]) == has_arg_key(args, keys[k]),
    ensures
        present_values(keys, args).len() == present_count(p),
    decreases keys.len(),
{
    if keys.len() > 0 {
        assert forall|k: int| 0 <= k < keys.drop_last().len() implies (#[trigger] p.drop_last()[k]) == has_arg_key(args, keys.drop_last()[k]) by {
            assert(p.drop_last()[k] == p[k]);
            assert(keys.drop_last()[k] == keys[k]);
        }
        lemma_present_values_len(keys.drop_last(), args, p.drop_last());
        assert(p.last() == p[p.len() - 1]);
    }
}

/// The map built from the flags and values of an encoded event holds, for
/// each of the first `m` keys that the event has, the event's value.
proof fn lemma_present_map_of(keys: Seq<Seq<char>>, args: Option<Vec<(String, ArgValue)>>, p: Seq<bool>, m: int)
    requires
        0 <= m <= keys.len(),
        p.len() == keys.len(),
        forall|k: int| 0 <= k < keys.len() ==> (#[trigger] p[k]) == has_arg_key(args, keys[k]),
    ensures
        forall|key: Seq<char>| #[trigger] present_map(keys.take(m), p, present_values(keys, args)).dom().contains(key)
            <==> (keys.take(m).contains(key) && has_arg_key(args, key)),
        forall|key: Seq<char>|
            present_map(keys.take(m), p, present_values(keys, args)).dom().contains(key) ==> #[trigger] present_map(
                keys.take(m),
                p,
                present_values(keys, args),
            )[key] == event_arg(args, key),
    decreases m,
{
    let vals = present_values(keys, args);
    if m == 0 {
        assert(keys.take(0) =~= Seq::<Seq<char>>::empty());
    } else {
        lemma_present_map_of(keys, args, p, m - 1);
        let km = keys.take(m);
        assert(km.drop_last() =~= keys.take(m - 1));
        assert(km.last() == keys[m - 1]);
        assert(p.take(m - 1) =~= p.take(m - 1));
        let prev = present_map(keys.take(m - 1), p, vals);
        if p[m - 1] {
            lemma_present_values_prefix(keys, args, p, m - 1);
            lemma_present_values_prefix(keys, args, p, m);
            let c = present_count(p.take(m - 1));
            assert(keys.take(m).drop_last() =~= keys.take(m - 1));
            assert(present_values(keys.take(m), args) == present_values(keys.take(m - 1), args).push(event_arg(args, keys[m - 1])));
            assert(vals[c] == event_arg(args, keys[m - 1])) by {
                assert(present_values(keys.take(m), args)[c] == vals.take(present_values(keys.take(m), args).len() as int)[c]);
            }
            assert(present_map(km, p, vals) == prev.insert(keys[m - 1], vals[c]));
        } else {
            assert(present_map(km, p, vals) == prev);
        }
        assert forall|key: Seq<char>| #[trigger] present_map(km, p, vals).dom().contains(key) <==> (km.contains(key) && has_arg_key(args, key)) by {
            let pm = keys.take(m - 1);
            if pm.contains(key) {
                let k = choose|k: int| 0 <= k < pm.len() && pm[k] == key;
                assert(km[k] == key);
            }
            if km.contains(key) && key != keys[m - 1] {
                let k = choose|k: int| 0 <= k < km.len() && km[k] == key;
                assert(pm[k] == key);
            }
            if key == keys[m - 1] {
                assert(km[m - 1] == key);
            }
        }
    }
}

/// Every event of a stream with events is an event of the trace.
proof fn lemma_kept_event_in_all(cells: Seq<EventStream>, k: int, e: int)
    requires
        0 <= k < kept_streams(cells).len(),
        0 <= e < kept_streams(cells)[k].events@.len(),
    ensures
        exists|t: int| 0 <= t < all_events(cells).len() && all_events(cells)[t] == kept_streams(cells)[k].events@[e],
    decreases cells.len(),
{
    let last = cells.last();
    let prev = kept_streams(cells.drop_last());
    if last.events@.len() > 0 && k == prev.len() {
        let t = all_events(cells.drop_last()).len() + e;
        assert(all_events(cells)[t] == last.events@[e]);
    } else {
        lemma_kept_event_in_all(cells.drop_last(), k, e);
        let t = choose|t: int| 0 <= t < all_events(cells.drop_last()).len() && all_events(cells.drop_last())[t] == prev[k].events@[e];
        assert(all_events(cells)[t] == all_events(cells.drop_last())[t]);
    }
}

/// Decoding an encoded trace gives back its events: every decoded entry of
/// every bucket is an event of its stream, every field equal (name, times,
/// ids, category, `bp`, `s`, the stream's rank, phase, pid and thread) and
/// the same arguments by key; an event whose argument map is empty comes
/// back with none.
pub proof fn lemma_tracezip_round_trip(
    p: TraceZipPayload,
    cells: Seq<EventStream>,
    name_order: Seq<String>,
    b: int,
    i: int,
    rank: Seq<char>,
    ev: Event,
)
    requires
        zip_encodes(p, cells, name_order),
        0 <= b < p.global_buckets@.len(),
        0 <= i < p.global_buckets@[b].stream_ids@.len(),
        entry_decodes(
            dict_view(p.dict_strings@),
            lookup(dict_view(p.dict_strings@), p.schemas@[p.global_buckets@[b].schema_id as int].name_dict_id),
            schema_keys(dict_view(p.dict_strings@), p.schemas@[p.global_buckets@[b].schema_id as int]),
            p.global_buckets@[b],
            p.streams@[p.global_buckets@[b].stream_ids@[i] as int],
            i,
            rank,
            ev,
        ),
    ensures
        ({
            let sid = p.global_buckets@[b].stream_ids@[i] as int;
            let cell = kept_streams(cells)[sid];
            &&& 0 <= sid < kept_streams(cells).len()
            &&& rank == cell.rank@
            &&& ev.ph == cell.ph
            &&& ev.pid == cell.pid
            &&& ev.tid@ == cell.tid@
            &&& exists|e: int|
                0 <= e < cell.events@.len() && {
                    let orig = #[trigger] cell.events@[e];
                    &&& ev.name@ == orig.name@
                    &&& ev.ts == orig.ts
                    &&& ev.dur == orig.dur
                    &&& ev.id == orig.id
                    &&& opt_view(ev.cat) == opt_view(orig.cat)
                    &&& opt_view(ev.bp) == opt_view(orig.bp)
                    &&& opt_view(ev.s) == opt_view(orig.s)
                    &&& (ev.args is None <==> args_entries(orig.args).len() == 0)
                    &&& forall|key: Seq<char>| #[trigger] arg_value(args_entries(ev.args), key) == arg_value(args_entries(orig.args), key)
                }
        }),
{
    let dict = dict_view(p.dict_strings@);
    let bk = p.global_buckets@[b];
    let j = bk.schema_id as int;
    let schema = p.schemas@[j];
    let names = dict_view(name_order);
    let kept = kept_streams(cells);
    let evs = all_events(cells);
    assert(entry_of(dict, p.schemas@, p.streams@, kept, names, bk, i));
    let sid = bk.stream_ids@[i] as int;
    let cell = kept[sid];
    let st = p.streams@[sid];
    assert(stream_ok(dict, st, cell));
    let keys = schema_keys(dict, schema);
    let e = choose|e: int|
        0 <= e < cell.events@.len() && cell.events@[e].name@ == names[j] && entry_encodes(dict, keys, bk, i, st.time_base, cell.events@[e]);
    let orig = cell.events@[e];
    assert(schema_ok(dict, schema, names[j], evs));
    lemma_kept_event_in_all(cells, sid, e);
    let t = choose|t: int| 0 <= t < evs.len() && evs[t] == orig;
    let present = bk.arg_present@[i]@;
    let vals = bk.arg_values@[i]@;
    assert(vals == present_values(keys, orig.args));
    lemma_present_map_of(keys, orig.args, present, keys.len() as int);
    assert(keys.take(keys.len() as int) =~= keys);
    let m = present_map(keys, present, vals);
    let oa = args_entries(orig.args);
    assert forall|key: Seq<char>| #[trigger] m.dom().contains(key) <==> (exists|q: int| 0 <= q < oa.len() && oa[q].0@ == key) by {
        if exists|q: int| 0 <= q < oa.len() && oa[q].0@ == key {
            let q = choose|q: int| 0 <= q < oa.len() && oa[q].0@ == key;
            assert(has_arg_key(orig.args, key)) by {
                let a = orig.args->0;
                assert(a@[q].0@ == key);
            }
            assert(name_key_in(evs, names[j], key));
            assert(keys.contains(key));
        }
        if m.dom().contains(key) {
            assert(has_arg_key(orig.args, key));
            let a = orig.args->0;
            let q = choose|q: int| 0 <= q < a@.len() && #[trigger] a@[q].0@ == key;
            assert(oa[q].0@ == key);
        }
    }
    assert forall|key: Seq<char>| #[trigger] arg_value(oa, key) == (if m.dom().contains(key) {
        Some(m[key])
    } else {
        None::<ArgValue>
    }) by {
        lemma_arg_value_found(oa, key);
        if m.dom().contains(key) {
            let a = orig.args->0;
            assert(event_arg(orig.args, key) == arg_value(a@, key)->0);
        }
    }
    if ev.args is Some {
        let v = ev.args->0;
        assert forall|key: Seq<char>| #[trigger] arg_value(args_entries(ev.args), key) == arg_value(oa, key) by {
            assert(arg_value(v@, key) == (if m.dom().contains(key) {
                Some(m[key])
            } else {
                None::<ArgValue>
            }));
        }
        if oa.len() == 0 {
            assert(m.dom() =~= Set::<Seq<char>>::empty());
        }
    } else {
        if oa.len() > 0 {
            assert(m.dom().contains(oa[0].0@));
        }
        assert forall|key: Seq<char>| #[trigger] arg_value(args_entries(ev.args), key) == arg_value(oa, key) by {
            lemma_arg_value_found(oa, key);
        }
    }
    assert(lookup(dict, schema.name_dict_id) == orig.name@);
    assert(ev.ts == orig.ts);
    assert(opt_view(ev.cat) == opt_view(orig.cat)) by {
        if orig.cat is Some {
        }
    }
    assert(opt_view(ev.bp) == opt_view(orig.bp)) by {
        if orig.bp is Some {
        }
    }
    assert(opt_view(ev.s) == opt_view(orig.s)) by {
        if orig.s is Some {
        }
    }
}


/// The events named `name` among the first `m` come first, in order,
/// among all those named `name`.
proof fn lemma_named_take(evs: Seq<Event>, name: Seq<char>, m: int)
    requires
        0 <= m <= evs.len(),
    ensures
        named_events(evs.take(m), name).len() <= named_events(evs, name).len(),
        forall|q: int|
            0 <= q < named_events(evs.take(m), name).len() ==> #[trigger] named_events(evs.take(m), name)[q] == named_events(evs, name)[q],
    decreases evs.len(),
{
    if m == evs.len() {
        assert(evs.take(m) =~= evs);
    } else {
        lemma_named_take(evs.drop_last(), name, m);
        assert(evs.drop_last().take(m) =~= evs.take(m));
        assert(evs.drop_last().push(evs.last()) =~= evs);
        lemma_named_push(evs.drop_last(), evs.last(), name);
    }
}

/// An event sits, among the events of its name, at the place given by how
/// many of them come before it.
proof fn lemma_named_place(evs: Seq<Event>, e: int)
    requires
        0 <= e < evs.len(),
    ensures
        named_events(evs.take(e), evs[e].name@).len() < named_events(evs, evs[e].name@).len(),
        named_events(evs, evs[e].name@)[named_events(evs.take(e), evs[e].name@).len() as int] == evs[e],
{
    let name = evs[e].name@;
    lemma_named_take(evs, name, e + 1);
    assert(evs.take(e).push(evs[e]) =~= evs.take(e + 1));
    lemma_named_push(evs.take(e), evs[e], name);
    let r = named_events(evs.take(e), name).len() as int;
    assert(named_events(evs.take(e + 1), name)[r] == evs[e]);
}

/// Where more than `r` of the first `n` ids are `x`, one of them is the
/// id `x` with exactly `r` of them before it.
proof fn lemma_count_reaches(ids: Seq<u32>, n: int, x: u32, r: int)
    requires
        0 <= n <= ids.len(),
        0 <= r < count_before(ids, n, x),
    ensures
        exists|i: int| 0 <= i < n && ids[i] == x && #[trigger] count_before(ids, i, x) == r,
    decreases n,
{
    if count_before(ids, n - 1, x) > r {
        lemma_count_reaches(ids, n - 1, x, r);
        let i = choose|i: int| 0 <= i < n - 1 && ids[i] == x && #[trigger] count_before(ids, i, x) == r;
        assert(count_before(ids, i, x) == r);
    } else {
        assert(ids[n - 1] == x);
        assert(count_before(ids, n - 1, x) == r);
    }
}

/// Every event of every stream with events comes back: the bucket of its
/// name holds an entry of its stream that encodes it, namely the entry
/// whose place among the stream's entries there is the event's place
/// among the stream's events of that name.
pub proof fn lemma_tracezip_every_event(p: TraceZipPayload, cells: Seq<EventStream>, name_order: Seq<String>, sid: int, e: int)
    requires
        zip_encodes(p, cells, name_order),
        forall|t: int| 0 <= t < all_events(cells).len() ==> dict_view(name_order).contains(#[trigger] all_events(cells)[t].name@),
        cells.len() <= u32::MAX,
        0 <= sid < kept_streams(cells).len(),
        0 <= e < kept_streams(cells)[sid].events@.len(),
    ensures
        ({
            let dict = dict_view(p.dict_strings@);
            let ev = kept_streams(cells)[sid].events@[e];
            exists|b: int, i: int|
                #![trigger p.global_buckets@[b].stream_ids@[i]]
                0 <= b < p.global_buckets@.len() && 0 <= i < p.global_buckets@[b].stream_ids@.len() && {
                    let bk = p.global_buckets@[b];
                    &&& bk.stream_ids@[i] == sid
                    &&& dict_view(name_order)[bk.schema_id as int] == ev.name@
                    &&& count_before(bk.stream_ids@, i, sid as u32) == named_events(
                        kept_streams(cells)[sid].events@.take(e),
                        ev.name@,
                    ).len()
                    &&& entry_encodes(
                        dict,
                        schema_keys(dict, p.schemas@[bk.schema_id as int]),
                        bk,
                        i,
                        p.streams@[sid].time_base,
                        ev,
                    )
                }
        }),
{
    let dict = dict_view(p.dict_strings@);
    let names = dict_view(name_order);
    let kept = kept_streams(cells);
    let evss = stream_events(kept);
    let tbs = stream_tbs(p.streams@);
    let evs = kept[sid].events@;
    let ev = evs[e];
    let name = ev.name@;
    lemma_kept_event_in_all(cells, sid, e);
    let t = choose|t: int| 0 <= t < all_events(cells).len() && all_events(cells)[t] == ev;
    assert(names.contains(all_events(cells)[t].name@));
    let j = choose|j: int| 0 <= j < names.len() && names[j] == name;
    lemma_named_place(evs, e);
    assert(evss[sid] == evs);
    let r = named_events(evs.take(e), name).len() as int;
    assert(named_events(evss[sid], names[j]).len() > 0);
    let b = choose|b: int| 0 <= b < p.global_buckets@.len() && #[trigger] p.global_buckets@[b].schema_id == j;
    let bk = p.global_buckets@[b];
    let keys = schema_keys(dict, p.schemas@[j]);
    assert(bucket_exact(dict, keys, tbs, evss, names[j], bk));
    lemma_kept_len(cells);
    assert(count_before(bk.stream_ids@, bk.stream_ids@.len() as int, sid as u32) == named_events(evss[sid], names[j]).len());
    lemma_count_reaches(bk.stream_ids@, bk.stream_ids@.len() as int, sid as u32, r);
    let i = choose|i: int|
        0 <= i < bk.stream_ids@.len() && bk.stream_ids@[i] == sid as u32 && #[trigger] count_before(bk.stream_ids@, i, sid as u32) == r;
    assert(entry_ranked(dict, keys, bk, i, tbs[bk.stream_ids@[i] as int], named_events(evss[bk.stream_ids@[i] as int], names[j])));
    assert(tbs[sid] == p.streams@[sid].time_base);
    assert(p.global_buckets@[b].stream_ids@[i] == sid);
}


/// Some event of `evs` is named `name`.
pub open spec fn some_event_named(evs: Seq<Event>, name: Seq<char>) -> bool {
    exists|t: int| 0 <= t < evs.len() && (#[trigger] evs[t]).name@ == name
}

/// The distinct event names of the trace, each once, in the order in which
/// a hash index of them is walked (which the index's random seed decides).
pub fn tracezip_name_order(cells: &Vec<EventStream>) -> (names: Vec<String>)
    requires
        all_events(cells@).len() < u32::MAX,
    ensures
        distinct_views(dict_view(names@)),
        forall|t: int| 0 <= t < all_events(cells@).len() ==> dict_view(names@).contains(#[trigger] all_events(cells@)[t].name@),
        forall|j: int| 0 <= j < names@.len() ==> some_event_named(all_events(cells@), #[trigger] dict_view(names@)[j]),
        names@.len() <= all_events(cells@).len(),
{
    let ghost evs = all_events(cells@);
    let mut seen = StringDict::new();
    let mut c: usize = 0;
    while c < cells.len()
        invariant
            evs == all_events(cells@),
            evs.len() < u32::MAX,
            c <= cells@.len(),
            seen.wf(),
            all_events(cells@.take(c as int)).len() <= evs.len(),
            all_events(cells@.take(c as int)) == evs.take(all_events(cells@.take(c as int)).len() as int),
            seen@.len() <= all_events(cells@.take(c as int)).len(),
            forall|k: Seq<char>| #[trigger] seen@.contains(k) <==> exists|t: int|
                0 <= t < all_events(cells@.take(c as int)).len() && evs[t].name@ == k,
        decreases cells@.len() - c,
    {
        let ghost base = all_events(cells@.take(c as int)).len() as int;
        proof {
            lemma_all_events_take(cells@, c as int);
        }
        let cell = &cells[c];
        let mut e: usize = 0;
        while e < cell.events.len()
            invariant
                evs == all_events(cells@),
                evs.len() < u32::MAX,
                c < cells@.len(),
                *cell == cells@[c as int],
                seen.wf(),
                base == all_events(cells@.take(c as int)).len(),
                all_events(cells@.take(c + 1)) == all_events(cells@.take(c as int)) + cell.events@,
                all_events(cells@.take(c + 1)) == evs.take(all_events(cells@.take(c + 1)).len() as int),
                all_events(cells@.take(c + 1)).len() <= evs.len(),
                e <= cell.events@.len(),
                seen@.len() <= base + e,
                forall|k: Seq<char>| #[trigger] seen@.contains(k) <==> exists|t: int| 0 <= t < base + e && evs[t].name@ == k,
            decreases cell.events@.len() - e,
        {
            proof {
                assert(evs[base + e] == all_events(cells@.take(c + 1))[base + e]);
                assert(evs[base + e] == cell.events@[e as int]);
            }
            let ghost before = seen@;
            seen.intern(cell.events[e].name.as_str());
            proof {
                let name = cell.events@[e as int].name@;
                assert forall|k: Seq<char>| #[trigger] seen@.contains(k) <==> exists|t: int| 0 <= t < base + e + 1 && evs[t].name@ == k by {
                    if seen@.contains(k) && !before.contains(k) {
                        assert(k == name);
                        assert(evs[base + e].name@ == k);
                    }
                    if exists|t: int| 0 <= t < base + e + 1 && evs[t].name@ == k {
                        let t = choose|t: int| 0 <= t < base + e + 1 && evs[t].name@ == k;
                        if t < base + e {
                            assert(before.contains(k));
                        } else {
                            assert(k == name);
                            assert(seen@[seen@.len() - 1] == name || before.contains(name));
                        }
                    }
                    if before.contains(k) {
                        let q = choose|q: int| 0 <= q < before.len() && before[q] == k;
                        assert(seen@[q] == k);
                    }
                }
            }
            e += 1;
        }
        c += 1;
    }
    proof {
        assert(cells@.take(cells@.len() as int) =~= cells@);
        assert(evs.take(evs.len() as int) =~= evs);
    }
    let names = seen.walk_order();
    proof {
        let v = dict_view(names@);
        assert(v =~= crate::event::string_list_view(names@));
        assert forall|t: int| 0 <= t < evs.len() implies v.contains(#[trigger] evs[t].name@) by {
            assert(seen@.contains(evs[t].name@));
        }
        assert forall|j: int| 0 <= j < names@.len() implies some_event_named(all_events(cells@), #[trigger] dict_view(names@)[j]) by {
            assert(v.contains(v[j]));
            assert(seen@.contains(v[j]));
            let t = choose|t: int| 0 <= t < evs.len() && evs[t].name@ == v[j];
            assert(all_events(cells@)[t].name@ == dict_view(names@)[j]);
        }
    }
    names
}

/// Encodes a trace, given as its `(rank, pid, tid, ph)` streams in order,
/// numbering the schemas in the order in which a hash index of the event
/// names is walked; returns the payload and that order of the names.
pub fn compress_tracezip(cells: &Vec<EventStream>) -> (r: (TraceZipPayload, Vec<String>))
    requires
        all_events(cells@).len() + total_args(all_events(cells@)) + 2 * cells@.len() + 3 * all_events(cells@).len() + 8 < u32::MAX,
        offsets_fit(cells@),
    ensures
        zip_encodes(r.0, cells@, r.1@),
        distinct_views(dict_view(r.1@)),
        forall|t: int| 0 <= t < all_events(cells@).len() ==> dict_view(r.1@).contains(#[trigger] all_events(cells@)[t].name@),
        forall|j: int| 0 <= j < r.1@.len() ==> some_event_named(all_events(cells@), #[trigger] dict_view(r.1@)[j]),
{
    proof {
        lemma_total_args_nonneg(all_events(cells@));
    }
    let names = tracezip_name_order(cells);
    let p = build_tracezip_payload(cells, &names);
    (p, names)
}


/// The trace fits the encoding: its strings get `u32` ids and every
/// timestamp is an `i64` offset from its stream's time base.
pub open spec fn tracezip_fits(cells: Seq<EventStream>) -> bool {
    &&& all_events(cells).len() + total_args(all_events(cells)) + 2 * cells.len() + 3 * all_events(cells).len() + 8 < u32::MAX
    &&& offsets_fit(cells)
}

/// Whether the trace fits the encoding (see [`tracezip_fits`]).
pub fn tracezip_fits_check(cells: &Vec<EventStream>) -> (b: bool)
    ensures
        b == tracezip_fits(cells@),
{
    let ghost evs = all_events(cells@);
    proof {
        lemma_total_args_nonneg(evs);
    }
    let mut count: u64 = 0;
    let mut args: u64 = 0;
    let mut c: usize = 0;
    while c < cells.len()
        invariant
            evs == all_events(cells@),
            c <= cells@.len(),
            all_events(cells@.take(c as int)).len() <= evs.len(),
            all_events(cells@.take(c as int)) == evs.take(all_events(cells@.take(c as int)).len() as int),
            count == all_events(cells@.take(c as int)).len(),
            args == total_args(evs.take(count as int)),
            count <= u32::MAX,
            args <= u32::MAX,
            forall|q: int, e: int|
                0 <= q < c && 0 <= e < cells@[q].events@.len() ==> fits_i64(
                    (#[trigger] cells@[q].events@[e]).ts - time_base_of(cells@[q].events@),
                ),
        decreases cells@.len() - c,
    {
        proof {
            lemma_all_events_take(cells@, c as int);
        }
        let cell = &cells[c];
        let ghost base = count as int;
        let tb = if cell.events.len() > 0 {
            time_base(&cell.events)
        } else {
            0
        };
        let mut e: usize = 0;
        while e < cell.events.len()
            invariant
                evs == all_events(cells@),
                c < cells@.len(),
                *cell == cells@[c as int],
                cell.events@.len() > 0 ==> tb == time_base_of(cell.events@),
                all_events(cells@.take(c + 1)) == all_events(cells@.take(c as int)) + cell.events@,
                all_events(cells@.take(c + 1)) == evs.take(all_events(cells@.take(c + 1)).len() as int),
                all_events(cells@.take(c + 1)).len() <= evs.len(),
                base == all_events(cells@.take(c as int)).len(),
                e <= cell.events@.len(),
                count == base + e,
                args == total_args(evs.take(count as int)),
                count <= u32::MAX,
                args <= u32::MAX,
                forall|q: int, k: int|
                    0 <= q < c && 0 <= k < cells@[q].events@.len() ==> fits_i64(
                        (#[trigger] cells@[q].events@[k]).ts - time_base_of(cells@[q].events@),
                    ),
                forall|k: int| 0 <= k < e ==> fits_i64((#[trigger] cell.events@[k]).ts - time_base_of(cell.events@)),
            decreases cell.events@.len() - e,
        {
            let ev = &cell.events[e];
            proof {
                assert(evs[base + e] == all_events(cells@.take(c + 1))[base + e]);
                assert(evs[base + e] == *ev);
                assert(evs.take(base + e + 1).drop_last() =~= evs.take(base + e));
            }
            if ev.ts.checked_sub(tb).is_none() {
                proof {
                    assert(!fits_i64(cells@[c as int].events@[e as int].ts - time_base_of(cells@[c as int].events@)));
                }
                return false;
            }
            let n: u64 = match &ev.args {
                Some(a) => a.len() as u64,
                None => 0,
            };
            if n > 0xffff_ffffu64 - args || count + 1 > 0xffff_ffffu64 {
                proof {
                    assert(evs.take(base + e + 1).len() == base + e + 1);
                    lemma_total_args_prefix(evs, base + e + 1);
                }
                return false;
            }
            args = args + n;
            count = count + 1;
            e += 1;
        }
        c += 1;
    }
    proof {
        assert(cells@.take(cells@.len() as int) =~= cells@);
        assert(evs.take(evs.len() as int) =~= evs);
    }
    if cells.len() >= 0xffff_ffff {
        return false;
    }
    let total = count + args + 2 * (cells.len() as u64) + 3 * count + 8;
    total < 0xffff_ffffu64
}

/// Encodes a trace when it fits the encoding (see [`tracezip_fits`]).
pub fn try_compress_tracezip(cells: &Vec<EventStream>) -> (r: Option<(TraceZipPayload, Vec<String>)>)
    ensures
        r is Some <==> tracezip_fits(cells@),
        r matches Some(pn) ==> {
            &&& zip_encodes(pn.0, cells@, pn.1@)
            &&& distinct_views(dict_view(pn.1@))
            &&& forall|t: int|
                0 <= t < all_events(cells@).len() ==> dict_view(pn.1@).contains(#[trigger] all_events(cells@)[t].name@)
            &&& forall|j: int| 0 <= j < pn.1@.len() ==> some_event_named(all_events(cells@), #[trigger] dict_view(pn.1@)[j])
        },
{
    if tracezip_fits_check(cells) {
        Some(compress_tracezip(cells))
    } else {
        None
    }
}

} // verus!
