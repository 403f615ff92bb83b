//! The ScalaTrace-style baseline: a global string dictionary, a global
//! table of event types `(normalized name, cat, argument keys)`, each
//! stream's type ids written as pooled regular section descriptors, and the
//! per-event values kept per stream.

use vstd::prelude::*;

use crate::baselines::rsd::{
    all_known, encode_rsd, expand_all, expand_rsd_ids, greedy_encoding, lemma_pooled_encoding_round_trip, picked,
    pool_rsds, rsd_view, Rsd, RsdPool,
};
use crate::dict::{SeqDict, StringDict};
use crate::event::{event_arg, has_arg_key, lookup_arg, ArgValue, Event, Phase};
use crate::sort::sort_ids;
use crate::analysis::layer_gpu::opt_view;
use crate::event::arg_value;
use crate::Error;

verus! {

broadcast use vstd::seq_lib::group_to_multiset_ensures;

/// One event type: dictionary ids of its normalized name, of its category
/// (plus one; 0 when absent) and of its argument keys (ascending).
#[derive(Clone, Debug)]
pub struct TypeEntry {
    pub name_id: u32,
    pub cat_id_plus1: u32,
    pub arg_key_ids: Vec<u32>,
}

/// No two event types have the same key: name, category and argument
/// keys.
pub open spec fn types_distinct(types: Seq<TypeEntry>) -> bool {
    forall|a: int, b: int|
        0 <= a < b < types.len() ==> type_key((#[trigger] types[a]).name_id, types[a].cat_id_plus1, types[a].arg_key_ids@)
            != type_key((#[trigger] types[b]).name_id, types[b].cat_id_plus1, types[b].arg_key_ids@)
}

/// The key under which an event type is interned.
pub open spec fn type_key(name_id: u32, cat_id_plus1: u32, arg_key_ids: Seq<u32>) -> Seq<u32> {
    seq![name_id, cat_id_plus1] + arg_key_ids
}

/// An optional string, as `0` when absent and `id + 1` otherwise, against a
/// dictionary.
pub open spec fn encodes_opt(dict: Seq<Seq<char>>, code: u32, s: Option<String>) -> bool {
    match s {
        None => code == 0,
        Some(v) => code > 0 && (code - 1) < dict.len() && dict[code - 1] == v@,
    }
}

/// Event type `t` describes event `ev` whose normalized name is `norm`,
/// against the dictionary: its name, its category, its argument keys (one
/// id per argument, ascending, each naming an argument of the event).
pub open spec fn type_describes(dict: Seq<Seq<char>>, t: TypeEntry, ev: Event, norm: Seq<char>) -> bool {
    &&& (t.name_id as int) < dict.len()
    &&& dict[t.name_id as int] == norm
    &&& encodes_opt(dict, t.cat_id_plus1, ev.cat)
    &&& t.arg_key_ids@.len() == match ev.args {
        Some(a) => a@.len(),
        None => 0,
    }
    &&& forall|i: int, j: int| 0 <= i < j < t.arg_key_ids@.len() ==> t.arg_key_ids@[i] <= t.arg_key_ids@[j]
    &&& forall|k: int|
        0 <= k < t.arg_key_ids@.len() ==> (#[trigger] t.arg_key_ids@[k] as int) < dict.len() && has_arg_key(
            ev.args,
            dict[t.arg_key_ids@[k] as int],
        )
    &&& forall|q: int| 0 <= q < arg_count(ev.args) ==> #[trigger] key_listed(dict, t.arg_key_ids@, arg_key_at(ev.args, q))
}

/// One of the ids names `key` in the dictionary.
pub open spec fn key_listed(dict: Seq<Seq<char>>, ids: Seq<u32>, key: Seq<char>) -> bool {
    exists|k: int| 0 <= k < ids.len() && dict[ids[k] as int] == key
}

/// The key of argument `q` of an event.
pub open spec fn arg_key_at(args: Option<Vec<(String, ArgValue)>>, q: int) -> Seq<char> {
    match args {
        Some(a) => a@[q].0@,
        None => Seq::empty(),
    }
}

/// The argument values of `ev` in the order of the type's keys (`Null` for
/// a key it lacks).
pub open spec fn row_matches(dict: Seq<Seq<char>>, t: TypeEntry, ev: Event, row: Seq<ArgValue>) -> bool {
    &&& row.len() == t.arg_key_ids@.len()
    &&& forall|k: int| 0 <= k < row.len() ==> #[trigger] row[k] == event_arg(ev.args, dict[t.arg_key_ids@[k] as int])
}

/// The interning state of an encoding run: the string dictionary and the
/// event type table.
pub struct StEncoder {
    pub dict: StringDict,
    pub type_keys: SeqDict,
    pub types: Vec<TypeEntry>,
}

impl StEncoder {
    /// The type index lists the keys of the types, and the dictionary is
    /// well formed.
    pub closed spec fn wf(&self) -> bool {
        &&& self.dict.wf()
        &&& self.type_keys.wf()
        &&& self.type_keys@.len() == self.types@.len()
        &&& forall|k: int|
            0 <= k < self.types@.len() ==> #[trigger] self.type_keys@[k] == type_key(
                self.types@[k].name_id,
                self.types@[k].cat_id_plus1,
                self.types@[k].arg_key_ids@,
            )
    }

    /// An empty dictionary and type table.
    pub fn new() -> (e: StEncoder)
        ensures
            e.wf(),
            e.dict@.len() == 0,
            e.types@.len() == 0,
    {
        StEncoder { dict: StringDict::new(), type_keys: SeqDict::new(), types: Vec::new() }
    }

    /// A well-formed encoder holds no string twice and no event type twice.
    pub proof fn lemma_distinct(&self)
        requires
            self.wf(),
        ensures
            self.dict@.no_duplicates(),
            types_distinct(self.types@),
    {
        self.dict.lemma_distinct();
        self.type_keys.lemma_distinct();
        assert forall|a: int, b: int| 0 <= a < b < self.types@.len() implies type_key(
            (#[trigger] self.types@[a]).name_id,
            self.types@[a].cat_id_plus1,
            self.types@[a].arg_key_ids@,
        ) != type_key((#[trigger] self.types@[b]).name_id, self.types@[b].cat_id_plus1, self.types@[b].arg_key_ids@) by {
            assert(self.type_keys@[a] != self.type_keys@[b]);
        }
    }

    /// Interns a string, keeping the dictionary's earlier entries.
    fn intern_str(&mut self, s: &str) -> (id: u32)
        requires
            old(self).wf(),
            old(self).dict@.len() < u32::MAX,
        ensures
            final(self).wf(),
            final(self).types == old(self).types,
            final(self).dict@.len() <= old(self).dict@.len() + 1,
            extends(final(self).dict@, old(self).dict@),
            (id as int) < final(self).dict@.len(),
            final(self).dict@[id as int] == s@,
    {
        let ghost before = self.dict@;
        let id = self.dict.intern(s);
        proof {
            assert(self.dict@.take(before.len() as int) =~= before);
        }
        id
    }

    /// `0` for an absent string, else its id plus one.
    fn intern_opt(&mut self, s: &Option<String>) -> (code: u32)
        requires
            old(self).wf(),
            old(self).dict@.len() < u32::MAX - 1,
        ensures
            final(self).wf(),
            final(self).types == old(self).types,
            final(self).dict@.len() <= old(self).dict@.len() + 1,
            extends(final(self).dict@, old(self).dict@),
            encodes_opt(final(self).dict@, code, *s),
    {
        match s {
            Some(v) => self.intern_str(v.as_str()) + 1,
            None => {
                assert(self.dict@.take(self.dict@.len() as int) =~= self.dict@);
                0
            },
        }
    }
}

/// `d2` keeps every entry of `d1` and may add more.
pub open spec fn extends<T>(d2: Seq<T>, d1: Seq<T>) -> bool {
    d1.len() <= d2.len() && d2.take(d1.len() as int) == d1
}

/// What one encoded event says against the dictionary, persists when the
/// dictionary grows.
proof fn lemma_event_facts_persist(d1: Seq<Seq<char>>, d2: Seq<Seq<char>>, t: TypeEntry, ev: Event, norm: Seq<char>, row: Seq<ArgValue>)
    requires
        extends(d2, d1),
        type_describes(d1, t, ev, norm),
        row_matches(d1, t, ev, row),
    ensures
        type_describes(d2, t, ev, norm),
        row_matches(d2, t, ev, row),
{
    assert forall|i: int| 0 <= i < d1.len() implies d2[i] == d1[i] by {
        assert(d2.take(d1.len() as int)[i] == d2[i]);
    }
    assert forall|k: int| 0 <= k < t.arg_key_ids@.len() implies (#[trigger] t.arg_key_ids@[k] as int) < d2.len()
        && has_arg_key(ev.args, d2[t.arg_key_ids@[k] as int]) by {
        assert(d2[t.arg_key_ids@[k] as int] == d1[t.arg_key_ids@[k] as int]);
    }
    assert forall|q: int| 0 <= q < arg_count(ev.args) implies #[trigger] key_listed(d2, t.arg_key_ids@, arg_key_at(ev.args, q)) by {
        assert(key_listed(d1, t.arg_key_ids@, arg_key_at(ev.args, q)));
        let k = choose|k: int| 0 <= k < t.arg_key_ids@.len() && d1[t.arg_key_ids@[k] as int] == arg_key_at(ev.args, q);
        assert(t.arg_key_ids@[k] < d1.len());
        assert(d2[t.arg_key_ids@[k] as int] == d1[t.arg_key_ids@[k] as int]);
        assert(0 <= k < t.arg_key_ids@.len() && d2[t.arg_key_ids@[k] as int] == arg_key_at(ev.args, q));
    }
    match ev.cat {
        Some(c) => {
            assert(d2[t.cat_id_plus1 - 1] == d1[t.cat_id_plus1 - 1]);
        },
        None => {},
    }
    assert forall|k: int| 0 <= k < row.len() implies #[trigger] row[k] == event_arg(ev.args, d2[t.arg_key_ids@[k] as int]) by {
        assert(d2[t.arg_key_ids@[k] as int] == d1[t.arg_key_ids@[k] as int]);
    }
}

/// An optional string's code persists when the dictionary grows.
pub proof fn lemma_opt_persists(d1: Seq<Seq<char>>, d2: Seq<Seq<char>>, code: u32, s: Option<String>)
    requires
        extends(d2, d1),
        encodes_opt(d1, code, s),
    ensures
        encodes_opt(d2, code, s),
{
    if s is Some {
        assert(d2.take(d1.len() as int)[code - 1] == d2[code - 1]);
    }
}

/// The number of arguments of an event.
pub open spec fn arg_count(args: Option<Vec<(String, ArgValue)>>) -> nat {
    match args {
        Some(a) => a@.len(),
        None => 0,
    }
}

/// What `encode_event` returns for one event: its type, the id of its
/// name, the codes of `bp` and `s`, and its argument values in the type's
/// key order.
pub struct EncodedEvent {
    pub type_id: u32,
    pub name_id: u32,
    pub bp_code: u32,
    pub s_code: u32,
    pub row: Vec<ArgValue>,
}

/// The encoded event describes `ev` (normalized name `norm`) against the
/// dictionary and type table.
pub open spec fn encodes_event(dict: Seq<Seq<char>>, types: Seq<TypeEntry>, e: EncodedEvent, ev: Event, norm: Seq<char>) -> bool {
    &&& (e.type_id as int) < types.len()
    &&& type_describes(dict, types[e.type_id as int], ev, norm)
    &&& row_matches(dict, types[e.type_id as int], ev, e.row@)
    &&& (e.name_id as int) < dict.len()
    &&& dict[e.name_id as int] == ev.name@
    &&& encodes_opt(dict, e.bp_code, ev.bp)
    &&& encodes_opt(dict, e.s_code, ev.s)
}

impl StEncoder {
    /// Interns one event: its normalized name, category and argument keys
    /// (in the event's order) form its type; then its name, `bp` and `s`
    /// are interned.
    pub fn encode_event(&mut self, ev: &Event, normalized: &str) -> (e: EncodedEvent)
        requires
            old(self).wf(),
            old(self).dict@.len() + arg_count(ev.args) + 8 < u32::MAX,
            old(self).types@.len() < u32::MAX,
        ensures
            final(self).wf(),
            extends(final(self).dict@, old(self).dict@),
            final(self).dict@.len() <= old(self).dict@.len() + arg_count(ev.args) + 5,
            extends(final(self).types@, old(self).types@),
            final(self).types@.len() <= old(self).types@.len() + 1,
            encodes_event(final(self).dict@, final(self).types@, e, *ev, normalized@),
    {
        let ghost d0 = self.dict@;
        let ghost t0 = self.types@;
        let name_id = self.intern_str(normalized);
        let ghost d1 = self.dict@;
        let cat_id_plus1 = self.intern_opt(&ev.cat);
        let ghost d2 = self.dict@;
        proof {
            assert(d2.take(d2.len() as int) =~= d2);
        }
        let mut raw_ids: Vec<u32> = Vec::new();
        match &ev.args {
            Some(a) => {
                let mut q: usize = 0;
                while q < a.len()
                    invariant
                        self.wf(),
                        self.types == old(self).types,
                        ev.args == Some(*a),
                        q <= a@.len(),
                        extends(self.dict@, d2),
                        self.dict@.len() <= d2.len() + q,
                        d2.len() <= d0.len() + 2,
                        d0.len() + a@.len() + 8 < u32::MAX,
                        raw_ids@.len() == q,
                        forall|t: int| 0 <= t < q ==> (#[trigger] raw_ids@[t] as int) < self.dict@.len() && self.dict@[raw_ids@[t] as int] == a@[t].0@,
                    decreases a@.len() - q,
                {
                    let ghost dq = self.dict@;
                    assert(forall|t: int| 0 <= t < q ==> (#[trigger] raw_ids@[t] as int) < dq.len() && dq[raw_ids@[t] as int] == a@[t].0@);
                    let id = self.intern_str(a[q].0.as_str());
                    proof {
                        assert forall|t: int| 0 <= t < q implies (#[trigger] raw_ids@[t] as int) < self.dict@.len() && self.dict@[raw_ids@[t] as int] == a@[t].0@ by {
                            let x = raw_ids@[t] as int;
                            assert(x < dq.len());
                            assert(self.dict@.take(dq.len() as int)[x] == self.dict@[x]);
                            assert(dq[x] == a@[t].0@);
                        }
                        assert(self.dict@.take(d2.len() as int) =~= dq.take(d2.len() as int));
                    }
                    raw_ids.push(id);
                    q += 1;
                }
            },
            None => {},
        }
        let ghost d3 = self.dict@;
        let arg_key_ids = sort_ids(raw_ids);
        proof {
            assert forall|k: int| 0 <= k < arg_key_ids@.len() implies (#[trigger] arg_key_ids@[k] as int) < d3.len()
                && has_arg_key(ev.args, d3[arg_key_ids@[k] as int]) by {
                let x = arg_key_ids@[k];
                assert(arg_key_ids@.contains(x));
                assert(arg_key_ids@.to_multiset().count(x) > 0);
                assert(raw_ids@.contains(x));
                let t = choose|t: int| 0 <= t < raw_ids@.len() && raw_ids@[t] == x;
                match ev.args {
                    Some(a) => {
                        assert(a@[t].0@ == d3[x as int]);
                    },
                    None => {},
                }
            }
            assert forall|q: int| 0 <= q < arg_count(ev.args) implies #[trigger] key_listed(d3, arg_key_ids@, arg_key_at(ev.args, q)) by {
                let x = raw_ids@[q];
                assert(raw_ids@.contains(x));
                assert(raw_ids@.to_multiset().count(x) > 0);
                assert(arg_key_ids@.contains(x));
                let k = choose|k: int| 0 <= k < arg_key_ids@.len() && arg_key_ids@[k] == x;
                match ev.args {
                    Some(a) => {
                        assert(a@[q].0@ == d3[x as int]);
                    },
                    None => {},
                }
                assert(0 <= k < arg_key_ids@.len() && d3[arg_key_ids@[k] as int] == arg_key_at(ev.args, q));
            }
        }
        let mut arg_keys: Vec<String> = Vec::new();
        let mut k: usize = 0;
        while k < arg_key_ids.len()
            invariant
                self.dict@ == d3,
                k <= arg_key_ids@.len(),
                arg_keys@.len() == k,
                forall|j: int| 0 <= j < arg_key_ids@.len() ==> (#[trigger] arg_key_ids@[j] as int) < d3.len(),
                forall|j: int| 0 <= j < k ==> #[trigger] arg_keys@[j]@ == d3[arg_key_ids@[j] as int],
            decreases arg_key_ids@.len() - k,
        {
            let key = self.dict.get(arg_key_ids[k]).clone();
            arg_keys.push(key);
            k += 1;
        }
        let mut key: Vec<u32> = Vec::new();
        key.push(name_id);
        key.push(cat_id_plus1);
        let mut j: usize = 0;
        while j < arg_key_ids.len()
            invariant
                j <= arg_key_ids@.len(),
                key@ == seq![name_id, cat_id_plus1] + arg_key_ids@.take(j as int),
            decreases arg_key_ids@.len() - j,
        {
            key.push(arg_key_ids[j]);
            j += 1;
            assert(key@ =~= seq![name_id, cat_id_plus1] + arg_key_ids@.take(j as int));
        }
        proof {
            assert(arg_key_ids@.take(arg_key_ids@.len() as int) =~= arg_key_ids@);
        }
        let ghost ty = TypeEntry { name_id, cat_id_plus1, arg_key_ids };
        let ghost keys0 = self.type_keys@;
        let n_types = self.type_keys.len();
        let type_id = self.type_keys.intern(&key);
        let entry_ids = arg_key_ids;
        if type_id as usize == n_types {
            self.types.push(TypeEntry { name_id, cat_id_plus1, arg_key_ids: entry_ids });
            proof {
                assert(self.types@.take(t0.len() as int) =~= t0);
            }
        } else {
            proof {
                assert(keys0.contains(key@)) by {
                    if !keys0.contains(key@) {
                        assert(self.type_keys@ == keys0.push(key@));
                    }
                }
                assert(self.type_keys@ == keys0);
                assert(self.types@.take(t0.len() as int) =~= t0);
                let t = self.types@[type_id as int];
                assert(type_key(t.name_id, t.cat_id_plus1, t.arg_key_ids@) == key@);
                assert(t.name_id == key@[0]);
                assert(t.cat_id_plus1 == key@[1]);
                assert(t.arg_key_ids@ =~= key@.skip(2));
                assert(arg_key_ids@ =~= key@.skip(2));
            }
        }
        let ghost d4 = self.dict@;
        proof {
            let t = self.types@[type_id as int];
            assert(t.name_id == name_id && t.cat_id_plus1 == cat_id_plus1 && t.arg_key_ids@ == arg_key_ids@);
            assert(d1[name_id as int] == normalized@);
            assert(d3.take(d1.len() as int) =~= d1) by {
                assert(d3.take(d2.len() as int) == d2);
                assert(d2.take(d1.len() as int) == d1);
                assert(d3.take(d1.len() as int) =~= d3.take(d2.len() as int).take(d1.len() as int));
            }
            assert(d3[name_id as int] == d3.take(d1.len() as int)[name_id as int]);
            assert(extends(d3, d2)) by {
            }
            lemma_opt_persists(d2, d3, cat_id_plus1, ev.cat);
            assert(raw_ids@.len() == arg_count(ev.args));
            assert(arg_key_ids@.len() == raw_ids@.to_multiset().len());
            assert(type_describes(d3, t, *ev, normalized@));
        }
        let payload_name_id = self.intern_str(ev.name.as_str());
        let bp_code = self.intern_opt(&ev.bp);
        let s_code = self.intern_opt(&ev.s);
        let mut row: Vec<ArgValue> = Vec::new();
        let mut r: usize = 0;
        while r < arg_keys.len()
            invariant
                r <= arg_keys@.len(),
                arg_keys@.len() == arg_key_ids@.len(),
                forall|j: int| 0 <= j < arg_keys@.len() ==> #[trigger] arg_keys@[j]@ == d3[arg_key_ids@[j] as int],
                row@.len() == r,
                forall|j: int| 0 <= j < r ==> #[trigger] row@[j] == event_arg(ev.args, d3[arg_key_ids@[j] as int]),
            decreases arg_keys@.len() - r,
        {
            let v = lookup_arg(&ev.args, &arg_keys[r]);
            row.push(v);
            r += 1;
        }
        let e = EncodedEvent { type_id, name_id: payload_name_id, bp_code, s_code, row };
        proof {
            let d = self.dict@;
            let t = self.types@[type_id as int];
            assert(row_matches(d3, t, *ev, row@));
            assert(extends(d, d3)) by {
                assert(d.take(d3.len() as int) =~= d3) by {
                    assert(d.take(d4.len() as int).take(d3.len() as int) =~= d.take(d3.len() as int));
                }
            }
            lemma_event_facts_persist(d3, d, t, *ev, normalized@, row@);
            assert(extends(d, d0)) by {
                assert(d.take(d0.len() as int) =~= d.take(d3.len() as int).take(d0.len() as int));
                assert(d3.take(d0.len() as int) =~= d3.take(d2.len() as int).take(d0.len() as int));
                assert(d2.take(d0.len() as int) =~= d2.take(d1.len() as int).take(d0.len() as int));
            }
        }
        e
    }
}

/// One `(rank, pid, tid, ph)` stream of a trace, with the normalized name
/// of each of its events.
#[derive(Clone, Debug)]
pub struct StreamCell {
    pub rank: String,
    pub pid: i64,
    pub tid: String,
    pub ph: Phase,
    pub events: Vec<Event>,
    pub normalized: Vec<String>,
}

/// The encoded columns of one stream.
#[derive(Clone, Debug)]
pub struct StreamPayload {
    pub rank_id: u32,
    pub pid: i64,
    pub tid_id: u32,
    pub ph: u8,
    /// Indices into the descriptor pool; expanded, the stream's type ids.
    pub rsd_ids: Vec<u32>,
    pub payload_name_ids: Vec<u32>,
    pub ts: Vec<i64>,
    pub dur_present: Vec<bool>,
    pub dur: Vec<i64>,
    pub id_present: Vec<bool>,
    pub ids: Vec<i64>,
    pub bp_dict_id_plus1: Vec<u32>,
    pub s_dict_id_plus1: Vec<u32>,
    pub args: Vec<Vec<ArgValue>>,
}

/// A whole encoded trace.
#[derive(Clone, Debug)]
pub struct ScalaTracePayload {
    pub dict: Vec<String>,
    pub types: Vec<TypeEntry>,
    pub rsds: Vec<Rsd>,
    pub streams: Vec<StreamPayload>,
}

/// The value of an optional integer, 0 when absent.
pub open spec fn or_zero(v: Option<i64>) -> i64 {
    match v {
        Some(x) => x,
        None => 0,
    }
}

/// Event `i` of a cell is encoded at position `i` of a stream's columns,
/// with type id `type_id`.
pub open spec fn event_encoded_at(
    dict: Seq<Seq<char>>,
    types: Seq<TypeEntry>,
    cell: StreamCell,
    st: StreamPayload,
    type_id: u32,
    i: int,
) -> bool {
    let ev = cell.events@[i];
    &&& (type_id as int) < types.len()
    &&& type_describes(dict, types[type_id as int], ev, cell.normalized@[i]@)
    &&& row_matches(dict, types[type_id as int], ev, st.args@[i]@)
    &&& (st.payload_name_ids@[i] as int) < dict.len()
    &&& dict[st.payload_name_ids@[i] as int] == ev.name@
    &&& st.ts@[i] == ev.ts
    &&& st.dur_present@[i] == (ev.dur is Some)
    &&& st.dur@[i] == or_zero(ev.dur)
    &&& st.id_present@[i] == (ev.id is Some)
    &&& st.ids@[i] == or_zero(ev.id)
    &&& encodes_opt(dict, st.bp_dict_id_plus1@[i], ev.bp)
    &&& encodes_opt(dict, st.s_dict_id_plus1@[i], ev.s)
}

/// A stream's columns encode a cell, given the stream's type ids.
pub open spec fn cell_encoded(dict: Seq<Seq<char>>, types: Seq<TypeEntry>, cell: StreamCell, st: StreamPayload, tseq: Seq<u32>) -> bool {
    let n = cell.events@.len();
    &&& (st.rank_id as int) < dict.len()
    &&& dict[st.rank_id as int] == cell.rank@
    &&& (st.tid_id as int) < dict.len()
    &&& dict[st.tid_id as int] == cell.tid@
    &&& st.pid == cell.pid
    &&& st.ph == cell.ph.0
    &&& tseq.len() == n
    &&& st.payload_name_ids@.len() == n
    &&& st.ts@.len() == n
    &&& st.dur_present@.len() == n
    &&& st.dur@.len() == n
    &&& st.id_present@.len() == n
    &&& st.ids@.len() == n
    &&& st.bp_dict_id_plus1@.len() == n
    &&& st.s_dict_id_plus1@.len() == n
    &&& st.args@.len() == n
    &&& forall|i: int| 0 <= i < n ==> #[trigger] event_encoded_at(dict, types, cell, st, tseq[i], i)
}

/// The strings that a list of events may add to the dictionary, at most.
pub open spec fn events_budget(evs: Seq<Event>) -> int
    decreases evs.len(),
{
    if evs.len() == 0 {
        0
    } else {
        events_budget(evs.drop_last()) + arg_count(evs.last().args) + 5
    }
}

/// The strings that a list of cells may add to the dictionary, at most.
pub open spec fn cells_budget(cells: Seq<StreamCell>) -> int
    decreases cells.len(),
{
    if cells.len() == 0 {
        0
    } else {
        cells_budget(cells.drop_last()) + 2 + events_budget(cells.last().events@)
    }
}

/// The cells that hold events, in order.
pub open spec fn nonempty_cells(cells: Seq<StreamCell>) -> Seq<StreamCell>
    decreases cells.len(),
{
    if cells.len() == 0 {
        Seq::empty()
    } else if cells.last().events@.len() > 0 {
        nonempty_cells(cells.drop_last()).push(cells.last())
    } else {
        nonempty_cells(cells.drop_last())
    }
}

proof fn lemma_events_budget_bounds(evs: Seq<Event>, k: int)
    requires
        0 <= k <= evs.len(),
    ensures
        events_budget(evs.take(k)) <= events_budget(evs),
        events_budget(evs) >= evs.len(),
        k < evs.len() ==> events_budget(evs.take(k + 1)) == events_budget(evs.take(k)) + arg_count(evs[k].args) + 5,
    decreases evs.len(),
{
    if k < evs.len() {
        assert(evs.take(k + 1).drop_last() =~= evs.take(k));
    }
    if evs.len() > 0 {
        if k == evs.len() {
            assert(evs.take(k) =~= evs);
            lemma_events_budget_bounds(evs.drop_last(), k - 1);
        } else {
            assert(evs.drop_last().take(k) =~= evs.take(k));
            lemma_events_budget_bounds(evs.drop_last(), k);
        }
    }
}

/// A stream's facts persist when the dictionary and the type table grow.
proof fn lemma_cell_persists(
    d1: Seq<Seq<char>>,
    d2: Seq<Seq<char>>,
    t1: Seq<TypeEntry>,
    t2: Seq<TypeEntry>,
    cell: StreamCell,
    st: StreamPayload,
    tseq: Seq<u32>,
)
    requires
        extends(d2, d1),
        extends(t2, t1),
        cell_encoded(d1, t1, cell, st, tseq),
    ensures
        cell_encoded(d2, t2, cell, st, tseq),
{
    assert(d2[st.rank_id as int] == d2.take(d1.len() as int)[st.rank_id as int]);
    assert(d2[st.tid_id as int] == d2.take(d1.len() as int)[st.tid_id as int]);
    assert forall|i: int| 0 <= i < cell.events@.len() implies #[trigger] event_encoded_at(d2, t2, cell, st, tseq[i], i) by {
        assert(event_encoded_at(d1, t1, cell, st, tseq[i], i));
        let ev = cell.events@[i];
        assert(t2[tseq[i] as int] == t2.take(t1.len() as int)[tseq[i] as int]);
        lemma_event_facts_persist(d1, d2, t1[tseq[i] as int], ev, cell.normalized@[i]@, st.args@[i]@);
        lemma_opt_persists(d1, d2, st.bp_dict_id_plus1@[i], ev.bp);
        lemma_opt_persists(d1, d2, st.s_dict_id_plus1@[i], ev.s);
        assert(d2[st.payload_name_ids@[i] as int] == d2.take(d1.len() as int)[st.payload_name_ids@[i] as int]);
    }
}

impl StEncoder {
    /// Interns a cell's rank and thread id, then encodes each of its events;
    /// returns the stream's columns (no descriptors yet) and its type ids.
    pub fn encode_cell(&mut self, cell: &StreamCell) -> (r: (StreamPayload, Vec<u32>))
        requires
            old(self).wf(),
            cell.normalized@.len() == cell.events@.len(),
            old(self).dict@.len() + 2 + events_budget(cell.events@) + 8 < u32::MAX,
            old(self).types@.len() + cell.events@.len() < u32::MAX,
        ensures
            final(self).wf(),
            extends(final(self).dict@, old(self).dict@),
            final(self).dict@.len() <= old(self).dict@.len() + 2 + events_budget(cell.events@),
            extends(final(self).types@, old(self).types@),
            final(self).types@.len() <= old(self).types@.len() + cell.events@.len(),
            r.0.rsd_ids@.len() == 0,
            cell_encoded(final(self).dict@, final(self).types@, *cell, r.0, r.1@),
    {
        let ghost d0 = self.dict@;
        let ghost t0 = self.types@;
        proof {
            lemma_events_budget_bounds(cell.events@, 0);
        }
        let rank_id = self.intern_str(cell.rank.as_str());
        let ghost da = self.dict@;
        let tid_id = self.intern_str(cell.tid.as_str());
        let ghost d1 = self.dict@;
        proof {
            assert(d1[rank_id as int] == d1.take(da.len() as int)[rank_id as int]);
            assert(d1.take(d0.len() as int) =~= d1.take(da.len() as int).take(d0.len() as int));
        }
        let n = cell.events.len();
        let mut st = StreamPayload {
            rank_id,
            pid: cell.pid,
            tid_id,
            ph: cell.ph.0,
            rsd_ids: Vec::new(),
            payload_name_ids: Vec::new(),
            ts: Vec::new(),
            dur_present: Vec::new(),
            dur: Vec::new(),
            id_present: Vec::new(),
            ids: Vec::new(),
            bp_dict_id_plus1: Vec::new(),
            s_dict_id_plus1: Vec::new(),
            args: Vec::new(),
        };
        let mut seq: Vec<u32> = Vec::new();
        let mut i: usize = 0;
        proof {
            lemma_events_budget_bounds(cell.events@, 0);
            assert(cell.events@.take(0) =~= Seq::<Event>::empty());
            assert(t0.take(t0.len() as int) =~= t0);
        }
        while i < n
            invariant
                self.wf(),
                n == cell.events@.len(),
                cell.normalized@.len() == n,
                i <= n,
                extends(self.dict@, d0),
                extends(self.types@, t0),
                self.dict@.len() <= d0.len() + 2 + events_budget(cell.events@.take(i as int)),
                self.types@.len() <= t0.len() + i,
                d0.len() + 2 + events_budget(cell.events@) + 8 < u32::MAX,
                t0.len() + n < u32::MAX,
                st.rsd_ids@.len() == 0,
                (st.rank_id as int) < self.dict@.len() && self.dict@[st.rank_id as int] == cell.rank@,
                (st.tid_id as int) < self.dict@.len() && self.dict@[st.tid_id as int] == cell.tid@,
                st.pid == cell.pid,
                st.ph == cell.ph.0,
                seq@.len() == i,
                st.payload_name_ids@.len() == i,
                st.ts@.len() == i,
                st.dur_present@.len() == i,
                st.dur@.len() == i,
                st.id_present@.len() == i,
                st.ids@.len() == i,
                st.bp_dict_id_plus1@.len() == i,
                st.s_dict_id_plus1@.len() == i,
                st.args@.len() == i,
                forall|t: int| 0 <= t < i ==> #[trigger] event_encoded_at(self.dict@, self.types@, *cell, st, seq@[t], t),
            decreases n - i,
        {
            let ghost dp = self.dict@;
            let ghost tp = self.types@;
            let ghost stp = st;
            let ghost seqp = seq@;
            proof {
                lemma_events_budget_bounds(cell.events@, i as int);
                lemma_events_budget_bounds(cell.events@, i + 1);
            }
            let ev = &cell.events[i];
            let e = self.encode_event(ev, cell.normalized[i].as_str());
            seq.push(e.type_id);
            st.payload_name_ids.push(e.name_id);
            st.ts.push(ev.ts);
            match ev.dur {
                Some(d) => {
                    st.dur_present.push(true);
                    st.dur.push(d);
                },
                None => {
                    st.dur_present.push(false);
                    st.dur.push(0);
                },
            }
            match ev.id {
                Some(x) => {
                    st.id_present.push(true);
                    st.ids.push(x);
                },
                None => {
                    st.id_present.push(false);
                    st.ids.push(0);
                },
            }
            st.bp_dict_id_plus1.push(e.bp_code);
            st.s_dict_id_plus1.push(e.s_code);
            st.args.push(e.row);
            proof {
                let d = self.dict@;
                let tt = self.types@;
                assert(d[st.rank_id as int] == d.take(dp.len() as int)[st.rank_id as int]);
                assert(d[st.tid_id as int] == d.take(dp.len() as int)[st.tid_id as int]);
                assert(d.take(d0.len() as int) =~= d.take(dp.len() as int).take(d0.len() as int));
                assert(tt.take(t0.len() as int) =~= tt.take(tp.len() as int).take(t0.len() as int));
                assert forall|t: int| 0 <= t < i + 1 implies #[trigger] event_encoded_at(d, tt, *cell, st, seq@[t], t) by {
                    if t < i {
                        assert(event_encoded_at(dp, tp, *cell, stp, seqp[t], t));
                        let evt = cell.events@[t];
                        assert(tt[seqp[t] as int] == tt.take(tp.len() as int)[seqp[t] as int]);
                        lemma_event_facts_persist(dp, d, tp[seqp[t] as int], evt, cell.normalized@[t]@, stp.args@[t]@);
                        lemma_opt_persists(dp, d, stp.bp_dict_id_plus1@[t], evt.bp);
                        lemma_opt_persists(dp, d, stp.s_dict_id_plus1@[t], evt.s);
                        assert(d[stp.payload_name_ids@[t] as int] == d.take(dp.len() as int)[stp.payload_name_ids@[t] as int]);
                        assert(st.args@[t] == stp.args@[t]);
                        assert(seq@[t] == seqp[t]);
                    } else {
                        assert(seq@[t] == e.type_id);
                    }
                }
            }
            i += 1;
        }
        proof {
            assert(cell.events@.take(n as int) =~= cell.events@);
        }
        (st, seq)
    }
}

proof fn lemma_cells_budget_bounds(cells: Seq<StreamCell>, k: int)
    requires
        0 <= k <= cells.len(),
    ensures
        cells_budget(cells.take(k)) <= cells_budget(cells),
        cells_budget(cells.take(k)) >= 0,
        k < cells.len() ==> cells_budget(cells.take(k + 1)) == cells_budget(cells.take(k)) + 2 + events_budget(
            cells[k].events@,
        ),
    decreases cells.len(),
{
    if k < cells.len() {
        assert(cells.take(k + 1).drop_last() =~= cells.take(k));
    }
    if cells.len() > 0 {
        lemma_events_budget_bounds(cells.last().events@, 0);
        if k == cells.len() {
            assert(cells.take(k) =~= cells);
            lemma_cells_budget_bounds(cells.drop_last(), k - 1);
            assert(cells.drop_last().take(k - 1) =~= cells.drop_last());
        } else {
            assert(cells.drop_last().take(k) =~= cells.take(k));
            lemma_cells_budget_bounds(cells.drop_last(), k);
        }
    } else {
        assert(cells.take(k) =~= cells);
    }
}

/// The views of a list of strings.
pub open spec fn dict_view(v: Seq<String>) -> Seq<Seq<char>> {
    v.map(|_i: int, s: String| s@)
}

/// The payload encodes the trace's cells: one stream per cell with events,
/// in order, each listing pool descriptors that expand to its type ids.
pub open spec fn payload_encodes(p: ScalaTracePayload, cells: Seq<StreamCell>) -> bool {
    let kept = nonempty_cells(cells);
    &&& p.streams@.len() == kept.len()
    &&& forall|j: int|
        0 <= j < kept.len() ==> all_known(p.rsds@, (#[trigger] p.streams@[j]).rsd_ids@) && cell_encoded(
            dict_view(p.dict@),
            p.types@,
            kept[j],
            p.streams@[j],
            expand_all(picked(p.rsds@, p.streams@[j].rsd_ids@)),
        )
}

/// Encodes a trace, given as its `(rank, pid, tid, ph)` cells in order:
/// every string through one dictionary, every event type through one
/// table, and each stream's type ids as greedy descriptors through one
/// pool.
pub fn build_payload(cells: &Vec<StreamCell>) -> (p: ScalaTracePayload)
    requires
        forall|c: int| 0 <= c < cells@.len() ==> (#[trigger] cells@[c]).normalized@.len() == cells@[c].events@.len(),
        cells_budget(cells@) + 8 < u32::MAX,
    ensures
        payload_encodes(p, cells@),
        forall|j: int|
            0 <= j < p.streams@.len() ==> greedy_encoding(
                expand_all(picked(p.rsds@, (#[trigger] p.streams@[j]).rsd_ids@)),
                picked(p.rsds@, p.streams@[j].rsd_ids@),
            ),
        dict_view(p.dict@).no_duplicates(),
        p.rsds@.map(|_i: int, r: Rsd| rsd_view(r)).no_duplicates(),
        types_distinct(p.types@),
{
    let mut enc = StEncoder::new();
    let mut prelim: Vec<StreamPayload> = Vec::new();
    let mut seqs: Vec<Vec<u32>> = Vec::new();
    let mut c: usize = 0;
    proof {
        assert(cells@.take(0) =~= Seq::<StreamCell>::empty());
    }
    while c < cells.len()
        invariant
            enc.wf(),
            c <= cells@.len(),
            forall|k: int| 0 <= k < cells@.len() ==> (#[trigger] cells@[k]).normalized@.len() == cells@[k].events@.len(),
            cells_budget(cells@) + 8 < u32::MAX,
            enc.dict@.len() <= cells_budget(cells@.take(c as int)),
            enc.types@.len() <= cells_budget(cells@.take(c as int)),
            prelim@.len() == nonempty_cells(cells@.take(c as int)).len(),
            seqs@.len() == prelim@.len(),
            forall|j: int|
                0 <= j < prelim@.len() ==> (#[trigger] prelim@[j]).rsd_ids@.len() == 0 && cell_encoded(
                    enc.dict@,
                    enc.types@,
                    nonempty_cells(cells@.take(c as int))[j],
                    prelim@[j],
                    seqs@[j]@,
                ),
        decreases cells@.len() - c,
    {
        let ghost d0 = enc.dict@;
        let ghost t0 = enc.types@;
        let ghost kept0 = nonempty_cells(cells@.take(c as int));
        proof {
            lemma_cells_budget_bounds(cells@, c as int);
            lemma_cells_budget_bounds(cells@, c + 1);
            lemma_events_budget_bounds(cells@[c as int].events@, 0);
            assert(cells@.take(c + 1).drop_last() =~= cells@.take(c as int));
            assert(cells@.take(c + 1).last() == cells@[c as int]);
        }
        let (st, seq) = enc.encode_cell(&cells[c]);
        let ghost prelim0 = prelim@;
        let ghost seqs0 = seqs@;
        if cells[c].events.len() > 0 {
            prelim.push(st);
            seqs.push(seq);
        }
        proof {
            let kept1 = nonempty_cells(cells@.take(c + 1));
            assert forall|j: int| 0 <= j < prelim@.len() implies (#[trigger] prelim@[j]).rsd_ids@.len() == 0 && cell_encoded(
                enc.dict@,
                enc.types@,
                kept1[j],
                prelim@[j],
                seqs@[j]@,
            ) by {
                if j < prelim0.len() {
                    assert(prelim@[j] == prelim0[j]);
                    assert(seqs@[j] == seqs0[j]);
                    assert(kept1[j] == kept0[j]);
                    lemma_cell_persists(d0, enc.dict@, t0, enc.types@, kept0[j], prelim0[j], seqs0[j]@);
                }
            }
        }
        c += 1;
    }
    proof {
        assert(cells@.take(cells@.len() as int) =~= cells@);
    }
    let kept_len = prelim.len();
    let mut pool = RsdPool::new();
    let mut streams: Vec<StreamPayload> = Vec::new();
    let ghost mut locals: Seq<Seq<Rsd>> = Seq::empty();
    let ghost kept = nonempty_cells(cells@);
    let ghost dict_final = enc.dict@;
    let ghost types_final = enc.types@;
    let mut j: usize = 0;
    let mut prelim = prelim;
    let mut seqs = seqs;
    proof {
        lemma_kept_events_bound(cells@);
        assert forall|k: int| 0 <= k < kept_len implies (#[trigger] seqs@[k])@.len() == kept[k].events@.len() by {
            assert(cell_encoded(dict_final, types_final, kept[k], prelim@[k], seqs@[k]@));
        }
    }
    while j < kept_len
        invariant
            kept_len == prelim@.len(),
            seqs@.len() == kept_len,
            kept.len() == kept_len,
            kept == nonempty_cells(cells@),
            dict_final == enc.dict@,
            types_final == enc.types@,
            enc.wf(),
            j <= kept_len,
            pool.wf(),
            streams@.len() == j,
            locals.len() == j,
            pool@.len() <= kept_events(kept.take(j as int)),
            kept_events(kept) < u32::MAX,
            forall|k: int| 0 <= k < kept_len ==> (#[trigger] seqs@[k])@.len() == kept[k].events@.len(),
            forall|k: int|
                j <= k < kept_len ==> (#[trigger] prelim@[k]).rsd_ids@.len() == 0 && cell_encoded(
                    dict_final,
                    types_final,
                    kept[k],
                    prelim@[k],
                    seqs@[k]@,
                ),
            forall|k: int| 0 <= k < j ==> greedy_encoding(#[trigger] seqs@[k]@, locals[k]),
            forall|k: int| 0 <= k < j ==> (#[trigger] streams@[k]).rsd_ids@.len() == locals[k].len(),
            forall|k: int, t: int|
                0 <= k < j && 0 <= t < locals[k].len() ==> (#[trigger] streams@[k].rsd_ids@[t] as int) < pool@.len()
                    && pool@[streams@[k].rsd_ids@[t] as int] == rsd_view(locals[k][t]),
            forall|k: int| 0 <= k < j ==> cell_encoded(dict_final, types_final, kept[k], #[trigger] streams@[k], seqs@[k]@),
        decreases kept_len - j,
    {
        proof {
            lemma_kept_events_take(kept, j as int);
        }
        let local = encode_rsd(&seqs[j]);
        let ghost pool0 = pool@;
        let ghost streams0 = streams@;
        let ids = pool_rsds(&mut pool, &local);
        let ghost prelim0 = prelim@;
        proof {
            assert(cell_encoded(dict_final, types_final, kept[j as int], prelim@[j as int], seqs@[j as int]@));
        }
        let mut st = empty_stream();
        std::mem::swap(&mut st, &mut prelim[j]);
        assert(st == prelim0[j as int]);
        st.rsd_ids = ids;
        streams.push(st);
        proof {
            locals = locals.push(local@);
            assert forall|k: int| 0 <= k < j + 1 implies greedy_encoding(#[trigger] seqs@[k]@, locals[k]) by {
            }
            assert forall|k: int| 0 <= k < j + 1 implies (#[trigger] streams@[k]).rsd_ids@.len() == locals[k].len() by {
                if k < j {
                    assert(streams@[k] == streams0[k]);
                }
            }
            assert forall|k: int, t: int|
                0 <= k < j + 1 && 0 <= t < locals[k].len() implies (#[trigger] streams@[k].rsd_ids@[t] as int) < pool@.len()
                    && pool@[streams@[k].rsd_ids@[t] as int] == rsd_view(locals[k][t]) by {
                if k < j {
                    assert(streams@[k] == streams0[k]);
                    let x = streams@[k].rsd_ids@[t] as int;
                    assert(x < pool0.len());
                    assert(pool@.take(pool0.len() as int)[x] == pool@[x]);
                }
            }
            assert forall|k: int| 0 <= k < j + 1 implies cell_encoded(dict_final, types_final, kept[k], #[trigger] streams@[k], seqs@[k]@) by {
                if k < j {
                    assert(streams@[k] == streams0[k]);
                } else {
                    assert(streams@[k] == st);
                    assert(cell_encoded(dict_final, types_final, kept[k], prelim0[k], seqs@[k]@));
                    assert forall|i: int| 0 <= i < kept[k].events@.len() implies #[trigger] event_encoded_at(dict_final, types_final, kept[k], st, seqs@[k]@[i], i) by {
                        assert(event_encoded_at(dict_final, types_final, kept[k], prelim0[k], seqs@[k]@[i], i));
                    }
                }
            }
        }
        j += 1;
    }
    proof {
        pool.lemma_distinct();
        enc.lemma_distinct();
    }
    let rsds = pool.into_rsds();
    let dict = enc.dict.into_strings();
    let types = enc.types;
    let p = ScalaTracePayload { dict, types, rsds, streams };
    proof {
        assert(dict_view(p.dict@) == dict_final);
        assert forall|k: int| 0 <= k < kept.len() implies all_known(p.rsds@, (#[trigger] p.streams@[k]).rsd_ids@)
            && cell_encoded(
            dict_view(p.dict@),
            p.types@,
            kept[k],
            p.streams@[k],
            expand_all(picked(p.rsds@, p.streams@[k].rsd_ids@)),
        ) by {
            let ids = p.streams@[k].rsd_ids@;
            assert forall|t: int| 0 <= t < ids.len() implies (#[trigger] ids[t] as int) < p.rsds@.len() && rsd_view(
                p.rsds@[ids[t] as int],
            ) == rsd_view(locals[k][t]) by {
                assert(ids[t] == streams@[k].rsd_ids@[t]);
                assert(p.rsds@.map(|_i: int, r: Rsd| rsd_view(r))[ids[t] as int] == rsd_view(p.rsds@[ids[t] as int]));
            }
            lemma_pooled_encoding_round_trip(seqs@[k]@, locals[k], p.rsds@, ids);
        }
        assert forall|k: int| 0 <= k < p.streams@.len() implies greedy_encoding(
            expand_all(picked(p.rsds@, (#[trigger] p.streams@[k]).rsd_ids@)),
            picked(p.rsds@, p.streams@[k].rsd_ids@),
        ) by {
            let ids = p.streams@[k].rsd_ids@;
            assert forall|t: int| 0 <= t < ids.len() implies (#[trigger] ids[t] as int) < p.rsds@.len() && rsd_view(
                p.rsds@[ids[t] as int],
            ) == rsd_view(locals[k][t]) by {
                assert(ids[t] == streams@[k].rsd_ids@[t]);
                assert(p.rsds@.map(|_i: int, r: Rsd| rsd_view(r))[ids[t] as int] == rsd_view(p.rsds@[ids[t] as int]));
            }
            lemma_pooled_encoding_round_trip(seqs@[k]@, locals[k], p.rsds@, ids);
        }
    }
    p
}

/// A stream with no columns yet.
fn empty_stream() -> (st: StreamPayload)
    ensures
        st.rsd_ids@.len() == 0,
{
    StreamPayload {
        rank_id: 0,
        pid: 0,
        tid_id: 0,
        ph: 0,
        rsd_ids: Vec::new(),
        payload_name_ids: Vec::new(),
        ts: Vec::new(),
        dur_present: Vec::new(),
        dur: Vec::new(),
        id_present: Vec::new(),
        ids: Vec::new(),
        bp_dict_id_plus1: Vec::new(),
        s_dict_id_plus1: Vec::new(),
        args: Vec::new(),
    }
}

/// The number of events in a list of cells.
pub open spec fn kept_events(cells: Seq<StreamCell>) -> int
    decreases cells.len(),
{
    if cells.len() == 0 {
        0
    } else {
        kept_events(cells.drop_last()) + cells.last().events@.len()
    }
}

proof fn lemma_kept_events_take(cells: Seq<StreamCell>, j: int)
    requires
        0 <= j < cells.len(),
    ensures
        kept_events(cells.take(j + 1)) == kept_events(cells.take(j)) + cells[j].events@.len(),
        kept_events(cells.take(j + 1)) <= kept_events(cells),
    decreases cells.len(),
{
    assert(cells.take(j + 1).drop_last() =~= cells.take(j));
    if j + 1 == cells.len() {
        assert(cells.take(j + 1) =~= cells);
    } else {
        lemma_kept_events_take(cells.drop_last(), j);
        assert(cells.drop_last().take(j + 1) =~= cells.take(j + 1));
        assert(cells.drop_last().take(j) =~= cells.take(j));
        lemma_kept_events_le(cells.drop_last());
    }
}

proof fn lemma_kept_events_le(cells: Seq<StreamCell>)
    requires
        cells.len() > 0,
    ensures
        kept_events(cells.drop_last()) <= kept_events(cells),
{
}

/// The events of the kept cells fit in the budget.
proof fn lemma_kept_events_bound(cells: Seq<StreamCell>)
    ensures
        kept_events(nonempty_cells(cells)) <= cells_budget(cells),
    decreases cells.len(),
{
    if cells.len() > 0 {
        lemma_kept_events_bound(cells.drop_last());
        lemma_events_budget_bounds(cells.last().events@, 0);
        if cells.last().events@.len() > 0 {
            let k = nonempty_cells(cells.drop_last());
            assert(k.push(cells.last()).drop_last() =~= k);
        }
    }
}

/// Dictionary entry `id`, or the empty string when there is none.
pub open spec fn lookup(dict: Seq<Seq<char>>, id: u32) -> Seq<char> {
    if (id as int) < dict.len() {
        dict[id as int]
    } else {
        Seq::empty()
    }
}

/// The string that an optional-string code stands for: none for `0`, else
/// dictionary entry `code - 1` (none when there is no such entry).
pub open spec fn lookup_opt(dict: Seq<Seq<char>>, code: u32) -> Option<Seq<char>> {
    if code == 0 {
        None
    } else if ((code - 1) as int) < dict.len() {
        Some(dict[code - 1])
    } else {
        None
    }
}

/// Entry `i` of `s`, or `d` past its end.
pub open spec fn get_or<T>(s: Seq<T>, i: int, d: T) -> T {
    if 0 <= i < s.len() {
        s[i]
    } else {
        d
    }
}

/// The map that inserting `keys[k] -> vals[k]` in order (over the shorter
/// of the two) builds; a later key overrides an earlier one.
pub open spec fn zip_map(keys: Seq<Seq<char>>, vals: Seq<ArgValue>) -> Map<Seq<char>, ArgValue>
    decreases keys.len(),
{
    if keys.len() == 0 || vals.len() == 0 {
        Map::empty()
    } else if keys.len() <= vals.len() {
        zip_map(keys.drop_last(), vals).insert(keys.last(), vals[keys.len() - 1])
    } else {
        zip_map(keys.drop_last(), vals)
    }
}

/// The argument keys that a type names, against the dictionary.
pub open spec fn type_keys_of(dict: Seq<Seq<char>>, ty: Option<TypeEntry>) -> Seq<Seq<char>> {
    match ty {
        Some(t) => t.arg_key_ids@.map(|_k: int, id: u32| lookup(dict, id)),
        None => Seq::empty(),
    }
}

/// The type of event `i` of a stream whose type ids are `tseq`: type
/// `tseq[i]` (type 0 past the end of `tseq`), when the table has it.
pub open spec fn type_at(types: Seq<TypeEntry>, tseq: Seq<u32>, i: int) -> Option<TypeEntry> {
    let type_id = get_or(tseq, i, 0u32);
    if (type_id as int) < types.len() {
        Some(types[type_id as int])
    } else {
        None
    }
}

/// The arguments `a` hold exactly the map `m` (no key twice), and are
/// absent exactly when `m` is empty.
pub open spec fn args_hold(a: Option<Vec<(String, ArgValue)>>, m: Map<Seq<char>, ArgValue>) -> bool {
    match a {
        None => m.dom() == Set::<Seq<char>>::empty(),
        Some(v) => {
            &&& m.dom() != Set::<Seq<char>>::empty()
            &&& forall|key: Seq<char>| #[trigger] arg_value(v@, key) == (if m.dom().contains(key) {
                Some(m[key])
            } else {
                None::<ArgValue>
            })
        },
    }
}

/// `ev` is event `i` decoded from a stream with type ids `tseq`: every
/// field read back through the dictionary and type table, a missing column
/// entry reading as absent (or 0).
pub open spec fn event_decodes(
    dict: Seq<Seq<char>>,
    types: Seq<TypeEntry>,
    st: StreamPayload,
    tseq: Seq<u32>,
    i: int,
    ev: Event,
) -> bool {
    let ty = type_at(types, tseq, i);
    let row = if 0 <= i < st.args@.len() {
        st.args@[i]@
    } else {
        Seq::empty()
    };
    &&& ev.name@ == lookup(dict, st.payload_name_ids@[i])
    &&& ev.ts == get_or(st.ts@, i, 0i64)
    &&& ev.dur == (if get_or(st.dur_present@, i, false) {
        Some(get_or(st.dur@, i, 0i64))
    } else {
        None::<i64>
    })
    &&& ev.id == (if get_or(st.id_present@, i, false) {
        Some(get_or(st.ids@, i, 0i64))
    } else {
        None::<i64>
    })
    &&& opt_view(ev.cat) == match ty {
        Some(t) => if t.cat_id_plus1 == 0 {
            None
        } else {
            Some(lookup(dict, (t.cat_id_plus1 - 1) as u32))
        },
        None => None,
    }
    &&& ev.ph == Phase(st.ph)
    &&& ev.pid == st.pid
    &&& ev.tid@ == lookup(dict, st.tid_id)
    &&& opt_view(ev.bp) == lookup_opt(dict, get_or(st.bp_dict_id_plus1@, i, 0u32))
    &&& opt_view(ev.s) == lookup_opt(dict, get_or(st.s_dict_id_plus1@, i, 0u32))
    &&& args_hold(ev.args, zip_map(type_keys_of(dict, ty), row))
}

/// Dictionary entry `id`, or the empty string.
pub(crate) fn lookup_exec(dict: &Vec<String>, id: u32) -> (s: String)
    ensures
        s@ == lookup(dict_view(dict@), id),
{
    if (id as usize) < dict.len() {
        dict[id as usize].clone()
    } else {
        String::new()
    }
}

/// The string an optional-string code stands for.
pub(crate) fn lookup_opt_exec(dict: &Vec<String>, code: u32) -> (s: Option<String>)
    ensures
        opt_view(s) == lookup_opt(dict_view(dict@), code),
{
    if code == 0 {
        None
    } else if ((code - 1) as usize) < dict.len() {
        Some(dict[(code - 1) as usize].clone())
    } else {
        None
    }
}

/// Inserts `key -> v`, replacing the value of an entry with that key.
pub(crate) fn args_insert(args: &mut Vec<(String, ArgValue)>, key: String, v: ArgValue)
    ensures
        forall|k: Seq<char>| #[trigger] arg_value(final(args)@, k) == (if k == key@ {
            Some(v)
        } else {
            arg_value(old(args)@, k)
        }),
        final(args)@.len() > 0,
{
    let mut i: usize = 0;
    while i < args.len()
        invariant
            i <= args@.len(),
            args@ == old(args)@,
            forall|t: int| 0 <= t < i ==> (#[trigger] args@[t]).0@ != key@,
        decreases args@.len() - i,
    {
        if args[i].0 == key {
            let ghost before = args@;
            let k2 = args[i].0.clone();
            args.set(i, (k2, v));
            proof {
                assert forall|k: Seq<char>| #[trigger] arg_value(args@, k) == (if k == key@ {
                    Some(v)
                } else {
                    arg_value(old(args)@, k)
                }) by {
                    lemma_arg_value_set(before, i as int, k2, v, k);
                }
            }
            return;
        }
        i += 1;
    }
    let ghost before = args@;
    args.push((key, v));
    proof {
        assert forall|k: Seq<char>| #[trigger] arg_value(args@, k) == (if k == key@ {
            Some(v)
        } else {
            arg_value(old(args)@, k)
        }) by {
            lemma_arg_value_push(before, key, v, k);
        }
    }
}

/// Replacing the value at the first entry with key `k2` changes only the
/// value found for that key.
proof fn lemma_arg_value_set(a: Seq<(String, ArgValue)>, i: int, k2: String, v: ArgValue, k: Seq<char>)
    requires
        0 <= i < a.len(),
        a[i].0@ == k2@,
        forall|t: int| 0 <= t < i ==> (#[trigger] a[t]).0@ != k2@,
    ensures
        arg_value(a.update(i, (k2, v)), k) == (if k == k2@ {
            Some(v)
        } else {
            arg_value(a, k)
        }),
    decreases i,
{
    let b = a.update(i, (k2, v));
    if i == 0 {
        assert(b.drop_first() =~= a.drop_first());
    } else {
        assert(b.drop_first() =~= a.drop_first().update(i - 1, (k2, v)));
        assert forall|t: int| 0 <= t < i - 1 implies (#[trigger] a.drop_first()[t]).0@ != k2@ by {
            assert(a.drop_first()[t] == a[t + 1]);
        }
        lemma_arg_value_set(a.drop_first(), i - 1, k2, v, k);
        assert(a[0].0@ != k2@);
    }
}

/// Appending an entry whose key no entry has adds that key only.
proof fn lemma_arg_value_push(a: Seq<(String, ArgValue)>, key: String, v: ArgValue, k: Seq<char>)
    requires
        forall|t: int| 0 <= t < a.len() ==> (#[trigger] a[t]).0@ != key@,
    ensures
        arg_value(a.push((key, v)), k) == (if k == key@ {
            Some(v)
        } else {
            arg_value(a, k)
        }),
    decreases a.len(),
{
    if a.len() > 0 {
        assert(a.push((key, v)).drop_first() =~= a.drop_first().push((key, v)));
        assert forall|t: int| 0 <= t < a.drop_first().len() implies (#[trigger] a.drop_first()[t]).0@ != key@ by {
            assert(a.drop_first()[t] == a[t + 1]);
        }
        lemma_arg_value_push(a.drop_first(), key, v, k);
    } else {
        assert(a.push((key, v)).drop_first() =~= Seq::<(String, ArgValue)>::empty());
        assert(arg_value(Seq::<(String, ArgValue)>::empty(), k) == None::<ArgValue>);
    }
}

/// Decodes stream `k` of a payload into its rank and its events: the type
/// ids re-expanded from the descriptor pool (an id past the pool's end is an
/// error), then every event rebuilt from its columns.
pub fn decode_stream(p: &ScalaTracePayload, k: usize) -> (r: Result<(String, Vec<Event>), Error>)
    requires
        k < p.streams@.len(),
    ensures
        r is Ok <==> all_known(p.rsds@, p.streams@[k as int].rsd_ids@),
        r matches Ok((rank, evs)) ==> {
            let st = p.streams@[k as int];
            let tseq = expand_all(picked(p.rsds@, st.rsd_ids@));
            &&& rank@ == lookup(dict_view(p.dict@), st.rank_id)
            &&& evs@.len() == st.payload_name_ids@.len()
            &&& forall|i: int| 0 <= i < evs@.len() ==> #[trigger] event_decodes(dict_view(p.dict@), p.types@, st, tseq, i, evs@[i])
        },
{
    let st = &p.streams[k];
    let tseq = match expand_rsd_ids(&p.rsds, &st.rsd_ids) {
        Ok(v) => v,
        Err(e) => {
            return Err(e);
        },
    };
    let ghost dict = dict_view(p.dict@);
    let rank = lookup_exec(&p.dict, st.rank_id);
    let tid = lookup_exec(&p.dict, st.tid_id);
    let n = st.payload_name_ids.len();
    let mut evs: Vec<Event> = Vec::new();
    let mut i: usize = 0;
    while i < n
        invariant
            n == st.payload_name_ids@.len(),
            *st == p.streams@[k as int],
            dict == dict_view(p.dict@),
            tseq@ == expand_all(picked(p.rsds@, st.rsd_ids@)),
            tid@ == lookup(dict, st.tid_id),
            i <= n,
            evs@.len() == i,
            forall|j: int| 0 <= j < i ==> #[trigger] event_decodes(dict, p.types@, *st, tseq@, j, evs@[j]),
        decreases n - i,
    {
        let type_id: u32 = if i < tseq.len() {
            tseq[i]
        } else {
            0
        };
        let ghost ty = type_at(p.types@, tseq@, i as int);
        let has_type = (type_id as usize) < p.types.len();
        let cat: Option<String> = if has_type {
            let t = &p.types[type_id as usize];
            if t.cat_id_plus1 == 0 {
                None
            } else {
                Some(lookup_exec(&p.dict, t.cat_id_plus1 - 1))
            }
        } else {
            None
        };
        let mut keys: Vec<String> = Vec::new();
        if has_type {
            let t = &p.types[type_id as usize];
            let mut q: usize = 0;
            while q < t.arg_key_ids.len()
                invariant
                    q <= t.arg_key_ids@.len(),
                    keys@.len() == q,
                    forall|j: int| 0 <= j < q ==> #[trigger] keys@[j]@ == lookup(dict, t.arg_key_ids@[j]),
                    dict == dict_view(p.dict@),
                decreases t.arg_key_ids@.len() - q,
            {
                keys.push(lookup_exec(&p.dict, t.arg_key_ids[q]));
                q += 1;
            }
        }
        let ghost key_views = keys@.map(|_j: int, s: String| s@);
        proof {
            assert(key_views =~= type_keys_of(dict, ty));
        }
        let mut args: Vec<(String, ArgValue)> = Vec::new();
        let ghost row: Seq<ArgValue> = if i < st.args@.len() {
            st.args@[i as int]@
        } else {
            Seq::empty()
        };
        if i < st.args.len() {
            let vals = &st.args[i];
            let mut q: usize = 0;
            while q < keys.len() && q < vals.len()
                invariant
                    q <= keys@.len(),
                    q <= vals@.len(),
                    vals@ == row,
                    key_views == keys@.map(|_j: int, s: String| s@),
                    forall|key: Seq<char>| #[trigger] arg_value(args@, key) == (if zip_map(key_views.take(q as int), row).dom().contains(key) {
                        Some(zip_map(key_views.take(q as int), row)[key])
                    } else {
                        None::<ArgValue>
                    }),
                    q > 0 ==> args@.len() > 0,
                    q == 0 ==> args@.len() == 0,
                decreases keys@.len() - q,
            {
                let ghost before = args@;
                args_insert(&mut args, keys[q].clone(), vals[q].copy());
                proof {
                    assert(key_views.take(q + 1).drop_last() =~= key_views.take(q as int));
                    assert(key_views.take(q + 1).last() == keys@[q as int]@);
                    assert(zip_map(key_views.take(q + 1), row) == zip_map(key_views.take(q as int), row).insert(keys@[q as int]@, row[q as int]));
                }
                q += 1;
            }
            proof {
                lemma_zip_map_saturates(key_views, row, q as int);
            }
        } else {
            proof {
                assert(zip_map(key_views, row) == Map::<Seq<char>, ArgValue>::empty());
            }
        }
        let ev_args = if args.len() == 0 {
            None
        } else {
            Some(args)
        };
        let dur = if i < st.dur_present.len() && st.dur_present[i] {
            Some(if i < st.dur.len() {
                st.dur[i]
            } else {
                0
            })
        } else {
            None
        };
        let id = if i < st.id_present.len() && st.id_present[i] {
            Some(if i < st.ids.len() {
                st.ids[i]
            } else {
                0
            })
        } else {
            None
        };
        let bp_code = if i < st.bp_dict_id_plus1.len() {
            st.bp_dict_id_plus1[i]
        } else {
            0
        };
        let s_code = if i < st.s_dict_id_plus1.len() {
            st.s_dict_id_plus1[i]
        } else {
            0
        };
        let ev = Event {
            name: lookup_exec(&p.dict, st.payload_name_ids[i]),
            ts: if i < st.ts.len() {
                st.ts[i]
            } else {
                0
            },
            dur,
            cat,
            ph: Phase(st.ph),
            pid: st.pid,
            tid: tid.clone(),
            args: ev_args,
            id,
            bp: lookup_opt_exec(&p.dict, bp_code),
            s: lookup_opt_exec(&p.dict, s_code),
        };
        proof {
            let m = zip_map(type_keys_of(dict, ty), row);
            if args@.len() > 0 {
                assert(m.dom() != Set::<Seq<char>>::empty()) by {
                    assert(arg_value(args@, args@[0].0@) is Some) by {
                        assert(args@[0].0@ == args@[0].0@);
                    }
                    assert(m.dom().contains(args@[0].0@));
                }
            } else {
                assert forall|key: Seq<char>| !m.dom().contains(key) by {
                    assert(arg_value(args@, key) == None::<ArgValue>);
                }
                assert(m.dom() =~= Set::<Seq<char>>::empty());
            }
            assert(args_hold(ev.args, m));
            assert(opt_view(ev.cat) == match ty {
                Some(t) => if t.cat_id_plus1 == 0 {
                    None
                } else {
                    Some(lookup(dict, (t.cat_id_plus1 - 1) as u32))
                },
                None => None,
            });
            assert(event_decodes(dict, p.types@, *st, tseq@, i as int, ev));
        }
        evs.push(ev);
        i += 1;
    }
    Ok((rank, evs))
}

/// Once either list is used up, the zipped map stops growing.
proof fn lemma_zip_map_saturates(keys: Seq<Seq<char>>, vals: Seq<ArgValue>, q: int)
    requires
        0 <= q <= keys.len(),
        q <= vals.len(),
        q == keys.len() || q == vals.len(),
    ensures
        zip_map(keys, vals) == zip_map(keys.take(q), vals),
    decreases keys.len(),
{
    if q == keys.len() {
        assert(keys.take(q) =~= keys);
    } else {
        lemma_zip_map_saturates(keys.drop_last(), vals, q);
        assert(keys.drop_last().take(q) =~= keys.take(q));
    }
}

/// The argument entries of an event (none when it has no arguments).
pub open spec fn args_entries(a: Option<Vec<(String, ArgValue)>>) -> Seq<(String, ArgValue)> {
    match a {
        Some(v) => v@,
        None => Seq::empty(),
    }
}

/// An argument is found exactly for the keys some entry has.
pub proof fn lemma_arg_value_found(a: Seq<(String, ArgValue)>, key: Seq<char>)
    ensures
        arg_value(a, key) is Some <==> exists|q: int| 0 <= q < a.len() && a[q].0@ == key,
    decreases a.len(),
{
    if a.len() > 0 {
        lemma_arg_value_found(a.drop_first(), key);
        if arg_value(a.drop_first(), key) is Some {
            let q = choose|q: int| 0 <= q < a.drop_first().len() && a.drop_first()[q].0@ == key;
            assert(a[q + 1].0@ == key);
        }
        if exists|q: int| 0 <= q < a.len() && a[q].0@ == key {
            let q = choose|q: int| 0 <= q < a.len() && a[q].0@ == key;
            if q > 0 && a[0].0@ != key {
                assert(a.drop_first()[q - 1].0@ == key);
            }
        }
    }
}

/// The zipped map of keys and values, where each value is `f` of its key,
/// holds exactly the keys, each with `f` of it.
proof fn lemma_zip_map_of(keys: Seq<Seq<char>>, vals: Seq<ArgValue>, f: spec_fn(Seq<char>) -> ArgValue)
    requires
        keys.len() <= vals.len(),
        forall|k: int| 0 <= k < keys.len() ==> vals[k] == f(#[trigger] keys[k]),
    ensures
        forall|key: Seq<char>| #[trigger] zip_map(keys, vals).dom().contains(key) <==> keys.contains(key),
        forall|key: Seq<char>| zip_map(keys, vals).dom().contains(key) ==> #[trigger] zip_map(keys, vals)[key] == f(key),
    decreases keys.len(),
{
    if keys.len() > 0 && vals.len() > 0 {
        let p = keys.drop_last();
        assert forall|k: int| 0 <= k < p.len() implies vals[k] == f(#[trigger] p[k]) by {
            assert(p[k] == keys[k]);
        }
        lemma_zip_map_of(p, vals, f);
        let last = keys[keys.len() - 1];
        assert(keys.last() == last);
        assert(zip_map(keys, vals) == zip_map(p, vals).insert(last, vals[keys.len() - 1]));
        assert(vals[keys.len() - 1] == f(last));
        assert forall|key: Seq<char>| #[trigger] zip_map(keys, vals).dom().contains(key) <==> keys.contains(key) by {
            if key == last {
                assert(keys[keys.len() - 1] == key);
            }
            if p.contains(key) {
                let k = choose|k: int| 0 <= k < p.len() && p[k] == key;
                assert(keys[k] == key);
            }
            if keys.contains(key) && key != keys.last() {
                let k = choose|k: int| 0 <= k < keys.len() && keys[k] == key;
                assert(p[k] == key);
            }
        }
        assert forall|key: Seq<char>| zip_map(keys, vals).dom().contains(key) implies #[trigger] zip_map(keys, vals)[key] == f(key) by {
            if key != last {
                assert(zip_map(p, vals).dom().contains(key));
            }
        }
    } else if keys.len() == 0 {
        assert forall|key: Seq<char>| #[trigger] zip_map(keys, vals).dom().contains(key) <==> keys.contains(key) by {
        }
    }
}

/// Decoding an encoded trace gives back its events: decoding stream `j`
/// of the payload gives, at position `i`, the `i`-th event of the `j`-th
/// cell with events, every field equal (name, times, ids, category, `bp`,
/// `s`, the cell's phase, pid and thread) and the same arguments by key;
/// an event whose argument map is empty comes back with none.
pub proof fn lemma_scalatrace_round_trip(p: ScalaTracePayload, cells: Seq<StreamCell>, j: int, i: int, ev: Event)
    requires
        payload_encodes(p, cells),
        0 <= j < nonempty_cells(cells).len(),
        0 <= i < nonempty_cells(cells)[j].events@.len(),
        event_decodes(
            dict_view(p.dict@),
            p.types@,
            p.streams@[j],
            expand_all(picked(p.rsds@, p.streams@[j].rsd_ids@)),
            i,
            ev,
        ),
    ensures
        ({
            let cell = nonempty_cells(cells)[j];
            let orig = cell.events@[i];
            &&& ev.name@ == orig.name@
            &&& ev.ts == orig.ts
            &&& ev.dur == orig.dur
            &&& ev.id == orig.id
            &&& opt_view(ev.cat) == opt_view(orig.cat)
            &&& opt_view(ev.bp) == opt_view(orig.bp)
            &&& opt_view(ev.s) == opt_view(orig.s)
            &&& ev.ph == cell.ph
            &&& ev.pid == cell.pid
            &&& ev.tid@ == cell.tid@
            &&& (ev.args is None <==> args_entries(orig.args).len() == 0)
            &&& forall|key: Seq<char>| #[trigger] arg_value(args_entries(ev.args), key) == arg_value(args_entries(orig.args), key)
        }),
{
    let dict = dict_view(p.dict@);
    let cell = nonempty_cells(cells)[j];
    let st = p.streams@[j];
    let tseq = expand_all(picked(p.rsds@, st.rsd_ids@));
    let orig = cell.events@[i];
    assert(cell_encoded(dict, p.types@, cell, st, tseq));
    assert(event_encoded_at(dict, p.types@, cell, st, tseq[i], i));
    let t = p.types@[tseq[i] as int];
    assert(type_at(p.types@, tseq, i) == Some(t));
    match orig.cat {
        Some(c) => {},
        None => {},
    }
    let keys = type_keys_of(dict, Some(t));
    let row = st.args@[i]@;
    let f = |key: Seq<char>| event_arg(orig.args, key);
    assert forall|k: int| 0 <= k < keys.len() implies row[k] == f(#[trigger] keys[k]) by {
        assert(keys[k] == dict[t.arg_key_ids@[k] as int]);
    }
    lemma_zip_map_of(keys, row, f);
    let m = zip_map(keys, row);
    let oa = args_entries(orig.args);
    assert(oa.len() == t.arg_key_ids@.len());
    assert forall|key: Seq<char>| #[trigger] m.dom().contains(key) <==> (exists|q: int| 0 <= q < oa.len() && oa[q].0@ == key) by {
        if m.dom().contains(key) {
            let k = choose|k: int| 0 <= k < keys.len() && keys[k] == key;
            assert(t.arg_key_ids@[k] < dict.len());
            assert(has_arg_key(orig.args, dict[t.arg_key_ids@[k] as int]));
            let q = choose|q: int| 0 <= q < oa.len() && #[trigger] oa[q].0@ == key;
        }
        if exists|q: int| 0 <= q < oa.len() && oa[q].0@ == key {
            let q = choose|q: int| 0 <= q < oa.len() && oa[q].0@ == key;
            assert(key_listed(dict, t.arg_key_ids@, arg_key_at(orig.args, q)));
            let k = choose|k: int| 0 <= k < t.arg_key_ids@.len() && dict[t.arg_key_ids@[k] as int] == arg_key_at(orig.args, q);
            assert(keys[k] == key);
        }
    }
    assert forall|key: Seq<char>| #[trigger] arg_value(oa, key) == (if m.dom().contains(key) {
        Some(m[key])
    } else {
        None::<ArgValue>
    }) by {
        lemma_arg_value_found(oa, key);
        if m.dom().contains(key) {
            assert(m[key] == f(key));
            match orig.args {
                Some(a) => {
                    assert(event_arg(orig.args, key) == arg_value(a@, key)->0);
                },
                None => {},
            }
        }
    }
    match ev.args {
        Some(v) => {
            assert forall|key: Seq<char>| #[trigger] arg_value(args_entries(ev.args), key) == arg_value(oa, key) by {
                assert(arg_value(v@, key) == (if m.dom().contains(key) {
                    Some(m[key])
                } else {
                    None::<ArgValue>
                }));
            }
            if oa.len() == 0 {
                assert(m.dom() =~= Set::<Seq<char>>::empty());
            }
        },
        None => {
            assert(m.dom() == Set::<Seq<char>>::empty());
            if oa.len() > 0 {
                assert(m.dom().contains(oa[0].0@));
            }
            assert forall|key: Seq<char>| #[trigger] arg_value(args_entries(ev.args), key) == arg_value(oa, key) by {
                lemma_arg_value_found(oa, key);
            }
        },
    }
}

} // verus!
