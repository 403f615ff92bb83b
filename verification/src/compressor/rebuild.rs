//! Rebuilding one template instance as an event: the inverse, field by
//! field, of appending an event to a template.

use vstd::prelude::*;

use crate::compressor::append::{column_appended, columns_appended, opt_pushed};
use crate::event::{event_arg, ArgColumn, ArgValue, Event, MergeEvent, MergeKernelEvent, Phase};

verus! {

/// The value at position `i` of an optional column, if there is one.
pub open spec fn col_at(s: Seq<i64>, i: int) -> Option<i64> {
    if 0 <= i < s.len() {
        Some(s[i])
    } else {
        None
    }
}

/// The argument entries that instance `i` gets back from the first `n`
/// (key, column) pairs: each key whose column has a value at `i`, in key
/// order.
pub open spec fn decoded_entries(keys: Seq<String>, cols: Seq<ArgColumn>, i: int, n: int) -> Seq<(String, ArgValue)>
    decreases n,
{
    if n <= 0 {
        Seq::empty()
    } else {
        decoded_entries(keys, cols, i, n - 1) + match cols[n - 1].spec_get(i) {
            Some(v) => seq![(keys[n - 1], v)],
            None => Seq::empty(),
        }
    }
}

/// The shorter of two lengths.
pub open spec fn zip_len(a: nat, b: nat) -> int {
    if a <= b {
        a as int
    } else {
        b as int
    }
}

/// The arguments instance `i` gets back from a template's keys and
/// columns (taken pairwise): `None` when the template has no keys, or when
/// no column has a value at `i`.
pub open spec fn decoded_args(keys: Seq<String>, cols: Seq<ArgColumn>, i: int) -> Option<Seq<(String, ArgValue)>> {
    if keys.len() == 0 {
        None
    } else {
        let e = decoded_entries(keys, cols, i, zip_len(keys.len(), cols.len()));
        if e.len() == 0 {
            None
        } else {
            Some(e)
        }
    }
}

/// The entries of optional argument entries.
pub open spec fn args_view(a: Option<Vec<(String, ArgValue)>>) -> Option<Seq<(String, ArgValue)>> {
    match a {
        Some(v) => Some(v@),
        None => None,
    }
}

/// The arguments of instance `i`, rebuilt from the template's argument
/// keys and columns.
pub fn decode_args(arg_keys: &Vec<String>, args_columns: &Vec<ArgColumn>, i: usize) -> (r: Option<Vec<(String, ArgValue)>>)
    ensures
        args_view(r) == decoded_args(arg_keys@, args_columns@, i as int),
{
    if arg_keys.len() == 0 {
        return None;
    }
    let n: usize = if arg_keys.len() <= args_columns.len() {
        arg_keys.len()
    } else {
        args_columns.len()
    };
    let mut out: Vec<(String, ArgValue)> = Vec::new();
    let mut k: usize = 0;
    while k < n
        invariant
            k <= n,
            n == zip_len(arg_keys@.len(), args_columns@.len()),
            out@ == decoded_entries(arg_keys@, args_columns@, i as int, k as int),
        decreases n - k,
    {
        match args_columns[k].get_owned(i) {
            Some(v) => {
                out.push((arg_keys[k].clone(), v));
            },
            None => {},
        }
        k += 1;
        proof {
            assert(out@ =~= decoded_entries(arg_keys@, args_columns@, i as int, k as int));
        }
    }
    if out.len() == 0 {
        None
    } else {
        Some(out)
    }
}

/// A copy of an optional string.
fn copy_opt(s: &Option<String>) -> (r: Option<String>)
    ensures
        r == *s,
{
    match s {
        Some(x) => Some(x.clone()),
        None => None,
    }
}

/// Instance `i` of a CPU template as an event named `name`, placed at
/// `(pid, tid, phase)`: its `ts` (0 past the column's end), `dur` and `id`
/// (when the columns have them), its arguments, and the template's shared
/// fields.
pub fn build_cpu_event(tmpl: &MergeEvent, i: usize, name: String, pid: i64, tid: &str, phase: Phase) -> (e: Event)
    ensures
        e.name == name,
        e.ts == (match col_at(tmpl.ts@, i as int) {
            Some(v) => v,
            None => 0,
        }),
        e.dur == col_at(tmpl.dur@, i as int),
        e.id == col_at(tmpl.id@, i as int),
        args_view(e.args) == decoded_args(tmpl.arg_keys@, tmpl.args_columns@, i as int),
        e.cat == tmpl.cat,
        e.bp == tmpl.bp,
        e.s == tmpl.s,
        e.ph == phase,
        e.pid == pid,
        e.tid@ == tid@,
{
    let ts = match tmpl.ts.get(i) {
        Some(v) => v,
        None => 0,
    };
    Event {
        name,
        ts,
        dur: tmpl.dur.get(i),
        cat: copy_opt(&tmpl.cat),
        ph: phase,
        pid,
        tid: tid.to_string(),
        args: decode_args(&tmpl.arg_keys, &tmpl.args_columns, i),
        id: tmpl.id.get(i),
        bp: copy_opt(&tmpl.bp),
        s: copy_opt(&tmpl.s),
    }
}

/// Instance `i` of a GPU template as an event named `name`, placed at
/// `(pid, tid, phase)`: its `ts` (0 past the column's end), `dur` (when the
/// column has it), its arguments and the template's category; kernels have
/// no `id`, `bp` or `s`.
pub fn build_gpu_event(tmpl: &MergeKernelEvent, i: usize, name: String, pid: i64, tid: &str, phase: Phase) -> (e: Event)
    ensures
        e.name == name,
        e.ts == (match col_at(tmpl.ts@, i as int) {
            Some(v) => v,
            None => 0,
        }),
        e.dur == col_at(tmpl.dur@, i as int),
        args_view(e.args) == decoded_args(tmpl.arg_keys@, tmpl.args_columns@, i as int),
        e.cat == tmpl.cat,
        e.id is None,
        e.bp is None,
        e.s is None,
        e.ph == phase,
        e.pid == pid,
        e.tid@ == tid@,
{
    let ts = match tmpl.ts.get(i) {
        Some(v) => v,
        None => 0,
    };
    Event {
        name,
        ts,
        dur: tmpl.dur.get(i),
        cat: copy_opt(&tmpl.cat),
        ph: phase,
        pid,
        tid: tid.to_string(),
        args: decode_args(&tmpl.arg_keys, &tmpl.args_columns, i),
        id: None,
        bp: None,
        s: None,
    }
}

/// Where instance `i` of a GPU template is placed: its `pid` (0 past the
/// column's end), its stream `tid` (empty past the end) and its phase
/// (`X` past the end).
pub fn gpu_coordinate(tmpl: &MergeKernelEvent, i: usize) -> (r: (i64, String, Phase))
    ensures
        r.0 == (match col_at(tmpl.pid@, i as int) {
            Some(v) => v,
            None => 0,
        }),
        r.1@ == (if i < tmpl.stream_tid@.len() {
            tmpl.stream_tid@[i as int]
        } else {
            Seq::<char>::empty()
        }),
        r.2.0 == (if i < tmpl.ph@.len() {
            tmpl.ph@[i as int]
        } else {
            88u8
        }),
{
    let pid = match tmpl.pid.get(i) {
        Some(v) => v,
        None => 0,
    };
    let tid = match tmpl.stream_tid.get(i) {
        Some(t) => t.to_string(),
        None => String::new(),
    };
    let phase = match tmpl.ph.get(i) {
        Some(p) => p,
        None => Phase(88u8),
    };
    (pid, tid, phase)
}

/// The arguments an instance reads back when every key got the event's
/// value: each key with the event's value for it (`Null` when the event
/// lacks the key).
pub open spec fn expected_args(keys: Seq<String>, event: Event) -> Option<Seq<(String, ArgValue)>> {
    if keys.len() == 0 {
        None
    } else {
        Some(keys.map(|_k: int, key: String| (key, event_arg(event.args, key@))))
    }
}

/// The first `n` columns, each of which had exactly `i` values and then got
/// the event's value for its key, read back at `i` the event's values.
proof fn lemma_appended_entries(old_cols: Seq<ArgColumn>, new_cols: Seq<ArgColumn>, keys: Seq<String>, event: Event, i: int, n: int)
    requires
        0 <= n <= keys.len(),
        keys.len() == old_cols.len(),
        new_cols.len() == old_cols.len(),
        forall|k: int| 0 <= k < n ==> #[trigger] old_cols[k] is PerInstance && old_cols[k]->PerInstance_0@.len() == i,
        forall|k: int| 0 <= k < n ==> column_appended(old_cols[k], #[trigger] new_cols[k], keys[k]@, event),
    ensures
        decoded_entries(keys, new_cols, i, n) == keys.take(n).map(|_k: int, key: String| (key, event_arg(event.args, key@))),
    decreases n,
{
    if n > 0 {
        lemma_appended_entries(old_cols, new_cols, keys, event, i, n - 1);
        let c = new_cols[n - 1];
        assert(old_cols[n - 1] is PerInstance && old_cols[n - 1]->PerInstance_0@.len() == i);
        assert(column_appended(old_cols[n - 1], c, keys[n - 1]@, event));
        assert(c->PerInstance_0@[i] == event_arg(event.args, keys[n - 1]@));
        assert(c.spec_get(i) == Some(event_arg(event.args, keys[n - 1]@)));
        assert(keys.take(n).map(|_k: int, key: String| (key, event_arg(event.args, key@))) =~= keys.take(n - 1).map(
            |_k: int, key: String| (key, event_arg(event.args, key@)),
        ).push((keys[n - 1], event_arg(event.args, keys[n - 1]@))));
    }
}

/// An event appended to a CPU template whose argument columns were full
/// (every earlier instance had a value in each) is read back from the new
/// instance: its `ts`, and for each of the template's keys the event's
/// value; its `dur` and `id` too, where it has none or every earlier
/// instance had one.
pub proof fn lemma_cpu_instance_reads_back(t0: MergeEvent, t1: MergeEvent, event: Event)
    requires
        t0.arg_keys@.len() == t0.args_columns@.len(),
        t0.dur@.len() <= t0.ts@.len(),
        event.dur is Some ==> t0.dur@.len() == t0.ts@.len(),
        t0.id@.len() <= t0.ts@.len(),
        event.id is Some ==> t0.id@.len() == t0.ts@.len(),
        forall|k: int|
            0 <= k < t0.args_columns@.len() ==> #[trigger] t0.args_columns@[k] is PerInstance
                && t0.args_columns@[k]->PerInstance_0@.len() == t0.ts@.len(),
        t1.ts@ == t0.ts@.push(event.ts),
        opt_pushed(t0.dur@, t1.dur@, event.dur),
        opt_pushed(t0.id@, t1.id@, event.id),
        columns_appended(t0.args_columns@, t1.args_columns@, t0.arg_keys@, event, t0.arg_keys@.len() as int),
        t1.arg_keys == t0.arg_keys,
    ensures
        col_at(t1.ts@, t0.ts@.len() as int) == Some(event.ts),
        col_at(t1.dur@, t0.ts@.len() as int) == event.dur,
        col_at(t1.id@, t0.ts@.len() as int) == event.id,
        decoded_args(t1.arg_keys@, t1.args_columns@, t0.ts@.len() as int) == expected_args(t0.arg_keys@, event),
{
    let keys = t0.arg_keys@;
    let i = t0.ts@.len() as int;
    assert forall|k: int| 0 <= k < keys.len() implies column_appended(
        t0.args_columns@[k],
        #[trigger] t1.args_columns@[k],
        keys[k]@,
        event,
    ) by {}
    lemma_appended_entries(t0.args_columns@, t1.args_columns@, keys, event, i, keys.len() as int);
    assert(keys.take(keys.len() as int) =~= keys);
}

/// The same for a GPU template: an appended kernel is read back from the
/// new instance (its `ts`, `dur`, placement and arguments).
pub proof fn lemma_gpu_instance_reads_back(t0: MergeKernelEvent, t1: MergeKernelEvent, event: Event, tid: Seq<char>)
    requires
        t0.arg_keys@.len() == t0.args_columns@.len(),
        t0.dur@.len() <= t0.ts@.len(),
        event.dur is Some ==> t0.dur@.len() == t0.ts@.len(),
        t0.pid@.len() == t0.ts@.len(),
        t0.stream_tid@.len() == t0.ts@.len(),
        t0.ph@.len() == t0.ts@.len(),
        forall|k: int|
            0 <= k < t0.args_columns@.len() ==> #[trigger] t0.args_columns@[k] is PerInstance
                && t0.args_columns@[k]->PerInstance_0@.len() == t0.ts@.len(),
        t1.ts@ == t0.ts@.push(event.ts),
        opt_pushed(t0.dur@, t1.dur@, event.dur),
        t1.pid@ == t0.pid@.push(event.pid),
        t1.stream_tid@ == t0.stream_tid@.push(tid),
        t1.ph@ == t0.ph@.push(event.ph.0),
        columns_appended(t0.args_columns@, t1.args_columns@, t0.arg_keys@, event, t0.arg_keys@.len() as int),
        t1.arg_keys == t0.arg_keys,
    ensures
        col_at(t1.ts@, t0.ts@.len() as int) == Some(event.ts),
        col_at(t1.dur@, t0.ts@.len() as int) == event.dur,
        col_at(t1.pid@, t0.ts@.len() as int) == Some(event.pid),
        t1.stream_tid@[t0.ts@.len() as int] == tid,
        t1.ph@[t0.ts@.len() as int] == event.ph.0,
        decoded_args(t1.arg_keys@, t1.args_columns@, t0.ts@.len() as int) == expected_args(t0.arg_keys@, event),
{
    let keys = t0.arg_keys@;
    let i = t0.ts@.len() as int;
    assert forall|k: int| 0 <= k < keys.len() implies column_appended(
        t0.args_columns@[k],
        #[trigger] t1.args_columns@[k],
        keys[k]@,
        event,
    ) by {}
    lemma_appended_entries(t0.args_columns@, t1.args_columns@, keys, event, i, keys.len() as int);
    assert(keys.take(keys.len() as int) =~= keys);
}

} // verus!
