//! Appending one event to a template: its scalar columns, its argument
//! columns and its name digits.

use vstd::prelude::*;

use crate::event::{event_arg, lookup_arg, ArgColumn, Event, MergeEvent, MergeKernelEvent, NameNums};

verus! {

/// Column `k` after one event was appended: the column for key `k` (while
/// there are keys) grew by the event's value for that key.
pub open spec fn column_appended(old_col: ArgColumn, new_col: ArgColumn, key: Seq<char>, event: Event) -> bool {
    &&& new_col is PerInstance
    &&& new_col->PerInstance_0@ == old_col->PerInstance_0@.push(event_arg(event.args, key))
}

/// Argument columns after an event was appended to each of the first
/// `n` (the shorter of columns and keys); the rest stay as they were.
pub open spec fn columns_appended(
    old_cols: Seq<ArgColumn>,
    new_cols: Seq<ArgColumn>,
    keys: Seq<String>,
    event: Event,
    n: int,
) -> bool {
    &&& new_cols.len() == old_cols.len()
    &&& forall|k: int| 0 <= k < n ==> column_appended(old_cols[k], #[trigger] new_cols[k], keys[k]@, event)
    &&& forall|k: int| n <= k < new_cols.len() ==> #[trigger] new_cols[k] == old_cols[k]
}

/// The shorter of two lengths.
pub open spec fn min_len(a: nat, b: nat) -> int {
    if a <= b {
        a as int
    } else {
        b as int
    }
}

/// Appends, to each argument column, the event's value for the column's
/// key (`Null` when the event lacks it).
pub fn append_args_columns(args_columns: &mut Vec<ArgColumn>, arg_keys: &Vec<String>, event: &Event)
    requires
        forall|k: int| 0 <= k < old(args_columns)@.len() ==> #[trigger] old(args_columns)@[k] is PerInstance,
    ensures
        columns_appended(
            old(args_columns)@,
            final(args_columns)@,
            arg_keys@,
            *event,
            min_len(old(args_columns)@.len(), arg_keys@.len()),
        ),
{
    let n = if args_columns.len() <= arg_keys.len() {
        args_columns.len()
    } else {
        arg_keys.len()
    };
    let mut k: usize = 0;
    while k < n
        invariant
            n == min_len(old(args_columns)@.len(), arg_keys@.len()),
            k <= n,
            columns_appended(old(args_columns)@, args_columns@, arg_keys@, *event, k as int),
            forall|j: int| k <= j < args_columns@.len() ==> #[trigger] args_columns@[j] is PerInstance,
        decreases n - k,
    {
        let v = lookup_arg(&event.args, &arg_keys[k]);
        let mut col = ArgColumn::PerInstance(Vec::new());
        std::mem::swap(&mut col, &mut args_columns[k]);
        assert(col == old(args_columns)@[k as int]);
        col.push(v);
        args_columns.set(k, col);
        k += 1;
    }
}

/// The digit lists after one more instance's digits were appended: no
/// digits so far and none now stays `Empty`; otherwise the list grows by
/// one row.
pub open spec fn name_nums_appended(old_nums: NameNums, new_nums: NameNums, nums: Seq<String>) -> bool {
    match old_nums {
        NameNums::Empty => if nums.len() == 0 {
            new_nums is Empty
        } else {
            new_nums matches NameNums::Rows(rows) && rows@.len() == 1 && rows@[0]@ == nums
        },
        NameNums::Rows(rows) => new_nums matches NameNums::Rows(r) && r@.len() == rows@.len() + 1 && r@.drop_last()
            == rows@ && r@.last()@ == nums,
        NameNums::Columnar(_) => false,
    }
}

/// Appends one instance's digit runs to the row-major digit lists.
pub fn push_name_nums(slot: &mut NameNums, nums: Vec<String>)
    requires
        !(*old(slot) is Columnar),
    ensures
        name_nums_appended(*old(slot), *final(slot), nums@),
{
    let was_empty = match slot {
        NameNums::Empty => true,
        _ => false,
    };
    if was_empty {
        if nums.len() > 0 {
            let mut rows: Vec<Vec<String>> = Vec::new();
            rows.push(nums);
            *slot = NameNums::Rows(rows);
        }
    } else if let NameNums::Rows(rows) = slot {
        let ghost before = rows@;
        rows.push(nums);
        assert(rows@.drop_last() =~= before);
    }
}

/// The optional value appended to an optional column.
pub open spec fn opt_pushed(old_col: Seq<i64>, new_col: Seq<i64>, v: Option<i64>) -> bool {
    match v {
        Some(x) => new_col == old_col.push(x),
        None => new_col == old_col,
    }
}

/// Appends one event as a new instance of a CPU template; `nums` are the
/// digit runs of the event's name.  Returns the instance's index.
pub fn append_to_merge(tmpl: &mut MergeEvent, event: &Event, nums: Vec<String>) -> (inst: u32)
    requires
        old(tmpl).ts@.len() <= u32::MAX,
        !(old(tmpl).name_nums is Columnar),
        forall|k: int| 0 <= k < old(tmpl).args_columns@.len() ==> #[trigger] old(tmpl).args_columns@[k] is PerInstance,
    ensures
        inst == old(tmpl).ts@.len(),
        final(tmpl).ts@ == old(tmpl).ts@.push(event.ts),
        opt_pushed(old(tmpl).dur@, final(tmpl).dur@, event.dur),
        opt_pushed(old(tmpl).id@, final(tmpl).id@, event.id),
        columns_appended(
            old(tmpl).args_columns@,
            final(tmpl).args_columns@,
            old(tmpl).arg_keys@,
            *event,
            min_len(old(tmpl).args_columns@.len(), old(tmpl).arg_keys@.len()),
        ),
        name_nums_appended(old(tmpl).name_nums, final(tmpl).name_nums, nums@),
        final(tmpl).name_pattern == old(tmpl).name_pattern,
        final(tmpl).cat == old(tmpl).cat,
        final(tmpl).bp == old(tmpl).bp,
        final(tmpl).s == old(tmpl).s,
        final(tmpl).arg_keys == old(tmpl).arg_keys,
{
    let inst = tmpl.ts.len() as u32;
    tmpl.ts.push(event.ts);
    if let Some(d) = event.dur {
        tmpl.dur.push(d);
    }
    if let Some(i) = event.id {
        tmpl.id.push(i);
    }
    append_args_columns(&mut tmpl.args_columns, &tmpl.arg_keys, event);
    push_name_nums(&mut tmpl.name_nums, nums);
    inst
}

/// Appends one event as a new instance of a GPU template, on the GPU stream
/// `gpu_stream_tid`; `nums` are the digit runs of the event's name.
/// Returns the instance's index.
pub fn append_to_kernel(tmpl: &mut MergeKernelEvent, event: &Event, gpu_stream_tid: &str, nums: Vec<String>) -> (inst: u32)
    requires
        old(tmpl).ts@.len() <= u32::MAX,
        !(old(tmpl).name_nums is Columnar),
        forall|k: int| 0 <= k < old(tmpl).args_columns@.len() ==> #[trigger] old(tmpl).args_columns@[k] is PerInstance,
    ensures
        inst == old(tmpl).ts@.len(),
        final(tmpl).ts@ == old(tmpl).ts@.push(event.ts),
        opt_pushed(old(tmpl).dur@, final(tmpl).dur@, event.dur),
        final(tmpl).pid@ == old(tmpl).pid@.push(event.pid),
        final(tmpl).stream_tid@ == old(tmpl).stream_tid@.push(gpu_stream_tid@),
        final(tmpl).ph@ == old(tmpl).ph@.push(event.ph.0),
        columns_appended(
            old(tmpl).args_columns@,
            final(tmpl).args_columns@,
            old(tmpl).arg_keys@,
            *event,
            min_len(old(tmpl).args_columns@.len(), old(tmpl).arg_keys@.len()),
        ),
        name_nums_appended(old(tmpl).name_nums, final(tmpl).name_nums, nums@),
        final(tmpl).name_pattern == old(tmpl).name_pattern,
        final(tmpl).cat == old(tmpl).cat,
        final(tmpl).arg_keys == old(tmpl).arg_keys,
{
    let inst = tmpl.ts.len() as u32;
    tmpl.ts.push(event.ts);
    if let Some(d) = event.dur {
        tmpl.dur.push(d);
    }
    tmpl.pid.push(event.pid);
    tmpl.stream_tid.push(gpu_stream_tid.to_owned());
    tmpl.ph.push(event.ph);
    append_args_columns(&mut tmpl.args_columns, &tmpl.arg_keys, event);
    push_name_nums(&mut tmpl.name_nums, nums);
    inst
}

} // verus!
