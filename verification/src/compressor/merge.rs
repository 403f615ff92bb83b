//! Merging of per-rank template tables: the instance columns of a template
//! from one rank are appended to the matching template of the global table.

use vstd::prelude::*;

use crate::event::{
    copy_opt_string, sorted_copy, sorted_keys_of, string_list_view, ArgColumn, EventSignature, MergeEvent,
    MergeKernelEvent, NameNums, Template,
};
use crate::Error;

pub use crate::compressor::shards::{merge_shards, RankShard};

verus! {

/// Views of a list of strings.
pub open spec fn key_views(v: Seq<String>) -> Seq<Seq<char>> {
    v.map(|_i: int, s: String| s@)
}

/// The message for an `arg_keys` mismatch between two templates.
#[verifier::external_body]
fn arg_keys_mismatch_message(name: &str, a: &Vec<String>, b: &Vec<String>) -> String {
    format!("arg_keys mismatch when merging template '{}': {:?} vs {:?}", name, a, b)
}

/// The message for an `arg_keys` mismatch between two GPU templates.
#[verifier::external_body]
fn gpu_arg_keys_mismatch_message(name: &str) -> String {
    format!("arg_keys mismatch when merging gpu template '{}'", name)
}

/// True iff the two key lists hold the same strings in the same order.
pub fn same_keys(a: &Vec<String>, b: &Vec<String>) -> (r: bool)
    ensures
        r == (key_views(a@) == key_views(b@)),
{
    if a.len() != b.len() {
        proof {
            assert(key_views(a@).len() != key_views(b@).len());
        }
        return false;
    }
    let mut i: usize = 0;
    while i < a.len()
        invariant
            a.len() == b.len(),
            i <= a.len(),
            forall|j: int| 0 <= j < i ==> #[trigger] a@[j]@ == b@[j]@,
        decreases a.len() - i,
    {
        if a[i] != b[i] {
            proof {
                assert(key_views(a@)[i as int] != key_views(b@)[i as int]);
            }
            return false;
        }
        i += 1;
    }
    assert(key_views(a@) =~= key_views(b@));
    true
}

/// Appends a copy of every value of `src` to `dst`.
fn append_copies(dst: &mut Vec<crate::event::ArgValue>, src: &Vec<crate::event::ArgValue>)
    ensures
        final(dst)@ == old(dst)@ + src@,
{
    let mut i: usize = 0;
    while i < src.len()
        invariant
            i <= src.len(),
            dst@ == old(dst)@ + src@.take(i as int),
        decreases src.len() - i,
    {
        dst.push(src[i].copy());
        i += 1;
        assert(dst@ =~= old(dst)@ + src@.take(i as int));
    }
    assert(src@.take(src.len() as int) =~= src@);
}

/// `new` is the per-instance column `old` with the values of `src` appended.
pub open spec fn column_extended(old: ArgColumn, src: ArgColumn, new: ArgColumn) -> bool {
    &&& old is PerInstance
    &&& src is PerInstance
    &&& new is PerInstance
    &&& new->PerInstance_0@ == old->PerInstance_0@ + src->PerInstance_0@
}

/// The first `k` columns of `old` are extended by those of `src` in `new`,
/// and the other columns are unchanged.
pub open spec fn columns_extended_upto(
    old: Seq<ArgColumn>,
    src: Seq<ArgColumn>,
    new: Seq<ArgColumn>,
    k: int,
) -> bool {
    &&& new.len() == old.len()
    &&& 0 <= k <= src.len()
    &&& forall|i: int| 0 <= i < k ==> column_extended(old[i], src[i], #[trigger] new[i])
    &&& forall|i: int| k <= i < new.len() ==> #[trigger] new[i] == old[i]
}

/// Both columns are still per instance.
pub open spec fn both_per_instance(a: ArgColumn, b: ArgColumn) -> bool {
    a is PerInstance && b is PerInstance
}

/// Appends the per-instance argument values of `src` to those of `dst`,
/// column by column.  Succeeds iff both lists have the same length and hold
/// `PerInstance` columns only.  When the lengths differ nothing changes;
/// when a pair of columns is not `PerInstance`, the columns before it have
/// been extended and the rest are left as they were.
pub fn extend_args_columns(dst: &mut Vec<ArgColumn>, src: Vec<ArgColumn>) -> (r: Result<(), Error>)
    ensures
        r is Ok <==> old(dst)@.len() == src@.len() && forall|i: int|
            0 <= i < src@.len() ==> both_per_instance(#[trigger] old(dst)@[i], src@[i]),
        old(dst)@.len() != src@.len() ==> *final(dst) == *old(dst),
        r is Ok ==> columns_extended_upto(old(dst)@, src@, final(dst)@, src@.len() as int),
        old(dst)@.len() == src@.len() && r is Err ==> exists|k: int|
            0 <= k < src@.len() && columns_extended_upto(old(dst)@, src@, final(dst)@, k)
                && !both_per_instance(old(dst)@[k], src@[k]),
{
    if dst.len() != src.len() {
        return Err(Error::Other(String::from_str("args_columns length mismatch on merge")));
    }
    let n = src.len();
    let ghost src0 = src@;
    let mut i: usize = 0;
    while i < n
        invariant
            n == src0.len(),
            n == old(dst)@.len(),
            i <= n,
            src@ == src0,
            forall|j: int| 0 <= j < i ==> both_per_instance(#[trigger] old(dst)@[j], src0[j]),
            columns_extended_upto(old(dst)@, src0, dst@, i as int),
        decreases n - i,
    {
        let mut d = ArgColumn::PerInstance(Vec::new());
        std::mem::swap(&mut d, &mut dst[i]);
        assert(d == old(dst)@[i as int]);
        match (d, &src[i]) {
            (ArgColumn::PerInstance(mut dv), ArgColumn::PerInstance(sv)) => {
                append_copies(&mut dv, sv);
                dst.set(i, ArgColumn::PerInstance(dv));
                assert(column_extended(old(dst)@[i as int], src0[i as int], dst@[i as int]));
            },
            (d, _) => {
                dst.set(i, d);
                assert(columns_extended_upto(old(dst)@, src0, dst@, i as int));
                assert(!both_per_instance(old(dst)@[i as int], src0[i as int]));

                return Err(
                    Error::Other(
                        String::from_str(
                            "merge_shards saw a Constant args column — finalise must run after merge",
                        ),
                    ),
                );
            },
        }
        i += 1;
    }
    Ok(())
}

/// Both digit fillers are still in row form (or empty), so they can merge.
pub open spec fn name_nums_mergeable(dst: NameNums, src: NameNums) -> bool {
    (dst is Empty || dst is Rows) && (src is Empty || src is Rows)
}

/// `new` is the merge of the digit fillers `old` and `src`.
pub open spec fn name_nums_merged(old: NameNums, src: NameNums, new: NameNums) -> bool {
    &&& old is Empty ==> new == src
    &&& src is Empty && old is Rows ==> new == old
    &&& old is Rows && src is Rows ==> new is Rows && new->Rows_0@ == old->Rows_0@ + src->Rows_0@
}

/// Appends the digit-filler rows of `src` to those of `dst`.  Fails when
/// either side is already in columnar form; `dst` is then left `Empty`.
pub fn extend_name_nums(dst: &mut NameNums, src: NameNums) -> (r: Result<(), Error>)
    ensures
        r is Ok <==> name_nums_mergeable(*old(dst), src),
        r is Err ==> *final(dst) == NameNums::Empty,
        r is Ok ==> name_nums_merged(*old(dst), src, *final(dst)),
{
    let mut taken = NameNums::Empty;
    std::mem::swap(&mut taken, dst);
    let merged = match (taken, src) {
        (NameNums::Empty, NameNums::Empty) => NameNums::Empty,
        (NameNums::Empty, NameNums::Rows(r)) => NameNums::Rows(r),
        (NameNums::Rows(r), NameNums::Empty) => NameNums::Rows(r),
        (NameNums::Rows(mut a), NameNums::Rows(mut b)) => {
            a.append(&mut b);
            NameNums::Rows(a)
        },
        _ => {
            return Err(
                Error::Other(
                    String::from_str(
                        "name_nums in non-Rows form during merge — finalise ran too early",
                    ),
                ),
            );
        },
    };
    *dst = merged;
    Ok(())
}

/// The outcome of merging the CPU template `src` into `old`: success iff
/// the keys agree and the argument columns and digit fillers can still be
/// extended, and on success every column of `new` is that of `old`
/// followed by that of `src`.  When the keys disagree nothing changes.
pub open spec fn cpu_merge_outcome(old: MergeEvent, src: MergeEvent, new: MergeEvent, ok: bool) -> bool {
    &&& key_views(old.arg_keys@) != key_views(src.arg_keys@) ==> !ok && new == old
    &&& ok <==> key_views(old.arg_keys@) == key_views(src.arg_keys@) && old.args_columns@.len()
        == src.args_columns@.len() && (forall|i: int|
        0 <= i < src.args_columns@.len() ==> both_per_instance(
            #[trigger] old.args_columns@[i],
            src.args_columns@[i],
        )) && name_nums_mergeable(old.name_nums, src.name_nums)
    &&& ok ==> {
        &&& new.ts@ == old.ts@ + src.ts@
        &&& new.dur@ == old.dur@ + src.dur@
        &&& new.id@ == old.id@ + src.id@
        &&& columns_extended_upto(
            old.args_columns@,
            src.args_columns@,
            new.args_columns@,
            src.args_columns@.len() as int,
        )
        &&& name_nums_merged(old.name_nums, src.name_nums, new.name_nums)
        &&& new.name_pattern == old.name_pattern
        &&& new.arg_keys == old.arg_keys
        &&& new.cat == old.cat
        &&& new.bp == old.bp
        &&& new.s == old.s
    }
}

/// The outcome of merging the GPU template `src` into `old`, as for CPU
/// templates, with the `pid`, stream and phase columns appended too.
pub open spec fn gpu_merge_outcome(
    old: MergeKernelEvent,
    src: MergeKernelEvent,
    new: MergeKernelEvent,
    ok: bool,
) -> bool {
    &&& key_views(old.arg_keys@) != key_views(src.arg_keys@) ==> !ok && new == old
    &&& ok <==> key_views(old.arg_keys@) == key_views(src.arg_keys@) && old.args_columns@.len()
        == src.args_columns@.len() && (forall|i: int|
        0 <= i < src.args_columns@.len() ==> both_per_instance(
            #[trigger] old.args_columns@[i],
            src.args_columns@[i],
        )) && name_nums_mergeable(old.name_nums, src.name_nums)
    &&& ok ==> {
        &&& new.ts@ == old.ts@ + src.ts@
        &&& new.dur@ == old.dur@ + src.dur@
        &&& new.pid@ == old.pid@ + src.pid@
        &&& new.stream_tid@ == old.stream_tid@ + src.stream_tid@
        &&& new.ph@ == old.ph@ + src.ph@
        &&& columns_extended_upto(
            old.args_columns@,
            src.args_columns@,
            new.args_columns@,
            src.args_columns@.len() as int,
        )
        &&& name_nums_merged(old.name_nums, src.name_nums, new.name_nums)
        &&& new.name_pattern == old.name_pattern
        &&& new.arg_keys == old.arg_keys
        &&& new.cat == old.cat
    }
}

/// Appends every instance of the CPU template `src` to `dst`.
pub fn extend_cpu(dst: &mut MergeEvent, src: MergeEvent) -> (r: Result<(), Error>)
    ensures
        cpu_merge_outcome(*old(dst), src, *final(dst), r is Ok),
{
    if !same_keys(&dst.arg_keys, &src.arg_keys) {
        let msg = arg_keys_mismatch_message(dst.name_pattern.as_str(), &dst.arg_keys, &src.arg_keys);
        return Err(Error::Other(msg));
    }
    dst.ts.extend_from(src.ts);
    dst.dur.extend_from(src.dur);
    dst.id.extend_from(src.id);
    extend_args_columns(&mut dst.args_columns, src.args_columns)?;
    extend_name_nums(&mut dst.name_nums, src.name_nums)?;
    Ok(())
}

/// Appends every instance of the GPU template `src` to `dst`.
pub fn extend_gpu(dst: &mut MergeKernelEvent, src: MergeKernelEvent) -> (r: Result<(), Error>)
    ensures
        gpu_merge_outcome(*old(dst), src, *final(dst), r is Ok),
{
    if !same_keys(&dst.arg_keys, &src.arg_keys) {
        let msg = gpu_arg_keys_mismatch_message(dst.name_pattern.as_str());
        return Err(Error::Other(msg));
    }
    dst.ts.extend_from(src.ts);
    dst.dur.extend_from(src.dur);
    dst.pid.extend_from(src.pid);
    dst.stream_tid.extend_from(src.stream_tid);
    dst.ph.extend_from(src.ph);
    extend_args_columns(&mut dst.args_columns, src.args_columns)?;
    extend_name_nums(&mut dst.name_nums, src.name_nums)?;
    Ok(())
}

/// Appends every instance of `src` to `dst`.  Both must be of the same kind
/// (CPU or GPU); otherwise nothing changes and the merge fails.
pub fn extend_template(dst: &mut Template, src: Template) -> (r: Result<(), Error>)
    ensures
        match (*old(dst), src) {
            (Template::Cpu(o), Template::Cpu(s)) => *final(dst) is Cpu && cpu_merge_outcome(
                o,
                s,
                (*final(dst))->Cpu_0,
                r is Ok,
            ),
            (Template::Gpu(o), Template::Gpu(s)) => *final(dst) is Gpu && gpu_merge_outcome(
                o,
                s,
                (*final(dst))->Gpu_0,
                r is Ok,
            ),
            _ => r is Err && *final(dst) == *old(dst),
        },
{
    match (dst, src) {
        (Template::Cpu(d), Template::Cpu(s)) => extend_cpu(d, s),
        (Template::Gpu(d), Template::Gpu(s)) => extend_gpu(d, s),
        _ => Err(Error::Other(String::from_str("template kind mismatch during merge (cpu vs gpu)"))),
    }
}

/// The signature of a template: its name pattern, category, `bp` and `s`
/// (none for a kernel template), and its argument keys sorted.
pub fn template_signature(t: &Template) -> (sig: EventSignature)
    ensures
        sig.normalized_name@ == t.pattern_view(),
        match t {
            Template::Cpu(m) => sig.cat == m.cat && sig.bp == m.bp && sig.s == m.s && sorted_keys_of(
                sig.arg_keys@,
                string_list_view(m.arg_keys@),
            ),
            Template::Gpu(m) => sig.cat == m.cat && sig.bp is None && sig.s is None && sorted_keys_of(
                sig.arg_keys@,
                string_list_view(m.arg_keys@),
            ),
        },
{
    match t {
        Template::Cpu(m) => EventSignature {
            normalized_name: m.name_pattern.clone(),
            cat: copy_opt_string(&m.cat),
            bp: copy_opt_string(&m.bp),
            s: copy_opt_string(&m.s),
            arg_keys: sorted_copy(&m.arg_keys),
        },
        Template::Gpu(m) => EventSignature {
            normalized_name: m.name_pattern.clone(),
            cat: copy_opt_string(&m.cat),
            bp: None,
            s: None,
            arg_keys: sorted_copy(&m.arg_keys),
        },
    }
}

} // verus!
