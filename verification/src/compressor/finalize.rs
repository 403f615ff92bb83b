//! Per-template column compaction, once every instance has been appended.

use vstd::prelude::*;

use crate::args::{bool_of, compacted_shape, finite_float, same_arg, str_of, ArgShape, ArgValue};
use crate::compressor::config::CompressorConfig;
use crate::event::{
    all_same, const_seq, fits_i32, ArgColumn, MergeEvent, MergeKernelEvent, NumColumn, PhaseColumn, StringColumn,
    Template,
};

verus! {

/// What compacting an integer column makes of it: `Empty` without values,
/// a constant when every value is equal, else the same values in `i32` or
/// `i64` storage.
pub open spec fn num_compacted(o: NumColumn, n: NumColumn) -> bool {
    &&& o@.len() == 0 ==> n == NumColumn::Empty
    &&& o@.len() != 0 && all_same(o@) ==> n == (NumColumn::Constant { len: o@.len() as u32, value: o@[0] })
    &&& o@.len() != 0 && !all_same(o@) && fits_i32(o@) ==> n is I32 && n@ == o@
    &&& o@.len() != 0 && !all_same(o@) && !fits_i32(o@) ==> n is I64 && n@ == o@
}

/// What compacting a string column makes of it: `Empty` without values, a
/// constant when every string is equal, else the column unchanged.
pub open spec fn string_compacted(o: StringColumn, n: StringColumn) -> bool {
    &&& o@.len() == 0 ==> n == StringColumn::Empty
    &&& o@.len() != 0 && all_same(o@) ==> n@ == const_seq(o@.len() as u32 as nat, o@[0]) && n is Constant
    &&& o@.len() != 0 && !all_same(o@) ==> n == o
}

/// What compacting a phase column makes of it: `Empty` without values, a
/// constant when every phase is equal, else the column unchanged.
pub open spec fn phase_compacted(o: PhaseColumn, n: PhaseColumn) -> bool {
    &&& o@.len() == 0 ==> n == PhaseColumn::Empty
    &&& o@.len() != 0 && all_same(o@) ==> n == (PhaseColumn::Constant { len: o@.len() as u32, value: o@[0] })
    &&& o@.len() != 0 && !all_same(o@) ==> n == o
}

/// What compacting an argument column makes of it (see
/// [`ArgColumn::compact`]).
pub open spec fn arg_compacted(o: ArgColumn, n: ArgColumn) -> bool {
    match o {
        ArgColumn::PerInstance(vals) => if vals@.len() == 0 {
            n == o
        } else {
            match compacted_shape(vals@) {
                Some(shape) => n.has_shape(shape, vals@),
                None => n == o,
            }
        },
        _ => n == o,
    }
}

/// Every column still built per instance has at most `u32::MAX` values.
pub open spec fn columns_fit(cols: Seq<ArgColumn>) -> bool {
    forall|k: int| 0 <= k < cols.len() && (#[trigger] cols[k]) is PerInstance ==> cols[k]->PerInstance_0@.len() <= u32::MAX
}

/// Compacts every argument column.
fn compact_arg_columns(cols: &mut Vec<ArgColumn>)
    requires
        columns_fit(old(cols)@),
    ensures
        final(cols)@.len() == old(cols)@.len(),
        forall|k: int| 0 <= k < old(cols)@.len() ==> arg_compacted(old(cols)@[k], #[trigger] final(cols)@[k]),
{
    let ghost before = cols@;
    let mut k: usize = 0;
    while k < cols.len()
        invariant
            cols@.len() == before.len(),
            columns_fit(before),
            k <= cols@.len(),
            forall|j: int| 0 <= j < k ==> arg_compacted(before[j], #[trigger] cols@[j]),
            forall|j: int| k <= j < cols@.len() ==> #[trigger] cols@[j] == before[j],
        decreases cols@.len() - k,
    {
        let mut col = ArgColumn::Constant(ArgValue::Null);
        std::mem::swap(&mut col, &mut cols[k]);
        proof {
            assert(col == before[k as int]);
        }
        col.compact();
        std::mem::swap(&mut col, &mut cols[k]);
        k += 1;
    }
}

/// Compacts a CPU template's columns once its instances are all in: its
/// argument columns when argument compaction is on, and its `ts`, `dur`
/// and `id` columns.  Every instance keeps its values.
pub fn compact_cpu_template(t: &mut MergeEvent, config: &CompressorConfig)
    requires
        config.enable_args_dedup ==> columns_fit(old(t).args_columns@),
    ensures
        final(t).name_pattern == old(t).name_pattern,
        final(t).name_nums == old(t).name_nums,
        final(t).cat == old(t).cat,
        final(t).bp == old(t).bp,
        final(t).s == old(t).s,
        final(t).arg_keys == old(t).arg_keys,
        config.enable_args_dedup ==> final(t).args_columns@.len() == old(t).args_columns@.len() && forall|k: int|
            0 <= k < old(t).args_columns@.len() ==> arg_compacted(
                old(t).args_columns@[k],
                #[trigger] final(t).args_columns@[k],
            ),
        !config.enable_args_dedup ==> final(t).args_columns == old(t).args_columns,
        num_compacted(old(t).ts, final(t).ts),
        num_compacted(old(t).dur, final(t).dur),
        num_compacted(old(t).id, final(t).id),
{
    if config.enable_args_dedup {
        compact_arg_columns(&mut t.args_columns);
    }
    t.ts.compact();
    t.dur.compact();
    t.id.compact();
}

/// Compacts a GPU template's columns once its instances are all in: its
/// argument columns when argument compaction is on, and its `ts`, `dur`,
/// `pid`, stream and phase columns.  Every instance keeps its values.
pub fn compact_gpu_template(t: &mut MergeKernelEvent, config: &CompressorConfig)
    requires
        config.enable_args_dedup ==> columns_fit(old(t).args_columns@),
    ensures
        final(t).name_pattern == old(t).name_pattern,
        final(t).name_nums == old(t).name_nums,
        final(t).cat == old(t).cat,
        final(t).arg_keys == old(t).arg_keys,
        config.enable_args_dedup ==> final(t).args_columns@.len() == old(t).args_columns@.len() && forall|k: int|
            0 <= k < old(t).args_columns@.len() ==> arg_compacted(
                old(t).args_columns@[k],
                #[trigger] final(t).args_columns@[k],
            ),
        !config.enable_args_dedup ==> final(t).args_columns == old(t).args_columns,
        num_compacted(old(t).ts, final(t).ts),
        num_compacted(old(t).dur, final(t).dur),
        num_compacted(old(t).pid, final(t).pid),
        string_compacted(old(t).stream_tid, final(t).stream_tid),
        phase_compacted(old(t).ph, final(t).ph),
{
    if config.enable_args_dedup {
        compact_arg_columns(&mut t.args_columns);
    }
    t.ts.compact();
    t.dur.compact();
    t.pid.compact();
    t.stream_tid.compact();
    t.ph.compact();
}

/// The argument columns `n` are `o` compacted when argument compaction is
/// on, else `o` itself.
pub open spec fn args_compacted(o: Vec<ArgColumn>, n: Vec<ArgColumn>, config: CompressorConfig) -> bool {
    &&& config.enable_args_dedup ==> n@.len() == o@.len() && forall|k: int|
        0 <= k < o@.len() ==> arg_compacted(o@[k], #[trigger] n@[k])
    &&& !config.enable_args_dedup ==> n == o
}

/// `n` is the template `o` with its columns compacted: the same kind and
/// shared fields, and every column compacted.
pub open spec fn template_compacted(o: Template, n: Template, config: CompressorConfig) -> bool {
    match (o, n) {
        (Template::Cpu(a), Template::Cpu(b)) => {
            &&& b.name_pattern == a.name_pattern
            &&& b.name_nums == a.name_nums
            &&& b.cat == a.cat
            &&& b.bp == a.bp
            &&& b.s == a.s
            &&& b.arg_keys == a.arg_keys
            &&& args_compacted(a.args_columns, b.args_columns, config)
            &&& num_compacted(a.ts, b.ts)
            &&& num_compacted(a.dur, b.dur)
            &&& num_compacted(a.id, b.id)
        },
        (Template::Gpu(a), Template::Gpu(b)) => {
            &&& b.name_pattern == a.name_pattern
            &&& b.name_nums == a.name_nums
            &&& b.cat == a.cat
            &&& b.arg_keys == a.arg_keys
            &&& args_compacted(a.args_columns, b.args_columns, config)
            &&& num_compacted(a.ts, b.ts)
            &&& num_compacted(a.dur, b.dur)
            &&& num_compacted(a.pid, b.pid)
            &&& string_compacted(a.stream_tid, b.stream_tid)
            &&& phase_compacted(a.ph, b.ph)
        },
        _ => false,
    }
}

/// Every template's argument columns fit (when argument compaction is on).
pub open spec fn templates_fit(templates: Seq<Template>, config: CompressorConfig) -> bool {
    config.enable_args_dedup ==> forall|t: int|
        0 <= t < templates.len() ==> columns_fit(
            match #[trigger] templates[t] {
                Template::Cpu(m) => m.args_columns@,
                Template::Gpu(g) => g.args_columns@,
            },
        )
}

/// Compacts the columns of every template, once all instances are in.
pub fn finalize_templates(templates: &mut Vec<Template>, config: &CompressorConfig)
    requires
        templates_fit(old(templates)@, *config),
    ensures
        final(templates)@.len() == old(templates)@.len(),
        forall|t: int|
            0 <= t < old(templates)@.len() ==> template_compacted(
                old(templates)@[t],
                #[trigger] final(templates)@[t],
                *config,
            ),
{
    let ghost before = templates@;
    let mut t: usize = 0;
    while t < templates.len()
        invariant
            templates@.len() == before.len(),
            templates_fit(before, *config),
            t <= templates@.len(),
            forall|j: int| 0 <= j < t ==> template_compacted(before[j], #[trigger] templates@[j], *config),
            forall|j: int| t <= j < templates@.len() ==> #[trigger] templates@[j] == before[j],
        decreases templates@.len() - t,
    {
        let mut cur = Template::Cpu(MergeEvent {
            name_pattern: String::new(),
            name_nums: crate::event::NameNums::Empty,
            cat: None,
            bp: None,
            s: None,
            arg_keys: Vec::new(),
            args_columns: Vec::new(),
            ts: NumColumn::Empty,
            dur: NumColumn::Empty,
            id: NumColumn::Empty,
        });
        std::mem::swap(&mut cur, &mut templates[t]);
        proof {
            assert(cur == before[t as int]);
        }
        let done = match cur {
            Template::Cpu(mut m) => {
                compact_cpu_template(&mut m, config);
                Template::Cpu(m)
            },
            Template::Gpu(mut g) => {
                compact_gpu_template(&mut g, config);
                Template::Gpu(g)
            },
        };
        let mut back = done;
        std::mem::swap(&mut back, &mut templates[t]);
        t += 1;
    }
}

/// Compacting an integer column keeps every instance's value (for a column
/// whose length fits the constant form's `u32` count).
pub proof fn lemma_num_compact_keeps_values(o: NumColumn, n: NumColumn)
    requires
        num_compacted(o, n),
        o@.len() <= u32::MAX,
    ensures
        n@ == o@,
{
    if o@.len() != 0 && all_same(o@) {
        assert(n@ =~= o@);
    } else if o@.len() == 0 {
        assert(n@ =~= o@);
    }
}

/// Compacting a string column keeps every instance's string (for a column
/// whose length fits the constant form's `u32` count).
pub proof fn lemma_string_compact_keeps_values(o: StringColumn, n: StringColumn)
    requires
        string_compacted(o, n),
        o@.len() <= u32::MAX,
    ensures
        n@ == o@,
{
    if o@.len() != 0 && all_same(o@) {
        assert(n@ =~= o@);
    } else if o@.len() == 0 {
        assert(n@ =~= o@);
    }
}

/// Compacting a phase column keeps every instance's phase (for a column
/// whose length fits the constant form's `u32` count).
pub proof fn lemma_phase_compact_keeps_values(o: PhaseColumn, n: PhaseColumn)
    requires
        phase_compacted(o, n),
        o@.len() <= u32::MAX,
    ensures
        n@ == o@,
{
    if o@.len() != 0 && all_same(o@) {
        assert(n@ =~= o@);
    } else if o@.len() == 0 {
        assert(n@ =~= o@);
    }
}

/// Compacting an argument column is lossless: the compacted column answers
/// every instance with a value equal, as JSON, to the one it held (for
/// doubles that JSON can hold, that is finite ones).
pub proof fn lemma_arg_compact_keeps_values(o: ArgColumn, n: ArgColumn, i: int)
    requires
        arg_compacted(o, n),
        o is PerInstance,
        0 <= i < o->PerInstance_0@.len(),
        o->PerInstance_0@[i] is Float ==> finite_float(o->PerInstance_0@[i]->Float_0),
    ensures
        n.spec_get(i) matches Some(v) && same_arg(v, o->PerInstance_0@[i]),
{
    let vals = o->PerInstance_0@;
    let x = vals[i];
    match compacted_shape(vals) {
        Some(shape) => {
            match shape {
                ArgShape::Constant(c) => {
                    assert(same_arg(vals[i], vals[0]));
                    assert(c == vals[0]);
                    assert(n.spec_get(i) matches Some(v) && same_arg(v, vals[i]));
                },
                ArgShape::Bool(b) => {
                    assert(vals[i] is Bool);
                    let w = n->Bool_0;
                    assert(w@[i] == b[i]);
                    assert(b[i] == (if bool_of(vals[i]) { 1u8 } else { 0u8 }));
                    assert(vals[i] == ArgValue::Bool(bool_of(vals[i])));
                    assert(n.spec_get(i) == Some(ArgValue::Bool(w@[i] != 0)));
                    assert(n.spec_get(i) matches Some(v) && same_arg(v, vals[i]));
                },
                ArgShape::I32(xs) => {
                    assert(vals[i] is Int);
                    let w = n->I32_0;
                    assert(w@.map(|_j: int, y: i32| y as i64)[i] == xs[i]);
                    assert(n.spec_get(i) matches Some(v) && same_arg(v, vals[i]));
                },
                ArgShape::I64(xs) => {
                    assert(vals[i] is Int);
                    assert(n.spec_get(i) matches Some(v) && same_arg(v, vals[i]));
                },
                ArgShape::F64(fs) => {
                    assert(vals[i] is Float);
                    assert(fs[i] == vals[i]->Float_0);
                    assert(n.spec_get(i) == Some(ArgValue::Float(fs[i])));
                    assert(same_arg(ArgValue::Float(fs[i]), vals[i]));
                    assert(n.spec_get(i) matches Some(v) && same_arg(v, vals[i]));
                },
                ArgShape::StrDict(d) => {
                    assert(vals[i] is Str);
                    let dict = n->StrDict_dict;
                    let ids = n->StrDict_ids;
                    assert(ids@[i] < d.len() && d[ids@[i] as int] == str_of(vals[i]));
                    assert(dict@.map(|_j: int, s: String| s@)[ids@[i] as int] == d[ids@[i] as int]);
                    assert(n.spec_get(i) matches Some(v) && same_arg(v, vals[i]));
                },
                ArgShape::Str(xs) => {
                    assert(vals[i] is Str);
                    let w = n->Str_0;
                    assert(w@.map(|_j: int, s: String| s@)[i] == xs[i]);
                    assert(n.spec_get(i) matches Some(v) && same_arg(v, vals[i]));
                },
            }
        },
        None => {
            assert(n == o);
            assert(n.spec_get(i) == Some(vals[i]));
            assert(same_arg(vals[i], vals[i]));
        },
    }
}

} // verus!
