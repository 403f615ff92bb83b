//! The template compressor: events with the same signature share one
//! template, which keeps each of them as one more instance.
//!
//! Signatures are indexed by their texts: every text is interned in a
//! dictionary, and the ids of a signature's texts, behind a kind tag, are
//! interned as a key whose id is the template's id.

use vstd::prelude::*;

use crate::analysis::layer_gpu::opt_view;
use crate::compressor::append::{append_to_kernel, append_to_merge, columns_appended, name_nums_appended, opt_pushed};
use crate::compressor::config::CompressorConfig;
use crate::compressor::finalize::{columns_fit, finalize_templates, template_compacted, templates_fit};
use crate::compressor::rebuild::{
    col_at, decoded_args, expected_args, lemma_cpu_instance_reads_back, lemma_gpu_instance_reads_back,
};
use crate::dict::{SeqDict, StringDict};
use crate::event::{
    arg_keys_of, copy_opt_string, lemma_sorted_texts_unique, sorted_keys_of, string_list_view, ArgColumn, Event,
    EventSignature, MergeEvent, MergeKernelEvent, NameNums, NumColumn, PhaseColumn, StringColumn, Template,
};
use crate::text::{bytes_le, utf8};

verus! {

/// A template signature by its texts: the normalized name, the category,
/// the binding point, the scope and the argument keys.
pub type SigView = (Seq<char>, Option<Seq<char>>, Option<Seq<char>>, Option<Seq<char>>, Seq<Seq<char>>);

/// The texts of a signature.
pub open spec fn sig_view(sig: EventSignature) -> SigView {
    (sig.normalized_name@, opt_view(sig.cat), opt_view(sig.bp), opt_view(sig.s), string_list_view(sig.arg_keys@))
}

/// `sig` is the signature of `event` when its name normalizes to `name`:
/// that name, the event's category, binding point and scope, and its
/// argument keys in ascending byte order.
pub open spec fn event_sig_is(event: Event, name: Seq<char>, sig: SigView) -> bool {
    &&& sig.0 == name
    &&& sig.1 == opt_view(event.cat)
    &&& sig.2 == opt_view(event.bp)
    &&& sig.3 == opt_view(event.s)
    &&& sig.4.to_multiset() == arg_keys_of(event.args).to_multiset()
    &&& forall|i: int, j: int| 0 <= i < j < sig.4.len() ==> bytes_le(utf8(sig.4[i]), utf8(sig.4[j]))
}

/// An optional text by its code: 0 for none, else one more than its id.
pub open spec fn code_text(strings: Seq<Seq<char>>, c: u32) -> Option<Seq<char>> {
    if c == 0 {
        None
    } else {
        Some(strings[c - 1])
    }
}

/// A key encodes a signature against `strings`: a kind tag (0 for CPU, 1
/// for GPU), the name's id, the codes of the category, binding point and
/// scope, then the ids of the argument keys.
pub open spec fn key_valid(strings: Seq<Seq<char>>, key: Seq<u32>) -> bool {
    &&& key.len() >= 5
    &&& key[0] <= 1
    &&& (key[1] as int) < strings.len()
    &&& (key[2] as int) <= strings.len()
    &&& (key[3] as int) <= strings.len()
    &&& (key[4] as int) <= strings.len()
    &&& forall|k: int| 5 <= k < key.len() ==> (#[trigger] key[k] as int) < strings.len()
}

/// The signature that a key stands for.
pub open spec fn key_sig(strings: Seq<Seq<char>>, key: Seq<u32>) -> SigView {
    (
        strings[key[1] as int],
        code_text(strings, key[2]),
        code_text(strings, key[3]),
        code_text(strings, key[4]),
        key.skip(5).map_values(|i: u32| strings[i as int]),
    )
}

/// No text occurs twice.
pub open spec fn texts_distinct(strings: Seq<Seq<char>>) -> bool {
    forall|i: int, j: int| 0 <= i < j < strings.len() ==> strings[i] != strings[j]
}

/// Against distinct texts, two valid keys of one kind that stand for the
/// same signature are the same key.
pub(crate) proof fn lemma_key_injective(strings: Seq<Seq<char>>, a: Seq<u32>, b: Seq<u32>)
    requires
        texts_distinct(strings),
        key_valid(strings, a),
        key_valid(strings, b),
        a[0] == b[0],
        key_sig(strings, a) == key_sig(strings, b),
    ensures
        a == b,
{
    assert(a[1] == b[1]) by {
        if a[1] < b[1] {
            assert(strings[a[1] as int] != strings[b[1] as int]);
        } else if b[1] < a[1] {
            assert(strings[b[1] as int] != strings[a[1] as int]);
        }
    }
    assert forall|k: int| 2 <= k < 5 implies a[k] == b[k] by {
        assert(code_text(strings, a[k]) == code_text(strings, b[k])) by {
            if k == 2 {
            } else if k == 3 {
            } else {
            }
        }
        if a[k] != 0 && b[k] != 0 && a[k] != b[k] {
            if a[k] < b[k] {
                assert(strings[a[k] - 1] != strings[b[k] - 1]);
            } else {
                assert(strings[b[k] - 1] != strings[a[k] - 1]);
            }
        }
    }
    let ka = a.skip(5).map_values(|i: u32| strings[i as int]);
    let kb = b.skip(5).map_values(|i: u32| strings[i as int]);
    assert(ka == kb);
    assert(a.len() == b.len()) by {
        assert(ka.len() == a.len() - 5);
        assert(kb.len() == b.len() - 5);
    }
    assert forall|k: int| 5 <= k < a.len() implies a[k] == b[k] by {
        assert(ka[k - 5] == strings[a[k] as int]);
        assert(kb[k - 5] == strings[b[k] as int]);
        if a[k] < b[k] {
            assert(strings[a[k] as int] != strings[b[k] as int]);
        } else if b[k] < a[k] {
            assert(strings[b[k] as int] != strings[a[k] as int]);
        }
    }
    assert(a =~= b);
}

/// A dictionary that only grew keeps the ids of its earlier texts.
pub open spec fn grown_from(old: Seq<Seq<char>>, new: Seq<Seq<char>>) -> bool {
    &&& old.len() <= new.len()
    &&& forall|i: int| 0 <= i < old.len() ==> #[trigger] new[i] == old[i]
}

/// A key that is valid against texts stays valid, for the same signature,
/// once more texts are added.
pub(crate) proof fn lemma_key_grown(old: Seq<Seq<char>>, new: Seq<Seq<char>>, key: Seq<u32>)
    requires
        grown_from(old, new),
        key_valid(old, key),
    ensures
        key_valid(new, key),
        key_sig(new, key) == key_sig(old, key),
{
    assert(new[key[1] as int] == old[key[1] as int]);
    assert forall|k: int| 2 <= k < 5 implies code_text(new, #[trigger] key[k]) == code_text(old, key[k]) by {
        if key[k] != 0 {
            assert(new[key[k] - 1] == old[key[k] - 1]);
        }
    }
    assert(code_text(new, key[2]) == code_text(old, key[2]));
    assert(code_text(new, key[3]) == code_text(old, key[3]));
    assert(code_text(new, key[4]) == code_text(old, key[4]));
    let kn = key.skip(5).map_values(|i: u32| new[i as int]);
    let ko = key.skip(5).map_values(|i: u32| old[i as int]);
    assert forall|j: int| 0 <= j < kn.len() implies kn[j] == ko[j] by {
        assert(key.skip(5)[j] == key[j + 5]);
        assert(new[key[j + 5] as int] == old[key[j + 5] as int]);
    }
    assert(kn =~= ko);
}

/// The code of an optional text, interning it when present.
fn opt_code(strings: &mut StringDict, o: &Option<String>) -> (c: u32)
    requires
        old(strings).wf(),
        old(strings)@.len() < u32::MAX,
    ensures
        final(strings).wf(),
        grown_from(old(strings)@, final(strings)@),
        final(strings)@.len() <= old(strings)@.len() + 1,
        (c as int) <= final(strings)@.len(),
        code_text(final(strings)@, c) == opt_view(*o),
{
    match o {
        None => 0,
        Some(x) => {
            let id = strings.intern(x.as_str());
            id + 1
        },
    }
}

/// The key of a signature of the given kind, interning its texts.
pub(crate) fn encode_sig(strings: &mut StringDict, kind: u32, sig: &EventSignature) -> (key: Vec<u32>)
    requires
        old(strings).wf(),
        kind <= 1,
        old(strings)@.len() + 4 + sig.arg_keys@.len() <= u32::MAX,
    ensures
        final(strings).wf(),
        grown_from(old(strings)@, final(strings)@),
        final(strings)@.len() <= old(strings)@.len() + 4 + sig.arg_keys@.len(),
        key_valid(final(strings)@, key@),
        key@[0] == kind,
        key_sig(final(strings)@, key@) == sig_view(*sig),
{
    let ghost s0 = strings@;
    let mut key: Vec<u32> = Vec::new();
    key.push(kind);
    let name = strings.intern(sig.normalized_name.as_str());
    key.push(name);
    let ghost s1 = strings@;
    let cat = opt_code(strings, &sig.cat);
    let ghost s2 = strings@;
    let bp = opt_code(strings, &sig.bp);
    let ghost s3 = strings@;
    let sc = opt_code(strings, &sig.s);
    let ghost s4 = strings@;
    key.push(cat);
    key.push(bp);
    key.push(sc);
    proof {
        assert(s4[name as int] == sig.normalized_name@);
        if cat != 0 {
            assert(s4[cat - 1] == s2[cat - 1]);
        }
        if bp != 0 {
            assert(s4[bp - 1] == s3[bp - 1]);
        }
        assert(code_text(s4, cat) == code_text(s2, cat));
        assert(code_text(s4, bp) == code_text(s3, bp));
    }
    let mut i: usize = 0;
    while i < sig.arg_keys.len()
        invariant
            strings.wf(),
            grown_from(s0, strings@),
            grown_from(s4, strings@),
            strings@.len() <= s0.len() + 4 + i,
            s0.len() + 4 + sig.arg_keys@.len() <= u32::MAX,
            i <= sig.arg_keys@.len(),
            key@.len() == 5 + i,
            key@[0] == kind,
            key@[1] == name,
            key@[2] == cat,
            key@[3] == bp,
            key@[4] == sc,
            (name as int) < s4.len(),
            (cat as int) <= s4.len(),
            (bp as int) <= s4.len(),
            (sc as int) <= s4.len(),
            s4[name as int] == sig.normalized_name@,
            code_text(s4, cat) == opt_view(sig.cat),
            code_text(s4, bp) == opt_view(sig.bp),
            code_text(s4, sc) == opt_view(sig.s),
            forall|k: int| 5 <= k < key@.len() ==> (#[trigger] key@[k] as int) < strings@.len(),
            forall|k: int| 5 <= k < key@.len() ==> strings@[#[trigger] key@[k] as int] == sig.arg_keys@[k - 5]@,
        decreases sig.arg_keys@.len() - i,
    {
        let ghost before = strings@;
        let id = strings.intern(sig.arg_keys[i].as_str());
        let ghost kb = key@;
        key.push(id);
        i += 1;
        proof {
            assert forall|k: int| 5 <= k < key@.len() implies strings@[#[trigger] key@[k] as int] == sig.arg_keys@[k - 5]@ by {
                if k < key@.len() - 1 {
                    assert(key@[k] == kb[k]);
                    assert(strings@[kb[k] as int] == before[kb[k] as int]);
                }
            }
        }
    }
    proof {
        let sn = strings@;
        lemma_key_grown(s4, sn, seq![kind, name, cat, bp, sc]);
        assert(sn[name as int] == s4[name as int]);
        if cat != 0 {
            assert(sn[cat - 1] == s4[cat - 1]);
        }
        if bp != 0 {
            assert(sn[bp - 1] == s4[bp - 1]);
        }
        if sc != 0 {
            assert(sn[sc - 1] == s4[sc - 1]);
        }
        let ks = key@.skip(5).map_values(|i: u32| sn[i as int]);
        assert(ks =~= string_list_view(sig.arg_keys@)) by {
            assert forall|j: int| 0 <= j < ks.len() implies ks[j] == string_list_view(sig.arg_keys@)[j] by {
                assert(key@.skip(5)[j] == key@[j + 5]);
            }
        }
    }
    key
}

/// The kind tag of a template: 0 for CPU, 1 for GPU.
pub open spec fn kind_code(t: Template) -> u32 {
    match t {
        Template::Cpu(_) => 0,
        Template::Gpu(_) => 1,
    }
}

/// The template's shared fields are the signature's: name, category,
/// binding point and scope (CPU only), and argument keys.
pub open spec fn template_agrees(t: Template, sig: SigView) -> bool {
    match t {
        Template::Cpu(m) => {
            &&& m.name_pattern@ == sig.0
            &&& opt_view(m.cat) == sig.1
            &&& opt_view(m.bp) == sig.2
            &&& opt_view(m.s) == sig.3
            &&& string_list_view(m.arg_keys@) == sig.4
        },
        Template::Gpu(g) => {
            &&& g.name_pattern@ == sig.0
            &&& opt_view(g.cat) == sig.1
            &&& string_list_view(g.arg_keys@) == sig.4
        },
    }
}

/// Instances can be appended: the name digits are kept per instance, and
/// there is one per-instance argument column for each key, holding a value
/// for every instance; the optional columns hold at most one value per
/// instance, the placement columns exactly one.
pub open spec fn appendable(t: Template) -> bool {
    match t {
        Template::Cpu(m) => {
            &&& !(m.name_nums is Columnar)
            &&& m.args_columns@.len() == m.arg_keys@.len()
            &&& forall|k: int|
                0 <= k < m.args_columns@.len() ==> #[trigger] m.args_columns@[k] is PerInstance
                    && m.args_columns@[k]->PerInstance_0@.len() == m.ts@.len()
            &&& m.dur@.len() <= m.ts@.len()
            &&& m.id@.len() <= m.ts@.len()
        },
        Template::Gpu(g) => {
            &&& !(g.name_nums is Columnar)
            &&& g.args_columns@.len() == g.arg_keys@.len()
            &&& forall|k: int|
                0 <= k < g.args_columns@.len() ==> #[trigger] g.args_columns@[k] is PerInstance
                    && g.args_columns@[k]->PerInstance_0@.len() == g.ts@.len()
            &&& g.dur@.len() <= g.ts@.len()
            &&& g.pid@.len() == g.ts@.len()
            &&& g.stream_tid@.len() == g.ts@.len()
            &&& g.ph@.len() == g.ts@.len()
        },
    }
}

/// A CPU template before its first instance: no values yet, and one empty
/// per-instance column per argument key.
pub open spec fn blank_cpu(m: MergeEvent) -> bool {
    &&& m.ts@.len() == 0
    &&& m.dur@.len() == 0
    &&& m.id@.len() == 0
    &&& m.name_nums is Empty
    &&& m.args_columns@.len() == m.arg_keys@.len()
    &&& forall|k: int|
        0 <= k < m.args_columns@.len() ==> #[trigger] m.args_columns@[k] is PerInstance
            && m.args_columns@[k]->PerInstance_0@.len() == 0
}

/// A GPU template before its first instance.
pub open spec fn blank_gpu(g: MergeKernelEvent) -> bool {
    &&& g.ts@.len() == 0
    &&& g.dur@.len() == 0
    &&& g.pid@.len() == 0
    &&& g.stream_tid@.len() == 0
    &&& g.ph@.len() == 0
    &&& g.name_nums is Empty
    &&& g.args_columns@.len() == g.arg_keys@.len()
    &&& forall|k: int|
        0 <= k < g.args_columns@.len() ==> #[trigger] g.args_columns@[k] is PerInstance
            && g.args_columns@[k]->PerInstance_0@.len() == 0
}

/// `n` is `o` with `event` appended as instance `inst`, its name digits
/// being `nums`.
pub open spec fn cpu_appended(o: MergeEvent, n: MergeEvent, event: Event, nums: Seq<String>, inst: u32) -> bool {
    &&& inst == o.ts@.len()
    &&& n.ts@ == o.ts@.push(event.ts)
    &&& opt_pushed(o.dur@, n.dur@, event.dur)
    &&& opt_pushed(o.id@, n.id@, event.id)
    &&& columns_appended(o.args_columns@, n.args_columns@, o.arg_keys@, event, o.args_columns@.len() as int)
    &&& name_nums_appended(o.name_nums, n.name_nums, nums)
    &&& n.name_pattern == o.name_pattern
    &&& n.cat == o.cat
    &&& n.bp == o.bp
    &&& n.s == o.s
    &&& n.arg_keys == o.arg_keys
}

/// `n` is `o` with `event`, on the GPU stream `tid`, appended as instance
/// `inst`, its name digits being `nums`.
pub open spec fn gpu_appended(
    o: MergeKernelEvent,
    n: MergeKernelEvent,
    event: Event,
    tid: Seq<char>,
    nums: Seq<String>,
    inst: u32,
) -> bool {
    &&& inst == o.ts@.len()
    &&& n.ts@ == o.ts@.push(event.ts)
    &&& opt_pushed(o.dur@, n.dur@, event.dur)
    &&& n.pid@ == o.pid@.push(event.pid)
    &&& n.stream_tid@ == o.stream_tid@.push(tid)
    &&& n.ph@ == o.ph@.push(event.ph.0)
    &&& columns_appended(o.args_columns@, n.args_columns@, o.arg_keys@, event, o.args_columns@.len() as int)
    &&& name_nums_appended(o.name_nums, n.name_nums, nums)
    &&& n.name_pattern == o.name_pattern
    &&& n.cat == o.cat
    &&& n.arg_keys == o.arg_keys
}

/// `new` only added to `old`: every template of `old` keeps its kind and
/// signature, and its instances' timestamps come first in `new`.
pub open spec fn grew(old: TemplateCompressor, new: TemplateCompressor) -> bool {
    &&& old.templates_view().len() <= new.templates_view().len()
    &&& forall|t: int|
        0 <= t < old.templates_view().len() ==> {
            &&& #[trigger] new.sig_at(t) == old.sig_at(t)
            &&& kind_code(new.templates_view()[t]) == kind_code(old.templates_view()[t])
            &&& old.templates_view()[t].ts_view().is_prefix_of(new.templates_view()[t].ts_view())
        }
}

/// After interning an event of the kind (GPU when `gpu`) as template
/// `tid`: that template has the event's signature; it is the template that
/// already had it, or else a new template at the end; every other template
/// and every signature stayed as it was.
pub open spec fn interned_common(
    old: TemplateCompressor,
    new: TemplateCompressor,
    event: Event,
    name: Seq<char>,
    gpu: bool,
    tid: u32,
) -> bool {
    &&& new.matches_at(tid as int, event, name, gpu)
    &&& if old.has_match(event, name, gpu) {
        &&& old.matches_at(tid as int, event, name, gpu)
        &&& new.templates_view().len() == old.templates_view().len()
    } else {
        &&& tid == old.templates_view().len()
        &&& new.templates_view().len() == old.templates_view().len() + 1
    }
    &&& forall|t: int|
        0 <= t < old.templates_view().len() && t != tid ==> #[trigger] new.templates_view()[t] == old.templates_view()[t]
    &&& forall|t: int| 0 <= t < old.templates_view().len() ==> #[trigger] new.sig_at(t) == old.sig_at(t)
}

/// After interning a CPU event as instance `inst` of template `tid`: the
/// template is the one it was (or a blank one with the event's signature)
/// with the event appended.
pub open spec fn cpu_interned(
    old: TemplateCompressor,
    new: TemplateCompressor,
    event: Event,
    name: Seq<char>,
    nums: Seq<String>,
    tid: u32,
    inst: u32,
) -> bool {
    &&& interned_common(old, new, event, name, false, tid)
    &&& new.templates_view()[tid as int] is Cpu
    &&& exists|o: MergeEvent|
        #![trigger cpu_appended(o, new.templates_view()[tid as int]->Cpu_0, event, nums, inst)]
        {
            &&& if (tid as int) < old.templates_view().len() {
                old.templates_view()[tid as int] == Template::Cpu(o)
            } else {
                blank_cpu(o) && template_agrees(Template::Cpu(o), new.sig_at(tid as int))
            }
            &&& cpu_appended(o, new.templates_view()[tid as int]->Cpu_0, event, nums, inst)
        }
}

/// A CPU template with the given shared fields and no instance.
fn blank_cpu_template(
    name_pattern: String,
    cat: Option<String>,
    bp: Option<String>,
    s: Option<String>,
    arg_keys: Vec<String>,
) -> (m: MergeEvent)
    ensures
        blank_cpu(m),
        m.name_pattern == name_pattern,
        m.cat == cat,
        m.bp == bp,
        m.s == s,
        m.arg_keys == arg_keys,
{
    let mut args_columns: Vec<ArgColumn> = Vec::new();
    let mut k: usize = 0;
    while k < arg_keys.len()
        invariant
            k <= arg_keys@.len(),
            args_columns@.len() == k,
            forall|j: int|
                0 <= j < k ==> #[trigger] args_columns@[j] is PerInstance && args_columns@[j]->PerInstance_0@.len() == 0,
        decreases arg_keys@.len() - k,
    {
        args_columns.push(ArgColumn::PerInstance(Vec::new()));
        k += 1;
    }
    MergeEvent {
        name_pattern,
        name_nums: NameNums::Empty,
        cat,
        bp,
        s,
        arg_keys,
        args_columns,
        ts: NumColumn::Empty,
        dur: NumColumn::Empty,
        id: NumColumn::Empty,
    }
}

/// After interning a GPU event on the stream `stream` as instance `inst`
/// of template `tid`: the template is the one it was (or a blank one with
/// the event's signature) with the event appended.
pub open spec fn gpu_interned(
    old: TemplateCompressor,
    new: TemplateCompressor,
    event: Event,
    stream: Seq<char>,
    name: Seq<char>,
    nums: Seq<String>,
    tid: u32,
    inst: u32,
) -> bool {
    &&& interned_common(old, new, event, name, true, tid)
    &&& new.templates_view()[tid as int] is Gpu
    &&& exists|o: MergeKernelEvent|
        #![trigger gpu_appended(o, new.templates_view()[tid as int]->Gpu_0, event, stream, nums, inst)]
        {
            &&& if (tid as int) < old.templates_view().len() {
                old.templates_view()[tid as int] == Template::Gpu(o)
            } else {
                blank_gpu(o) && template_agrees(Template::Gpu(o), new.sig_at(tid as int))
            }
            &&& gpu_appended(o, new.templates_view()[tid as int]->Gpu_0, event, stream, nums, inst)
        }
}

/// A GPU template with the given shared fields and no instance.
fn blank_gpu_template(name_pattern: String, cat: Option<String>, arg_keys: Vec<String>) -> (g: MergeKernelEvent)
    ensures
        blank_gpu(g),
        g.name_pattern == name_pattern,
        g.cat == cat,
        g.arg_keys == arg_keys,
{
    let mut args_columns: Vec<ArgColumn> = Vec::new();
    let mut k: usize = 0;
    while k < arg_keys.len()
        invariant
            k <= arg_keys@.len(),
            args_columns@.len() == k,
            forall|j: int|
                0 <= j < k ==> #[trigger] args_columns@[j] is PerInstance && args_columns@[j]->PerInstance_0@.len() == 0,
        decreases arg_keys@.len() - k,
    {
        args_columns.push(ArgColumn::PerInstance(Vec::new()));
        k += 1;
    }
    MergeKernelEvent {
        name_pattern,
        name_nums: NameNums::Empty,
        cat,
        arg_keys,
        args_columns,
        ts: NumColumn::Empty,
        dur: NumColumn::Empty,
        pid: NumColumn::Empty,
        stream_tid: StringColumn::Empty,
        ph: PhaseColumn::Empty,
    }
}

/// The signature of `event`, with its name normalized to `name`, as its
/// texts.
proof fn lemma_event_sig(event: Event, name: String, sig: EventSignature)
    requires
        sig.normalized_name == name,
        sig.cat == event.cat,
        sig.bp == event.bp,
        sig.s == event.s,
        sorted_keys_of(sig.arg_keys@, arg_keys_of(event.args)),
    ensures
        event_sig_is(event, name@, sig_view(sig)),
        forall|v: SigView| #[trigger] event_sig_is(event, name@, v) ==> v == sig_view(sig),
        sig.arg_keys@.len() == arg_keys_of(event.args).len(),
{
    let sv = sig_view(sig);
    assert(string_list_view(sig.arg_keys@).len() == sig.arg_keys@.len());
    assert forall|i: int, j: int| 0 <= i < j < sv.4.len() implies bytes_le(utf8(sv.4[i]), utf8(sv.4[j])) by {
        assert(sv.4[i] == sig.arg_keys@[i]@);
        assert(sv.4[j] == sig.arg_keys@[j]@);
    }
    assert forall|v: SigView| #[trigger] event_sig_is(event, name@, v) implies v == sv by {
        lemma_sorted_texts_unique(v.4, sv.4);
    }
    vstd::seq_lib::to_multiset_len(sv.4);
    vstd::seq_lib::to_multiset_len(arg_keys_of(event.args));
}

/// Builds templates from events: events with the same signature share a
/// template, which keeps each of them as one instance.
pub struct TemplateCompressor {
    config: CompressorConfig,
    templates: Vec<Template>,
    strings: StringDict,
    index: SeqDict,
}

impl TemplateCompressor {
    /// Each template has its signature's key in the index, under the same
    /// id, and can take more instances.
    pub closed spec fn wf(&self) -> bool {
        &&& self.strings.wf()
        &&& self.index.wf()
        &&& self.index@.len() == self.templates@.len()
        &&& self.templates@.len() <= u32::MAX
        &&& self.strings@.len() <= u32::MAX
        &&& forall|t: int| 0 <= t < self.templates@.len() ==> (#[trigger] self.templates@[t]).ts_view().len() <= u32::MAX
        &&& forall|t: int|
            0 <= t < self.templates@.len() ==> {
                &&& key_valid(self.strings@, #[trigger] self.index@[t])
                &&& self.index@[t][0] == kind_code(self.templates@[t])
                &&& template_agrees(self.templates@[t], key_sig(self.strings@, self.index@[t]))
                &&& appendable(self.templates@[t])
            }
    }

    /// The compression policy.
    pub closed spec fn config_view(&self) -> CompressorConfig {
        self.config
    }

    /// The compression policy.
    pub fn config(&self) -> (c: &CompressorConfig)
        ensures
            *c == self.config_view(),
    {
        &self.config
    }

    /// The templates, by id.
    pub closed spec fn templates_view(&self) -> Seq<Template> {
        self.templates@
    }

    /// The signature of template `t`.
    pub closed spec fn sig_at(&self, t: int) -> SigView {
        key_sig(self.strings@, self.index@[t])
    }

    /// How many distinct texts the signatures hold.
    pub closed spec fn text_count(&self) -> nat {
        self.strings@.len()
    }

    /// Some template of the kind (GPU when `gpu`) has the signature of
    /// `event` with its name normalized to `name`.
    pub open spec fn has_match(&self, event: Event, name: Seq<char>, gpu: bool) -> bool {
        exists|t: int|
            0 <= t < self.templates_view().len() && kind_code(self.templates_view()[t]) == (if gpu {
                1u32
            } else {
                0u32
            }) && #[trigger] event_sig_is(event, name, self.sig_at(t))
    }

    /// Template `t` is of the kind and has the signature of `event`.
    pub open spec fn matches_at(&self, t: int, event: Event, name: Seq<char>, gpu: bool) -> bool {
        &&& 0 <= t < self.templates_view().len()
        &&& kind_code(self.templates_view()[t]) == (if gpu {
            1u32
        } else {
            0u32
        })
        &&& event_sig_is(event, name, self.sig_at(t))
    }

    /// There is room to intern `event`: its template can take one more
    /// instance, or, when it has none, one more template and its texts fit
    /// in `u32` ids.
    pub open spec fn room_for(&self, event: Event, name: Seq<char>, gpu: bool) -> bool {
        if self.has_match(event, name, gpu) {
            forall|t: int| #[trigger] self.matches_at(t, event, name, gpu) ==> self.templates_view()[t].ts_view().len() < u32::MAX
        } else {
            &&& self.templates_view().len() < u32::MAX
            &&& self.text_count() + 4 + arg_keys_of(event.args).len() <= u32::MAX
        }
    }

    /// Template `t` agrees with its signature and can take more instances.
    pub proof fn lemma_template_sig(&self, t: int)
        requires
            self.wf(),
            0 <= t < self.templates_view().len(),
        ensures
            template_agrees(self.templates_view()[t], self.sig_at(t)),
            appendable(self.templates_view()[t]),
    {
        assert(key_valid(self.strings@, self.index@[t]));
    }

    /// Two templates of one kind have different signatures.
    pub proof fn lemma_sigs_distinct(&self, a: int, b: int)
        requires
            self.wf(),
            0 <= a < b < self.templates_view().len(),
            kind_code(self.templates_view()[a]) == kind_code(self.templates_view()[b]),
        ensures
            self.sig_at(a) != self.sig_at(b),
    {
        self.index.lemma_distinct();
        self.strings.lemma_distinct();
        if self.sig_at(a) == self.sig_at(b) {
            lemma_key_injective(self.strings@, self.index@[a], self.index@[b]);
        }
    }

    /// A compressor with no templates, under `config`.
    pub fn with_config(config: CompressorConfig) -> (c: Self)
        ensures
            c.wf(),
            c.templates_view().len() == 0,
            c.text_count() == 0,
            c.config_view() == config,
    {
        TemplateCompressor { config, templates: Vec::new(), strings: StringDict::new(), index: SeqDict::new() }
    }

    /// A compressor with no templates, with every technique on.
    pub fn new() -> (c: Self)
        ensures
            c.wf(),
            c.templates_view().len() == 0,
            c.text_count() == 0,
            c.config_view().enable_structural && c.config_view().enable_anchor_matching
                && c.config_view().enable_args_dedup && c.config_view().enable_kernel_links
                && c.config_view().enable_name_pattern,
    {
        Self::with_config(CompressorConfig::default())
    }

    /// How many distinct texts the signatures hold.
    pub fn text_len(&self) -> (n: usize)
        ensures
            n == self.text_count(),
    {
        self.strings.len()
    }

    /// The templates, by id.
    pub fn templates(&self) -> (t: &Vec<Template>)
        ensures
            t@ == self.templates_view(),
    {
        &self.templates
    }

    /// The template table once every event is in: each template with its
    /// columns compacted.
    pub fn finish(self) -> (ts: Vec<Template>)
        requires
            self.wf(),
        ensures
            ts@.len() == self.templates_view().len(),
            forall|t: int|
                0 <= t < self.templates_view().len() ==> template_compacted(
                    self.templates_view()[t],
                    #[trigger] ts@[t],
                    self.config_view(),
                ),
    {
        proof {
            assert forall|t: int| 0 <= t < self.templates@.len() implies columns_fit(
                match #[trigger] self.templates@[t] {
                    Template::Cpu(m) => m.args_columns@,
                    Template::Gpu(g) => g.args_columns@,
                },
            ) by {
                assert(key_valid(self.strings@, self.index@[t]));
                assert(appendable(self.templates@[t]));
                assert(self.templates@[t].ts_view().len() <= u32::MAX);
            }
        }
        let TemplateCompressor { config, templates, strings: _, index: _ } = self;
        let mut templates = templates;
        finalize_templates(&mut templates, &config);
        templates
    }

    /// The templates, by id, taking them out of the compressor.
    pub fn into_templates(self) -> (t: Vec<Template>)
        ensures
            t@ == self.templates_view(),
    {
        self.templates
    }

    /// Interns a CPU event whose name normalizes to `normalized_name` (its
    /// digit runs being `nums`): the event joins the template of its
    /// signature, made when there is none, as the template's next instance.
    /// Returns the template's id and the instance's index; `None`, with
    /// nothing changed, when there is no room for it.
    pub fn intern_event_template(&mut self, event: &Event, normalized_name: String, nums: Vec<String>) -> (r: Option<(u32, u32)>)
        requires
            old(self).wf(),
        ensures
            final(self).wf(),
            final(self).config_view() == old(self).config_view(),
            r is Some <==> old(self).room_for(*event, normalized_name@, false),
            r is None ==> *final(self) == *old(self),
            grew(*old(self), *final(self)),
            final(self).text_count() <= old(self).text_count() + 4 + arg_keys_of(event.args).len(),
            r matches Some((tid, _)) ==> final(self).templates_view()[tid as int].ts_view().len() == if (tid as int)
                < old(self).templates_view().len() {
                old(self).templates_view()[tid as int].ts_view().len() + 1
            } else {
                1
            },
            r matches Some((tid, inst)) ==> cpu_interned(*old(self), *final(self), *event, normalized_name@, nums@, tid, inst),
    {
        let ghost name = normalized_name@;
        let ghost old_self = *self;
        let ghost nv = nums@;
        let sig = event.template_signature(normalized_name);
        let ghost sv = sig_view(sig);
        proof {
            lemma_event_sig(*event, sig.normalized_name, sig);
            assert forall|t: int| #[trigger] self.matches_at(t, *event, name, false) implies self.sig_at(t) == sv
                && kind_code(self.templates_view()[t]) == 0 by {}
        }
        match self.lookup(0, &sig) {
            Some(t) => {
                proof {
                    assert(self.matches_at(t as int, *event, name, false));
                    assert forall|t2: int| #[trigger] self.matches_at(t2, *event, name, false) implies t2 == t by {
                        if t2 != t {
                            if t2 < t {
                                self.lemma_sigs_distinct(t2, t as int);
                            } else {
                                self.lemma_sigs_distinct(t as int, t2);
                            }
                        }
                    }
                    self.lemma_template_sig(t as int);
                }
                let count = self.templates[t as usize].instance_count();
                if count >= 4294967295usize {
                    return None;
                }
                let mut cur = Template::Cpu(blank_cpu_template(String::new(), None, None, None, Vec::new()));
                std::mem::swap(&mut cur, &mut self.templates[t as usize]);
                let ghost o = cur;
                match cur {
                    Template::Cpu(mut m) => {
                        let inst = append_to_merge(&mut m, event, nums);
                        let mut back = Template::Cpu(m);
                        std::mem::swap(&mut back, &mut self.templates[t as usize]);
                        proof {
                            assert(self.templates@ =~= old_self.templates@.update(t as int, Template::Cpu(m)));
                            assert forall|t2: int| 0 <= t2 < self.templates@.len() implies {
                                &&& key_valid(self.strings@, #[trigger] self.index@[t2])
                                &&& self.index@[t2][0] == kind_code(self.templates@[t2])
                                &&& template_agrees(self.templates@[t2], key_sig(self.strings@, self.index@[t2]))
                                &&& appendable(self.templates@[t2])
                            } by {
                                assert(key_valid(old_self.strings@, old_self.index@[t2]));
                            }
                            let om = o->Cpu_0;
                            assert(cpu_appended(om, m, *event, nv, inst));
                            assert(old_self.templates_view()[t as int] == Template::Cpu(om));
                            assert(self.templates_view()[t as int]->Cpu_0 == m);
                            assert(interned_common(old_self, *self, *event, name, false, t));
                            assert(self.templates_view()[t as int] is Cpu);
                            assert((t as int) < old_self.templates_view().len());
                            assert({
                                &&& if (t as int) < old_self.templates_view().len() {
                                    old_self.templates_view()[t as int] == Template::Cpu(om)
                                } else {
                                    blank_cpu(om) && template_agrees(Template::Cpu(om), self.sig_at(t as int))
                                }
                                &&& cpu_appended(om, self.templates_view()[t as int]->Cpu_0, *event, nv, inst)
                            });
                            assert(cpu_interned(old_self, *self, *event, name, nv, t, inst));
                        }
                        Some((t, inst))
                    },
                    Template::Gpu(_) => {
                        proof {
                            assert(false);
                        }
                        None
                    },
                }
            },
            None => {
                proof {
                    assert(!self.has_match(*event, name, false));
                }
                if self.templates.len() >= 4294967295usize {
                    return None;
                }
                if self.strings.len() > 4294967291usize || sig.arg_keys.len() > 4294967291usize - self.strings.len() {
                    return None;
                }
                let key = encode_sig(&mut self.strings, 0, &sig);
                let ghost s1 = self.strings@;
                proof {
                    self.index.lemma_distinct();
                    self.strings.lemma_distinct();
                    assert forall|t2: int| 0 <= t2 < old_self.templates@.len() implies key_valid(s1, #[trigger] self.index@[t2])
                        && key_sig(s1, self.index@[t2]) == key_sig(old_self.strings@, self.index@[t2]) by {
                        assert(key_valid(old_self.strings@, old_self.index@[t2]));
                        lemma_key_grown(old_self.strings@, s1, self.index@[t2]);
                    }
                    if self.index@.contains(key@) {
                        let t2 = choose|t2: int| 0 <= t2 < self.index@.len() && self.index@[t2] == key@;
                        assert(key_valid(old_self.strings@, old_self.index@[t2]));
                        assert(old_self.sig_at(t2) == key_sig(s1, key@));
                        assert(kind_code(old_self.templates@[t2]) == 0);
                    }
                }
                let id = self.index.intern(&key);
                let EventSignature { normalized_name, cat, bp, s, arg_keys } = sig;
                let mut m = blank_cpu_template(normalized_name, cat, bp, s, arg_keys);
                let ghost blank = m;
                let inst = append_to_merge(&mut m, event, nums);
                self.templates.push(Template::Cpu(m));
                proof {
                    assert(self.index@ == old_self.index@.push(key@));
                    assert(id as int == old_self.templates@.len());
                    assert forall|t2: int| 0 <= t2 < self.templates@.len() implies {
                        &&& key_valid(self.strings@, #[trigger] self.index@[t2])
                        &&& self.index@[t2][0] == kind_code(self.templates@[t2])
                        &&& template_agrees(self.templates@[t2], key_sig(self.strings@, self.index@[t2]))
                        &&& appendable(self.templates@[t2])
                    } by {
                        if t2 < old_self.templates@.len() {
                            assert(key_valid(old_self.strings@, old_self.index@[t2]));
                            assert(self.templates@[t2] == old_self.templates@[t2]);
                        }
                    }
                    assert forall|t2: int| 0 <= t2 < old_self.templates_view().len() implies #[trigger] self.sig_at(t2)
                        == old_self.sig_at(t2) by {}
                    assert(template_agrees(Template::Cpu(blank), self.sig_at(id as int)));
                    assert(cpu_appended(blank, m, *event, nv, inst));
                    assert(self.templates_view()[id as int]->Cpu_0 == m);
                    assert(interned_common(old_self, *self, *event, name, false, id));
                    assert(cpu_interned(old_self, *self, *event, name, nv, id, inst));
                }
                Some((id, inst))
            },
        }
    }

    /// Interns a GPU event on the stream `gpu_stream_tid` whose name
    /// normalizes to `normalized_name` (its digit runs being `nums`): the
    /// event joins the GPU template of its signature, made when there is
    /// none, as the template's next instance, with its `pid`, stream and
    /// phase. Returns the template's id and the instance's index; `None`,
    /// with nothing changed, when there is no room for it.
    pub fn intern_kernel_template(
        &mut self,
        event: &Event,
        gpu_stream_tid: &str,
        normalized_name: String,
        nums: Vec<String>,
    ) -> (r: Option<(u32, u32)>)
        requires
            old(self).wf(),
        ensures
            final(self).wf(),
            final(self).config_view() == old(self).config_view(),
            r is Some <==> old(self).room_for(*event, normalized_name@, true),
            r is None ==> *final(self) == *old(self),
            grew(*old(self), *final(self)),
            final(self).text_count() <= old(self).text_count() + 4 + arg_keys_of(event.args).len(),
            r matches Some((tid, _)) ==> final(self).templates_view()[tid as int].ts_view().len() == if (tid as int)
                < old(self).templates_view().len() {
                old(self).templates_view()[tid as int].ts_view().len() + 1
            } else {
                1
            },
            r matches Some((tid, inst)) ==> gpu_interned(
                *old(self),
                *final(self),
                *event,
                gpu_stream_tid@,
                normalized_name@,
                nums@,
                tid,
                inst,
            ),
    {
        let ghost name = normalized_name@;
        let ghost old_self = *self;
        let ghost nv = nums@;
        let sig = event.template_signature(normalized_name);
        let ghost sv = sig_view(sig);
        proof {
            lemma_event_sig(*event, sig.normalized_name, sig);
            assert forall|t: int| #[trigger] self.matches_at(t, *event, name, true) implies self.sig_at(t) == sv
                && kind_code(self.templates_view()[t]) == 1 by {}
        }
        match self.lookup(1, &sig) {
            Some(t) => {
                proof {
                    assert(self.matches_at(t as int, *event, name, true));
                    assert forall|t2: int| #[trigger] self.matches_at(t2, *event, name, true) implies t2 == t by {
                        if t2 != t {
                            if t2 < t {
                                self.lemma_sigs_distinct(t2, t as int);
                            } else {
                                self.lemma_sigs_distinct(t as int, t2);
                            }
                        }
                    }
                    self.lemma_template_sig(t as int);
                }
                let count = self.templates[t as usize].instance_count();
                if count >= 4294967295usize {
                    return None;
                }
                let mut cur = Template::Gpu(blank_gpu_template(String::new(), None, Vec::new()));
                std::mem::swap(&mut cur, &mut self.templates[t as usize]);
                let ghost o = cur;
                match cur {
                    Template::Gpu(mut g) => {
                        let inst = append_to_kernel(&mut g, event, gpu_stream_tid, nums);
                        let mut back = Template::Gpu(g);
                        std::mem::swap(&mut back, &mut self.templates[t as usize]);
                        proof {
                            assert(self.templates@ =~= old_self.templates@.update(t as int, Template::Gpu(g)));
                            assert forall|t2: int| 0 <= t2 < self.templates@.len() implies {
                                &&& key_valid(self.strings@, #[trigger] self.index@[t2])
                                &&& self.index@[t2][0] == kind_code(self.templates@[t2])
                                &&& template_agrees(self.templates@[t2], key_sig(self.strings@, self.index@[t2]))
                                &&& appendable(self.templates@[t2])
                            } by {
                                assert(key_valid(old_self.strings@, old_self.index@[t2]));
                            }
                            let og = o->Gpu_0;
                            assert(gpu_appended(og, g, *event, gpu_stream_tid@, nv, inst));
                            assert(old_self.templates_view()[t as int] == Template::Gpu(og));
                            assert(self.templates_view()[t as int]->Gpu_0 == g);
                            assert(interned_common(old_self, *self, *event, name, true, t));
                            assert({
                                &&& if (t as int) < old_self.templates_view().len() {
                                    old_self.templates_view()[t as int] == Template::Gpu(og)
                                } else {
                                    blank_gpu(og) && template_agrees(Template::Gpu(og), self.sig_at(t as int))
                                }
                                &&& gpu_appended(og, self.templates_view()[t as int]->Gpu_0, *event, gpu_stream_tid@, nv, inst)
                            });
                            assert(gpu_interned(old_self, *self, *event, gpu_stream_tid@, name, nv, t, inst));
                        }
                        Some((t, inst))
                    },
                    Template::Cpu(_) => {
                        proof {
                            assert(false);
                        }
                        None
                    },
                }
            },
            None => {
                proof {
                    assert(!self.has_match(*event, name, true));
                }
                if self.templates.len() >= 4294967295usize {
                    return None;
                }
                if self.strings.len() > 4294967291usize || sig.arg_keys.len() > 4294967291usize - self.strings.len() {
                    return None;
                }
                let key = encode_sig(&mut self.strings, 1, &sig);
                let ghost s1 = self.strings@;
                proof {
                    self.index.lemma_distinct();
                    self.strings.lemma_distinct();
                    assert forall|t2: int| 0 <= t2 < old_self.templates@.len() implies key_valid(s1, #[trigger] self.index@[t2])
                        && key_sig(s1, self.index@[t2]) == key_sig(old_self.strings@, self.index@[t2]) by {
                        assert(key_valid(old_self.strings@, old_self.index@[t2]));
                        lemma_key_grown(old_self.strings@, s1, self.index@[t2]);
                    }
                    if self.index@.contains(key@) {
                        let t2 = choose|t2: int| 0 <= t2 < self.index@.len() && self.index@[t2] == key@;
                        assert(key_valid(old_self.strings@, old_self.index@[t2]));
                        assert(old_self.sig_at(t2) == key_sig(s1, key@));
                        assert(kind_code(old_self.templates@[t2]) == 1);
                    }
                }
                let id = self.index.intern(&key);
                let EventSignature { normalized_name, cat, bp: _, s: _, arg_keys } = sig;
                let mut g = blank_gpu_template(normalized_name, cat, arg_keys);
                let ghost blank = g;
                let inst = append_to_kernel(&mut g, event, gpu_stream_tid, nums);
                self.templates.push(Template::Gpu(g));
                proof {
                    assert(self.index@ == old_self.index@.push(key@));
                    assert(id as int == old_self.templates@.len());
                    assert forall|t2: int| 0 <= t2 < self.templates@.len() implies {
                        &&& key_valid(self.strings@, #[trigger] self.index@[t2])
                        &&& self.index@[t2][0] == kind_code(self.templates@[t2])
                        &&& template_agrees(self.templates@[t2], key_sig(self.strings@, self.index@[t2]))
                        &&& appendable(self.templates@[t2])
                    } by {
                        if t2 < old_self.templates@.len() {
                            assert(key_valid(old_self.strings@, old_self.index@[t2]));
                            assert(self.templates@[t2] == old_self.templates@[t2]);
                        }
                    }
                    assert forall|t2: int| 0 <= t2 < old_self.templates_view().len() implies #[trigger] self.sig_at(t2)
                        == old_self.sig_at(t2) by {}
                    assert(template_agrees(Template::Gpu(blank), self.sig_at(id as int)));
                    assert(gpu_appended(blank, g, *event, gpu_stream_tid@, nv, inst));
                    assert(self.templates_view()[id as int]->Gpu_0 == g);
                    assert(interned_common(old_self, *self, *event, name, true, id));
                    assert(gpu_interned(old_self, *self, *event, gpu_stream_tid@, name, nv, id, inst));
                }
                Some((id, inst))
            },
        }
    }

    /// The code of an optional text that is already interned; `None` when
    /// it is a text that is not.
    fn find_code(&self, o: &Option<String>) -> (r: Option<u32>)
        requires
            self.wf(),
        ensures
            r matches Some(c) ==> (c as int) <= self.strings@.len() && code_text(self.strings@, c) == opt_view(*o),
            r is None ==> o is Some && !self.strings@.contains(o->0@),
    {
        match o {
            None => Some(0),
            Some(x) => match self.strings.find(x.as_str()) {
                Some(id) => Some(id + 1),
                None => None,
            },
        }
    }

    /// The id of the template of kind `kind` with the signature `sig`, if
    /// there is one; nothing is interned.
    fn lookup(&self, kind: u32, sig: &EventSignature) -> (r: Option<u32>)
        requires
            self.wf(),
            kind <= 1,
        ensures
            r matches Some(t) ==> (t as int) < self.templates_view().len() && kind_code(self.templates_view()[t as int])
                == kind && self.sig_at(t as int) == sig_view(*sig),
            r is None ==> forall|t: int|
                0 <= t < self.templates_view().len() && kind_code(self.templates_view()[t]) == kind
                    ==> #[trigger] self.sig_at(t) != sig_view(*sig),
    {
        let ghost sv = sig_view(*sig);
        let ghost strs = self.strings@;
        proof {
            self.strings.lemma_distinct();
            self.index.lemma_distinct();
        }
        let name = match self.strings.find(sig.normalized_name.as_str()) {
            Some(id) => id,
            None => {
                proof {
                    assert forall|t: int|
                        0 <= t < self.templates_view().len() && kind_code(self.templates_view()[t]) == kind
                            implies #[trigger] self.sig_at(t) != sv by {
                        assert(key_valid(strs, self.index@[t]));
                        if self.sig_at(t) == sv {
                            assert(strs[self.index@[t][1] as int] == sig.normalized_name@);
                            assert(strs.contains(sig.normalized_name@));
                        }
                    }
                }
                return None;
            },
        };
        let cat = match self.find_code(&sig.cat) {
            Some(c) => c,
            None => {
                proof {
                    assert forall|t: int|
                        0 <= t < self.templates_view().len() && kind_code(self.templates_view()[t]) == kind
                            implies #[trigger] self.sig_at(t) != sv by {
                        let k2 = self.index@[t];
                        assert(key_valid(strs, k2));
                        if self.sig_at(t) == sv {
                            assert(code_text(strs, k2[2]) == opt_view(sig.cat));
                            assert(strs[k2[2] - 1] == sig.cat->0@);
                        }
                    }
                }
                return None;
            },
        };
        let bp = match self.find_code(&sig.bp) {
            Some(c) => c,
            None => {
                proof {
                    assert forall|t: int|
                        0 <= t < self.templates_view().len() && kind_code(self.templates_view()[t]) == kind
                            implies #[trigger] self.sig_at(t) != sv by {
                        let k2 = self.index@[t];
                        assert(key_valid(strs, k2));
                        if self.sig_at(t) == sv {
                            assert(code_text(strs, k2[3]) == opt_view(sig.bp));
                            assert(strs[k2[3] - 1] == sig.bp->0@);
                        }
                    }
                }
                return None;
            },
        };
        let sc = match self.find_code(&sig.s) {
            Some(c) => c,
            None => {
                proof {
                    assert forall|t: int|
                        0 <= t < self.templates_view().len() && kind_code(self.templates_view()[t]) == kind
                            implies #[trigger] self.sig_at(t) != sv by {
                        let k2 = self.index@[t];
                        assert(key_valid(strs, k2));
                        if self.sig_at(t) == sv {
                            assert(code_text(strs, k2[4]) == opt_view(sig.s));
                            assert(strs[k2[4] - 1] == sig.s->0@);
                        }
                    }
                }
                return None;
            },
        };
        let mut key: Vec<u32> = Vec::new();
        key.push(kind);
        key.push(name);
        key.push(cat);
        key.push(bp);
        key.push(sc);
        let mut i: usize = 0;
        while i < sig.arg_keys.len()
            invariant
                self.wf(),
                strs == self.strings@,
                sv == sig_view(*sig),
                i <= sig.arg_keys@.len(),
                key@.len() == 5 + i,
                key@[0] == kind,
                key@[1] == name,
                (name as int) < strs.len(),
                strs[name as int] == sig.normalized_name@,
                forall|j: int| 2 <= j < 5 ==> (#[trigger] key@[j] as int) <= strs.len(),
                code_text(strs, key@[2]) == opt_view(sig.cat),
                code_text(strs, key@[3]) == opt_view(sig.bp),
                code_text(strs, key@[4]) == opt_view(sig.s),
                forall|k: int| 5 <= k < key@.len() ==> (#[trigger] key@[k] as int) < strs.len(),
                forall|k: int| 5 <= k < key@.len() ==> strs[#[trigger] key@[k] as int] == sig.arg_keys@[k - 5]@,
            decreases sig.arg_keys@.len() - i,
        {
            match self.strings.find(sig.arg_keys[i].as_str()) {
                Some(id) => {
                    key.push(id);
                },
                None => {
                    proof {
                        assert forall|t: int|
                            0 <= t < self.templates_view().len() && kind_code(self.templates_view()[t]) == kind
                                implies #[trigger] self.sig_at(t) != sv by {
                            let k2 = self.index@[t];
                            assert(key_valid(strs, k2));
                            if self.sig_at(t) == sv {
                                assert(self.sig_at(t).4 == string_list_view(sig.arg_keys@));
                                assert(self.sig_at(t).4.len() == k2.len() - 5);
                                assert(k2.skip(5)[i as int] == k2[5 + i]);
                                assert(self.sig_at(t).4[i as int] == strs[k2[5 + i] as int]);
                                assert(strs[k2[5 + i] as int] == sig.arg_keys@[i as int]@);
                            }
                        }
                    }
                    return None;
                },
            }
            i += 1;
        }
        proof {
            assert(key_valid(strs, key@));
            let ks = key@.skip(5).map_values(|x: u32| strs[x as int]);
            assert(ks =~= string_list_view(sig.arg_keys@)) by {
                assert forall|j: int| 0 <= j < ks.len() implies ks[j] == string_list_view(sig.arg_keys@)[j] by {
                    assert(key@.skip(5)[j] == key@[j + 5]);
                }
            }
            assert(key_sig(strs, key@) == sv);
        }
        match self.index.find(&key) {
            Some(t) => {
                proof {
                    assert(self.index@[t as int] == key@);
                }
                Some(t)
            },
            None => {
                proof {
                    assert forall|t: int|
                        0 <= t < self.templates_view().len() && kind_code(self.templates_view()[t]) == kind
                            implies #[trigger] self.sig_at(t) != sv by {
                        if self.sig_at(t) == sv {
                            lemma_key_injective(strs, self.index@[t], key@);
                            assert(self.index@.contains(key@));
                        }
                    }
                }
                None
            },
        }
    }
}

/// Two events have the same signature: the same normalized name,
/// category, binding point and scope, and the same argument keys.
pub open spec fn same_signature(a: Event, a_name: Seq<char>, b: Event, b_name: Seq<char>) -> bool {
    &&& a_name == b_name
    &&& opt_view(a.cat) == opt_view(b.cat)
    &&& opt_view(a.bp) == opt_view(b.bp)
    &&& opt_view(a.s) == opt_view(b.s)
    &&& arg_keys_of(a.args).to_multiset() == arg_keys_of(b.args).to_multiset()
}

/// Two events of one kind, each kept in a template of its signature, are
/// kept in the same template exactly when their signatures are the same.
pub proof fn lemma_template_iff_signature(
    c: TemplateCompressor,
    a: Event,
    a_name: Seq<char>,
    b: Event,
    b_name: Seq<char>,
    gpu: bool,
    ta: int,
    tb: int,
)
    requires
        c.wf(),
        c.matches_at(ta, a, a_name, gpu),
        c.matches_at(tb, b, b_name, gpu),
    ensures
        (ta == tb) <==> same_signature(a, a_name, b, b_name),
{
    if same_signature(a, a_name, b, b_name) {
        lemma_sorted_texts_unique(c.sig_at(ta).4, c.sig_at(tb).4);
        assert(c.sig_at(ta) == c.sig_at(tb));
        if ta < tb {
            c.lemma_sigs_distinct(ta, tb);
        } else if tb < ta {
            c.lemma_sigs_distinct(tb, ta);
        }
    }
}

/// The template's optional columns can take the event's values in step
/// with its instances: each column that the event has a value for holds
/// one for every earlier instance.
pub open spec fn cpu_in_step(m: MergeEvent, event: Event) -> bool {
    &&& event.dur is Some ==> m.dur@.len() == m.ts@.len()
    &&& event.id is Some ==> m.id@.len() == m.ts@.len()
}

/// The same for a GPU template's `dur` column.
pub open spec fn gpu_in_step(g: MergeKernelEvent, event: Event) -> bool {
    event.dur is Some ==> g.dur@.len() == g.ts@.len()
}

/// A CPU event interned into the compressor reads back from its instance:
/// its `ts`, each of its arguments under the template's keys (its own keys,
/// sorted), its category, binding point and scope, and its `dur` and `id`
/// where every earlier event of the template had one too (always so for a
/// new template).
pub proof fn lemma_interned_cpu_reads_back(
    old: TemplateCompressor,
    new: TemplateCompressor,
    event: Event,
    name: Seq<char>,
    nums: Seq<String>,
    tid: u32,
    inst: u32,
)
    requires
        old.wf(),
        new.wf(),
        cpu_interned(old, new, event, name, nums, tid, inst),
        (tid as int) < old.templates_view().len() ==> cpu_in_step(old.templates_view()[tid as int]->Cpu_0, event),
    ensures
        ({
            let m = new.templates_view()[tid as int]->Cpu_0;
            &&& col_at(m.ts@, inst as int) == Some(event.ts)
            &&& col_at(m.dur@, inst as int) == event.dur
            &&& col_at(m.id@, inst as int) == event.id
            &&& decoded_args(m.arg_keys@, m.args_columns@, inst as int) == expected_args(m.arg_keys@, event)
            &&& string_list_view(m.arg_keys@).to_multiset() == arg_keys_of(event.args).to_multiset()
            &&& opt_view(m.cat) == opt_view(event.cat)
            &&& opt_view(m.bp) == opt_view(event.bp)
            &&& opt_view(m.s) == opt_view(event.s)
        }),
{
    let m = new.templates_view()[tid as int]->Cpu_0;
    let o = choose|o: MergeEvent|
        #![trigger cpu_appended(o, new.templates_view()[tid as int]->Cpu_0, event, nums, inst)]
        {
            &&& if (tid as int) < old.templates_view().len() {
                old.templates_view()[tid as int] == Template::Cpu(o)
            } else {
                blank_cpu(o) && template_agrees(Template::Cpu(o), new.sig_at(tid as int))
            }
            &&& cpu_appended(o, new.templates_view()[tid as int]->Cpu_0, event, nums, inst)
        };
    if (tid as int) < old.templates_view().len() {
        old.lemma_template_sig(tid as int);
    }
    lemma_cpu_instance_reads_back(o, m, event);
    new.lemma_template_sig(tid as int);
}

/// The same for a GPU event: it reads back from its instance its `ts`,
/// `pid`, stream and phase, each of its arguments under the template's keys
/// (its own keys, sorted), its category, and its `dur` where every earlier
/// kernel of the template had one too.
pub proof fn lemma_interned_gpu_reads_back(
    old: TemplateCompressor,
    new: TemplateCompressor,
    event: Event,
    stream: Seq<char>,
    name: Seq<char>,
    nums: Seq<String>,
    tid: u32,
    inst: u32,
)
    requires
        old.wf(),
        new.wf(),
        gpu_interned(old, new, event, stream, name, nums, tid, inst),
        (tid as int) < old.templates_view().len() ==> gpu_in_step(old.templates_view()[tid as int]->Gpu_0, event),
    ensures
        ({
            let g = new.templates_view()[tid as int]->Gpu_0;
            &&& col_at(g.ts@, inst as int) == Some(event.ts)
            &&& col_at(g.dur@, inst as int) == event.dur
            &&& col_at(g.pid@, inst as int) == Some(event.pid)
            &&& g.stream_tid@[inst as int] == stream
            &&& g.ph@[inst as int] == event.ph.0
            &&& decoded_args(g.arg_keys@, g.args_columns@, inst as int) == expected_args(g.arg_keys@, event)
            &&& string_list_view(g.arg_keys@).to_multiset() == arg_keys_of(event.args).to_multiset()
            &&& opt_view(g.cat) == opt_view(event.cat)
        }),
{
    let g = new.templates_view()[tid as int]->Gpu_0;
    let o = choose|o: MergeKernelEvent|
        #![trigger gpu_appended(o, new.templates_view()[tid as int]->Gpu_0, event, stream, nums, inst)]
        {
            &&& if (tid as int) < old.templates_view().len() {
                old.templates_view()[tid as int] == Template::Gpu(o)
            } else {
                blank_gpu(o) && template_agrees(Template::Gpu(o), new.sig_at(tid as int))
            }
            &&& gpu_appended(o, new.templates_view()[tid as int]->Gpu_0, event, stream, nums, inst)
        };
    if (tid as int) < old.templates_view().len() {
        old.lemma_template_sig(tid as int);
    }
    lemma_gpu_instance_reads_back(o, g, event, stream);
    new.lemma_template_sig(tid as int);
}

} // verus!
