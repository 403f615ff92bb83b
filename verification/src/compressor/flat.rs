//! The flat stream encoding: each stream of a rank becomes parallel lists
//! of template ids and instance indices, one entry per event.

use vstd::prelude::*;

use crate::analysis::kernel_class::contains_seq;
use crate::analysis::layer_gpu::is_gpu_stream;
use crate::compressor::config::CompressorConfig;
use crate::compressor::finalize::template_compacted;
use crate::compressor::interning::{grew, kind_code, TemplateCompressor};
use crate::event::Template;
use crate::event::{arg_keys_of, Event};

verus! {

/// The events of one stream of a rank, with each event's name in
/// normalized form and its digit runs.
#[derive(Clone, Debug)]
pub struct RankStream {
    pub pid: i64,
    pub tid: String,
    pub phase: u8,
    pub events: Vec<Event>,
    pub names: Vec<String>,
    pub nums: Vec<Vec<String>>,
}

/// A stream as parallel template ids and instance indices; a GPU stream
/// when its thread name contains `stream`.
#[derive(Clone, Debug)]
pub struct FlatStream {
    pub pid: i64,
    pub tid: String,
    pub phase: u8,
    pub gpu: bool,
    pub templates: Vec<u32>,
    pub instances: Vec<u32>,
}

/// The texts that interning the events may add at most: four per event and
/// one per argument key.
pub open spec fn texts_needed(events: Seq<Event>) -> nat
    decreases events.len(),
{
    if events.len() == 0 {
        0
    } else {
        texts_needed(events.drop_last()) + 4 + arg_keys_of(events.last().args).len()
    }
}

/// The texts that interning the streams' events may add at most.
pub open spec fn streams_texts(streams: Seq<RankStream>) -> nat
    decreases streams.len(),
{
    if streams.len() == 0 {
        0
    } else {
        streams_texts(streams.drop_last()) + texts_needed(streams.last().events@)
    }
}

/// The number of events of the streams.
pub open spec fn streams_events(streams: Seq<RankStream>) -> nat
    decreases streams.len(),
{
    if streams.len() == 0 {
        0
    } else {
        streams_events(streams.drop_last()) + streams.last().events@.len()
    }
}

/// Interning `events` more events, adding `texts` more texts, keeps every
/// id within `u32`.
pub open spec fn room_for_all(c: TemplateCompressor, events: nat, texts: nat) -> bool {
    &&& c.templates_view().len() + events <= u32::MAX
    &&& c.text_count() + texts <= u32::MAX
    &&& forall|t: int| 0 <= t < c.templates_view().len() ==> #[trigger] c.templates_view()[t].ts_view().len() + events <= u32::MAX
}

/// `new` holds at most `events` more templates than `old` and at most
/// `texts` more texts, and each template at most `events` more instances.
pub open spec fn grew_within(old: TemplateCompressor, new: TemplateCompressor, events: nat, texts: nat) -> bool {
    &&& new.templates_view().len() <= old.templates_view().len() + events
    &&& new.text_count() <= old.text_count() + texts
    &&& forall|t: int|
        0 <= t < new.templates_view().len() ==> #[trigger] new.templates_view()[t].ts_view().len() <= if t
            < old.templates_view().len() {
            old.templates_view()[t].ts_view().len() + events as int
        } else {
            events as int
        }
}

/// Growth within bounds adds up along two steps.
proof fn lemma_within_trans(
    a: TemplateCompressor,
    b: TemplateCompressor,
    c: TemplateCompressor,
    e1: nat,
    t1: nat,
    e2: nat,
    t2: nat,
)
    requires
        a.templates_view().len() <= b.templates_view().len(),
        grew_within(a, b, e1, t1),
        grew_within(b, c, e2, t2),
    ensures
        grew_within(a, c, e1 + e2, t1 + t2),
{
    assert forall|t: int| 0 <= t < c.templates_view().len() implies #[trigger] c.templates_view()[t].ts_view().len() <= if t
        < a.templates_view().len() {
        a.templates_view()[t].ts_view().len() + e1 + e2 as int
    } else {
        (e1 + e2) as int
    } by {
        if t < b.templates_view().len() {
            assert(b.templates_view()[t].ts_view().len() <= if t < a.templates_view().len() {
                a.templates_view()[t].ts_view().len() + e1 as int
            } else {
                e1 as int
            });
        }
    }
}

/// Room for `e + e2` events and `t + t2` texts before growing by at most
/// `e` and `t` leaves room for `e2` and `t2` after.
proof fn lemma_room_after(old: TemplateCompressor, new: TemplateCompressor, e: nat, t: nat, e2: nat, t2: nat)
    requires
        room_for_all(old, e + e2, t + t2),
        grew_within(old, new, e, t),
    ensures
        room_for_all(new, e2, t2),
{
    assert forall|k: int| 0 <= k < new.templates_view().len() implies #[trigger] new.templates_view()[k].ts_view().len() + e2
        <= u32::MAX by {
        if k < old.templates_view().len() {
            assert(old.templates_view()[k].ts_view().len() + e + e2 <= u32::MAX);
        }
    }
}

/// The event is kept as instance `i` of template `t`, a template of its
/// kind with its signature, whose timestamp there is the event's.
pub open spec fn event_kept(c: TemplateCompressor, ev: Event, name: Seq<char>, gpu: bool, t: u32, i: u32) -> bool {
    &&& c.matches_at(t as int, ev, name, gpu)
    &&& (i as int) < c.templates_view()[t as int].ts_view().len()
    &&& c.templates_view()[t as int].ts_view()[i as int] == ev.ts
}

/// `f` is the flat form of the stream `s`: the same coordinates, and each
/// event kept by its template and instance.
pub open spec fn stream_kept(c: TemplateCompressor, s: RankStream, f: FlatStream) -> bool {
    &&& f.pid == s.pid
    &&& f.tid == s.tid
    &&& f.phase == s.phase
    &&& f.gpu == contains_seq(s.tid@, "stream"@)
    &&& f.templates@.len() == s.events@.len()
    &&& f.instances@.len() == s.events@.len()
    &&& forall|j: int|
        0 <= j < s.events@.len() ==> #[trigger] event_kept(c, s.events@[j], s.names@[j]@, f.gpu, f.templates@[j], f.instances@[j])
}

/// What is kept in `old` is still kept in `new` when `new` only added to
/// it.
proof fn lemma_kept_grew(
    old: TemplateCompressor,
    new: TemplateCompressor,
    ev: Event,
    name: Seq<char>,
    gpu: bool,
    t: u32,
    i: u32,
)
    requires
        grew(old, new),
        event_kept(old, ev, name, gpu, t, i),
    ensures
        event_kept(new, ev, name, gpu, t, i),
{
    assert(new.sig_at(t as int) == old.sig_at(t as int));
    let a = old.templates_view()[t as int].ts_view();
    let b = new.templates_view()[t as int].ts_view();
    assert(a.is_prefix_of(b));
    assert(b.subrange(0, a.len() as int)[i as int] == b[i as int]);
}

/// `grew` is transitive.
proof fn lemma_grew_trans(a: TemplateCompressor, b: TemplateCompressor, c: TemplateCompressor)
    requires
        grew(a, b),
        grew(b, c),
    ensures
        grew(a, c),
{
    assert forall|t: int| 0 <= t < a.templates_view().len() implies {
        &&& #[trigger] c.sig_at(t) == a.sig_at(t)
        &&& kind_code(c.templates_view()[t]) == kind_code(a.templates_view()[t])
        &&& a.templates_view()[t].ts_view().is_prefix_of(c.templates_view()[t].ts_view())
    } by {
        assert(b.sig_at(t) == a.sig_at(t));
        assert(c.sig_at(t) == b.sig_at(t));
        let x = a.templates_view()[t].ts_view();
        let y = b.templates_view()[t].ts_view();
        let z = c.templates_view()[t].ts_view();
        assert(x.is_prefix_of(y) && y.is_prefix_of(z));
        assert(y.subrange(0, x.len() as int) == x);
        assert(z.subrange(0, y.len() as int) == y);
        assert(z.subrange(0, x.len() as int) =~= x) by {
            assert forall|k: int| 0 <= k < x.len() implies z[k] == x[k] by {
                assert(y.subrange(0, x.len() as int)[k] == y[k]);
                assert(z.subrange(0, y.len() as int)[k] == z[k]);
            }
        }
    }
}

/// Interns the events of one stream, in order.
fn intern_stream(c: &mut TemplateCompressor, s: RankStream) -> (f: FlatStream)
    requires
        old(c).wf(),
        s.names@.len() == s.events@.len(),
        s.nums@.len() == s.events@.len(),
        room_for_all(*old(c), s.events@.len(), texts_needed(s.events@)),
    ensures
        final(c).wf(),
        final(c).config_view() == old(c).config_view(),
        grew(*old(c), *final(c)),
        stream_kept(*final(c), s, f),
        grew_within(*old(c), *final(c), s.events@.len(), texts_needed(s.events@)),
{
    let ghost c0 = *c;
    let ghost sv = s;
    let gpu = is_gpu_stream(s.tid.as_str());
    let RankStream { pid, tid, phase, events, names, nums } = s;
    let mut nums = nums;
    let mut templates: Vec<u32> = Vec::new();
    let mut instances: Vec<u32> = Vec::new();
    let n = events.len();
    let mut j: usize = 0;
    proof {
        assert(events@.take(0) =~= Seq::<Event>::empty());
        assert(events@.skip(0) =~= events@);
    }
    while j < n
        invariant
            n == events@.len(),
            events@ == sv.events@,
            names@ == sv.names@,
            nums@.len() == n,
            names@.len() == n,
            j <= n,
            c.wf(),
            c.config_view() == c0.config_view(),
            grew(c0, *c),
            templates@.len() == j,
            instances@.len() == j,
            gpu == contains_seq(sv.tid@, "stream"@),
            forall|k: int|
                0 <= k < j ==> #[trigger] event_kept(*c, events@[k], names@[k]@, gpu, templates@[k], instances@[k]),
            c.templates_view().len() <= c0.templates_view().len() + j,
            c.text_count() <= c0.text_count() + texts_needed(events@.take(j as int)),
            texts_needed(events@.take(j as int)) + texts_needed(events@.skip(j as int)) == texts_needed(events@),
            room_for_all(c0, n as nat, texts_needed(events@)),
            forall|t: int|
                0 <= t < c.templates_view().len() ==> #[trigger] c.templates_view()[t].ts_view().len() <= if t
                    < c0.templates_view().len() {
                    c0.templates_view()[t].ts_view().len() + j
                } else {
                    j as int
                },
        decreases n - j,
    {
        let ghost cb = *c;
        let ev = &events[j];
        let name = names[j].clone();
        let mut digits: Vec<String> = Vec::new();
        std::mem::swap(&mut digits, &mut nums[j]);
        proof {
            assert(events@.take(j + 1) =~= events@.take(j as int).push(events@[j as int]));
            assert(events@.take(j + 1).drop_last() =~= events@.take(j as int));
            assert(events@.skip(j as int).drop_first() =~= events@.skip(j + 1));
            lemma_texts_split(events@, j as int);
            if cb.has_match(*ev, name@, gpu) {
                assert forall|t: int| #[trigger] cb.matches_at(t, *ev, name@, gpu) implies cb.templates_view()[t].ts_view().len()
                    < u32::MAX by {
                    if t < c0.templates_view().len() {
                        assert(c0.templates_view()[t].ts_view().len() + n <= u32::MAX);
                    }
                }
            }
            assert(cb.room_for(*ev, name@, gpu));
        }
        let r = if gpu {
            c.intern_kernel_template(ev, tid.as_str(), name, digits)
        } else {
            c.intern_event_template(ev, name, digits)
        };
        let (t, i) = match r {
            Some(p) => p,
            None => {
                proof {
                    assert(false);
                }
                (0, 0)
            },
        };
        templates.push(t);
        instances.push(i);
        j += 1;
        proof {
            lemma_grew_trans(c0, cb, *c);
            assert(event_kept(*c, events@[j - 1], names@[j - 1]@, gpu, t, i)) by {
                let tv = c.templates_view()[t as int].ts_view();
                assert(c.matches_at(t as int, *ev, name@, gpu));
            }
            assert forall|k: int| 0 <= k < j implies #[trigger] event_kept(
                *c,
                events@[k],
                names@[k]@,
                gpu,
                templates@[k],
                instances@[k],
            ) by {
                if k < j - 1 {
                    lemma_kept_grew(cb, *c, events@[k], names@[k]@, gpu, templates@[k], instances@[k]);
                }
            }
        }
    }
    proof {
        assert(events@.take(n as int) =~= events@);
    }
    FlatStream { pid, tid, phase, gpu, templates, instances }
}

/// The texts needed by a prefix and by the rest of the events add up.
proof fn lemma_texts_split(events: Seq<Event>, j: int)
    requires
        0 <= j < events.len(),
        texts_needed(events.take(j)) + texts_needed(events.skip(j)) == texts_needed(events),
    ensures
        texts_needed(events.take(j + 1)) + texts_needed(events.skip(j + 1)) == texts_needed(events),
        texts_needed(events.take(j + 1)) == texts_needed(events.take(j)) + 4 + arg_keys_of(events[j].args).len(),
{
    assert(events.take(j + 1).drop_last() =~= events.take(j));
    assert(events.take(j + 1).last() == events[j]);
    lemma_texts_first(events.skip(j));
    assert(events.skip(j).drop_first() =~= events.skip(j + 1));
    assert(events.skip(j)[0] == events[j]);
}

/// The texts needed, counted from the front.
proof fn lemma_texts_first(events: Seq<Event>)
    requires
        events.len() > 0,
    ensures
        texts_needed(events) == 4 + arg_keys_of(events[0].args).len() + texts_needed(events.drop_first()),
    decreases events.len(),
{
    if events.len() == 1 {
        assert(events.drop_last() =~= Seq::<Event>::empty());
        assert(events.drop_first() =~= Seq::<Event>::empty());
    } else {
        lemma_texts_first(events.drop_last());
        assert(events.drop_last().drop_first() =~= events.drop_first().drop_last());
        assert(events.drop_first().last() == events.last());
        assert(events.drop_last()[0] == events[0]);
    }
}

/// The flat form of each stream of a rank, in order, interning their
/// events into the compressor.
pub fn build_rank(c: &mut TemplateCompressor, streams: Vec<RankStream>) -> (out: Vec<FlatStream>)
    requires
        old(c).wf(),
        forall|k: int|
            0 <= k < streams@.len() ==> (#[trigger] streams@[k]).names@.len() == streams@[k].events@.len()
                && streams@[k].nums@.len() == streams@[k].events@.len(),
        room_for_all(*old(c), streams_events(streams@), streams_texts(streams@)),
    ensures
        final(c).wf(),
        final(c).config_view() == old(c).config_view(),
        grew(*old(c), *final(c)),
        grew_within(*old(c), *final(c), streams_events(streams@), streams_texts(streams@)),
        out@.len() == streams@.len(),
        forall|k: int| 0 <= k < streams@.len() ==> #[trigger] stream_kept(*final(c), streams@[k], out@[k]),
{
    let ghost c0 = *c;
    let ghost sv = streams@;
    let mut out: Vec<FlatStream> = Vec::new();
    let mut src = streams;
    let n = src.len();
    let mut k: usize = 0;
    proof {
        assert(sv.take(0) =~= Seq::<RankStream>::empty());
        assert(sv.skip(0) =~= sv);
    }
    while k < n
        invariant
            n == sv.len(),
            src@ == sv.skip(k as int),
            k <= n,
            c.wf(),
            c.config_view() == c0.config_view(),
            grew(c0, *c),
            out@.len() == k,
            forall|q: int| 0 <= q < k ==> #[trigger] stream_kept(*c, sv[q], out@[q]),
            forall|q: int|
                0 <= q < sv.len() ==> (#[trigger] sv[q]).names@.len() == sv[q].events@.len() && sv[q].nums@.len()
                    == sv[q].events@.len(),
            room_for_all(*c, streams_events(sv.skip(k as int)), streams_texts(sv.skip(k as int))),
            grew_within(c0, *c, streams_events(sv.take(k as int)), streams_texts(sv.take(k as int))),
        decreases n - k,
    {
        let ghost cb = *c;
        let s = src.remove(0);
        proof {
            assert(s == sv[k as int]);
            assert(src@ =~= sv.skip(k + 1));
            lemma_streams_first(sv.skip(k as int));
            assert(sv.skip(k as int).drop_first() =~= sv.skip(k + 1));
            assert(sv.skip(k as int)[0] == sv[k as int]);
        }
        let f = intern_stream(c, s);
        out.push(f);
        k += 1;
        proof {
            lemma_grew_trans(c0, cb, *c);
            assert(sv.take(k as int) =~= sv.take(k + 0));
            assert(sv.take(k as int).drop_last() =~= sv.take(k - 1));
            assert(sv.take(k as int).last() == sv[k - 1]);
            lemma_within_trans(
                c0,
                cb,
                *c,
                streams_events(sv.take(k - 1)),
                streams_texts(sv.take(k - 1)),
                sv[k - 1].events@.len(),
                texts_needed(sv[k - 1].events@),
            );
            let rest_e = streams_events(sv.skip(k as int));
            let rest_t = streams_texts(sv.skip(k as int));
            assert forall|t: int| 0 <= t < c.templates_view().len() implies #[trigger] c.templates_view()[t].ts_view().len()
                + rest_e <= u32::MAX by {
                if t < cb.templates_view().len() {
                    assert(cb.templates_view()[t].ts_view().len() + streams_events(sv.skip(k - 1)) <= u32::MAX);
                }
            }
            assert forall|q: int| 0 <= q < k implies #[trigger] stream_kept(*c, sv[q], out@[q]) by {
                if q < k - 1 {
                    lemma_stream_kept_grew(cb, *c, sv[q], out@[q]);
                }
            }
        }
    }
    out
}

/// What a stream keeps in `old` it keeps in `new` when `new` only added to
/// it.
proof fn lemma_stream_kept_grew(old: TemplateCompressor, new: TemplateCompressor, s: RankStream, f: FlatStream)
    requires
        grew(old, new),
        stream_kept(old, s, f),
    ensures
        stream_kept(new, s, f),
{
    assert forall|j: int| 0 <= j < s.events@.len() implies #[trigger] event_kept(
        new,
        s.events@[j],
        s.names@[j]@,
        f.gpu,
        f.templates@[j],
        f.instances@[j],
    ) by {
        assert(event_kept(old, s.events@[j], s.names@[j]@, f.gpu, f.templates@[j], f.instances@[j]));
        lemma_kept_grew(old, new, s.events@[j], s.names@[j]@, f.gpu, f.templates@[j], f.instances@[j]);
    }
}

/// The events and texts of streams, counted from the front.
proof fn lemma_streams_first(streams: Seq<RankStream>)
    requires
        streams.len() > 0,
    ensures
        streams_events(streams) == streams[0].events@.len() + streams_events(streams.drop_first()),
        streams_texts(streams) == texts_needed(streams[0].events@) + streams_texts(streams.drop_first()),
    decreases streams.len(),
{
    if streams.len() == 1 {
        assert(streams.drop_last() =~= Seq::<RankStream>::empty());
        assert(streams.drop_first() =~= Seq::<RankStream>::empty());
    } else {
        lemma_streams_first(streams.drop_last());
        assert(streams.drop_last().drop_first() =~= streams.drop_first().drop_last());
        assert(streams.drop_first().last() == streams.last());
        assert(streams.drop_last()[0] == streams[0]);
    }
}

/// A prefix of streams holds no more events, nor texts to intern, than all
/// of them.
proof fn lemma_streams_prefix(streams: Seq<RankStream>, k: int)
    requires
        0 <= k <= streams.len(),
    ensures
        streams_events(streams.take(k)) <= streams_events(streams),
        streams_texts(streams.take(k)) <= streams_texts(streams),
    decreases streams.len(),
{
    if k == streams.len() {
        assert(streams.take(k) =~= streams);
    } else {
        lemma_streams_prefix(streams.drop_last(), k);
        assert(streams.drop_last().take(k) =~= streams.take(k));
    }
}

/// A prefix of events needs no more texts than all of them.
proof fn lemma_texts_prefix(events: Seq<Event>, j: int)
    requires
        0 <= j <= events.len(),
    ensures
        texts_needed(events.take(j)) <= texts_needed(events),
    decreases events.len(),
{
    if j == events.len() {
        assert(events.take(j) =~= events);
    } else {
        lemma_texts_prefix(events.drop_last(), j);
        assert(events.drop_last().take(j) =~= events.take(j));
    }
}

/// The number of argument keys of an event.
fn arg_count(ev: &Event) -> (n: usize)
    ensures
        n == arg_keys_of(ev.args).len(),
{
    match &ev.args {
        Some(a) => a.len(),
        None => 0,
    }
}

/// Whether interning the events of the streams keeps every template id,
/// instance index and text id within `u32`.
pub fn has_room(c: &TemplateCompressor, streams: &Vec<RankStream>) -> (b: bool)
    ensures
        b == room_for_all(*c, streams_events(streams@), streams_texts(streams@)),
{
    let limit: u64 = 4294967295;
    let ghost sv = streams@;
    let mut ev: u64 = 0;
    let mut tx: u64 = 0;
    let mut k: usize = 0;
    proof {
        assert(sv.take(0) =~= Seq::<RankStream>::empty());
    }
    while k < streams.len()
        invariant
            k <= sv.len(),
            sv == streams@,
            ev == streams_events(sv.take(k as int)),
            tx == streams_texts(sv.take(k as int)),
            ev <= limit,
            tx <= limit,
            limit == 4294967295,
        decreases sv.len() - k,
    {
        let events = &streams[k].events;
        let mut j: usize = 0;
        let mut t2: u64 = 0;
        proof {
            assert(events@.take(0) =~= Seq::<Event>::empty());
        }
        while j < events.len()
            invariant
                k < sv.len(),
                sv == streams@,
                events@ == sv[k as int].events@,
                ev == streams_events(sv.take(k as int)),
                tx == streams_texts(sv.take(k as int)),
                ev <= limit,
                tx <= limit,
                j <= events@.len(),
                t2 == texts_needed(events@.take(j as int)),
                t2 <= limit,
                limit == 4294967295,
            decreases events@.len() - j,
        {
            let keys = arg_count(&events[j]) as u64;
            if keys > limit {
                proof {
                    assert(events@.take(j + 1).drop_last() =~= events@.take(j as int));
                    assert(events@.take(j + 1).last() == events@[j as int]);
                    lemma_texts_prefix(events@, j + 1);
                    lemma_streams_prefix(sv, k + 1);
                    assert(sv.take(k + 1).drop_last() =~= sv.take(k as int));
                    assert(sv.take(k + 1).last() == sv[k as int]);
                }
                return false;
            }
            let add = 4 + keys;
            proof {
                assert(events@.take(j + 1).drop_last() =~= events@.take(j as int));
                assert(events@.take(j + 1).last() == events@[j as int]);
            }
            if add > limit - t2 {
                proof {
                    lemma_texts_prefix(events@, j + 1);
                    lemma_streams_prefix(sv, k + 1);
                    assert(sv.take(k + 1).drop_last() =~= sv.take(k as int));
                    assert(sv.take(k + 1).last() == sv[k as int]);
                }
                return false;
            }
            t2 = t2 + add;
            j += 1;
        }
        proof {
            assert(events@.take(events@.len() as int) =~= events@);
            assert(sv.take(k + 1).drop_last() =~= sv.take(k as int));
            assert(sv.take(k + 1).last() == sv[k as int]);
        }
        let n = events.len() as u64;
        if n > limit - ev || t2 > limit - tx {
            proof {
                lemma_streams_prefix(sv, k + 1);
            }
            return false;
        }
        ev = ev + n;
        tx = tx + t2;
        k += 1;
    }
    proof {
        assert(sv.take(sv.len() as int) =~= sv);
    }
    let ts = c.templates();
    if ts.len() as u64 > limit - ev || c.text_len() as u64 > limit - tx {
        return false;
    }
    let mut t: usize = 0;
    while t < ts.len()
        invariant
            t <= ts@.len(),
            ts@ == c.templates_view(),
            sv == streams@,
            ev == streams_events(sv),
            ev <= limit,
            limit == 4294967295,
            forall|q: int| 0 <= q < t ==> #[trigger] c.templates_view()[q].ts_view().len() + ev <= u32::MAX,
        decreases ts@.len() - t,
    {
        let count = ts[t].instance_count() as u64;
        if count > limit - ev {
            proof {
                assert(c.templates_view()[t as int].ts_view().len() + ev > u32::MAX);
            }
            return false;
        }
        t += 1;
    }
    true
}

/// The events of every stream of the ranks.
pub open spec fn ranks_events(ranks: Seq<(String, Vec<RankStream>)>) -> nat
    decreases ranks.len(),
{
    if ranks.len() == 0 {
        0
    } else {
        ranks_events(ranks.drop_last()) + streams_events(ranks.last().1@)
    }
}

/// The texts that interning every stream of the ranks may add at most.
pub open spec fn ranks_texts(ranks: Seq<(String, Vec<RankStream>)>) -> nat
    decreases ranks.len(),
{
    if ranks.len() == 0 {
        0
    } else {
        ranks_texts(ranks.drop_last()) + streams_texts(ranks.last().1@)
    }
}

/// Every stream of the ranks has one name and one digit list per event.
pub open spec fn ranks_shaped(ranks: Seq<(String, Vec<RankStream>)>) -> bool {
    forall|q: int, k: int|
        0 <= q < ranks.len() && 0 <= k < ranks[q].1@.len() ==> (#[trigger] ranks[q].1@[k]).names@.len()
            == ranks[q].1@[k].events@.len() && ranks[q].1@[k].nums@.len() == ranks[q].1@[k].events@.len()
}

/// `o` is the flat form of the rank `r`: the same rank, and each of its
/// streams kept in `c`.
pub open spec fn rank_kept(c: TemplateCompressor, r: (String, Vec<RankStream>), o: (String, Vec<FlatStream>)) -> bool {
    &&& o.0 == r.0
    &&& o.1@.len() == r.1@.len()
    &&& forall|k: int| 0 <= k < r.1@.len() ==> #[trigger] stream_kept(c, r.1@[k], o.1@[k])
}

/// `out` is the flat form of every rank, in order, kept in `c`.
pub open spec fn ranks_kept(c: TemplateCompressor, ranks: Seq<(String, Vec<RankStream>)>, out: Seq<(String, Vec<FlatStream>)>) -> bool {
    &&& out.len() == ranks.len()
    &&& forall|q: int| 0 <= q < ranks.len() ==> #[trigger] rank_kept(c, ranks[q], out[q])
}

/// `b` interned the ranks under `config` into the flat streams `out`, and
/// `templates` are its templates, compacted.
pub open spec fn compressed_by(
    b: TemplateCompressor,
    config: CompressorConfig,
    ranks: Seq<(String, Vec<RankStream>)>,
    out: Seq<(String, Vec<FlatStream>)>,
    templates: Seq<Template>,
) -> bool {
    &&& b.wf()
    &&& b.config_view() == config
    &&& ranks_kept(b, ranks, out)
    &&& templates.len() == b.templates_view().len()
    &&& forall|t: int| 0 <= t < templates.len() ==> template_compacted(b.templates_view()[t], #[trigger] templates[t], config)
}

/// A copy of a policy.
fn copy_config(c: &CompressorConfig) -> (r: CompressorConfig)
    ensures
        r == *c,
{
    CompressorConfig {
        enable_structural: c.enable_structural,
        enable_anchor_matching: c.enable_anchor_matching,
        enable_args_dedup: c.enable_args_dedup,
        enable_kernel_links: c.enable_kernel_links,
        enable_name_pattern: c.enable_name_pattern,
    }
}

/// The ranks' events and texts, counted from the front.
proof fn lemma_ranks_first(ranks: Seq<(String, Vec<RankStream>)>)
    requires
        ranks.len() > 0,
    ensures
        ranks_events(ranks) == streams_events(ranks[0].1@) + ranks_events(ranks.drop_first()),
        ranks_texts(ranks) == streams_texts(ranks[0].1@) + ranks_texts(ranks.drop_first()),
    decreases ranks.len(),
{
    if ranks.len() == 1 {
        assert(ranks.drop_last() =~= Seq::<(String, Vec<RankStream>)>::empty());
        assert(ranks.drop_first() =~= Seq::<(String, Vec<RankStream>)>::empty());
    } else {
        lemma_ranks_first(ranks.drop_last());
        assert(ranks.drop_last().drop_first() =~= ranks.drop_first().drop_last());
        assert(ranks.drop_first().last() == ranks.last());
        assert(ranks.drop_last()[0] == ranks[0]);
    }
}

impl TemplateCompressor {
    /// Compresses every rank, in the order given: starting from no
    /// templates, each rank's streams become flat streams interned into one
    /// shared template table, which comes back compacted under the
    /// compressor's policy. The compressor is left empty, with its policy.
    pub fn compress(&mut self, ranks: Vec<(String, Vec<RankStream>)>) -> (r: (Vec<(String, Vec<FlatStream>)>, Vec<Template>))
        requires
            old(self).wf(),
            ranks_shaped(ranks@),
            ranks_events(ranks@) <= u32::MAX,
            ranks_texts(ranks@) <= u32::MAX,
        ensures
            final(self).wf(),
            final(self).config_view() == old(self).config_view(),
            final(self).templates_view().len() == 0,
            final(self).text_count() == 0,
            exists|b: TemplateCompressor| #[trigger] compressed_by(b, old(self).config_view(), ranks@, r.0@, r.1@),
    {
        let ghost cfg = self.config_view();
        let ghost rv = ranks@;
        let mut work = TemplateCompressor::with_config(copy_config(self.config()));
        let mut out: Vec<(String, Vec<FlatStream>)> = Vec::new();
        let mut src = ranks;
        let n = src.len();
        let mut k: usize = 0;
        proof {
            assert(rv.skip(0) =~= rv);
        }
        while k < n
            invariant
                n == rv.len(),
                src@ == rv.skip(k as int),
                k <= n,
                work.wf(),
                work.config_view() == cfg,
                out@.len() == k,
                forall|q: int| 0 <= q < k ==> #[trigger] rank_kept(work, rv[q], out@[q]),
                ranks_shaped(rv),
                room_for_all(work, ranks_events(rv.skip(k as int)), ranks_texts(rv.skip(k as int))),
            decreases n - k,
        {
            let ghost wb = work;
            let (rank, streams) = src.remove(0);
            proof {
                assert(rv[k as int] == (rank, streams));
                assert(src@ =~= rv.skip(k + 1));
                lemma_ranks_first(rv.skip(k as int));
                assert(rv.skip(k as int).drop_first() =~= rv.skip(k + 1));
                assert(rv.skip(k as int)[0] == rv[k as int]);
                assert forall|j: int| 0 <= j < streams@.len() implies (#[trigger] streams@[j]).names@.len()
                    == streams@[j].events@.len() && streams@[j].nums@.len() == streams@[j].events@.len() by {
                    assert(rv[k as int].1@[j] == streams@[j]);
                }
                assert(room_for_all(work, streams_events(streams@), streams_texts(streams@))) by {
                    assert forall|t: int| 0 <= t < work.templates_view().len() implies #[trigger] work.templates_view()[t].ts_view().len()
                        + streams_events(streams@) <= u32::MAX by {
                        assert(work.templates_view()[t].ts_view().len() + ranks_events(rv.skip(k as int)) <= u32::MAX);
                    }
                }
            }
            let flat = build_rank(&mut work, streams);
            out.push((rank, flat));
            k += 1;
            proof {
                lemma_room_after(
                    wb,
                    work,
                    streams_events(rv[k - 1].1@),
                    streams_texts(rv[k - 1].1@),
                    ranks_events(rv.skip(k as int)),
                    ranks_texts(rv.skip(k as int)),
                );
                assert forall|q: int| 0 <= q < k implies #[trigger] rank_kept(work, rv[q], out@[q]) by {
                    if q < k - 1 {
                        assert(rank_kept(wb, rv[q], out@[q]));
                        assert forall|j: int| 0 <= j < rv[q].1@.len() implies #[trigger] stream_kept(work, rv[q].1@[j], out@[q].1@[j]) by {
                            assert(stream_kept(wb, rv[q].1@[j], out@[q].1@[j]));
                            lemma_stream_kept_grew(wb, work, rv[q].1@[j], out@[q].1@[j]);
                        }
                    }
                }
            }
        }
        let ghost built = work;
        *self = TemplateCompressor::with_config(copy_config(work.config()));
        let templates = work.finish();
        proof {
            assert(ranks_kept(built, rv, out@));
            assert(compressed_by(built, cfg, rv, out@, templates@));
        }
        let r = (out, templates);
        proof {
            assert(compressed_by(built, cfg, rv, r.0@, r.1@));
            assert(exists|b: TemplateCompressor| #[trigger] compressed_by(b, cfg, rv, r.0@, r.1@));
        }
        r
    }
}

} // verus!
