use padoc::baselines::bubble::busy_and_span;
use padoc::baselines::rsd::{encode_rsd, expand_known_rsd_ids, expand_rsd_ids, pool_rsds, Rsd, RsdPool};
use padoc::baselines::scalatrace::{build_payload, decode_stream, StreamCell};
use padoc::baselines::tracezip::{build_tracezip_payload, compress_tracezip, decode_bucket, tracezip_name_order, EventStream};
use padoc::baselines::PadocCompressor;
use padoc::compressor::CompressorConfig;
use padoc::event::{ArgValue, Event, Phase};
use padoc::Error;

fn event(name: &str, ts: i64, dur: Option<i64>, stream: Option<i64>) -> Event {
    Event {
        name: name.to_string(),
        ts,
        dur,
        cat: Some("kernel".to_string()),
        ph: Phase(b'X'),
        pid: 1,
        tid: "stream 7".to_string(),
        args: stream.map(|s| vec![("stream".to_string(), ArgValue::Int(s))]),
        id: None,
        bp: None,
        s: None,
    }
}

fn sample_events() -> Vec<Event> {
    vec![
        event("gemm_1", 10, Some(5), Some(7)),
        event("gemm_2", 20, Some(6), Some(7)),
        event("copy", 30, None, None),
        event("gemm_3", 40, Some(7), Some(7)),
    ]
}

#[test]
fn rsd_encodes_repeated_runs() {
    let out = encode_rsd(&vec![1, 2, 1, 2, 1, 2, 3]);
    assert_eq!(out.len(), 2);
    assert_eq!(out[0].pattern, vec![1, 2]);
    assert_eq!(out[0].repeats, 3);
    assert_eq!(out[1].pattern, vec![3]);
    assert_eq!(out[1].repeats, 1);
    assert!(encode_rsd(&vec![]).is_empty());
}

#[test]
fn rsd_prefers_the_longest_cover_then_the_shortest_period() {
    let out = encode_rsd(&vec![5, 5, 5, 5]);
    assert_eq!(out.len(), 1);
    assert_eq!(out[0].pattern, vec![5]);
    assert_eq!(out[0].repeats, 4);
    let none = encode_rsd(&vec![1, 2, 3]);
    assert_eq!(none.len(), 3);
    assert!(none.iter().all(|r| r.repeats == 1 && r.pattern.len() == 1));
}

#[test]
fn rsd_pool_round_trip() {
    let seq_a = vec![1, 2, 1, 2, 9];
    let seq_b = vec![1, 2, 1, 2, 4, 4];
    let mut pool = RsdPool::new();
    let ids_a = pool_rsds(&mut pool, &encode_rsd(&seq_a));
    let ids_b = pool_rsds(&mut pool, &encode_rsd(&seq_b));
    assert_eq!(ids_a[0], ids_b[0]);
    let rsds = pool.into_rsds();
    assert_eq!(rsds.len(), 3);
    assert_eq!(expand_known_rsd_ids(&rsds, &ids_a), seq_a);
    assert_eq!(expand_rsd_ids(&rsds, &ids_b).unwrap(), seq_b);
}

#[test]
fn rsd_unknown_ids() {
    let pool = vec![Rsd { pattern: vec![3], repeats: 2 }];
    assert_eq!(expand_known_rsd_ids(&pool, &vec![0, 5, 0]), vec![3, 3, 3, 3]);
    assert!(matches!(expand_rsd_ids(&pool, &vec![0, 5]), Err(Error::Other(_))));
}

#[test]
fn rsd_pool_interns_once() {
    let mut pool = RsdPool::new();
    let a = pool.intern(&Rsd { pattern: vec![1, 2], repeats: 3 });
    let b = pool.intern(&Rsd { pattern: vec![1, 2], repeats: 4 });
    let c = pool.intern(&Rsd { pattern: vec![1, 2], repeats: 3 });
    assert_eq!(a, 0);
    assert_eq!(b, 1);
    assert_eq!(c, 0);
}

#[test]
fn busy_time_and_span() {
    assert_eq!(busy_and_span(vec![]), (0, 0));
    assert_eq!(busy_and_span(vec![(30, 5), (0, 10), (5, 10)]), (20, 35));
    assert_eq!(busy_and_span(vec![(0, 10), (2, 3)]), (10, 10));
}

#[test]
fn scalatrace_round_trip() {
    let events = sample_events();
    let normalized: Vec<String> = vec!["gemm_0", "gemm_0", "copy", "gemm_0"].into_iter().map(String::from).collect();
    let cells = vec![StreamCell {
        rank: "0".to_string(),
        pid: 1,
        tid: "stream 7".to_string(),
        ph: Phase(b'X'),
        events: events.clone(),
        normalized,
    }];
    let p = build_payload(&cells);
    assert_eq!(p.streams.len(), 1);
    let (rank, back) = decode_stream(&p, 0).unwrap();
    assert_eq!(rank, "0");
    assert_eq!(back.len(), events.len());
    for (a, b) in events.iter().zip(back.iter()) {
        assert_eq!(a.name, b.name);
        assert_eq!(a.ts, b.ts);
        assert_eq!(a.dur, b.dur);
        assert_eq!(a.cat, b.cat);
        assert_eq!(a.pid, b.pid);
        assert_eq!(a.tid, b.tid);
        assert_eq!(a.ph, b.ph);
        assert_eq!(a.id, b.id);
        let sa = a.args.as_ref().map(|v| v.len()).unwrap_or(0);
        let sb = b.args.as_ref().map(|v| v.len()).unwrap_or(0);
        assert_eq!(sa, sb);
    }
    assert!(matches!(&back[0].args, Some(v) if matches!(v[0].1, ArgValue::Int(7))));
}

#[test]
fn scalatrace_rejects_unknown_descriptor() {
    let cells = vec![StreamCell {
        rank: "0".to_string(),
        pid: 1,
        tid: "stream 7".to_string(),
        ph: Phase(b'X'),
        events: sample_events(),
        normalized: vec!["a".to_string(), "a".to_string(), "b".to_string(), "a".to_string()],
    }];
    let mut p = build_payload(&cells);
    p.streams[0].rsd_ids.push(99);
    assert!(matches!(decode_stream(&p, 0), Err(Error::Other(_))));
}

#[test]
fn tracezip_round_trip() {
    let events = sample_events();
    let cells = vec![EventStream {
        rank: "3".to_string(),
        pid: 1,
        tid: "stream 7".to_string(),
        ph: Phase(b'X'),
        events: events.clone(),
    }];
    let names: Vec<String> = vec!["gemm_1", "gemm_2", "copy", "gemm_3"].into_iter().map(String::from).collect();
    let p = build_tracezip_payload(&cells, &names);
    assert_eq!(p.global_buckets.len(), 4);
    let mut decoded = Vec::new();
    for b in 0..p.global_buckets.len() {
        for entry in decode_bucket(&p, b) {
            let (rank, ev) = entry.expect("known stream");
            assert_eq!(rank, "3");
            decoded.push(ev);
        }
    }
    assert_eq!(decoded.len(), events.len());
    for a in &events {
        let b = decoded.iter().find(|e| e.name == a.name).expect("decoded event");
        assert_eq!(a.ts, b.ts);
        assert_eq!(a.dur, b.dur);
        assert_eq!(a.cat, b.cat);
        assert_eq!(a.tid, b.tid);
        assert_eq!(a.pid, b.pid);
    }
}

#[test]
fn compressor_configuration() {
    let c = PadocCompressor::default();
    assert!(c.config.enable_structural && c.config.enable_name_pattern);
    let mut cfg = CompressorConfig::default();
    cfg.enable_kernel_links = false;
    let d = PadocCompressor::with_config(cfg);
    assert!(!d.config.enable_kernel_links);
}

#[test]
fn tracezip_name_order_lists_each_name_once() {
    let events = vec![event("a", 1, None, None), event("b", 2, None, None), event("a", 3, None, None)];
    let cells = vec![EventStream { rank: "0".to_string(), pid: 1, tid: "stream 7".to_string(), ph: Phase(b'X'), events }];
    let mut names = tracezip_name_order(&cells);
    names.sort();
    assert_eq!(names, vec!["a".to_string(), "b".to_string()]);
}

#[test]
fn tracezip_compress_keeps_every_event() {
    let events = vec![event("a", 1, Some(2), Some(7)), event("b", 2, None, None), event("a", 3, Some(1), Some(8))];
    let cells = vec![EventStream { rank: "5".to_string(), pid: 1, tid: "stream 7".to_string(), ph: Phase(b'X'), events }];
    let (p, _names) = compress_tracezip(&cells);
    let mut total = 0;
    let mut ts = Vec::new();
    for b in 0..p.global_buckets.len() {
        for entry in decode_bucket(&p, b) {
            let (rank, ev) = entry.expect("known stream");
            assert_eq!(rank, "5");
            ts.push(ev.ts);
            total += 1;
        }
    }
    ts.sort();
    assert_eq!(total, 3);
    assert_eq!(ts, vec![1, 2, 3]);
}
