use padoc::compressor::flat::{build_rank, has_room, RankStream};
use padoc::compressor::decompress::{decompress, group_streams};
use padoc::compressor::interning::TemplateCompressor;
use padoc::compressor::shards::{MergedTrace, RankTrees, ThreadRoot};
use padoc::node::{CpuNode, GpuNode, KernelLaunchNode, Node, SameCpuNode};
use padoc::compressor::rebuild::build_cpu_event;
use padoc::compressor::CompressorConfig;
use padoc::event::{ArgColumn, ArgValue, Event, Phase, Template};

fn ev(name: &str, ts: i64, dur: i64, args: Vec<(&str, i64)>) -> Event {
    Event {
        name: name.to_string(),
        ts,
        dur: Some(dur),
        cat: Some("kernel".to_string()),
        ph: Phase(b'X'),
        pid: 3,
        tid: "7".to_string(),
        args: Some(args.into_iter().map(|(k, v)| (k.to_string(), ArgValue::Int(v))).collect()),
        id: None,
        bp: None,
        s: None,
    }
}

fn stream(tid: &str, events: Vec<Event>, names: Vec<&str>) -> RankStream {
    let n = events.len();
    RankStream {
        pid: 3,
        tid: tid.to_string(),
        phase: b'X',
        events,
        names: names.into_iter().map(|s| s.to_string()).collect(),
        nums: vec![vec![]; n],
    }
}

#[test]
fn same_signature_shares_a_template() {
    let mut c = TemplateCompressor::new();
    let a = c.intern_event_template(&ev("mm", 10, 5, vec![("b", 1), ("a", 2)]), "mm".to_string(), vec![]);
    let b = c.intern_event_template(&ev("mm", 20, 6, vec![("a", 3), ("b", 4)]), "mm".to_string(), vec![]);
    let d = c.intern_event_template(&ev("mm", 30, 7, vec![("a", 5)]), "mm".to_string(), vec![]);
    assert_eq!(a, Some((0, 0)));
    assert_eq!(b, Some((0, 1)));
    assert_eq!(d, Some((1, 0)));
    let ts = c.templates();
    assert_eq!(ts.len(), 2);
    match &ts[0] {
        Template::Cpu(m) => {
            assert_eq!(m.arg_keys, vec!["a".to_string(), "b".to_string()]);
            assert_eq!(m.ts.get(1), Some(20));
            assert_eq!(m.dur.get(0), Some(5));
            match &m.args_columns[0] {
                ArgColumn::PerInstance(v) => {
                    assert_eq!(v.len(), 2);
                    assert!(matches!(v[0], ArgValue::Int(2)));
                    assert!(matches!(v[1], ArgValue::Int(3)));
                }
                _ => panic!("per-instance column expected"),
            }
        }
        Template::Gpu(_) => panic!("cpu template expected"),
    }
}

#[test]
fn cpu_and_gpu_templates_are_kept_apart() {
    let mut c = TemplateCompressor::with_config(CompressorConfig::default());
    let cpu = c.intern_event_template(&ev("k", 1, 1, vec![]), "k".to_string(), vec![]);
    let gpu = c.intern_kernel_template(&ev("k", 2, 1, vec![]), "stream 7", "k".to_string(), vec![]);
    let gpu2 = c.intern_kernel_template(&ev("k", 3, 1, vec![]), "stream 8", "k".to_string(), vec![]);
    assert_eq!(cpu, Some((0, 0)));
    assert_eq!(gpu, Some((1, 0)));
    assert_eq!(gpu2, Some((1, 1)));
    match &c.templates()[1] {
        Template::Gpu(g) => {
            assert_eq!(g.stream_tid.get(1), Some("stream 8"));
            assert_eq!(g.pid.get(0), Some(3));
        }
        Template::Cpu(_) => panic!("gpu template expected"),
    }
}

#[test]
fn other_scope_makes_another_template() {
    let mut c = TemplateCompressor::new();
    let mut scoped = ev("m", 1, 1, vec![]);
    scoped.s = Some("g".to_string());
    assert_eq!(c.intern_event_template(&ev("m", 0, 1, vec![]), "m".to_string(), vec![]), Some((0, 0)));
    assert_eq!(c.intern_event_template(&scoped, "m".to_string(), vec![]), Some((1, 0)));
    assert_eq!(c.intern_event_template(&ev("m", 2, 1, vec![]), "m".to_string(), vec![]), Some((0, 1)));
}

#[test]
fn build_rank_flattens_each_stream() {
    let mut c = TemplateCompressor::new();
    let streams = vec![
        stream("7", vec![ev("aten::mm", 0, 4, vec![]), ev("aten::add", 5, 1, vec![]), ev("aten::mm", 9, 4, vec![])], vec![
            "aten::mm",
            "aten::add",
            "aten::mm",
        ]),
        stream("stream 7", vec![ev("gemm", 1, 2, vec![]), ev("gemm", 4, 2, vec![])], vec!["gemm", "gemm"]),
    ];
    assert!(has_room(&c, &streams));
    let flat = build_rank(&mut c, streams);
    assert_eq!(flat.len(), 2);
    assert!(!flat[0].gpu);
    assert_eq!(flat[0].templates, vec![0, 1, 0]);
    assert_eq!(flat[0].instances, vec![0, 0, 1]);
    assert!(flat[1].gpu);
    assert_eq!(flat[1].tid, "stream 7");
    assert_eq!(flat[1].templates, vec![2, 2]);
    assert_eq!(flat[1].instances, vec![0, 1]);
    assert_eq!(c.templates().len(), 3);
    assert_eq!(c.text_len(), 4);
}

#[test]
fn finish_compacts_every_template() {
    let mut c = TemplateCompressor::new();
    c.intern_event_template(&ev("mm", 7, 5, vec![]), "mm".to_string(), vec![]);
    c.intern_event_template(&ev("mm", 7, 6, vec![]), "mm".to_string(), vec![]);
    c.intern_kernel_template(&ev("gemm", 1, 2, vec![]), "stream 7", "gemm".to_string(), vec![]);
    let ts = c.finish();
    assert_eq!(ts.len(), 2);
    match &ts[0] {
        Template::Cpu(m) => {
            assert!(matches!(m.ts, padoc::event::NumColumn::Constant { len: 2, value: 7 }));
            assert_eq!(m.dur.get(1), Some(6));
        }
        Template::Gpu(_) => panic!("cpu template expected"),
    }
    match &ts[1] {
        Template::Gpu(g) => assert_eq!(g.stream_tid.get(0), Some("stream 7")),
        Template::Cpu(_) => panic!("gpu template expected"),
    }
}

#[test]
fn interned_event_reads_back() {
    let mut c = TemplateCompressor::new();
    c.intern_event_template(&ev("mm", 10, 5, vec![("b", 1), ("a", 2)]), "mm".to_string(), vec![]);
    let second = ev("mm", 20, 6, vec![("a", 3), ("b", 4)]);
    let (t, i) = c.intern_event_template(&second, "mm".to_string(), vec![]).unwrap();
    match &c.templates()[t as usize] {
        Template::Cpu(m) => {
            let back = build_cpu_event(m, i as usize, "mm".to_string(), 3, "7", Phase(b'X'));
            assert_eq!(back.ts, 20);
            assert_eq!(back.dur, Some(6));
            assert_eq!(back.id, None);
            assert_eq!(back.cat.as_deref(), Some("kernel"));
            let args = back.args.unwrap();
            assert_eq!(args.len(), 2);
            assert_eq!(args[0].0, "a");
            assert!(matches!(args[0].1, ArgValue::Int(3)));
            assert_eq!(args[1].0, "b");
            assert!(matches!(args[1].1, ArgValue::Int(4)));
        }
        Template::Gpu(_) => panic!("cpu template expected"),
    }
}

#[test]
fn compress_interns_every_rank_into_one_table() {
    let mut c = TemplateCompressor::new();
    let ranks = vec![
        ("0".to_string(), vec![stream("7", vec![ev("aten::mm", 0, 4, vec![]), ev("aten::add", 5, 1, vec![])], vec!["aten::mm", "aten::add"])]),
        (
            "1".to_string(),
            vec![
                stream("7", vec![ev("aten::add", 2, 1, vec![]), ev("aten::mm", 3, 4, vec![])], vec!["aten::add", "aten::mm"]),
                stream("stream 7", vec![ev("gemm", 1, 2, vec![])], vec!["gemm"]),
            ],
        ),
    ];
    let (flat, templates) = c.compress(ranks);
    assert_eq!(flat.len(), 2);
    assert_eq!(flat[0].0, "0");
    assert_eq!(flat[0].1[0].templates, vec![0, 1]);
    assert_eq!(flat[0].1[0].instances, vec![0, 0]);
    assert_eq!(flat[1].0, "1");
    assert_eq!(flat[1].1[0].templates, vec![1, 0]);
    assert_eq!(flat[1].1[0].instances, vec![1, 1]);
    assert!(flat[1].1[1].gpu);
    assert_eq!(flat[1].1[1].templates, vec![2]);
    assert_eq!(templates.len(), 3);
    match &templates[0] {
        Template::Cpu(m) => {
            assert_eq!(m.ts.get(0), Some(0));
            assert_eq!(m.ts.get(1), Some(3));
            assert!(matches!(m.dur, padoc::event::NumColumn::Constant { len: 2, value: 4 }));
        }
        Template::Gpu(_) => panic!("cpu template expected"),
    }
    assert!(matches!(templates[2], Template::Gpu(_)));
    assert_eq!(c.templates().len(), 0);
    assert_eq!(c.text_len(), 0);
}

#[test]
fn decompress_walks_every_tree() {
    let mut c = TemplateCompressor::new();
    c.intern_event_template(&ev("mm", 10, 5, vec![("a", 1)]), "mm".to_string(), vec![]);
    c.intern_event_template(&ev("mm", 20, 6, vec![("a", 2)]), "mm".to_string(), vec![]);
    c.intern_kernel_template(&ev("gemm", 11, 2, vec![]), "stream 7", "gemm".to_string(), vec![]);
    c.intern_kernel_template(&ev("gemm", 21, 3, vec![]), "stream 7", "gemm".to_string(), vec![]);
    let templates = c.finish();
    let tree = Node::Root {
        children: vec![
            Node::Cpu(CpuNode {
                template: 0,
                instance: 0,
                children: vec![Node::KernelLaunch(KernelLaunchNode { cpu_template: 0, cpu_instance: 0, gpu_template: 1, gpu_instance: 0 })],
                slots: vec![],
            }),
            Node::SameCpu(SameCpuNode { template: 0, instances: vec![1], children: vec![], slots: vec![] }),
            Node::Gpu(GpuNode { templates: vec![1, 7, 0], instances: vec![1, 0, 0] }),
        ],
    };
    let m = MergedTrace {
        templates,
        ranks: vec![RankTrees {
            rank: "3".to_string(),
            roots: vec![ThreadRoot { pid: 3, tid: "7".to_string(), ph: b'X', node: tree }],
            start_timestamp: Some(100),
        }],
        remaps: vec![],
    };
    let r = decompress(&m);
    assert_eq!(r.len(), 1);
    assert_eq!(r[0].rank, "3");
    assert_eq!(r[0].start_timestamp, 100);
    let evs = &r[0].events;
    assert_eq!(evs.len(), 4);
    assert_eq!((evs[0].name.as_str(), evs[0].ts, evs[0].dur, evs[0].tid.as_str()), ("mm", 10, Some(5), "7"));
    assert!(matches!(&evs[0].args, Some(v) if v.len() == 1 && v[0].0 == "a" && matches!(v[0].1, ArgValue::Int(1))));
    assert_eq!((evs[1].name.as_str(), evs[1].ts, evs[1].dur, evs[1].tid.as_str()), ("gemm", 11, Some(2), "stream 7"));
    assert_eq!((evs[2].name.as_str(), evs[2].ts, evs[2].dur), ("mm", 20, Some(6)));
    assert!(matches!(&evs[2].args, Some(v) if v.len() == 1 && v[0].0 == "a" && matches!(v[0].1, ArgValue::Int(2))));
    assert_eq!((evs[3].name.as_str(), evs[3].ts, evs[3].dur, evs[3].pid), ("gemm", 21, Some(3), 3));
    assert_eq!(evs[3].cat, Some("kernel".to_string()));
}

#[test]
fn events_group_into_streams_by_first_appearance() {
    let mut a = ev("x", 1, 1, vec![]);
    a.tid = "stream 7".to_string();
    let b = ev("y", 2, 1, vec![]);
    let mut c = ev("z", 3, 1, vec![]);
    c.tid = "stream 7".to_string();
    let d = ev("w", 4, 1, vec![]);
    let streams = group_streams(vec![a, b, c, d]);
    assert_eq!(streams.len(), 2);
    assert_eq!(streams[0].tid, "stream 7");
    assert_eq!(streams[0].events.iter().map(|e| e.name.as_str()).collect::<Vec<_>>(), vec!["x", "z"]);
    assert_eq!(streams[1].tid, "7");
    assert_eq!(streams[1].events.iter().map(|e| e.name.as_str()).collect::<Vec<_>>(), vec!["y", "w"]);
}
