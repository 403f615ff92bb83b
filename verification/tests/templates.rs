use padoc::analysis::compute_comm_overlap::walk_gpu_instances_arena;
use padoc::analysis::layer_gpu::{event_correlation, ActiveLayer};
use padoc::analysis::layer_walk::{layer_kernel_items, walk_layers_arena};
use padoc::node::{CpuNode, GpuNode, KernelLaunchNode, Node};
use padoc::compressor::finalize::{compact_cpu_template, compact_gpu_template};
use padoc::compressor::CompressorConfig;
use padoc::arena::{ArenaNode, ArenaSlot, ChildSpan, GpuRef, KernelsLaunchRef, NodeArena};
use padoc::compressor::append::{append_args_columns, append_to_kernel, append_to_merge, push_name_nums};
use padoc::compressor::merge::{extend_args_columns, extend_name_nums, extend_template, same_keys, template_signature};
use padoc::compressor::rebuild::{build_cpu_event, build_gpu_event, decode_args, gpu_coordinate};
use padoc::dict::{SeqDict, StringDict};
use padoc::event::{
    collect_arg_keys, ArgColumn, ArgValue, Event, MergeEvent, MergeKernelEvent, NameNums, NumColumn, Phase, PhaseColumn, StringColumn,
    Template,
};
use padoc::Error;

fn event(name: &str, ts: i64, dur: Option<i64>, args: Vec<(&str, ArgValue)>) -> Event {
    Event {
        name: name.to_string(),
        ts,
        dur,
        cat: Some("cpu_op".to_string()),
        ph: Phase(b'X'),
        pid: 4,
        tid: "11".to_string(),
        args: Some(args.into_iter().map(|(k, v)| (k.to_string(), v)).collect()),
        id: None,
        bp: None,
        s: None,
    }
}

fn cpu_template(keys: &[&str]) -> MergeEvent {
    MergeEvent {
        name_pattern: "aten::mm".to_string(),
        name_nums: NameNums::Empty,
        cat: Some("cpu_op".to_string()),
        bp: None,
        s: None,
        arg_keys: keys.iter().map(|k| k.to_string()).collect(),
        args_columns: keys.iter().map(|_| ArgColumn::PerInstance(vec![])).collect(),
        ts: NumColumn::Empty,
        dur: NumColumn::Empty,
        id: NumColumn::Empty,
    }
}

fn gpu_template(name: &str, ts: Vec<i64>, dur: Vec<i64>) -> MergeKernelEvent {
    MergeKernelEvent {
        name_pattern: name.to_string(),
        name_nums: NameNums::Empty,
        cat: Some("kernel".to_string()),
        arg_keys: vec![],
        args_columns: vec![],
        ts: NumColumn::I64(ts),
        dur: NumColumn::I64(dur),
        pid: NumColumn::Empty,
        stream_tid: StringColumn::Empty,
        ph: PhaseColumn::Empty,
    }
}

#[test]
fn string_dict_interns_densely() {
    let mut d = StringDict::new();
    assert_eq!(d.intern("a"), 0);
    assert_eq!(d.intern("b"), 1);
    assert_eq!(d.intern("a"), 0);
    assert_eq!(d.len(), 2);
    assert_eq!(d.find("b"), Some(1));
    assert_eq!(d.find("c"), None);
    assert_eq!(d.get(1), "b");
    assert_eq!(d.into_strings(), vec!["a".to_string(), "b".to_string()]);
}

#[test]
fn seq_dict_interns_densely() {
    let mut d = SeqDict::new();
    assert_eq!(d.intern(&vec![1, 2]), 0);
    assert_eq!(d.intern(&vec![2, 1]), 1);
    assert_eq!(d.intern(&vec![1, 2]), 0);
    assert_eq!(d.intern(&vec![]), 2);
    assert_eq!(d.len(), 3);
}

#[test]
fn append_to_cpu_template() {
    let mut t = cpu_template(&["input_dims", "seq"]);
    let e1 = event("aten::mm", 100, Some(5), vec![("seq", ArgValue::Int(3))]);
    let e2 = event("aten::mm", 200, None, vec![("input_dims", ArgValue::Str("[2,2]".to_string()))]);
    assert_eq!(append_to_merge(&mut t, &e1, vec![]), 0);
    assert_eq!(append_to_merge(&mut t, &e2, vec!["7".to_string()]), 1);
    assert_eq!(t.ts.len(), 2);
    assert_eq!(t.ts.get(1), Some(200));
    assert_eq!(t.dur.len(), 1);
    assert_eq!(t.instance_count(), 2);
    assert!(matches!(t.args_columns[0].get_owned(0), Some(ArgValue::Null)));
    assert!(matches!(t.args_columns[0].get_owned(1), Some(ArgValue::Str(_))));
    assert!(matches!(t.args_columns[1].get_owned(0), Some(ArgValue::Int(3))));
    match &t.name_nums {
        NameNums::Rows(rows) => assert_eq!(rows, &vec![vec!["7".to_string()]]),
        other => panic!("unexpected {:?}", other),
    }
}

#[test]
fn append_to_gpu_template() {
    let mut t = gpu_template("gemm_0", vec![], vec![]);
    let mut e = event("gemm_3", 50, Some(9), vec![]);
    e.cat = Some("kernel".to_string());
    assert_eq!(append_to_kernel(&mut t, &e, "stream 7", vec!["3".to_string()]), 0);
    assert_eq!(t.ts.get(0), Some(50));
    assert_eq!(t.dur.get(0), Some(9));
    assert_eq!(t.pid.get(0), Some(4));
    assert_eq!(t.stream_tid.get(0), Some("stream 7"));
    assert_eq!(t.ph.get(0), Some(Phase(b'X')));
}

#[test]
fn name_nums_rows() {
    let mut n = NameNums::Empty;
    push_name_nums(&mut n, vec![]);
    assert!(matches!(n, NameNums::Empty));
    push_name_nums(&mut n, vec!["1".to_string()]);
    push_name_nums(&mut n, vec!["2".to_string()]);
    match &n {
        NameNums::Rows(r) => assert_eq!(r.len(), 2),
        other => panic!("unexpected {:?}", other),
    }
    let mut m = NameNums::Rows(vec![vec!["0".to_string()]]);
    assert!(extend_name_nums(&mut m, n).is_ok());
    match &m {
        NameNums::Rows(r) => assert_eq!(r.len(), 3),
        other => panic!("unexpected {:?}", other),
    }
    let mut c = NameNums::Columnar(vec![]);
    assert!(extend_name_nums(&mut c, NameNums::Empty).is_err());
    assert!(matches!(c, NameNums::Empty));
}

#[test]
fn args_columns_append_and_extend() {
    let mut cols = vec![ArgColumn::PerInstance(vec![])];
    let keys = vec!["k".to_string()];
    append_args_columns(&mut cols, &keys, &event("x", 0, None, vec![("k", ArgValue::Bool(true))]));
    assert_eq!(cols[0].len(), 1);
    let more = vec![ArgColumn::PerInstance(vec![ArgValue::Int(1), ArgValue::Int(2)])];
    assert!(extend_args_columns(&mut cols, more).is_ok());
    assert_eq!(cols[0].len(), 3);
    let bad = vec![ArgColumn::Constant(ArgValue::Null)];
    assert!(extend_args_columns(&mut cols, bad).is_err());
    let wrong_len: Vec<ArgColumn> = vec![];
    assert!(extend_args_columns(&mut cols, wrong_len).is_err());
    assert_eq!(cols[0].len(), 3);
}

#[test]
fn templates_merge_by_kind_and_keys() {
    assert!(same_keys(&vec!["a".to_string()], &vec!["a".to_string()]));
    assert!(!same_keys(&vec!["a".to_string()], &vec!["b".to_string()]));
    let mut a = Template::Cpu(cpu_template(&["k"]));
    let mut b = cpu_template(&["k"]);
    append_to_merge(&mut b, &event("aten::mm", 5, Some(1), vec![]), vec![]);
    assert!(extend_template(&mut a, Template::Cpu(b)).is_ok());
    assert_eq!(a.instance_count(), 1);
    assert!(matches!(
        extend_template(&mut a, Template::Cpu(cpu_template(&["other"]))),
        Err(Error::Other(_))
    ));
    assert!(extend_template(&mut a, Template::Gpu(gpu_template("g", vec![1], vec![1]))).is_err());
    assert_eq!(a.instance_count(), 1);

    let mut g = Template::Gpu(gpu_template("g", vec![1], vec![2]));
    assert!(extend_template(&mut g, Template::Gpu(gpu_template("g", vec![3], vec![4]))).is_ok());
    assert_eq!(g.instance_count(), 2);
    assert_eq!(g.dur_total(), 6);
    assert_eq!(g.ts_at(1), Some(3));
    assert!(g.is_gpu());
}

fn span(start: u32, len: u32) -> ChildSpan {
    ChildSpan { start, len }
}

#[test]
fn arena_accessors_and_kernel_walk() {
    let templates = vec![
        Template::Gpu(gpu_template("ncclKernel_AllReduce", vec![0, 10, 20], vec![5, 5, 0])),
        Template::Gpu(gpu_template("sm80_gemm", vec![1, 2], vec![3, 4])),
        Template::Cpu(cpu_template(&[])),
    ];
    let arena = NodeArena {
        nodes: vec![
            ArenaNode::Root { children: span(0, 3) },
            ArenaNode::Gpu { refs_start: 0, refs_len: 2 },
            ArenaNode::KernelLaunch { cpu_template: 2, cpu_instance: 0, gpu_template: 1, gpu_instance: 1 },
            ArenaNode::SameCpu { template: 2, instances: span(0, 2), children: ChildSpan::empty(), slots_start: 0, slots_len: 1 },
            ArenaNode::KernelsLaunch { cpu_template: 2, refs_start: 0, refs_len: 1 },
        ],
        child_ids: vec![1, 2, 3, 4],
        instance_ids: vec![0, 1],
        gpu_refs: vec![GpuRef { template: 0, instance: 1 }, GpuRef { template: 0, instance: 2 }],
        slots: vec![ArenaSlot { instance_index: 0, children: span(3, 1) }],
        kernels_refs: vec![KernelsLaunchRef { cpu_instance: 0, gpu_template: 1, gpu_instance: 0 }],
    };
    assert_eq!(arena.node_count(), 5);
    assert_eq!(arena.children(span(0, 3)), &[1, 2, 3]);
    assert!(arena.children(ChildSpan::empty()).is_empty());
    assert_eq!(arena.instances(span(0, 2)), &[0, 1]);
    assert_eq!(arena.gpu_refs_slice(1, 1)[0].instance, 2);
    assert_eq!(arena.slots_slice(0, 1)[0].children.start, 3);
    assert_eq!(arena.kernels_refs_slice(0, 1)[0].gpu_template, 1);
    assert!(matches!(arena.get(1), ArenaNode::Gpu { refs_len: 2, .. }));

    let mut out = Vec::new();
    walk_gpu_instances_arena(&arena, 0, &templates, &mut out);
    // the zero-duration kernel is dropped; node 4 is reached through the
    // grouped node's slot
    assert_eq!(out, vec![(10, 5, true), (2, 4, false), (1, 3, false)]);
}

#[test]
fn arena_well_formedness_check() {
    let good = NodeArena {
        nodes: vec![ArenaNode::Root { children: span(0, 1) }, ArenaNode::Gpu { refs_start: 0, refs_len: 1 }],
        child_ids: vec![1],
        instance_ids: vec![],
        gpu_refs: vec![GpuRef { template: 0, instance: 0 }],
        slots: vec![],
        kernels_refs: vec![],
    };
    assert!(good.check_wf());
    let mut backwards = good.clone();
    backwards.child_ids = vec![0];
    assert!(!backwards.check_wf());
    let mut out_of_range = good.clone();
    out_of_range.nodes[1] = ArenaNode::Gpu { refs_start: 0, refs_len: 2 };
    assert!(!out_of_range.check_wf());
    let mut bad_slot = good.clone();
    bad_slot.nodes.push(ArenaNode::SameCpu {
        template: 0,
        instances: ChildSpan::empty(),
        children: ChildSpan::empty(),
        slots_start: 0,
        slots_len: 1,
    });
    bad_slot.slots = vec![ArenaSlot { instance_index: 0, children: span(0, 1) }];
    assert!(!bad_slot.check_wf());
}

#[test]
fn arg_keys_are_collected_sorted_and_distinct() {
    let events = vec![
        event("a", 0, None, vec![("stream", ArgValue::Int(1)), ("device", ArgValue::Int(0))]),
        event("b", 0, None, vec![("correlation", ArgValue::Int(5)), ("stream", ArgValue::Int(2))]),
        event("c", 0, None, vec![]),
    ];
    assert_eq!(collect_arg_keys(&events), vec!["correlation".to_string(), "device".to_string(), "stream".to_string()]);
    assert!(collect_arg_keys(&vec![]).is_empty());
}

#[test]
fn instances_read_back_what_was_appended() {
    let mut t = cpu_template(&["input_dims", "seq"]);
    let e = event("aten::mm", 100, Some(5), vec![("seq", ArgValue::Int(3)), ("input_dims", ArgValue::Str("[1]".to_string()))]);
    let inst = append_to_merge(&mut t, &e, vec![]) as usize;
    let back = build_cpu_event(&t, inst, "aten::mm".to_string(), 4, "11", Phase(b'X'));
    assert_eq!(back.ts, 100);
    assert_eq!(back.dur, Some(5));
    assert_eq!(back.id, None);
    assert_eq!(back.cat, e.cat);
    let args = back.args.expect("arguments");
    assert_eq!(args.len(), 2);
    assert_eq!(args[0].0, "input_dims");
    assert!(matches!(&args[0].1, ArgValue::Str(s) if s == "[1]"));
    assert!(matches!(args[1].1, ArgValue::Int(3)));
    assert!(decode_args(&vec![], &vec![], 0).is_none());
    assert!(decode_args(&t.arg_keys, &t.args_columns, 7).is_none());
}

#[test]
fn kernel_instances_and_their_placement() {
    let mut t = gpu_template("gemm_0", vec![], vec![]);
    let mut e = event("gemm_1", 70, Some(3), vec![]);
    e.ph = Phase(b'i');
    let inst = append_to_kernel(&mut t, &e, "stream 9", vec![]) as usize;
    let (pid, tid, ph) = gpu_coordinate(&t, inst);
    assert_eq!((pid, tid.as_str(), ph), (4, "stream 9", Phase(b'i')));
    let (pid2, tid2, ph2) = gpu_coordinate(&t, inst + 1);
    assert_eq!((pid2, tid2.as_str(), ph2), (0, "", Phase(b'X')));
    let back = build_gpu_event(&t, inst, "gemm_1".to_string(), pid, &tid, ph);
    assert_eq!(back.ts, 70);
    assert_eq!(back.dur, Some(3));
    assert!(back.args.is_none());
    assert!(back.id.is_none() && back.bp.is_none() && back.s.is_none());
}

#[test]
fn correlation_ids() {
    let with = |pairs: Vec<(&str, ArgValue)>| Some(pairs.into_iter().map(|(k, v)| (k.to_string(), v)).collect::<Vec<_>>());
    assert_eq!(event_correlation(&with(vec![("correlation", ArgValue::Int(5)), ("External id", ArgValue::Int(9))])), Some(5));
    assert_eq!(event_correlation(&with(vec![("External id", ArgValue::Int(7))])), Some(7));
    assert_eq!(event_correlation(&with(vec![("correlation", ArgValue::Str("5".to_string())), ("External id", ArgValue::Int(7))])), None);
    assert_eq!(event_correlation(&with(vec![("correlation", ArgValue::UInt(u64::MAX))])), None);
    assert_eq!(event_correlation(&None), None);
}

#[test]
fn template_columns_compact_after_appending() {
    let mut t = cpu_template(&["seq"]);
    for ts in [10i64, 20, 30] {
        append_to_merge(&mut t, &event("aten::mm", ts, Some(4), vec![("seq", ArgValue::Int(1))]), vec![]);
    }
    compact_cpu_template(&mut t, &CompressorConfig::default());
    assert!(matches!(t.ts, NumColumn::I32(_)));
    assert!(matches!(t.dur, NumColumn::Constant { len: 3, value: 4 }));
    assert!(matches!(t.id, NumColumn::Empty));
    assert!(matches!(t.args_columns[0], ArgColumn::Constant(ArgValue::Int(1))));
    assert_eq!(t.ts.get(2), Some(30));

    let mut off = CompressorConfig::default();
    off.enable_args_dedup = false;
    let mut u = cpu_template(&["seq"]);
    append_to_merge(&mut u, &event("aten::mm", 1, None, vec![("seq", ArgValue::Int(1))]), vec![]);
    compact_cpu_template(&mut u, &off);
    assert!(matches!(u.args_columns[0], ArgColumn::PerInstance(_)));

    let mut g = gpu_template("k", vec![], vec![]);
    let mut e = event("k", 5, Some(2), vec![]);
    e.cat = Some("kernel".to_string());
    append_to_kernel(&mut g, &e, "stream 7", vec![]);
    append_to_kernel(&mut g, &e, "stream 7", vec![]);
    compact_gpu_template(&mut g, &CompressorConfig::default());
    assert!(matches!(g.stream_tid, StringColumn::Constant { len: 2, .. }));
    assert!(matches!(g.ph, PhaseColumn::Constant { len: 2, value: b'X' }));
    assert!(matches!(g.pid, NumColumn::Constant { len: 2, value: 4 }));
}

#[test]
fn template_signatures() {
    let e = event("aten::mm_3", 0, None, vec![("seq", ArgValue::Int(1)), ("input_dims", ArgValue::Null)]);
    let sig = e.template_signature("aten::mm_0".to_string());
    assert_eq!(sig.normalized_name, "aten::mm_0");
    assert_eq!(sig.arg_keys, vec!["input_dims".to_string(), "seq".to_string()]);
    assert_eq!(sig.cat, Some("cpu_op".to_string()));
    let t = Template::Cpu(cpu_template(&["seq", "input_dims"]));
    let tsig = template_signature(&t);
    assert_eq!(tsig.arg_keys, vec!["input_dims".to_string(), "seq".to_string()]);
    assert_eq!(tsig.normalized_name, "aten::mm");
    let g = template_signature(&Template::Gpu(gpu_template("gemm_0", vec![], vec![])));
    assert_eq!(g.bp, None);
    assert_eq!(g.cat, Some("kernel".to_string()));
    let none = event("x", 0, None, vec![]);
    let mut bare = none.clone();
    bare.args = None;
    assert!(bare.template_signature("x".to_string()).arg_keys.is_empty());
}

#[test]
fn kernels_take_the_layer_of_their_enclosing_call() {
    let mut layer = cpu_template(&[]);
    layer.name_pattern = "model.layers.0.mlp".to_string();
    layer.name_nums = NameNums::Rows(vec![vec!["3".to_string()], vec!["4".to_string()]]);
    let templates = vec![
        Template::Cpu(layer),
        Template::Gpu(gpu_template("gemm", vec![5, 9], vec![2, 3])),
        Template::Cpu(cpu_template(&[])),
    ];
    let scopes = vec!["layers".to_string(), "gemm".to_string(), "mm".to_string()];
    let tree = Node::Root {
        children: vec![
            Node::Cpu(CpuNode {
                template: 0,
                instance: 0,
                children: vec![Node::Gpu(GpuNode { templates: vec![1], instances: vec![0] })],
                slots: vec![],
            }),
            Node::Cpu(CpuNode {
                template: 2,
                instance: 0,
                children: vec![Node::KernelLaunch(KernelLaunchNode { cpu_template: 0, cpu_instance: 1, gpu_template: 1, gpu_instance: 1 })],
                slots: vec![],
            }),
            Node::Gpu(GpuNode { templates: vec![1], instances: vec![1] }),
        ],
    };
    let (arena, root) = NodeArena::from_tree(&tree);
    let mut out = Vec::new();
    walk_layers_arena(&arena, root, &templates, &scopes, ActiveLayer::NoLayer, &mut out);
    assert_eq!(out, vec![("layers#3".to_string(), 1, 0), ("layers#4".to_string(), 1, 1)]);

    let mut under = Vec::new();
    walk_layers_arena(&arena, root, &templates, &scopes, ActiveLayer::One("outer".to_string()), &mut under);
    assert_eq!(under.len(), 3);
    assert_eq!(under[2], ("outer".to_string(), 1, 1));

    let items = layer_kernel_items("r0", &templates, &out);
    assert_eq!(items.len(), 2);
    assert_eq!((items[0].rank.as_str(), items[0].layer.as_str(), items[0].gpu.name.as_str()), ("r0", "layers#3", "gemm"));
    assert_eq!((items[0].gpu.ts, items[0].gpu.dur), (5, 2));
    assert_eq!((items[1].gpu.ts, items[1].gpu.dur), (9, 3));
}
