use padoc::compressor::shards::{merge_shards, merge_template_tables, RankShard, ThreadRoot};
use padoc::event::{MergeEvent, MergeKernelEvent, NameNums, NumColumn, PhaseColumn, StringColumn, Template};
use padoc::node::{rewrite_node, CpuNode, GpuNode, KernelLaunchNode, Node};

fn cpu(name: &str, ts: Vec<i64>) -> Template {
    Template::Cpu(MergeEvent {
        name_pattern: name.to_string(),
        name_nums: NameNums::Empty,
        cat: Some("cpu_op".to_string()),
        bp: None,
        s: None,
        arg_keys: vec![],
        args_columns: vec![],
        ts: NumColumn::I64(ts),
        dur: NumColumn::Empty,
        id: NumColumn::Empty,
    })
}

fn gpu(name: &str, ts: Vec<i64>) -> Template {
    Template::Gpu(MergeKernelEvent {
        name_pattern: name.to_string(),
        name_nums: NameNums::Empty,
        cat: Some("cpu_op".to_string()),
        arg_keys: vec![],
        args_columns: vec![],
        ts: NumColumn::I64(ts.clone()),
        dur: NumColumn::Empty,
        pid: NumColumn::I64(vec![0; ts.len()]),
        stream_tid: StringColumn::Empty,
        ph: PhaseColumn::Empty,
    })
}

fn ts_of(t: &Template) -> Vec<i64> {
    let n = t.instance_count();
    let col = match t {
        Template::Cpu(m) => &m.ts,
        Template::Gpu(g) => &g.ts,
    };
    (0..n).map(|i| col.get(i).unwrap()).collect()
}

#[test]
fn merge_dedups_templates_by_signature() {
    let tables = vec![vec![cpu("aten::mm", vec![1, 2]), cpu("aten::add", vec![3])], vec![cpu("aten::add", vec![10, 11]), cpu("aten::mm", vec![20])]];
    let (globals, remaps) = merge_template_tables(tables).unwrap();
    assert_eq!(globals.len(), 2);
    assert_eq!(remaps, vec![vec![(0, 0), (1, 0)], vec![(1, 1), (0, 2)]]);
    assert_eq!(ts_of(&globals[0]), vec![1, 2, 20]);
    assert_eq!(ts_of(&globals[1]), vec![3, 10, 11]);
}

#[test]
fn merge_fails_on_kind_mismatch() {
    let tables = vec![vec![cpu("k", vec![1])], vec![gpu("k", vec![2])]];
    assert!(merge_template_tables(tables).is_err());
}

#[test]
fn merge_shards_renumbers_trees() {
    let tree0 = Node::Root {
        children: vec![Node::Cpu(CpuNode { template: 1, instance: 0, children: vec![], slots: vec![] })],
    };
    let tree1 = Node::Root {
        children: vec![
            Node::Cpu(CpuNode { template: 0, instance: 1, children: vec![], slots: vec![] }),
            Node::KernelLaunch(KernelLaunchNode { cpu_template: 1, cpu_instance: 0, gpu_template: 0, gpu_instance: 0 }),
        ],
    };
    let shards = vec![
        RankShard {
            rank: "0".to_string(),
            templates: vec![cpu("a", vec![5]), cpu("b", vec![6])],
            roots: vec![ThreadRoot { pid: 1, tid: "t".to_string(), ph: b'X', node: tree0 }],
            start_timestamp: Some(100),
        },
        RankShard {
            rank: "1".to_string(),
            templates: vec![cpu("b", vec![7, 8]), cpu("a", vec![9])],
            roots: vec![ThreadRoot { pid: 2, tid: "u".to_string(), ph: b'X', node: tree1 }],
            start_timestamp: None,
        },
    ];
    let merged = merge_shards(shards).unwrap();
    assert_eq!(merged.templates.len(), 2);
    assert_eq!(merged.remaps, vec![vec![(0, 0), (1, 0)], vec![(1, 1), (0, 1)]]);
    assert_eq!(merged.ranks[0].rank, "0");
    assert_eq!(merged.ranks[1].start_timestamp, None);
    let r1 = &merged.ranks[1].roots[0];
    assert_eq!((r1.pid, r1.tid.as_str(), r1.ph), (2, "u", b'X'));
    match &r1.node {
        Node::Root { children } => {
            match &children[0] {
                Node::Cpu(c) => assert_eq!((c.template, c.instance), (1, 2)),
                _ => panic!("cpu node expected"),
            }
            match &children[1] {
                Node::KernelLaunch(k) => {
                    assert_eq!((k.cpu_template, k.cpu_instance, k.gpu_template, k.gpu_instance), (0, 1, 1, 1));
                },
                _ => panic!("launch node expected"),
            }
        },
        _ => panic!("root expected"),
    }
}

#[test]
fn rewrite_moves_gpu_refs() {
    let node = Node::Gpu(GpuNode { templates: vec![0, 1], instances: vec![3, 4] });
    let out = rewrite_node(&node, &vec![(5, 10), (6, 20)]);
    match out {
        Node::Gpu(g) => {
            assert_eq!(g.templates, vec![5, 6]);
            assert_eq!(g.instances, vec![13, 24]);
        },
        _ => panic!("gpu node expected"),
    }
}
