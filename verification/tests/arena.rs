use padoc::arena::{ArenaNode, NodeArena};
use padoc::node::{CpuNode, GpuNode, KernelLaunchNode, KernelsLaunchNode, Node, SameCpuNode, SlotEntry};

#[test]
fn arena_round_trip() {
    let tree = Node::Root {
        children: vec![
            Node::Cpu(CpuNode {
                template: 0,
                instance: 0,
                children: vec![Node::KernelLaunch(KernelLaunchNode {
                    cpu_template: 1,
                    cpu_instance: 0,
                    gpu_template: 2,
                    gpu_instance: 0,
                })],
                slots: vec![],
            }),
            Node::Gpu(GpuNode { templates: vec![3, 4], instances: vec![0, 1] }),
        ],
    };

    let (arena, root_id) = NodeArena::from_tree(&tree);
    let reconstructed = arena.to_tree(root_id);

    if let (Node::Root { children: orig }, Node::Root { children: recon }) = (&tree, &reconstructed) {
        assert_eq!(orig.len(), recon.len());
    } else {
        panic!("root mismatch");
    }
}

#[test]
fn arena_round_trip_keeps_every_field() {
    let tree = Node::Root {
        children: vec![
            Node::SameCpu(SameCpuNode {
                template: 7,
                instances: vec![3, 4, 5],
                children: vec![Node::KernelLaunch(KernelLaunchNode {
                    cpu_template: 1,
                    cpu_instance: 2,
                    gpu_template: 3,
                    gpu_instance: 4,
                })],
                slots: vec![SlotEntry {
                    instance_index: 1,
                    children: vec![Node::Cpu(CpuNode { template: 9, instance: 8, children: vec![], slots: vec![] })],
                }],
            }),
            Node::KernelsLaunch(KernelsLaunchNode {
                cpu_template: 5,
                cpu_instances: vec![0, 1],
                gpu_templates: vec![6, 6],
                gpu_instances: vec![10, 11],
            }),
        ],
    };
    let (arena, root_id) = NodeArena::from_tree(&tree);
    assert_eq!(root_id, 0);
    assert!(matches!(arena.nodes[0], ArenaNode::Root { .. }));
    assert!(arena.check_wf());
    let back = arena.to_tree(root_id);
    let children = match &back {
        Node::Root { children } => children,
        _ => panic!("root mismatch"),
    };
    assert_eq!(children.len(), 2);
    match &children[0] {
        Node::SameCpu(n) => {
            assert_eq!(n.template, 7);
            assert_eq!(n.instances, vec![3, 4, 5]);
            assert_eq!(n.children.len(), 1);
            match &n.children[0] {
                Node::KernelLaunch(k) => {
                    assert_eq!((k.cpu_template, k.cpu_instance, k.gpu_template, k.gpu_instance), (1, 2, 3, 4));
                },
                _ => panic!("child mismatch"),
            }
            assert_eq!(n.slots.len(), 1);
            assert_eq!(n.slots[0].instance_index, 1);
            match &n.slots[0].children[0] {
                Node::Cpu(c) => assert_eq!((c.template, c.instance), (9, 8)),
                _ => panic!("slot mismatch"),
            }
        },
        _ => panic!("grouped node mismatch"),
    }
    match &children[1] {
        Node::KernelsLaunch(k) => {
            assert_eq!(k.cpu_template, 5);
            assert_eq!(k.cpu_instances, vec![0, 1]);
            assert_eq!(k.gpu_templates, vec![6, 6]);
            assert_eq!(k.gpu_instances, vec![10, 11]);
        },
        _ => panic!("launch mismatch"),
    }
}
