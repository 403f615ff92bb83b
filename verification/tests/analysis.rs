use padoc::analysis::compute_comm_overlap::OverlapState;
use padoc::analysis::gpu_bubble::BubbleState;
use padoc::analysis::kernel_class::is_nccl_kernel;
use padoc::analysis::layer_gpu::{
    is_gpu_stream, is_low_value_repeated_scope, merge_intervals, overlap_len, push_interval, total_gpu_kernel_refs,
    layer_zero_index, union_len, ActiveLayer, IntervalAgg, RankLayerAgg,
};
use padoc::analysis::rank::rank_cmp;
use padoc::analysis::stream_load_balance::{constant_i64_col, constant_str_col};
use padoc::event::{MergeKernelEvent, NameNums, NumColumn, PhaseColumn, StringColumn, Template};
use std::cmp::Ordering;

#[test]
fn streaming_overlap_basic() {
    let mut state = OverlapState::default();
    state.push_event(0, 10, false);
    state.push_event(5, 10, true);
    assert_eq!(state.overlap_accum, 5);
    assert_eq!(state.compute_total, 10);
    assert_eq!(state.comm_total, 10);
}

#[test]
fn streaming_overlap_no_overlap() {
    let mut state = OverlapState::default();
    state.push_event(0, 10, false);
    state.push_event(20, 10, true);
    assert_eq!(state.overlap_accum, 0);
}

#[test]
fn finds_layer_zero_index() {
    assert_eq!(layer_zero_index("model.layers.0.attn"), Some(0));
    assert_eq!(layer_zero_index("x.0.layers.0.y"), Some(1));
    assert_eq!(layer_zero_index("aten::mm"), None);
}

#[test]
fn overlap_math_handles_intersections() {
    let compute = vec![(0, 10), (20, 30)];
    let comm = vec![(5, 25)];
    assert_eq!(overlap_len(compute, comm), 10);
}

#[test]
fn layer_gpu_zero_index_other_slot_kinds() {
    assert_eq!(layer_zero_index("ResBlock0/conv"), Some(0));
    assert_eq!(layer_zero_index("enc.0.DecoderLayer_0.mlp"), Some(1));
    assert_eq!(layer_zero_index("layers_10"), None);
}

#[test]
fn merge_intervals_joins_overlapping_and_touching() {
    let merged = merge_intervals(vec![(20, 30), (0, 10), (5, 12), (12, 15), (40, 41)]);
    assert_eq!(merged, vec![(0, 15), (20, 30), (40, 41)]);
    assert_eq!(merge_intervals(vec![]), vec![]);
}

#[test]
fn union_len_counts_covered_time_once() {
    assert_eq!(union_len(vec![(0, 10), (5, 15), (20, 25)]), 20);
    assert_eq!(union_len(vec![]), 0);
}

#[test]
fn overlap_equals_pairwise_intersections() {
    let compute = vec![(0, 4), (6, 10), (12, 20)];
    let comm = vec![(2, 7), (9, 13), (19, 30)];
    // pairwise: [2,4)=2 + [6,7)=1 + [9,10)=1 + [12,13)=1 + [19,20)=1
    assert_eq!(overlap_len(compute, comm), 6);
    assert_eq!(overlap_len(vec![], vec![(0, 5)]), 0);
}

#[test]
fn push_interval_splits_by_kernel_kind() {
    let mut agg = IntervalAgg::default();
    push_interval(&mut agg, "ncclKernel_AllReduce", 10, 5);
    push_interval(&mut agg, "ampere_sgemm", 0, 7);
    assert_eq!(agg.comm, vec![(10, 15)]);
    assert_eq!(agg.compute, vec![(0, 7)]);
    assert_eq!(agg.comm_total_us, 5);
    assert_eq!(agg.compute_total_us, 7);
}

#[test]
fn rank_layer_agg_adds_to_the_right_side() {
    let mut agg = RankLayerAgg::default();
    agg.add("genericMultiShmOp", 3);
    agg.add("volta_gemm", 4);
    agg.add("volta_gemm", 1);
    assert_eq!(agg.comm_us, 3);
    assert_eq!(agg.compute_us, 5);
}

#[test]
fn active_layer_from_layers_cases() {
    match ActiveLayer::from_layers(vec![None, None]) {
        ActiveLayer::NoLayer => {}
        other => panic!("unexpected {:?}", other),
    }
    match ActiveLayer::from_layers(vec![Some("a#1".to_string()), Some("a#1".to_string())]) {
        ActiveLayer::One(l) => assert_eq!(l, "a#1"),
        other => panic!("unexpected {:?}", other),
    }
    match ActiveLayer::from_layers(vec![Some("a#1".to_string()), None]) {
        ActiveLayer::Many(ls) => assert_eq!(ls, vec![Some("a#1".to_string()), None]),
        other => panic!("unexpected {:?}", other),
    }
    match ActiveLayer::from_layers(vec![Some("a#1".to_string()), Some("a#2".to_string())]) {
        ActiveLayer::Many(ls) => assert_eq!(ls.len(), 2),
        other => panic!("unexpected {:?}", other),
    }
}

#[test]
fn active_layer_lookups() {
    let many = ActiveLayer::Many(vec![Some("x".to_string()), None]);
    assert_eq!(many.at(0), Some("x".to_string()));
    assert_eq!(many.at(1), None);
    assert_eq!(many.at(5), None);
    assert_eq!(many.scalar(), None);
    let one = ActiveLayer::from_option(Some("y".to_string()));
    assert_eq!(one.at(9), Some("y".to_string()));
    assert_eq!(one.scalar(), Some("y".to_string()));
    let fallback = ActiveLayer::from_option(None).or(ActiveLayer::One("z".to_string()));
    assert_eq!(fallback.scalar(), Some("z".to_string()));
    let kept = ActiveLayer::One("w".to_string()).or(ActiveLayer::One("z".to_string()));
    assert_eq!(kept.scalar(), Some("w".to_string()));
}

#[test]
fn low_value_scopes_and_streams() {
    assert!(is_low_value_repeated_scope("cudaLaunchKernel"));
    assert!(is_low_value_repeated_scope("CloneBackward0"));
    assert!(!is_low_value_repeated_scope("DecoderLayer"));
    assert!(is_gpu_stream("stream 7"));
    assert!(!is_gpu_stream("thread 3"));
}

#[test]
fn nccl_kernel_classification() {
    assert!(is_nccl_kernel("ncclDevKernel_AllGather"));
    assert!(is_nccl_kernel("NCCLKernel"));
    assert!(is_nccl_kernel("xx_GenericIxCCL_yy"));
    assert!(!is_nccl_kernel("sm80_xmma_gemm"));
}

#[test]
fn rank_order_numeric_then_text() {
    assert_eq!(rank_cmp("2", "10"), Ordering::Less);
    assert_eq!(rank_cmp("10", "10"), Ordering::Equal);
    assert_eq!(rank_cmp("b", "a"), Ordering::Greater);
    assert_eq!(rank_cmp("10", "9x"), Ordering::Less);
}

#[test]
fn bubble_state_tracks_busy_window() {
    let mut s = BubbleState::default();
    s.push_event(0, 10);
    s.push_event(5, 10);
    s.push_event(30, 5);
    assert_eq!(s.first_ts, 0);
    assert_eq!(s.last_end, 35);
    assert_eq!(s.busy_total, 20);
    assert_eq!(s.event_count, 3);
}

fn gpu_template(cat: Option<&str>, durs: Vec<i64>) -> Template {
    Template::Gpu(MergeKernelEvent {
        name_pattern: "k".to_string(),
        name_nums: NameNums::Empty,
        cat: cat.map(|c| c.to_string()),
        arg_keys: vec![],
        args_columns: vec![],
        ts: NumColumn::I64(vec![0; durs.len()]),
        dur: NumColumn::I64(durs),
        pid: NumColumn::Empty,
        stream_tid: StringColumn::Empty,
        ph: PhaseColumn::Empty,
    })
}

#[test]
fn total_gpu_kernel_refs_counts_kernel_instances() {
    let templates = vec![gpu_template(Some("kernel"), vec![1, 2, 3]), gpu_template(Some("gpu_memcpy"), vec![4]), gpu_template(Some("kernel"), vec![5])];
    assert_eq!(total_gpu_kernel_refs(&templates), 4);
}

#[test]
fn constant_columns_are_recognised() {
    assert_eq!(constant_i64_col(&NumColumn::Constant { len: 3, value: 7 }), Some(7));
    assert_eq!(constant_i64_col(&NumColumn::I64(vec![7, 7])), None);
    let c = StringColumn::Constant { len: 2, value: "stream 1".to_string() };
    assert_eq!(constant_str_col(&c), Some("stream 1"));
    assert_eq!(constant_str_col(&StringColumn::Empty), None);
}

#[test]
fn union_len_ignores_order() {
    assert_eq!(union_len(vec![(20, 25), (5, 15), (0, 10)]), 20);
    assert_eq!(union_len(vec![(5, 15), (20, 25), (0, 10)]), 20);
    assert_eq!(union_len(vec![]), 0);
}

#[test]
fn streamed_busy_time_is_union_of_kernels() {
    let mut b = BubbleState::default();
    for (ts, dur) in [(0, 10), (5, 10), (20, 5), (21, 2)] {
        b.push_event(ts, dur);
    }
    assert_eq!(b.busy_total, union_len(vec![(0, 10), (5, 15), (20, 25), (21, 23)]));
    assert_eq!(b.busy_total, 20);
    assert_eq!(b.event_count, 4);
}

#[test]
fn streamed_totals_are_unions_per_class() {
    let mut s = OverlapState::default();
    for (ts, dur, comm) in [(0, 10, false), (5, 10, true), (8, 4, false), (30, 5, true)] {
        s.push_event(ts, dur, comm);
    }
    assert_eq!(s.compute_total, union_len(vec![(0, 10), (8, 12)]));
    assert_eq!(s.comm_total, union_len(vec![(5, 15), (30, 35)]));
}

#[test]
fn streamed_overlap_equals_the_intersection_of_the_unions() {
    let evs = [(0i64, 10i64, false), (2, 6, true), (5, 10, true), (12, 3, false)];
    let mut s = OverlapState::default();
    for (ts, dur, comm) in evs {
        s.push_event(ts, dur, comm);
    }
    let compute: Vec<(i64, i64)> = evs.iter().filter(|e| !e.2).map(|e| (e.0, e.0 + e.1)).collect();
    let comm: Vec<(i64, i64)> = evs.iter().filter(|e| e.2).map(|e| (e.0, e.0 + e.1)).collect();
    assert_eq!(s.overlap_accum, 11);
    assert_eq!(s.overlap_accum, overlap_len(compute, comm));
    assert_eq!(s.compute_total, 13);
    assert_eq!(s.comm_total, 13);
}

#[test]
fn merged_intervals_cover_the_same_points() {
    let v = vec![(5i64, 8i64), (0, 3), (2, 4), (9, 9), (8, 10)];
    let m = merge_intervals(v.clone());
    assert_eq!(m, vec![(0, 4), (5, 10)]);
    for x in -2i64..12 {
        let in_v = v.iter().any(|&(s, e)| s <= x && x < e);
        let in_m = m.iter().any(|&(s, e)| s <= x && x < e);
        assert_eq!(in_v, in_m);
    }
}
