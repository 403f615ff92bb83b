use padoc::analysis::layer_gpu::{checked_overlap_len, checked_union_len, LayerKernelHotspot};
use padoc::analysis::layer_rows::{
    group_pairs, layer_balance_table, layer_kernel_hotspot, layer_overlap_rows, RawGpuKernel, RawLayerGpu,
};
use padoc::baselines::insitu::top_by_total;

fn kernel(rank: &str, layer: &str, name: &str, ts: i64, dur: i64) -> RawLayerGpu {
    RawLayerGpu {
        rank: rank.to_string(),
        layer: layer.to_string(),
        gpu: RawGpuKernel { name: name.to_string(), ts, dur },
    }
}

fn sample() -> Vec<RawLayerGpu> {
    vec![
        kernel("1", "model.layers.1", "gemm", 0, 10),
        kernel("1", "model.layers.1", "ncclAllReduce", 5, 10),
        kernel("0", "model.layers.1", "gemm", 0, 4),
        kernel("1", "model.layers.0", "gemm", 100, 5),
        kernel("10", "model.layers.0", "gemm", 0, 1),
        kernel("1", "model.layers.1", "gemm", 2, 3),
    ]
}

fn pair(a: &str, b: &str) -> (String, String) {
    (a.to_string(), b.to_string())
}

#[test]
fn groups_equal_keys_in_first_occurrence_order() {
    let keys = vec![pair("0", "a"), pair("1", "a"), pair("0", "a"), pair("0", "b")];
    let kg = group_pairs(&keys);
    let groups = kg.groups();
    assert_eq!(groups.len(), 3);
    assert_eq!((groups[0].first.as_str(), groups[0].second.as_str()), ("0", "a"));
    assert_eq!(groups[0].members, vec![0, 2]);
    assert_eq!(groups[1].members, vec![1]);
    assert_eq!(groups[2].members, vec![3]);
    assert_eq!(kg.find("0", "b"), Some(2));
    assert_eq!(kg.find("1", "b"), None);
}

#[test]
fn checked_union_and_overlap() {
    assert_eq!(checked_union_len(vec![(0, 10), (5, 15), (20, 25)]), Some(20));
    assert_eq!(checked_union_len(vec![]), Some(0));
    assert_eq!(checked_union_len(vec![(i64::MIN, 0), (1, i64::MAX)]), None);
    assert_eq!(checked_overlap_len(vec![(0, 10), (20, 30)], vec![(5, 25)]), Some(10));
    assert_eq!(checked_overlap_len(vec![(i64::MIN, i64::MAX)], vec![(i64::MIN, i64::MAX)]), None);
}

#[test]
fn overlap_rows_per_rank_and_layer() {
    let rows = layer_overlap_rows(&sample()).expect("fits");
    let keys: Vec<(&str, &str)> = rows.iter().map(|r| (r.rank.as_str(), r.layer.as_str())).collect();
    assert_eq!(
        keys,
        vec![("0", "model.layers.1"), ("1", "model.layers.0"), ("1", "model.layers.1"), ("10", "model.layers.0")]
    );
    let r = &rows[2];
    assert_eq!(r.compute_total_us, 13);
    assert_eq!(r.comm_total_us, 10);
    assert_eq!(r.compute_union_us, 10);
    assert_eq!(r.comm_union_us, 10);
    assert_eq!(r.overlap_us, 5);
    let r = &rows[0];
    assert_eq!((r.compute_total_us, r.comm_total_us, r.compute_union_us, r.comm_union_us, r.overlap_us), (4, 0, 4, 0, 0));
    let r = &rows[3];
    assert_eq!((r.compute_total_us, r.compute_union_us), (1, 1));
    for r in &rows {
        assert!(0 <= r.overlap_us && r.overlap_us <= r.compute_union_us.min(r.comm_union_us));
    }
}

#[test]
fn overlap_rows_refuse_overflow() {
    assert!(layer_overlap_rows(&vec![kernel("0", "x", "gemm", i64::MAX, 1)]).is_none());
    assert_eq!(layer_overlap_rows(&vec![]).map(|r| r.len()), Some(0));
}

#[test]
fn balance_table_fills_missing_cells_with_zero() {
    let (ranks, rows) = layer_balance_table(&sample()).expect("fits");
    assert_eq!(ranks, vec!["0".to_string(), "1".to_string(), "10".to_string()]);
    assert_eq!(rows.len(), 2);
    assert_eq!(rows[0].layer, "model.layers.0");
    assert_eq!(rows[0].compute, vec![0, 5, 1]);
    assert_eq!(rows[0].comm, vec![0, 0, 0]);
    assert_eq!(rows[0].total, vec![0, 5, 1]);
    assert_eq!(rows[1].layer, "model.layers.1");
    assert_eq!(rows[1].compute, vec![4, 13, 0]);
    assert_eq!(rows[1].comm, vec![0, 10, 0]);
    assert_eq!(rows[1].total, vec![4, 23, 0]);
}

#[test]
fn balance_table_refuses_overflow() {
    let items = vec![kernel("0", "x", "gemm", 0, i64::MAX), kernel("0", "x", "nccl", 0, 1)];
    assert!(layer_balance_table(&items).is_none());
}

#[test]
fn kernel_hotspot_counts_and_sums() {
    let rows = layer_kernel_hotspot(&sample(), 2).expect("fits");
    assert_eq!(
        rows,
        vec![
            (("model.layers.1".to_string(), "gemm".to_string(), 3), 17),
            (("model.layers.1".to_string(), "ncclAllReduce".to_string(), 1), 10),
        ]
    );
    let all = layer_kernel_hotspot(&sample(), 10).expect("fits");
    assert_eq!(all.len(), 3);
    assert_eq!(all[2], (("model.layers.0".to_string(), "gemm".to_string(), 2), 6));
}

#[test]
fn kernel_hotspot_row_limit_is_at_least_twenty() {
    assert_eq!(LayerKernelHotspot { top_k: 5 }.row_limit(), 20);
    assert_eq!(LayerKernelHotspot { top_k: 50 }.row_limit(), 50);
}

#[test]
fn top_by_total_keeps_any_payload() {
    let top = top_by_total(vec![((1u8, 'a'), 3), ((2u8, 'b'), 7), ((3u8, 'c'), 3)], 2);
    assert_eq!(top, vec![((2u8, 'b'), 7), ((1u8, 'a'), 3)]);
}
