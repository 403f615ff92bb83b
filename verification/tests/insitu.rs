use padoc::baselines::insitu::{
    group_by_rank, heaviest_keys, named_totals, rank_busy, rank_totals, top_by_total, RankTotals, HOTSPOT_LIMIT,
};
use padoc::baselines::scalatrace::{build_payload, StreamCell};
use padoc::baselines::scalatrace_analysis::{
    st_bubble_stats, st_bubble_stats_checked, st_operator_hotspot, st_operator_hotspot_checked, st_rank_load_balance,
    st_rank_load_balance_checked,
};
use padoc::baselines::tracezip::{bucket_decodable_check, build_tracezip_payload, EventStream};
use padoc::baselines::tracezip_analysis::{
    tz_bubble_stats, tz_bubble_stats_checked, tz_operator_hotspot, tz_operator_hotspot_checked, tz_rank_load_balance,
    tz_rank_load_balance_checked,
};
use padoc::codec::{gzip_pack, gzip_unpack, zstd_pack, zstd_unpack};
use padoc::event::{Event, Phase};
use padoc::Error;

#[test]
fn rows_group_by_rank_ascending() {
    let rows = vec![(3u32, (5i64, 1i64)), (1, (0, 2)), (3, (1, 1))];
    let (ids, groups) = group_by_rank(&rows);
    assert_eq!(ids, vec![1, 3]);
    assert_eq!(groups, vec![vec![(0, 2)], vec![(5, 1), (1, 1)]]);
}

#[test]
fn busy_time_per_rank() {
    let rows = vec![(2u32, (30i64, 5i64)), (1, (0, 10)), (2, (0, 10)), (2, (5, 10))];
    let out = rank_busy(&rows);
    assert_eq!(out.len(), 2);
    assert_eq!((out[0].rank_id, out[0].busy_us, out[0].total_span_us, out[0].kernel_count), (1, 10, 10, 1));
    assert_eq!((out[1].rank_id, out[1].busy_us, out[1].total_span_us, out[1].kernel_count), (2, 20, 35, 3));
}

#[test]
fn compute_and_comm_totals_per_rank() {
    let rows = vec![(0u32, (5i64, false)), (1, (7, true)), (0, (3, true)), (0, (2, false))];
    let totals = rank_totals(&rows);
    assert_eq!(totals.len(), 2);
    assert_eq!((totals[0].rank_id, totals[0].compute_us, totals[0].comm_us), (0, 7, 3));
    assert_eq!((totals[1].rank_id, totals[1].compute_us, totals[1].comm_us), (1, 0, 7));
}

#[test]
fn totals_are_listed_by_rank_name() {
    let dict = vec!["b".to_string(), "a".to_string(), "b".to_string()];
    let totals = vec![
        RankTotals { rank_id: 0, compute_us: 1, comm_us: 2 },
        RankTotals { rank_id: 1, compute_us: 3, comm_us: 4 },
        RankTotals { rank_id: 2, compute_us: 5, comm_us: 6 },
    ];
    let out = named_totals(&totals, &dict);
    assert_eq!(out, vec![("a".to_string(), 3, 4), ("b".to_string(), 1, 2)]);
}

#[test]
fn top_totals_keep_the_heaviest_in_order() {
    let entries: Vec<(String, i64)> = (0..25).map(|i| (format!("op{i}"), (i % 7) as i64)).collect();
    let top = top_by_total(entries, HOTSPOT_LIMIT);
    assert_eq!(top.len(), HOTSPOT_LIMIT);
    assert!(top.windows(2).all(|w| w[0].1 >= w[1].1));
    assert_eq!(top[0], ("op6".to_string(), 6));
    assert_eq!(top[1], ("op13".to_string(), 6));
    assert_eq!(
        top_by_total(vec![("x".to_string(), -1), ("y".to_string(), 4)], 5),
        vec![("y".to_string(), 4), ("x".to_string(), -1)]
    );
    assert!(top_by_total(vec![("x".to_string(), 1)], 0).is_empty());
}

#[test]
fn heaviest_keys_sum_per_key() {
    let names = vec!["mm".to_string(), "add".to_string()];
    let rows = vec![(1u32, 4i64), (0, 3), (1, 2), (0, 1)];
    assert_eq!(heaviest_keys(&rows, &names), vec![("add".to_string(), 6), ("mm".to_string(), 4)]);
}

fn kernel(name: &str, ts: i64, dur: i64) -> Event {
    Event {
        name: name.to_string(),
        ts,
        dur: Some(dur),
        cat: Some("kernel".to_string()),
        ph: Phase(b'X'),
        pid: 0,
        tid: "stream 7".to_string(),
        args: None,
        id: None,
        bp: None,
        s: None,
    }
}

fn cpu_op(name: &str, ts: i64, dur: i64) -> Event {
    let mut e = kernel(name, ts, dur);
    e.cat = Some("cpu_op".to_string());
    e.tid = "1".to_string();
    e
}

fn sample_cells() -> Vec<(String, Vec<Event>)> {
    vec![
        ("0".to_string(), vec![kernel("sm80_gemm", 0, 10), kernel("ncclKernel_AllReduce", 5, 10), kernel("sm80_gemm", 30, 5)]),
        ("1".to_string(), vec![kernel("sm80_gemm", 100, 4), cpu_op("aten::mm", 90, 20)]),
    ]
}

#[test]
fn scalatrace_in_situ_analyses() {
    let cells: Vec<StreamCell> = sample_cells()
        .into_iter()
        .map(|(rank, events)| StreamCell {
            rank,
            pid: 0,
            tid: "stream 7".to_string(),
            ph: Phase(b'X'),
            normalized: events.iter().map(|e| e.name.clone()).collect(),
            events,
        })
        .collect();
    let p = build_payload(&cells);

    let bubble = st_bubble_stats(&p);
    assert_eq!(bubble.len(), 2);
    assert_eq!(bubble[0].0, "0");
    assert_eq!((bubble[0].1.busy_us, bubble[0].1.total_span_us, bubble[0].1.kernel_count), (20, 35, 3));
    assert_eq!(bubble[1].0, "1");
    assert_eq!((bubble[1].1.busy_us, bubble[1].1.total_span_us, bubble[1].1.kernel_count), (4, 4, 1));

    let balance = st_rank_load_balance(&p);
    assert_eq!(balance, vec![("0".to_string(), 15, 10), ("1".to_string(), 4, 0)]);

    let hot = st_operator_hotspot(&p);
    assert_eq!(hot[0], ("aten::mm".to_string(), 20));
    assert_eq!(hot[1], ("sm80_gemm".to_string(), 19));
    assert_eq!(hot[2], ("ncclKernel_AllReduce".to_string(), 10));
}

#[test]
fn tracezip_in_situ_analyses() {
    let cells: Vec<EventStream> = sample_cells()
        .into_iter()
        .map(|(rank, events)| EventStream { rank, pid: 0, tid: "stream 7".to_string(), ph: Phase(b'X'), events })
        .collect();
    let names: Vec<String> = vec!["sm80_gemm", "ncclKernel_AllReduce", "aten::mm"].into_iter().map(String::from).collect();
    let p = build_tracezip_payload(&cells, &names);

    let bubble = tz_bubble_stats(&p);
    assert_eq!(bubble.len(), 2);
    assert_eq!(bubble[0].0, "0");
    assert_eq!((bubble[0].1.busy_us, bubble[0].1.total_span_us, bubble[0].1.kernel_count), (20, 35, 3));
    assert_eq!((bubble[1].1.busy_us, bubble[1].1.total_span_us, bubble[1].1.kernel_count), (4, 4, 1));

    let balance = tz_rank_load_balance(&p);
    assert_eq!(balance, vec![("0".to_string(), 15, 10), ("1".to_string(), 4, 0)]);

    let hot = tz_operator_hotspot(&p);
    assert_eq!(hot, vec![
        ("aten::mm".to_string(), 20),
        ("sm80_gemm".to_string(), 19),
        ("ncclKernel_AllReduce".to_string(), 10),
    ]);
}

#[test]
fn zstd_frames_round_trip() {
    let raw = b"scalatrace payload scalatrace payload".to_vec();
    let packed = zstd_pack(&raw).unwrap();
    assert_ne!(packed, raw);
    assert_eq!(&packed[..4], &[0x28, 0xb5, 0x2f, 0xfd]);
    assert_eq!(zstd_unpack(&packed).unwrap(), raw);
    assert!(matches!(zstd_unpack(b"not a frame"), Err(Error::Io(_))));
}

#[test]
fn gzip_streams_round_trip() {
    let raw = b"{\"0\": []}".to_vec();
    let packed = gzip_pack(&raw).unwrap();
    assert_ne!(packed, raw);
    assert_eq!(&packed[..2], &[0x1f, 0x8b]);
    assert_eq!(gzip_unpack(&packed).unwrap(), raw);
    assert!(matches!(gzip_unpack(b"plain"), Err(Error::Io(_))));
}

#[test]
fn scalatrace_checked_analyses() {
    let cells: Vec<StreamCell> = sample_cells()
        .into_iter()
        .map(|(rank, events)| StreamCell {
            rank,
            pid: 0,
            tid: "stream 7".to_string(),
            ph: Phase(b'X'),
            normalized: events.iter().map(|e| e.name.clone()).collect(),
            events,
        })
        .collect();
    let p = build_payload(&cells);
    assert_eq!(st_rank_load_balance_checked(&p), Some(st_rank_load_balance(&p)));
    assert_eq!(st_operator_hotspot_checked(&p), Some(st_operator_hotspot(&p)));
    assert_eq!(st_bubble_stats_checked(&p).map(|v| v.len()), Some(st_bubble_stats(&p).len()));

    let mut short = p.clone();
    short.streams[0].dur.clear();
    assert!(st_bubble_stats_checked(&short).is_none());
    assert!(st_operator_hotspot_checked(&short).is_none());
    let mut bad_cat = p.clone();
    for t in bad_cat.types.iter_mut() {
        t.cat_id_plus1 = 1_000_000;
    }
    assert!(st_rank_load_balance_checked(&bad_cat).is_none());
}

#[test]
fn tracezip_checked_analyses_and_decoding_guard() {
    let cells: Vec<EventStream> = sample_cells()
        .into_iter()
        .map(|(rank, events)| EventStream { rank, pid: 0, tid: "stream 7".to_string(), ph: Phase(b'X'), events })
        .collect();
    let names: Vec<String> = vec!["sm80_gemm", "ncclKernel_AllReduce", "aten::mm"].into_iter().map(String::from).collect();
    let p = build_tracezip_payload(&cells, &names);
    assert_eq!(tz_rank_load_balance_checked(&p), Some(tz_rank_load_balance(&p)));
    assert_eq!(tz_operator_hotspot_checked(&p), Some(tz_operator_hotspot(&p)));
    assert_eq!(tz_bubble_stats_checked(&p).map(|v| v.len()), Some(tz_bubble_stats(&p).len()));
    assert!((0..p.global_buckets.len()).all(|b| bucket_decodable_check(&p, b)));

    let mut short = p.clone();
    short.global_buckets[0].ts_offsets.clear();
    assert!(!bucket_decodable_check(&short, 0));
    assert!(tz_bubble_stats_checked(&short).is_none());
    let mut far = p.clone();
    far.streams[0].time_base = i64::MAX;
    far.global_buckets[0].ts_offsets[0] = 1;
    assert!(!bucket_decodable_check(&far, 0));
    let mut no_schema = p.clone();
    no_schema.global_buckets[0].schema_id = 99;
    assert!(tz_rank_load_balance_checked(&no_schema).is_none());
    assert!(tz_operator_hotspot_checked(&no_schema).is_none());
}
