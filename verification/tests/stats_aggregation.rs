use loaded::stats::{
    changed, get_total_runtime, record_response, sum_instant_stats, ConnectionRunInfo,
    ErrorCounts, InstantStats, RunStats, WorkerInfo, WorkerStats,
};

#[test]
fn record_success_counts_and_latencies() {
    let mut w = WorkerStats::new();
    record_response(&mut w, 200, 1_000, 400, 256, 512);
    record_response(&mut w, 204, 2_000, 900, 256, 0);
    assert_eq!(w.instant_stats.requests_issued, 2);
    assert_eq!(w.instant_stats.bytes_written, 512);
    assert_eq!(w.instant_stats.bytes_read, 512);
    assert_eq!(w.run_stats.rtt_sample_count(), 2);
    assert_eq!(w.run_stats.ttfb_sample_count(), 2);
    assert_eq!(w.run_stats.errors.count(200), 0);
}

#[test]
fn record_error_only_bumps_status_count() {
    let mut w = WorkerStats::new();
    record_response(&mut w, 404, 1_000, 400, 128, 64);
    record_response(&mut w, 404, 1_000, 400, 128, 64);
    record_response(&mut w, 500, 1_000, 400, 128, 64);
    assert_eq!(w.instant_stats.requests_issued, 0);
    assert_eq!(w.run_stats.rtt_sample_count(), 0);
    assert_eq!(w.run_stats.errors.count(404), 2);
    assert_eq!(w.run_stats.errors.count(500), 1);
    assert_eq!(w.run_stats.errors.count(503), 0);
}

#[test]
fn recorded_latencies_keep_their_magnitude() {
    // Latencies far beyond the histogram's initial range must be stored
    // at full magnitude (the histogram resizes), not clamped away.
    let mut w = WorkerStats::new();
    let five_ms: u64 = 5_000_000;
    record_response(&mut w, 200, five_ms, 2_000_000, 1, 1);
    let bytes = w
        .run_stats
        .rtt_latency_hist
        .to_serialized_bytes()
        .expect("serializing the histogram");
    let mut deserializer = hdrhistogram::serialization::Deserializer::new();
    let hist: hdrhistogram::Histogram<u64> = deserializer
        .deserialize(&mut &bytes[..])
        .expect("deserializing the histogram");
    assert_eq!(hist.len(), 1);
    // Three significant figures: the stored sample is within 0.1 % of the
    // recorded value.
    assert!(hist.max() >= five_ms - five_ms / 1000);
    assert!(hist.min() <= five_ms + five_ms / 1000);
}

#[test]
fn merged_histogram_totals_are_sums() {
    let mut w1 = WorkerStats::new();
    record_response(&mut w1, 200, 1_000, 400, 1, 1);
    record_response(&mut w1, 200, 2_000, 500, 1, 1);
    record_response(&mut w1, 200, 3_000, 600, 1, 1);
    record_response(&mut w1, 404, 9_000, 900, 1, 1);

    let mut w2 = WorkerStats::new();
    record_response(&mut w2, 200, 4_000, 700, 1, 1);
    record_response(&mut w2, 200, 5_000, 800, 1, 1);
    record_response(&mut w2, 404, 9_000, 900, 1, 1);
    record_response(&mut w2, 503, 9_000, 900, 1, 1);

    let mut total = RunStats::new();
    total.merge(&w1.run_stats).unwrap();
    total.merge(&w2.run_stats).unwrap();

    assert_eq!(total.rtt_sample_count(), 5);
    assert_eq!(total.ttfb_sample_count(), 5);
    assert_eq!(total.errors.count(404), 2);
    assert_eq!(total.errors.count(503), 1);
}

#[test]
fn error_counts_merge_sums_statuses() {
    let mut a = ErrorCounts::new();
    a.record(404);
    a.record(404);
    let mut b = ErrorCounts::new();
    b.record(404);
    b.record(500);
    a.merge(&b);
    assert_eq!(a.count(404), 3);
    assert_eq!(a.count(500), 1);
    assert_eq!(a.count(200), 0);
}

#[test]
fn changed_handles_wraparound() {
    assert_eq!(changed(5, 12), 7);
    assert_eq!(changed(usize::MAX - 1, 3), 4);
    let prev = InstantStats {
        requests_issued: 10,
        bytes_written: 100,
        bytes_read: 1000,
    };
    let curr = InstantStats {
        requests_issued: 15,
        bytes_written: 180,
        bytes_read: 1500,
    };
    let delta = curr.changed(&prev);
    assert_eq!(delta.requests_issued, 5);
    assert_eq!(delta.bytes_written, 80);
    assert_eq!(delta.bytes_read, 500);
}

#[test]
fn sum_instant_stats_accumulates_deltas() {
    let mut prev = vec![InstantStats::default(), InstantStats::default()];
    let curr = vec![
        InstantStats {
            requests_issued: 4,
            bytes_written: 40,
            bytes_read: 400,
        },
        InstantStats {
            requests_issued: 6,
            bytes_written: 60,
            bytes_read: 600,
        },
    ];
    let total = sum_instant_stats(&mut prev, &curr);
    assert_eq!(total.requests_issued, 10);
    assert_eq!(total.bytes_written, 100);
    assert_eq!(total.bytes_read, 1000);
    assert_eq!(prev[0].requests_issued, 4);
    assert_eq!(prev[1].bytes_read, 600);

    // A second sample with no progress reports a zero delta.
    let total2 = sum_instant_stats(&mut prev, &curr);
    assert_eq!(total2.requests_issued, 0);
    assert_eq!(total2.bytes_written, 0);
    assert_eq!(total2.bytes_read, 0);
}

#[test]
fn total_runtime_spans_all_connections() {
    let infos = vec![
        WorkerInfo {
            worker_id: 0,
            run_infos: vec![
                ConnectionRunInfo {
                    start_time_ns: 5,
                    end_time_ns: 9,
                },
                ConnectionRunInfo {
                    start_time_ns: 3,
                    end_time_ns: 7,
                },
            ],
        },
        WorkerInfo {
            worker_id: 1,
            run_infos: vec![ConnectionRunInfo {
                start_time_ns: 4,
                end_time_ns: 12,
            }],
        },
    ];
    assert_eq!(get_total_runtime(&infos), 9);
    assert_eq!(get_total_runtime(&Vec::new()), 0);
}
