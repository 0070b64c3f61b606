use dds_backend::latency::LatencyHisto;

#[test]
fn empty_histogram_snapshot() {
    let h = LatencyHisto::new();
    let s = h.snapshot();
    assert_eq!(s.count, 0);
    assert_eq!(s.min_ns, 0);
    assert_eq!(s.avg_ns, 0);
    assert_eq!(s.max_ns, 0);
    assert_eq!(s.p50_ns, 0);
    assert_eq!(s.p99_ns, 0);
}

#[test]
fn zero_sample_is_ignored() {
    let mut h = LatencyHisto::new();
    h.record(0);
    assert_eq!(h.snapshot().count, 0);
}

#[test]
fn percentile_reports_bucket_middle() {
    let mut h = LatencyHisto::new();
    // 1000 ns lies in bucket 9 = [512, 1024): reported as floor(512 * sqrt(2))
    h.record(1_000);
    let s = h.snapshot();
    assert_eq!(s.p50_ns, 724);
    assert_eq!(s.p95_ns, 724);
    assert_eq!(s.p99_ns, 724);
    assert_eq!(s.avg_ns, 1_000);
}

#[test]
fn percentile_ranks() {
    let mut h = LatencyHisto::new();
    // 94 samples of 1 ns (bucket 0) and 6 of 4 ns (bucket 2)
    for _ in 0..94 {
        h.record(1);
    }
    for _ in 0..6 {
        h.record(4);
    }
    let s = h.snapshot();
    // ranks 50, 95 and 99: the p95 and p99 samples lie past the 94 fast ones
    assert_eq!(s.p50_ns, 1);
    assert_eq!(s.p95_ns, 5);
    assert_eq!(s.p99_ns, 5);
}

#[test]
fn huge_samples_share_last_bucket() {
    let mut h = LatencyHisto::new();
    h.record(u64::MAX);
    let s = h.snapshot();
    // bucket 39: floor(2^39 * sqrt(2))
    assert_eq!(s.p50_ns, 777_472_127_993);
    assert_eq!(s.max_ns, u64::MAX);
}

#[test]
fn reset_empties() {
    let mut h = LatencyHisto::new();
    h.record(5);
    h.reset();
    let s = h.snapshot();
    assert_eq!(s.count, 0);
    assert_eq!(s.max_ns, 0);
}

#[test]
fn percentiles_are_ordered() {
    let mut h = LatencyHisto::new();
    for ns in [3u64, 70, 900, 12_000, 12_500, 300_000, 7_000_000, 7_100_000, 90_000_000] {
        h.record(ns);
    }
    let s = h.snapshot();
    assert!(s.p50_ns <= s.p95_ns);
    assert!(s.p95_ns <= s.p99_ns);
    // Nine samples: rank 5 falls in [2^13, 2^14), rank 9 in [2^26, 2^27).
    assert_eq!(s.p50_ns, 11_585);
    assert_eq!(s.p95_ns, 94_906_265);
    assert_eq!(s.p99_ns, 94_906_265);
}

#[test]
fn percentile_within_sqrt2_of_the_samples() {
    for v in [1u64, 3, 1_024, 1_500, 2_047, 1_000_000, 123_456_789, (1u64 << 40) - 1] {
        let mut h = LatencyHisto::new();
        for _ in 0..3 {
            h.record(v);
        }
        let p = h.snapshot().p50_ns as u128;
        let v = v as u128;
        // p <= v * sqrt(2) and v < (p + 1) * sqrt(2)
        assert!(p * p <= 2 * v * v);
        assert!(v * v < 2 * (p + 1) * (p + 1));
    }
}

#[test]
fn empty_and_bounded_snapshots() {
    let mut h = LatencyHisto::new();
    let s = h.snapshot();
    assert_eq!((s.count, s.min_ns, s.avg_ns, s.max_ns, s.p50_ns), (0, 0, 0, 0, 0));
    h.record(300);
    h.record(100);
    h.record(2_000);
    let s = h.snapshot();
    assert_eq!(s.min_ns, 100);
    assert_eq!(s.max_ns, 2_000);
    assert!(s.min_ns <= s.avg_ns && s.avg_ns <= s.max_ns);
}
