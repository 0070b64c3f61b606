use dds_backend::latency::LatencyHisto;
use dds_backend::sub_metrics::SubMetrics;

#[test]
fn detects_simple_gap() {
    let mut m = SubMetrics::new();
    m.on_sample(1, 0);
    m.on_sample(1, 1);
    m.on_sample(1, 2);
    m.on_sample(1, 5); // gap of 2 (3 and 4 lost)
    let s = m.snapshot();
    assert_eq!(s.received, 4);
    assert_eq!(s.lost_wire, 2);
}

#[test]
fn ignores_late_join() {
    let mut m = SubMetrics::new();
    // Sub joined late: the first counter it sees is 100.
    m.on_sample(1, 100);
    m.on_sample(1, 101);
    let s = m.snapshot();
    assert_eq!(s.received, 2);
    assert_eq!(s.lost_wire, 0);
}

#[test]
fn counts_duplicate_and_reorder() {
    let mut m = SubMetrics::new();
    m.on_sample(1, 0);
    m.on_sample(1, 1);
    m.on_sample(1, 2);
    m.on_sample(1, 2); // duplicate
    m.on_sample(1, 1); // reorder
    let s = m.snapshot();
    assert_eq!(s.duplicates, 1);
    assert_eq!(s.reordered, 1);
    assert_eq!(s.lost_wire, 0);
}

#[test]
fn handles_publisher_restart() {
    let mut m = SubMetrics::new();
    m.on_sample(1, 50);
    m.on_sample(1, 51);
    m.on_sample(1, 0); // restart: below the first counter seen, rebaseline
    m.on_sample(1, 1);
    let s = m.snapshot();
    assert_eq!(s.received, 4);
    assert_eq!(s.lost_wire, 0);
    assert_eq!(s.reordered, 0);
}

#[test]
fn latency_histogram_basic() {
    let mut h = LatencyHisto::new();
    // 100 fast samples (1 µs each)
    for _ in 0..100 {
        h.record(1_000);
    }
    // 5 slow samples (1 ms each)
    for _ in 0..5 {
        h.record(1_000_000);
    }
    let s = h.snapshot();
    assert_eq!(s.count, 105);
    assert!(s.min_ns <= 1_000);
    assert!(s.max_ns >= 1_000_000);
    // p50 lands in the 1 µs bucket (around 1-2 µs)
    assert!(s.p50_ns < 10_000, "p50 was {}ns", s.p50_ns);
    // p99 lands in the 1 ms bucket
    assert!(s.p99_ns >= 524_288, "p99 was {}ns", s.p99_ns);
}

#[test]
fn clock_skew_is_skipped() {
    let mut m = SubMetrics::new();
    // recv before stamp: clocks skewed
    m.record_latency(1000, 500);
    // normal sample
    m.record_latency(1000, 2000);
    let s = m.snapshot();
    assert_eq!(s.clock_skew_skipped, 1);
    assert_eq!(s.latency.count, 1);
    assert_eq!(s.latency.min_ns, 1000);
}

#[test]
fn multi_publisher_isolated() {
    let mut m = SubMetrics::new();
    m.on_sample(1, 0);
    m.on_sample(2, 0);
    m.on_sample(1, 1);
    m.on_sample(2, 3); // pub 2 gap of 2
    let s = m.snapshot();
    assert_eq!(s.received, 4);
    assert_eq!(s.lost_wire, 2);
    assert_eq!(s.streams.len(), 2);
}
