use dds_backend::sub_metrics::SubMetrics;

#[test]
fn per_stream_accounting_after_gap() {
    let mut m = SubMetrics::new();
    m.on_sample_at(7, 10, 100);
    m.on_sample_at(7, 11, 100);
    m.on_sample_at(7, 15, 101);
    let s = m.snapshot();
    assert_eq!(s.streams.len(), 1);
    let st = &s.streams[0];
    assert_eq!(st.publisher_id, 7);
    assert_eq!(st.received, 3);
    assert_eq!(st.lost, 3);
    assert_eq!(st.first_counter_seen, 10);
    assert_eq!(st.last_counter, 15);
    // every counter from the first to the last is received or lost
    assert_eq!(st.last_counter - st.first_counter_seen + 1, st.received + st.lost);
}

#[test]
fn each_sample_counted_once() {
    let mut m = SubMetrics::new();
    let counters = [5u64, 6, 6, 9, 7, 1, 2, 2];
    for c in counters {
        m.on_sample_at(3, c, 0);
    }
    let s = m.snapshot();
    assert_eq!(s.received + s.duplicates + s.reordered, counters.len() as u64);
    assert_eq!(s.received, 5);
    assert_eq!(s.duplicates, 2);
    assert_eq!(s.reordered, 1);
    assert_eq!(s.lost_wire, 2);
}

#[test]
fn streams_keep_first_seen_order() {
    let mut m = SubMetrics::new();
    m.on_sample_at(9, 0, 0);
    m.on_sample_at(4, 0, 0);
    m.on_sample_at(9, 1, 0);
    let s = m.snapshot();
    assert_eq!(s.streams[0].publisher_id, 9);
    assert_eq!(s.streams[0].received, 2);
    assert_eq!(s.streams[1].publisher_id, 4);
    assert_eq!(s.streams[1].received, 1);
}

#[test]
fn reset_forgets_everything() {
    let mut m = SubMetrics::new();
    m.on_sample_at(1, 0, 5);
    m.on_sample_at(1, 3, 5);
    m.record_latency_at(100, 5_000, 5);
    m.record_sample_lost_dds(4);
    m.reset();
    let s = m.snapshot();
    assert_eq!(s.received, 0);
    assert_eq!(s.lost_wire, 0);
    assert_eq!(s.lost_dds_local, 0);
    assert_eq!(s.latency.count, 0);
    assert_eq!(s.streams.len(), 0);
    assert_eq!(m.render_history_at(10), "  recv \u{2502} \n  lost \u{2502} \n  lat  \u{2502} ");
}

#[test]
fn lost_dds_is_added() {
    let mut m = SubMetrics::new();
    m.record_sample_lost_dds(3);
    m.record_sample_lost_dds(4);
    assert_eq!(m.snapshot().lost_dds_local, 7);
}

#[test]
fn latency_window_is_taken_and_emptied() {
    let mut m = SubMetrics::new();
    m.record_latency_at(1_000, 3_000, 0);
    m.record_latency_at(1_000, 5_000, 0);
    let w = m.take_latency_window();
    assert_eq!(w.count, 2);
    assert_eq!(w.min_ns, 2_000);
    assert_eq!(w.max_ns, 4_000);
    assert_eq!(w.avg_ns, 3_000);
    let w2 = m.take_latency_window();
    assert_eq!(w2.count, 0);
    assert_eq!(w2.min_ns, 0);
    // the cumulative histogram keeps both samples
    assert_eq!(m.snapshot().latency.count, 2);
}

#[test]
fn history_rows_follow_samples() {
    let mut m = SubMetrics::new();
    m.on_sample_at(1, 0, 1000);
    m.on_sample_at(1, 1, 1000);
    m.on_sample_at(1, 4, 1001);
    m.record_latency_at(0, 8_000, 1001);
    let out = m.render_history_at(1001);
    // recv: 2 then 1 -> full block then half; lost: 0 then 2; lat: 0 then 8us
    assert_eq!(
        out,
        "  recv \u{2502}\u{2588}\u{2584}\n  lost \u{2502} \u{2588}\n  lat  \u{2502} \u{2588}"
    );
}

#[test]
fn run_totals_are_sums_of_streams() {
    let mut m = SubMetrics::new();
    for (pid, c) in [(1u32, 10u64), (2, 100), (1, 11), (1, 15), (2, 104), (2, 104), (1, 13), (2, 110)] {
        m.on_sample(pid, c);
    }
    let s = m.snapshot();
    let recv: u64 = s.streams.iter().map(|st| st.received).sum();
    let lost: u64 = s.streams.iter().map(|st| st.lost).sum();
    assert_eq!(s.received, recv);
    assert_eq!(s.lost_wire, lost);
    assert_eq!(s.received, 6);
    assert_eq!(s.lost_wire, 3 + 3 + 5);
    assert_eq!(s.duplicates, 1);
    assert_eq!(s.reordered, 1);
}

#[test]
fn equal_stamps_record_nothing() {
    let mut m = SubMetrics::new();
    m.record_latency(1000, 1000);
    let s = m.snapshot();
    assert_eq!(s.clock_skew_skipped, 0);
    assert_eq!(s.latency.count, 0);
    m.record_latency(1000, 999);
    assert_eq!(m.snapshot().clock_skew_skipped, 1);
}
