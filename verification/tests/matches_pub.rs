use dds_backend::matches::{handle_writer_status, MatchEvent, MatchTable};
use dds_backend::pub_metrics::PubMetrics;

#[test]
fn match_then_unmatch_closes_session() {
    let mut t = MatchTable::new();
    t.on_matched_at("r1".to_string(), 10, 1_000);
    t.on_matched_at("r1".to_string(), 20, 2_000); // duplicate event ignored
    t.on_unmatched_at("r1", 35, 3_000);
    let snap = t.snapshot();
    assert_eq!(snap.open.len(), 0);
    assert_eq!(snap.closed.len(), 1);
    let s = &snap.closed[0];
    assert_eq!(s.reader_guid, "r1");
    assert_eq!(s.first_matched_ns, 1_000);
    assert_eq!(s.sent_at_match, 10);
    assert_eq!(s.last_unmatched_ns, Some(3_000));
    assert_eq!(s.sent_at_unmatch, Some(35));
    assert_eq!(s.samples_during(999), 25);
    let events = t.drain_events();
    assert_eq!(events.len(), 2);
    assert!(matches!(events[0], MatchEvent::Matched(_)));
    assert!(matches!(events[1], MatchEvent::Unmatched(_)));
    assert_eq!(t.drain_events().len(), 0);
}

#[test]
fn unknown_unmatch_is_ignored() {
    let mut t = MatchTable::new();
    t.on_matched("a".to_string(), 0);
    t.on_unmatched("b", 5);
    let snap = t.snapshot();
    assert_eq!(snap.open.len(), 1);
    assert_eq!(snap.closed.len(), 0);
    assert_eq!(t.drain_events().len(), 1);
}

#[test]
fn samples_during_open_and_saturating() {
    let mut t = MatchTable::new();
    t.on_matched_at("x".to_string(), 50, 0);
    let snap = t.snapshot();
    assert_eq!(snap.open[0].samples_during(80), 30);
    // a counter below the match point (after a reset) gives 0
    assert_eq!(snap.open[0].samples_during(20), 0);
}

#[test]
fn rebase_counts_from_reset() {
    let mut t = MatchTable::new();
    t.on_matched_at("x".to_string(), 50, 0);
    t.on_matched_at("y".to_string(), 70, 0);
    t.rebase_sent_counter();
    let snap = t.snapshot();
    assert_eq!(snap.open[0].sent_at_match, 0);
    assert_eq!(snap.open[1].sent_at_match, 0);
    assert_eq!(snap.open[0].samples_during(12), 12);
    assert_eq!(snap.open[1].reader_guid, "y");
}

#[test]
fn writer_status_drives_table() {
    let mut t = MatchTable::new();
    let mut m = PubMetrics::new();
    m.record_write_at(5, 1);
    m.record_write_at(5, 2);
    handle_writer_status(&mut t, &m, "r".to_string(), 1);
    m.record_write_at(5, 3);
    handle_writer_status(&mut t, &m, "r".to_string(), 0);
    assert_eq!(t.snapshot().open.len(), 1);
    handle_writer_status(&mut t, &m, "r".to_string(), -1);
    let snap = t.snapshot();
    assert_eq!(snap.open.len(), 0);
    assert_eq!(snap.closed[0].sent_at_match, 2);
    assert_eq!(snap.closed[0].sent_at_unmatch, Some(3));
}

#[test]
fn pub_metrics_counters() {
    let mut m = PubMetrics::new();
    m.record_write_at(100, 7);
    m.record_write_at(300, 9);
    m.record_error();
    let s = m.snapshot_at(12);
    assert_eq!(s.sent, 2);
    assert_eq!(s.errors, 1);
    assert_eq!(s.last_send_ns, 9);
    assert_eq!(s.write_ns_total, 400);
    assert_eq!(s.write_ns_avg, 200);
    assert_eq!(s.write_ns_max, 300);
    assert_eq!(s.now_ns, 12);
    assert_eq!(m.sent(), 2);
}

#[test]
fn take_write_max_is_per_window() {
    let mut m = PubMetrics::new();
    m.record_write(50);
    m.record_write(20);
    assert_eq!(m.take_write_ns_max(), 50);
    m.record_write(10);
    assert_eq!(m.take_write_ns_max(), 10);
    assert_eq!(m.take_write_ns_max(), 0);
    assert_eq!(m.snapshot().sent, 3);
}

#[test]
fn snapshot_max_is_cumulative_since_reset() {
    let mut m = PubMetrics::new();
    m.record_write(500);
    assert_eq!(m.take_write_ns_max(), 500);
    m.record_write(100);
    assert_eq!(m.snapshot().write_ns_max, 500);
    assert_eq!(m.take_write_ns_max(), 100);
    m.reset();
    assert_eq!(m.snapshot().write_ns_max, 0);
    assert_eq!(m.take_write_ns_max(), 0);
}

#[test]
fn pub_reset_zeroes() {
    let mut m = PubMetrics::new();
    m.record_write(50);
    m.record_error();
    m.reset();
    let s = m.snapshot();
    assert_eq!(s.sent, 0);
    assert_eq!(s.errors, 0);
    assert_eq!(s.write_ns_avg, 0);
    assert_eq!(s.write_ns_max, 0);
    assert_eq!(s.last_send_ns, 0);
}

#[test]
fn unmatch_undoes_match() {
    let mut t = MatchTable::new();
    t.on_matched("a".to_string(), 1);
    let before: Vec<String> = t.snapshot().open.iter().map(|s| s.reader_guid.clone()).collect();
    t.on_matched("b".to_string(), 5);
    t.on_unmatched("b", 12);
    let snap = t.snapshot();
    let after: Vec<String> = snap.open.iter().map(|s| s.reader_guid.clone()).collect();
    assert_eq!(before, after);
    assert_eq!(snap.closed.len(), 1);
    assert_eq!(snap.closed[0].reader_guid, "b");
    assert_eq!(snap.closed[0].samples_during(99), 7);
}
