use dds_backend::demo::{default_inspector_qos, Chatter, DurabilityKind, HddsBackend, ReliabilityKind, StubPublisher, StubSubscriber};
use dds_backend::dto::{event_channel, BackendEvent, BackendSample, SampleBatcher, TopicDto};
use dds_backend::hex::{guid_string, hex_str, pretty_vendor};
use dds_backend::history::{spark_level_exec, TimeBuckets};

#[test]
fn hex_rendering() {
    assert_eq!(hex_str(&[]), "");
    assert_eq!(hex_str(&[0x00, 0x0f, 0xa5, 0xff]), "000fa5ff");
    assert_eq!(guid_string(&[1, 2, 3], &[0xc1, 0x02]), "010203.c102");
}

#[test]
fn vendor_names() {
    assert_eq!(pretty_vendor([0x01, 0x12]), "RustDDS");
    assert_eq!(pretty_vendor([0x01, 0x0F]), "FastDDS");
    assert_eq!(pretty_vendor([0x00, 0x00]), "unknown");
    assert_eq!(pretty_vendor([0x01, 0x10]), "Cyclone DDS");
    assert_eq!(pretty_vendor([0xab, 0x07]), "0xab07");
}

#[test]
fn buckets_advance_and_cap() {
    let mut b = TimeBuckets::new();
    assert_eq!(b.sparkline(), "");
    b.advance_to(100);
    b.add_count(3);
    b.advance_to(102);
    b.add_count(6);
    // 100: 3, 101: 0, 102: 6
    assert_eq!(b.sparkline(), "\u{2584} \u{2588}");
    assert_eq!(b.max_bucket(), 6);
    // time going backwards changes nothing
    b.advance_to(50);
    b.add_max(1);
    assert_eq!(b.max_bucket(), 6);
    // 60 more seconds: the oldest buckets scroll out
    b.advance_to(162);
    assert_eq!(b.sparkline().chars().count(), 60);
    // a gap over 60 seconds restarts the row
    b.advance_to(1_000);
    assert_eq!(b.sparkline(), " ");
    b.reset();
    assert_eq!(b.sparkline(), "");
}

#[test]
fn spark_levels_round_half_up() {
    assert_eq!(spark_level_exec(0, 0), 0);
    assert_eq!(spark_level_exec(1, 16), 1); // 0.5 rounds up
    assert_eq!(spark_level_exec(1, 17), 0);
    assert_eq!(spark_level_exec(16, 16), 8);
    assert_eq!(spark_level_exec(u64::MAX, u64::MAX), 8);
}

#[test]
fn event_channels() {
    let e = BackendEvent::TopicAdded(TopicDto { name: "a".to_string(), data_type: "b".to_string() });
    assert_eq!(event_channel(&e), "dds:topic_added");
    assert_eq!(event_channel(&BackendEvent::ReaderRemoved("g".to_string())), "dds:reader_removed");
}

#[test]
fn batcher_cycle() {
    let mut b = SampleBatcher::new();
    assert!(!b.should_emit(true));
    b.push_sample(BackendSample { topic: "t".to_string(), bytes: vec![0xde, 0xad], recv_ns: 9 });
    assert!(!b.should_emit(false));
    assert!(b.should_emit(true));
    let batch = b.take_batch("t".to_string());
    assert_eq!(batch.topic, "t");
    assert_eq!(batch.received_since_last, 1);
    assert_eq!(batch.samples.len(), 1);
    assert_eq!(batch.samples[0].bytes_hex, "dead");
    assert_eq!(batch.samples[0].size, 2);
    assert_eq!(batch.samples[0].recv_ns, 9);
    assert!(!b.should_emit(true));
}

#[test]
fn demo_items() {
    let q = default_inspector_qos();
    assert_eq!(q.reliability, ReliabilityKind::Reliable { max_blocking_ms: 100 });
    assert_eq!(q.durability, DurabilityKind::Volatile);
    assert_eq!(q.history_depth, 100);
    let c = Chatter { publisher_id: 42, counter: 1, stamp_ns: 2, text: "hi".to_string(), padding: vec![] };
    assert_eq!(c.key(), 42);
    assert_eq!(HddsBackend::new(7).domain_id(), 7);
    assert_eq!(StubSubscriber::new("Chatter".to_string()).topic(), "Chatter");
    assert_eq!(StubPublisher::new("X".to_string()).topic(), "X");
}
