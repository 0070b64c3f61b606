use dds_backend::dto::{BackendEvent, EndpointDto, ParticipantDto, TopicDto};
use dds_backend::registry::{Registry, Subscriptions};

fn endpoint(guid: &str, participant: &str) -> EndpointDto {
    EndpointDto {
        guid: guid.to_string(),
        participant_guid: participant.to_string(),
        topic_name: "Chatter".to_string(),
        data_type: "Chatter".to_string(),
        qos: serde_json::Value::Null,
    }
}

fn participant(guid: &str, name: Option<&str>) -> ParticipantDto {
    ParticipantDto {
        guid: guid.to_string(),
        entity_name: name.map(|s| s.to_string()),
        vendor_id: "RustDDS".to_string(),
    }
}

#[test]
fn add_replaces_same_key() {
    let mut r = Registry::new();
    r.add_participant(participant("p1", None));
    r.add_participant(participant("p1", Some("talker")));
    r.add_participant(participant("p2", None));
    let s = r.snapshot();
    assert_eq!(s.participants.len(), 2);
    assert_eq!(s.participants[0].entity_name.as_deref(), Some("talker"));
}

#[test]
fn removing_participant_drops_its_endpoints() {
    let mut r = Registry::new();
    r.add_participant(participant("p1", None));
    r.add_participant(participant("p2", None));
    r.add_writer(endpoint("w1", "p1"));
    r.add_writer(endpoint("w2", "p2"));
    r.add_reader(endpoint("r1", "p1"));
    r.add_reader(endpoint("r2", "p1"));
    r.add_topic(TopicDto { name: "Chatter".to_string(), data_type: "Chatter".to_string() });
    r.remove_participant("p1");
    let s = r.snapshot();
    assert_eq!(s.participants.len(), 1);
    assert_eq!(s.participants[0].guid, "p2");
    assert_eq!(s.writers.len(), 1);
    assert_eq!(s.writers[0].guid, "w2");
    assert_eq!(s.readers.len(), 0);
    assert_eq!(s.topics.len(), 1);
}

#[test]
fn events_apply() {
    let mut r = Registry::new();
    r.apply_event(BackendEvent::TopicAdded(TopicDto { name: "A".to_string(), data_type: "T".to_string() }));
    r.apply_event(BackendEvent::TopicAdded(TopicDto { name: "B".to_string(), data_type: "T".to_string() }));
    r.apply_event(BackendEvent::TopicRemoved("A".to_string()));
    r.apply_event(BackendEvent::WriterAdded(endpoint("w", "p")));
    r.apply_event(BackendEvent::WriterRemoved("missing".to_string()));
    r.apply_event(BackendEvent::ReaderAdded(endpoint("r", "p")));
    r.apply_event(BackendEvent::ReaderRemoved("r".to_string()));
    let s = r.snapshot();
    assert_eq!(s.topics.len(), 1);
    assert_eq!(s.topics[0].name, "B");
    assert_eq!(s.writers.len(), 1);
    assert_eq!(s.readers.len(), 0);
}

#[test]
fn subscriptions_once_per_topic() {
    let mut s: Subscriptions<u32> = Subscriptions::new();
    assert!(!s.contains("Chatter"));
    s.insert("Chatter".to_string(), 7);
    assert!(s.contains("Chatter"));
    assert!(!s.contains("Other"));
    assert_eq!(s.remove("Other"), None);
    assert_eq!(s.remove("Chatter"), Some(7));
    assert!(!s.contains("Chatter"));
    assert_eq!(s.remove("Chatter"), None);
}
