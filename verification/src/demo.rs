//! The demo message, the stub backend, and the inspector's default QoS.

use vstd::prelude::*;

verus! {

/// Domain the demos join by default.
pub const DOMAIN_ID: u16 = 0;

/// The demo message published by the bench publisher.
pub struct Chatter {
    pub publisher_id: u32,
    pub counter: u64,
    pub stamp_ns: u64,
    pub text: String,
    /// Opaque bytes that grow the on-wire payload.
    pub padding: Vec<u8>,
}

impl Chatter {
    /// Instance key: one instance per publisher.
    pub fn key(&self) -> (r: u32)
        ensures
            r == self.publisher_id,
    {
        self.publisher_id
    }
}

/// Reliability policy.
#[derive(PartialEq, Eq, Structural, Clone, Copy, Debug)]
pub enum ReliabilityKind {
    /// Reliable delivery; a write may block up to `max_blocking_ms`.
    Reliable { max_blocking_ms: u64 },
    BestEffort,
}

/// Durability policy.
#[derive(PartialEq, Eq, Structural, Clone, Copy, Debug)]
pub enum DurabilityKind {
    Volatile,
    TransientLocal,
}

/// The QoS choices the inspector makes for its readers and writers.
#[derive(PartialEq, Eq, Structural, Clone, Copy, Debug)]
pub struct QosChoice {
    pub reliability: ReliabilityKind,
    pub durability: DurabilityKind,
    /// `KeepLast` depth.
    pub history_depth: i32,
}

/// Inspector-grade default QoS: reliable (100 ms blocking), volatile,
/// keep the last 100 samples.
pub fn default_inspector_qos() -> (q: QosChoice)
    ensures
        q == (QosChoice {
            reliability: ReliabilityKind::Reliable { max_blocking_ms: 100 },
            durability: DurabilityKind::Volatile,
            history_depth: 100,
        }),
{
    QosChoice {
        reliability: ReliabilityKind::Reliable { max_blocking_ms: 100 },
        durability: DurabilityKind::Volatile,
        history_depth: 100,
    }
}

/// Placeholder backend that joins no network.
pub struct HddsBackend {
    domain_id: u16,
}

impl HddsBackend {
    pub closed spec fn domain(&self) -> u16 {
        self.domain_id
    }

    pub fn new(domain_id: u16) -> (r: Self)
        ensures
            r.domain() == domain_id,
    {
        HddsBackend { domain_id }
    }

    /// The domain this stub claims to have joined.
    pub fn domain_id(&self) -> (r: u16)
        ensures
            r == self.domain(),
    {
        self.domain_id
    }
}

/// Placeholder publisher: it emits nothing.
pub struct StubPublisher {
    topic: String,
}

impl StubPublisher {
    pub closed spec fn topic_name(&self) -> Seq<char> {
        self.topic@
    }

    pub fn new(topic: String) -> (r: Self)
        ensures
            r.topic_name() == topic@,
    {
        StubPublisher { topic }
    }

    pub fn topic(&self) -> (r: &str)
        ensures
            r@ == self.topic_name(),
    {
        self.topic.as_str()
    }
}

/// Placeholder subscriber: it never receives anything.
pub struct StubSubscriber {
    topic: String,
}

impl StubSubscriber {
    pub closed spec fn topic_name(&self) -> Seq<char> {
        self.topic@
    }

    pub fn new(topic: String) -> (r: Self)
        ensures
            r.topic_name() == topic@,
    {
        StubSubscriber { topic }
    }

    pub fn topic(&self) -> (r: &str)
        ensures
            r@ == self.topic_name(),
    {
        self.topic.as_str()
    }
}

} // verus!
