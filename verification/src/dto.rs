//! Backend-neutral descriptions of what discovery reports, and the raw
//! samples and sample batches shipped to the inspector front end.

use vstd::prelude::*;

use crate::hex::{hex_of, hex_str};

verus! {

#[verifier::external_type_specification]
#[verifier::external_body]
pub struct ExJsonValue(serde_json::Value);

/// Copy of a JSON value, made by `serde_json::Value`'s `Clone`, which
/// copies the value as it is; the contract states that the copy equals
/// the value it was made from.
#[verifier::external_body]
fn clone_json(v: &serde_json::Value) -> (r: serde_json::Value)
    ensures
        r == *v,
{
    v.clone()
}

fn clone_opt_string(s: &Option<String>) -> (r: Option<String>)
    ensures
        r == *s,
{
    match s {
        Some(v) => Some(v.clone()),
        None => None,
    }
}

/// A discovered domain participant.
pub struct ParticipantDto {
    pub guid: String,
    pub entity_name: Option<String>,
    pub vendor_id: String,
}

/// A discovered writer or reader endpoint.
pub struct EndpointDto {
    pub guid: String,
    pub participant_guid: String,
    pub topic_name: String,
    pub data_type: String,
    /// The backend's own QoS description, carried through as JSON.
    pub qos: serde_json::Value,
}

/// A discovered topic.
pub struct TopicDto {
    pub name: String,
    pub data_type: String,
}

impl Clone for ParticipantDto {
    fn clone(&self) -> (r: Self)
        ensures
            r == *self,
    {
        ParticipantDto {
            guid: self.guid.clone(),
            entity_name: clone_opt_string(&self.entity_name),
            vendor_id: self.vendor_id.clone(),
        }
    }
}

impl Clone for EndpointDto {
    fn clone(&self) -> (r: Self)
        ensures
            r == *self,
    {
        EndpointDto {
            guid: self.guid.clone(),
            participant_guid: self.participant_guid.clone(),
            topic_name: self.topic_name.clone(),
            data_type: self.data_type.clone(),
            qos: clone_json(&self.qos),
        }
    }
}

impl Clone for TopicDto {
    fn clone(&self) -> (r: Self)
        ensures
            r == *self,
    {
        TopicDto { name: self.name.clone(), data_type: self.data_type.clone() }
    }
}

/// A discovery change reported by a backend.
pub enum BackendEvent {
    ParticipantAdded(ParticipantDto),
    ParticipantRemoved(String),
    TopicAdded(TopicDto),
    TopicRemoved(String),
    WriterAdded(EndpointDto),
    WriterRemoved(String),
    ReaderAdded(EndpointDto),
    ReaderRemoved(String),
}

/// Name of the front-end event that announces a discovery change.
pub open spec fn event_channel_of(e: BackendEvent) -> Seq<char> {
    match e {
        BackendEvent::ParticipantAdded(_) => "dds:participant_added"@,
        BackendEvent::ParticipantRemoved(_) => "dds:participant_removed"@,
        BackendEvent::TopicAdded(_) => "dds:topic_added"@,
        BackendEvent::TopicRemoved(_) => "dds:topic_removed"@,
        BackendEvent::WriterAdded(_) => "dds:writer_added"@,
        BackendEvent::WriterRemoved(_) => "dds:writer_removed"@,
        BackendEvent::ReaderAdded(_) => "dds:reader_added"@,
        BackendEvent::ReaderRemoved(_) => "dds:reader_removed"@,
    }
}

pub fn event_channel(e: &BackendEvent) -> (r: &'static str)
    ensures
        r@ == event_channel_of(*e),
{
    match e {
        BackendEvent::ParticipantAdded(_) => "dds:participant_added",
        BackendEvent::ParticipantRemoved(_) => "dds:participant_removed",
        BackendEvent::TopicAdded(_) => "dds:topic_added",
        BackendEvent::TopicRemoved(_) => "dds:topic_removed",
        BackendEvent::WriterAdded(_) => "dds:writer_added",
        BackendEvent::WriterRemoved(_) => "dds:writer_removed",
        BackendEvent::ReaderAdded(_) => "dds:reader_added",
        BackendEvent::ReaderRemoved(_) => "dds:reader_removed",
    }
}

/// Raw bytes of one sample received on `topic`, with the local receive time.
pub struct BackendSample {
    pub topic: String,
    pub bytes: Vec<u8>,
    pub recv_ns: u64,
}

/// One raw sample as shown to the front end (bytes hex-encoded).
pub struct SampleDto {
    pub topic: String,
    pub recv_ns: u64,
    pub size: usize,
    pub bytes_hex: String,
}

/// Samples emitted to the front end on one throttle tick.
pub struct SampleBatchDto {
    pub topic: String,
    pub samples: Vec<SampleDto>,
    pub received_since_last: u32,
}


/// `d` is the front-end form of sample `x`: same topic and receive time,
/// its size, and its bytes in lower-case hex.
pub open spec fn dto_of(d: SampleDto, x: BackendSample) -> bool {
    &&& d.topic == x.topic
    &&& d.recv_ns == x.recv_ns
    &&& d.size == x.bytes@.len()
    &&& d.bytes_hex@ == hex_of(x.bytes@)
}

/// `n`, saturated at `u32::MAX`.
pub open spec fn sat_u32(n: int) -> int {
    if n < u32::MAX { n } else { u32::MAX as int }
}

/// Accumulates raw samples between two emissions to the front end.
pub struct SampleBatcher {
    batch: Vec<SampleDto>,
    received_since_last: u32,
    /// Samples already handed out, oldest first.
    handed: Ghost<Seq<SampleDto>>,
    /// Every sample pushed so far, oldest first.
    inputs: Ghost<Seq<BackendSample>>,
}

impl SampleBatcher {
    /// Samples waiting to be emitted, oldest first.
    pub closed spec fn pending(&self) -> Seq<SampleDto> {
        self.batch@
    }

    /// Samples received since the last emission (saturating at `u32::MAX`).
    pub closed spec fn received_count(&self) -> u32 {
        self.received_since_last
    }

    /// Every sample handed out by `take_batch` so far, in order.
    pub closed spec fn handed_out(&self) -> Seq<SampleDto> {
        self.handed@
    }

    /// Every sample pushed so far, in order.
    pub closed spec fn inputs(&self) -> Seq<BackendSample> {
        self.inputs@
    }

    /// The samples handed out followed by the pending ones are, one for
    /// one, the front-end forms of the samples pushed; the received count
    /// is the number pending, saturated at `u32::MAX`.
    pub closed spec fn wf(&self) -> bool {
        let all = self.handed@ + self.batch@;
        &&& all.len() == self.inputs@.len()
        &&& forall|i: int| 0 <= i < all.len() ==> dto_of(#[trigger] all[i], self.inputs@[i])
        &&& self.received_since_last == sat_u32(self.batch@.len() as int)
    }

    /// Nothing is lost or reordered: what has been handed out is, in
    /// order, the front-end form of the first samples pushed, and the
    /// pending samples are those of the samples pushed after them.
    pub proof fn lemma_handed_out_in_order(&self)
        requires
            self.wf(),
        ensures
            self.handed_out().len() + self.pending().len() == self.inputs().len(),
            forall|i: int|
                0 <= i < self.handed_out().len() ==> dto_of(
                    #[trigger] self.handed_out()[i],
                    self.inputs()[i],
                ),
            forall|i: int|
                0 <= i < self.pending().len() ==> dto_of(
                    #[trigger] self.pending()[i],
                    self.inputs()[self.handed_out().len() + i],
                ),
            self.received_count() == sat_u32(self.pending().len() as int),
    {
        let all = self.handed@ + self.batch@;
        assert forall|i: int| 0 <= i < self.handed_out().len() implies dto_of(
            #[trigger] self.handed_out()[i],
            self.inputs()[i],
        ) by {
            assert(all[i] == self.handed@[i]);
        }
        assert forall|i: int| 0 <= i < self.pending().len() implies dto_of(
            #[trigger] self.pending()[i],
            self.inputs()[self.handed_out().len() + i],
        ) by {
            assert(all[self.handed@.len() + i] == self.batch@[i]);
        }
    }

    pub fn new() -> (r: Self)
        ensures
            r.wf(),
            r.pending().len() == 0,
            r.received_count() == 0,
            r.handed_out().len() == 0,
            r.inputs().len() == 0,
    {
        let r = SampleBatcher {
            batch: Vec::new(),
            received_since_last: 0,
            handed: Ghost(Seq::empty()),
            inputs: Ghost(Seq::empty()),
        };
        assert(r.handed@ + r.batch@ =~= Seq::<SampleDto>::empty());
        r
    }

    /// Queue one raw sample for the next emission.
    pub fn push_sample(&mut self, sample: BackendSample)
        requires
            old(self).wf(),
        ensures
            final(self).wf(),
            final(self).received_count() == (if old(self).received_count() == u32::MAX {
                u32::MAX as int
            } else {
                old(self).received_count() + 1
            }),
            final(self).pending().len() == old(self).pending().len() + 1,
            final(self).pending().drop_last() == old(self).pending(),
            dto_of(final(self).pending().last(), sample),
            final(self).handed_out() == old(self).handed_out(),
            final(self).inputs() == old(self).inputs().push(sample),
    {
        let ghost x = sample;
        let ghost all0 = self.handed@ + self.batch@;
        self.received_since_last = self.received_since_last.saturating_add(1);
        let bytes_hex = hex_str(sample.bytes.as_slice());
        let size = sample.bytes.len();
        let dto = SampleDto { topic: sample.topic, recv_ns: sample.recv_ns, size, bytes_hex };
        self.batch.push(dto);
        self.inputs = Ghost(self.inputs@.push(x));
        proof {
            assert(self.batch@.drop_last() =~= old(self).batch@);
            let all = self.handed@ + self.batch@;
            assert(all =~= all0.push(dto));
            assert forall|i: int| 0 <= i < all.len() implies dto_of(#[trigger] all[i], self.inputs@[i]) by {
                if i < all0.len() {
                    assert(all[i] == all0[i]);
                    assert(self.inputs@[i] == old(self).inputs@[i]);
                }
            }
        }
    }

    /// A batch goes out once the throttle tick has elapsed and something
    /// arrived since the last one.
    pub fn should_emit(&self, tick_elapsed: bool) -> (r: bool)
        ensures
            r == (tick_elapsed && (self.pending().len() > 0 || self.received_count() > 0)),
    {
        tick_elapsed && (self.batch.len() > 0 || self.received_since_last > 0)
    }

    /// Hand out the queued samples and the received count for `topic`,
    /// and start an empty batch.
    pub fn take_batch(&mut self, topic: String) -> (r: SampleBatchDto)
        requires
            old(self).wf(),
        ensures
            final(self).wf(),
            r.topic == topic,
            r.samples@ == old(self).pending(),
            r.received_since_last == old(self).received_count(),
            r.received_since_last == sat_u32(r.samples@.len() as int),
            final(self).pending().len() == 0,
            final(self).received_count() == 0,
            final(self).handed_out() == old(self).handed_out() + old(self).pending(),
            final(self).inputs() == old(self).inputs(),
    {
        let mut samples: Vec<SampleDto> = Vec::new();
        std::mem::swap(&mut samples, &mut self.batch);
        let received_since_last = self.received_since_last;
        self.received_since_last = 0;
        self.handed = Ghost(self.handed@ + samples@);
        proof {
            assert(self.handed@ + self.batch@ =~= old(self).handed@ + old(self).batch@);
        }
        SampleBatchDto { topic, samples, received_since_last }
    }
}

} // verus!
