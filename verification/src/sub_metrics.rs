//! Subscriber-side counters: per-publisher sequence tracking (gaps,
//! duplicates, reorders, restarts), end-to-end latency histograms and the
//! sparkline history.

use std::collections::HashMap;
use vstd::prelude::*;
use vstd::wrapping::u64_specs::wrapping_add;

use crate::clock::{now_ns, now_s};
use crate::history::{
    lemma_advanced_covers, HISTORY_CAP, advanced, max_into_last, row_after, row_is, row_room, sparkline_of, SubHistory,
};
use crate::latency::{lemma_wrapping_add_mod, recorded, LatencyHisto, LatencySnapshot};

verus! {

/// Sequence-tracking state of one publisher, identified by the
/// `publisher_id` carried in its messages.
#[derive(Clone, Copy)]
pub struct StreamState {
    pub publisher_id: u32,
    pub last_counter: u64,
    pub first_counter_seen: u64,
    pub received: u64,
    pub lost: u64,
}

/// How one incoming sample relates to its publisher's stream.
#[derive(PartialEq, Eq, Structural, Clone, Copy)]
pub enum SampleClass {
    /// First sample of the publisher: it sets the baseline.
    First,
    /// The counter right after the last one.
    InOrder,
    /// A counter past the next expected one: the ones in between are lost.
    Gap,
    /// The same counter as the last one.
    Duplicate,
    /// A counter below the first one seen: the publisher restarted.
    Restart,
    /// Any other counter at or before the last one.
    Reordered,
}

/// Classification of a sample with `counter`, given the publisher's
/// previous state (`None` if never seen).
pub open spec fn classify(prev: Option<StreamState>, counter: u64) -> SampleClass {
    match prev {
        None => SampleClass::First,
        Some(st) => {
            if st.received == 0 {
                SampleClass::First
            } else if counter == st.last_counter + 1 {
                SampleClass::InOrder
            } else if counter > st.last_counter + 1 {
                SampleClass::Gap
            } else if counter == st.last_counter {
                SampleClass::Duplicate
            } else if counter < st.first_counter_seen {
                SampleClass::Restart
            } else {
                SampleClass::Reordered
            }
        },
    }
}

/// The sample is counted as received.
pub open spec fn accepted(c: SampleClass) -> bool {
    c == SampleClass::First || c == SampleClass::InOrder || c == SampleClass::Gap || c
        == SampleClass::Restart
}

/// Counters skipped by a sample (non-zero only for a gap).
pub open spec fn gap_of(prev: Option<StreamState>, counter: u64) -> u64 {
    if classify(prev, counter) == SampleClass::Gap {
        (counter - prev.unwrap().last_counter - 1) as u64
    } else {
        0
    }
}

/// The publisher's state after a sample with `counter`.
pub open spec fn stream_after(prev: Option<StreamState>, pid: u32, counter: u64) -> StreamState {
    let lost0: u64 = match prev {
        Some(st) => st.lost,
        None => 0,
    };
    match classify(prev, counter) {
        SampleClass::First => StreamState {
            publisher_id: pid,
            last_counter: counter,
            first_counter_seen: counter,
            received: 1,
            lost: lost0,
        },
        SampleClass::InOrder => StreamState {
            last_counter: counter,
            received: (prev.unwrap().received + 1) as u64,
            ..prev.unwrap()
        },
        SampleClass::Gap => StreamState {
            last_counter: counter,
            received: (prev.unwrap().received + 1) as u64,
            lost: (prev.unwrap().lost + gap_of(prev, counter)) as u64,
            ..prev.unwrap()
        },
        SampleClass::Restart => StreamState {
            last_counter: counter,
            first_counter_seen: counter,
            received: (prev.unwrap().received + 1) as u64,
            ..prev.unwrap()
        },
        _ => prev.unwrap(),
    }
}

/// Index of publisher `pid` in `s`, or -1.
pub open spec fn stream_index(s: Seq<StreamState>, pid: u32) -> int {
    if exists|i: int| 0 <= i < s.len() && s[i].publisher_id == pid {
        choose|i: int| 0 <= i < s.len() && s[i].publisher_id == pid
    } else {
        -1
    }
}

/// State of publisher `pid`, if it has been seen.
pub open spec fn lookup(s: Seq<StreamState>, pid: u32) -> Option<StreamState> {
    let i = stream_index(s, pid);
    if i >= 0 {
        Some(s[i])
    } else {
        None
    }
}

/// The streams after a sample: the publisher's entry is updated in place,
/// or appended when it is new.
pub open spec fn streams_after(s: Seq<StreamState>, pid: u32, counter: u64) -> Seq<StreamState> {
    let i = stream_index(s, pid);
    let st = stream_after(lookup(s, pid), pid, counter);
    if i >= 0 {
        s.update(i, st)
    } else {
        s.push(st)
    }
}

/// A stored stream: at least one sample received, and every counter from
/// the first to the last one seen is counted as received or lost (or
/// fewer, after a restart).
pub open spec fn stream_ok(st: StreamState) -> bool {
    &&& st.received >= 1
    &&& st.first_counter_seen <= st.last_counter
    &&& st.last_counter - st.first_counter_seen + 1 <= st.received + st.lost
}

/// Publisher ids are distinct and every stream is `stream_ok`.
pub open spec fn streams_ok(s: Seq<StreamState>) -> bool {
    &&& forall|i: int, j: int|
        0 <= i < s.len() && 0 <= j < s.len() && i != j ==> s[i].publisher_id != s[j].publisher_id
    &&& forall|i: int| 0 <= i < s.len() ==> stream_ok(#[trigger] s[i])
}

/// No two streams share a publisher id.
pub open spec fn ids_distinct(s: Seq<StreamState>) -> bool {
    forall|i: int, j: int|
        0 <= i < s.len() && 0 <= j < s.len() && i != j ==> s[i].publisher_id != s[j].publisher_id
}

pub proof fn lemma_lookup_found(s: Seq<StreamState>, pid: u32, i: int)
    requires
        ids_distinct(s),
        0 <= i < s.len(),
        s[i].publisher_id == pid,
    ensures
        stream_index(s, pid) == i,
        lookup(s, pid) == Some(s[i]),
{
    assert(exists|k: int| 0 <= k < s.len() && s[k].publisher_id == pid);
}

/// One sample changes the accounting of its own publisher only.
pub proof fn lemma_streams_isolated(s: Seq<StreamState>, pid: u32, counter: u64, other: u32)
    requires
        streams_ok(s),
        other != pid,
    ensures
        lookup(streams_after(s, pid, counter), other) == lookup(s, other),
{
    let t = streams_after(s, pid, counter);
    let i = stream_index(s, pid);
    if i >= 0 {
        assert(s[i].publisher_id == pid);
        assert(t[i].publisher_id == pid);
    } else {
        assert(t[s.len() as int].publisher_id == pid);
    }
    if exists|k: int| 0 <= k < s.len() && s[k].publisher_id == other {
        let k = choose|k: int| 0 <= k < s.len() && s[k].publisher_id == other;
        lemma_lookup_found(s, other, k);
        assert(t[k] == s[k]);
        assert forall|a: int, b: int|
            0 <= a < t.len() && 0 <= b < t.len() && a != b && t[a].publisher_id == other
                && t[b].publisher_id == other implies false by {
            assert(a < s.len() && b < s.len());
            assert(t[a] == s[a] && t[b] == s[b]);
        }
        assert(exists|m: int| 0 <= m < t.len() && t[m].publisher_id == other);
        let m = choose|m: int| 0 <= m < t.len() && t[m].publisher_id == other;
        assert(m == k);
    } else {
        assert forall|m: int| 0 <= m < t.len() implies t[m].publisher_id != other by {
            if m < s.len() && m != i {
                assert(t[m] == s[m]);
            }
        }
    }
}

/// A subscriber that joins late counts nothing as lost before the first
/// sample it sees from a publisher: that sample only sets the baseline.
pub proof fn lemma_first_sample_no_loss(pid: u32, counter: u64)
    ensures
        classify(None, counter) == SampleClass::First,
        gap_of(None, counter) == 0,
        stream_after(None, pid, counter) == (StreamState {
            publisher_id: pid,
            last_counter: counter,
            first_counter_seen: counter,
            received: 1,
            lost: 0,
        }),
{
}

/// Every sample is counted in exactly one of: received, duplicates,
/// reordered.
pub proof fn lemma_counted_once(prev: Option<StreamState>, counter: u64)
    ensures
        (if accepted(classify(prev, counter)) { 1int } else { 0 }) + (if classify(prev, counter)
            == SampleClass::Duplicate {
            1int
        } else {
            0
        }) + (if classify(prev, counter) == SampleClass::Reordered {
            1int
        } else {
            0
        }) == 1,
{
}

/// Samples fed one after the other to a publisher's stream, starting from
/// `prev`.
pub open spec fn feed(prev: Option<StreamState>, pid: u32, cs: Seq<u64>) -> Option<StreamState>
    decreases cs.len(),
{
    if cs.len() == 0 {
        prev
    } else {
        Some(stream_after(feed(prev, pid, cs.drop_last()), pid, cs.last()))
    }
}

/// None of the samples of `cs`, fed from `prev`, is a restart.
pub open spec fn no_restart(prev: Option<StreamState>, pid: u32, cs: Seq<u64>) -> bool
    decreases cs.len(),
{
    if cs.len() == 0 {
        true
    } else {
        no_restart(prev, pid, cs.drop_last()) && classify(feed(prev, pid, cs.drop_last()), cs.last())
            != SampleClass::Restart
    }
}

/// Loss accounting is exact for a publisher that never restarts: every
/// counter from the first seen to the last seen is either received or
/// lost, and `received` is at most the number of samples.
pub proof fn lemma_no_restart_accounts_every_counter(pid: u32, cs: Seq<u64>)
    requires
        cs.len() > 0,
        cs.len() < u64::MAX,
        no_restart(None, pid, cs),
    ensures
        ({
            let st = feed(None, pid, cs).unwrap();
            &&& st.last_counter - st.first_counter_seen + 1 == st.received + st.lost
            &&& feed(None, pid, cs) is Some
            &&& 1 <= st.received <= cs.len()
            &&& st.first_counter_seen == cs[0]
        }),
    decreases cs.len(),
{
    let head = cs.drop_last();
    if cs.len() == 1 {
        assert(head.len() == 0);
        assert(feed(None, pid, head) == None::<StreamState>);
        assert(cs.last() == cs[0]);
    } else {
        lemma_no_restart_accounts_every_counter(pid, head);
        assert(head[0] == cs[0]);
        let p = feed(None, pid, head);
        let st = p.unwrap();
        let c = cs.last();
        assert(no_restart(None, pid, head));
        assert(classify(p, c) != SampleClass::Restart);
        assert(st.received >= 1);
        match classify(p, c) {
            SampleClass::InOrder => {},
            SampleClass::Gap => {
                assert(gap_of(p, c) == c - st.last_counter - 1);
            },
            _ => {},
        }
    }
}

/// Samples received from all publishers, as counted per stream.
pub open spec fn total_received(s: Seq<StreamState>) -> int
    decreases s.len(),
{
    if s.len() == 0 {
        0
    } else {
        total_received(s.drop_last()) + s.last().received
    }
}

/// Counters lost from all publishers, as counted per stream.
pub open spec fn total_lost(s: Seq<StreamState>) -> int
    decreases s.len(),
{
    if s.len() == 0 {
        0
    } else {
        total_lost(s.drop_last()) + s.last().lost
    }
}

/// `x` modulo 2^64: what a wrapping `u64` counter shows of a total `x`.
pub open spec fn mod_u64(x: int) -> int {
    x % 0x1_0000_0000_0000_0000
}

proof fn lemma_totals_update(s: Seq<StreamState>, i: int, ns: StreamState)
    requires
        0 <= i < s.len(),
    ensures
        total_received(s.update(i, ns)) == total_received(s) - s[i].received + ns.received,
        total_lost(s.update(i, ns)) == total_lost(s) - s[i].lost + ns.lost,
    decreases s.len(),
{
    let u = s.update(i, ns);
    if i == s.len() - 1 {
        assert(u.drop_last() =~= s.drop_last());
    } else {
        assert(u.drop_last() =~= s.drop_last().update(i, ns));
        lemma_totals_update(s.drop_last(), i, ns);
    }
}

proof fn lemma_totals_push(s: Seq<StreamState>, ns: StreamState)
    ensures
        total_received(s.push(ns)) == total_received(s) + ns.received,
        total_lost(s.push(ns)) == total_lost(s) + ns.lost,
{
    assert(s.push(ns).drop_last() =~= s);
}

proof fn lemma_totals_nonneg(s: Seq<StreamState>)
    ensures
        total_received(s) >= 0,
        total_lost(s) >= 0,
    decreases s.len(),
{
    if s.len() > 0 {
        lemma_totals_nonneg(s.drop_last());
    }
}


/// The snapshot of one stream.
pub open spec fn stream_snapshot_of(st: StreamState) -> StreamSnapshot {
    StreamSnapshot {
        publisher_id: st.publisher_id,
        received: st.received,
        lost: st.lost,
        last_counter: st.last_counter,
        first_counter_seen: st.first_counter_seen,
    }
}

/// Integer snapshot of one publisher's stream.
pub struct StreamSnapshot {
    pub publisher_id: u32,
    pub received: u64,
    pub lost: u64,
    pub last_counter: u64,
    pub first_counter_seen: u64,
}

/// Counters of a `SubMetrics` at one instant (the time-derived rates are
/// computed by whoever holds the run's clock).
pub struct SubMetricsSnapshot {
    pub received: u64,
    pub lost_wire: u64,
    pub lost_dds_local: u64,
    pub reordered: u64,
    pub duplicates: u64,
    pub clock_skew_skipped: u64,
    pub latency: LatencySnapshot,
    pub streams: Vec<StreamSnapshot>,
}

/// Per-publisher states keyed by publisher id, with the ids in the order
/// the publishers were first seen.
struct StreamTable {
    by_id: HashMap<u32, StreamState>,
    order: Vec<u32>,
}

impl StreamTable {
    /// The states in first-seen order.
    closed spec fn states(&self) -> Seq<StreamState> {
        self.order@.map_values(|id: u32| self.by_id@[id])
    }

    closed spec fn inv(&self) -> bool {
        &&& forall|i: int, j: int|
            0 <= i < self.order@.len() && 0 <= j < self.order@.len() && i != j ==> self.order@[i]
                != self.order@[j]
        &&& forall|id: u32| #[trigger] self.by_id@.contains_key(id) <==> self.order@.contains(id)
        &&& forall|i: int|
            0 <= i < self.order@.len() ==> #[trigger] self.by_id@[self.order@[i]].publisher_id
                == self.order@[i]
    }

    proof fn lemma_inv_distinct(&self)
        requires
            self.inv(),
        ensures
            ids_distinct(self.states()),
            forall|i: int|
                0 <= i < self.states().len() ==> #[trigger] self.states()[i].publisher_id
                    == self.order@[i],
    {
        assert forall|i: int| 0 <= i < self.states().len() implies #[trigger] self.states()[i].publisher_id
            == self.order@[i] by {
            assert(self.by_id@[self.order@[i]].publisher_id == self.order@[i]);
        }
    }

    fn new() -> (r: Self)
        ensures
            r.inv(),
            r.states().len() == 0,
    {
        broadcast use vstd::std_specs::hash::group_hash_axioms;

        StreamTable { by_id: HashMap::new(), order: Vec::new() }
    }

    fn clear(&mut self)
        ensures
            final(self).inv(),
            final(self).states().len() == 0,
    {
        broadcast use vstd::std_specs::hash::group_hash_axioms;

        self.by_id.clear();
        self.order.clear();
    }

    fn len(&self) -> (r: usize)
        ensures
            r == self.states().len(),
    {
        self.order.len()
    }

    /// The state at position `i` (first-seen order).
    fn at(&self, i: usize) -> (r: StreamState)
        requires
            self.inv(),
            i < self.states().len(),
        ensures
            r == self.states()[i as int],
    {
        broadcast use vstd::std_specs::hash::group_hash_axioms;

        let id = self.order[i];
        assert(self.order@.contains(id));
        match self.by_id.get(&id) {
            Some(st) => *st,
            None => {
                assert(false);
                StreamState { publisher_id: id, last_counter: 0, first_counter_seen: 0, received: 0, lost: 0 }
            },
        }
    }

    /// The state of publisher `pid`, if known.
    fn get(&self, pid: u32) -> (r: Option<StreamState>)
        requires
            self.inv(),
        ensures
            r == lookup(self.states(), pid),
            r is Some ==> 0 <= stream_index(self.states(), pid) < self.states().len(),
            r is None ==> stream_index(self.states(), pid) == -1,
    {
        broadcast use vstd::std_specs::hash::group_hash_axioms;

        proof {
            self.lemma_inv_distinct();
        }
        let r = self.by_id.get(&pid);
        match r {
            Some(st) => {
                proof {
                    assert(self.order@.contains(pid));
                    let i = choose|i: int| 0 <= i < self.order@.len() && self.order@[i] == pid;
                    assert(self.states()[i] == self.by_id@[pid]);
                    lemma_lookup_found(self.states(), pid, i);
                }
                Some(*st)
            },
            None => {
                proof {
                    assert forall|i: int| 0 <= i < self.states().len() implies self.states()[i].publisher_id
                        != pid by {
                        assert(self.states()[i].publisher_id == self.order@[i]);
                        assert(self.order@.contains(self.order@[i]));
                    }
                }
                None
            },
        }
    }

    /// Replace the state of an already known publisher.
    fn replace(&mut self, ns: StreamState)
        requires
            old(self).inv(),
            stream_index(old(self).states(), ns.publisher_id) >= 0,
        ensures
            final(self).inv(),
            final(self).states() == old(self).states().update(
                stream_index(old(self).states(), ns.publisher_id),
                ns,
            ),
    {
        broadcast use vstd::std_specs::hash::group_hash_axioms;

        let ghost s0 = self.states();
        let ghost i = stream_index(s0, ns.publisher_id);
        proof {
            old(self).lemma_inv_distinct();
            assert(exists|k: int| 0 <= k < s0.len() && s0[k].publisher_id == ns.publisher_id);
            assert(s0[i].publisher_id == ns.publisher_id);
            assert(self.order@[i] == ns.publisher_id);
        }
        self.by_id.insert(ns.publisher_id, ns);
        proof {
            assert forall|id: u32| #[trigger] self.by_id@.contains_key(id) <==> self.order@.contains(id) by {
                if id == ns.publisher_id {
                    assert(self.order@[i] == id);
                }
            }
            assert(self.states() =~= s0.update(i, ns)) by {
                assert forall|k: int| 0 <= k < s0.len() implies #[trigger] self.states()[k] == s0.update(
                    i,
                    ns,
                )[k] by {
                    if k != i {
                        assert(self.order@[k] != self.order@[i]);
                    }
                }
            }
        }
    }

    /// Add a publisher not seen before.
    fn push(&mut self, st: StreamState)
        requires
            old(self).inv(),
            stream_index(old(self).states(), st.publisher_id) == -1,
        ensures
            final(self).inv(),
            final(self).states() == old(self).states().push(st),
    {
        broadcast use vstd::std_specs::hash::group_hash_axioms;

        let ghost s0 = self.states();
        let ghost o0 = self.order@;
        let pid = st.publisher_id;
        proof {
            old(self).lemma_inv_distinct();
            assert forall|k: int| 0 <= k < o0.len() implies o0[k] != pid by {
                assert(s0[k].publisher_id == o0[k]);
                if o0[k] == pid {
                    assert(exists|m: int| 0 <= m < s0.len() && s0[m].publisher_id == pid);
                }
            }
            assert(!o0.contains(pid));
            assert(!old(self).by_id@.contains_key(pid));
        }
        self.by_id.insert(pid, st);
        self.order.push(pid);
        proof {
            assert(self.order@ == o0.push(pid));
            assert forall|id: u32| #[trigger] self.by_id@.contains_key(id) <==> self.order@.contains(id) by {
                if id == pid {
                    assert(self.order@[o0.len() as int] == pid);
                } else {
                    if self.order@.contains(id) {
                        let k = choose|k: int| 0 <= k < self.order@.len() && self.order@[k] == id;
                        assert(k < o0.len());
                        assert(o0[k] == id);
                        assert(o0.contains(id));
                        assert(old(self).by_id@.contains_key(id));
                    }
                    if old(self).by_id@.contains_key(id) {
                        assert(o0.contains(id));
                        let k = choose|k: int| 0 <= k < o0.len() && o0[k] == id;
                        assert(self.order@[k] == id);
                        assert(self.order@.contains(id));
                    }
                }
            }
            assert forall|k: int| 0 <= k < self.order@.len() implies #[trigger] self.by_id@[self.order@[k]].publisher_id
                == self.order@[k] by {
                if k < o0.len() {
                    assert(self.order@[k] == o0[k]);
                    assert(o0[k] != pid);
                }
            }
            assert(self.states() =~= s0.push(st)) by {
                assert forall|k: int| 0 <= k < s0.len() implies #[trigger] self.states()[k] == s0[k] by {
                    assert(o0[k] != pid);
                }
            }
        }
    }
}

/// Subscriber counters. The run-wide counters wrap around at 2^64.
pub struct SubMetrics {
    started_ns: u64,
    received: u64,
    lost_wire: u64,
    reordered: u64,
    duplicates: u64,
    lost_dds_local: u64,
    clock_skew_skipped: u64,
    streams: StreamTable,
    history: SubHistory,
    latency: LatencyHisto,
    latency_window: LatencyHisto,
}

impl SubMetrics {
    pub closed spec fn started_ns(&self) -> u64 {
        self.started_ns
    }

    /// Samples accepted in sequence (first, in order, after a gap, or
    /// after a restart).
    pub closed spec fn received(&self) -> u64 {
        self.received
    }

    /// Samples missing from counter gaps.
    pub closed spec fn lost_wire(&self) -> u64 {
        self.lost_wire
    }

    pub closed spec fn reordered(&self) -> u64 {
        self.reordered
    }

    pub closed spec fn duplicates(&self) -> u64 {
        self.duplicates
    }

    /// Loss reported by the local DDS stack.
    pub closed spec fn lost_dds_local(&self) -> u64 {
        self.lost_dds_local
    }

    /// Latency samples dropped because the receive time was not after the
    /// send stamp.
    pub closed spec fn clock_skew_skipped(&self) -> u64 {
        self.clock_skew_skipped
    }

    /// Per-publisher states, in the order the publishers were first seen.
    pub closed spec fn streams(&self) -> Seq<StreamState> {
        self.streams.states()
    }

    pub closed spec fn history(&self) -> SubHistory {
        self.history
    }

    /// Latency since the last reset.
    pub closed spec fn latency(&self) -> LatencyHisto {
        self.latency
    }

    /// Latency since the last `take_latency_window`.
    pub closed spec fn latency_window(&self) -> LatencyHisto {
        self.latency_window
    }

    pub closed spec fn wf(&self) -> bool {
        &&& self.streams.inv()
        &&& streams_ok(self.streams.states())
        &&& self.received as int == mod_u64(total_received(self.streams.states()))
        &&& self.lost_wire as int == mod_u64(total_lost(self.streams.states()))
        &&& self.history.wf()
        &&& self.latency.wf()
        &&& self.latency_window.wf()
    }

    /// The run-wide counters agree with the per-publisher ones: `received`
    /// is the sum of the streams' received counts and `lost_wire` the sum
    /// of their lost counts, both modulo 2^64.
    pub proof fn lemma_totals_match_streams(&self)
        requires
            self.wf(),
        ensures
            self.received() as int == mod_u64(total_received(self.streams())),
            self.lost_wire() as int == mod_u64(total_lost(self.streams())),
    {
    }

    /// What a well-formed `SubMetrics` guarantees: publisher ids are
    /// distinct, every stream has received a sample and its first counter
    /// is at most its last; the three history rows share one length (at
    /// most `HISTORY_CAP`) and one start second; both histograms are well
    /// formed.
    pub proof fn lemma_wf_facts(&self)
        requires
            self.wf(),
        ensures
            streams_ok(self.streams()),
            self.history().wf(),
            self.history().recv.window().len() <= HISTORY_CAP,
            self.latency().wf(),
            self.latency_window().wf(),
    {
        self.history.recv.lemma_window_bounded();
    }

    /// All counters zero, no publisher known, empty history and latency.
    pub open spec fn is_zeroed(&self) -> bool {
        &&& self.received() == 0
        &&& self.lost_wire() == 0
        &&& self.reordered() == 0
        &&& self.duplicates() == 0
        &&& self.lost_dds_local() == 0
        &&& self.clock_skew_skipped() == 0
        &&& self.streams().len() == 0
        &&& self.history().is_empty()
        &&& self.latency().is_empty_histo()
        &&& self.latency_window().is_empty_histo()
    }

    /// A sample with `counter` from `pid` can be accounted without any
    /// per-publisher counter or the current history bucket overflowing.
    pub open spec fn sample_fits(&self, pid: u32, counter: u64) -> bool {
        let prev = lookup(self.streams(), pid);
        let cls = classify(prev, counter);
        &&& (prev is Some && prev.unwrap().received > 0 ==> prev.unwrap().last_counter < u64::MAX)
        &&& (prev is Some && accepted(cls) ==> prev.unwrap().received < u64::MAX)
        &&& cls == SampleClass::Gap ==> prev.unwrap().lost + gap_of(prev, counter) <= u64::MAX
        &&& accepted(cls) ==> row_room(self.history().recv.window(), 1)
        &&& row_room(self.history().lost.window(), gap_of(prev, counter))
    }

    /// Everything but the history is updated as one sample from `pid`
    /// with `counter` requires.
    pub open spec fn sample_counted(&self, old: &Self, pid: u32, counter: u64) -> bool {
        let prev = lookup(old.streams(), pid);
        let cls = classify(prev, counter);
        &&& self.streams() == streams_after(old.streams(), pid, counter)
        &&& self.received() == wrapping_add(
            old.received(),
            if accepted(cls) {
                1u64
            } else {
                0u64
            },
        )
        &&& self.lost_wire() == wrapping_add(old.lost_wire(), gap_of(prev, counter))
        &&& self.duplicates() == wrapping_add(
            old.duplicates(),
            if cls == SampleClass::Duplicate {
                1u64
            } else {
                0u64
            },
        )
        &&& self.reordered() == wrapping_add(
            old.reordered(),
            if cls == SampleClass::Reordered {
                1u64
            } else {
                0u64
            },
        )
        &&& self.lost_dds_local() == old.lost_dds_local()
        &&& self.clock_skew_skipped() == old.clock_skew_skipped()
        &&& self.started_ns() == old.started_ns()
        &&& self.latency() == old.latency()
        &&& self.latency_window() == old.latency_window()
    }

    /// The history of `self` is that of `old` after a sample from `pid`
    /// with `counter` arrived at second `now`.
    pub open spec fn history_after_sample(&self, old: &Self, pid: u32, counter: u64, now: u64) -> bool {
        let prev = lookup(old.streams(), pid);
        let h = old.history();
        if accepted(classify(prev, counter)) {
            &&& row_is(self.history().recv, row_after(h.recv.window(), h.recv.start_s(), now, 1))
            &&& row_is(
                self.history().lost,
                row_after(h.lost.window(), h.lost.start_s(), now, gap_of(prev, counter)),
            )
            &&& row_is(self.history().lat_us, row_after(h.lat_us.window(), h.lat_us.start_s(), now, 0))
        } else {
            self.history() == h
        }
    }

    pub fn new() -> (r: Self)
        ensures
            r.wf(),
            r.is_zeroed(),
    {
        SubMetrics {
            started_ns: now_ns(),
            received: 0,
            lost_wire: 0,
            reordered: 0,
            duplicates: 0,
            lost_dds_local: 0,
            clock_skew_skipped: 0,
            streams: StreamTable::new(),
            history: SubHistory::new(),
            latency: LatencyHisto::new(),
            latency_window: LatencyHisto::new(),
        }
    }

    /// Zero every counter, forget all publishers, clear the history and
    /// both latency histograms, and re-stamp the start time.
    pub fn reset(&mut self)
        requires
            old(self).wf(),
        ensures
            final(self).wf(),
            final(self).is_zeroed(),
    {
        self.received = 0;
        self.lost_wire = 0;
        self.reordered = 0;
        self.duplicates = 0;
        self.lost_dds_local = 0;
        self.clock_skew_skipped = 0;
        self.streams.clear();
        self.history.reset();
        self.latency.reset();
        self.latency_window.reset();
        self.started_ns = now_ns();
    }

    /// Snapshot the per-window latency histogram, then empty it.
    pub fn take_latency_window(&mut self) -> (s: LatencySnapshot)
        requires
            old(self).wf(),
        ensures
            final(self).wf(),
            s == old(self).latency_window().snapshot_spec(),
            final(self).latency_window().is_empty_histo(),
            final(self).latency() == old(self).latency(),
            final(self).streams() == old(self).streams(),
            final(self).history() == old(self).history(),
            final(self).received() == old(self).received(),
            final(self).lost_wire() == old(self).lost_wire(),
            final(self).reordered() == old(self).reordered(),
            final(self).duplicates() == old(self).duplicates(),
            final(self).lost_dds_local() == old(self).lost_dds_local(),
            final(self).clock_skew_skipped() == old(self).clock_skew_skipped(),
            final(self).started_ns() == old(self).started_ns(),
    {
        let snap = self.latency_window.snapshot();
        self.latency_window.reset();
        snap
    }

    /// Whether a sample from `pid` with `counter` can be accounted without
    /// overflow (`sample_fits`).
    pub fn can_accept_sample(&self, publisher_id: u32, counter: u64) -> (r: bool)
        requires
            self.wf(),
        ensures
            r == self.sample_fits(publisher_id, counter),
    {
        let recv_room = self.history.recv.has_room(1);
        match self.streams.get(publisher_id) {
            None => {
                let lost_room = self.history.lost.has_room(0);
                recv_room && lost_room
            },
            Some(st) => {
                if st.received == 0 {
                    return recv_room && self.history.lost.has_room(0);
                }
                if st.last_counter == u64::MAX {
                    return false;
                }
                if counter == st.last_counter + 1 {
                    st.received < u64::MAX && recv_room && self.history.lost.has_room(0)
                } else if counter > st.last_counter + 1 {
                    let gap = counter - st.last_counter - 1;
                    st.received < u64::MAX && st.lost <= u64::MAX - gap && recv_room
                        && self.history.lost.has_room(gap)
                } else if counter == st.last_counter {
                    self.history.lost.has_room(0)
                } else if counter < st.first_counter_seen {
                    st.received < u64::MAX && recv_room && self.history.lost.has_room(0)
                } else {
                    self.history.lost.has_room(0)
                }
            },
        }
    }

    /// Whether a latency observation with these stamps fits (`latency_fits`).
    pub fn can_record_latency(&self, stamp_ns: u64, recv_ns: u64) -> (r: bool)
        ensures
            r == self.latency_fits(stamp_ns, recv_ns),
    {
        recv_ns <= stamp_ns || (self.latency.sample_count() < u64::MAX
            && self.latency_window.sample_count() < u64::MAX)
    }

    /// Record one received sample, arrived at second `now`.
    pub fn on_sample_at(&mut self, publisher_id: u32, counter: u64, now: u64)
        requires
            old(self).wf(),
            old(self).sample_fits(publisher_id, counter),
        ensures
            final(self).wf(),
            final(self).sample_counted(old(self), publisher_id, counter),
            final(self).history_after_sample(old(self), publisher_id, counter, now),
    {
        let ghost s0 = self.streams.states();
        let ghost prev = lookup(s0, publisher_id);
        let ghost r0 = self.received;
        let ghost l0 = self.lost_wire;
        proof {
            lemma_totals_nonneg(s0);
        }
        match self.streams.get(publisher_id) {
            None => {
                let st = StreamState {
                    publisher_id,
                    last_counter: counter,
                    first_counter_seen: counter,
                    received: 1,
                    lost: 0,
                };
                self.streams.push(st);
                self.received = self.received.wrapping_add(1);
                self.history.bump(1, 0, now);
                proof {
                    lemma_totals_push(s0, st);
                    lemma_wrapping_add_mod(r0, total_received(s0), 1);
                    let t = self.streams.states();
                    assert(t == s0.push(st));
                    assert forall|k: int| 0 <= k < s0.len() implies s0[k].publisher_id != publisher_id by {
                        if s0[k].publisher_id == publisher_id {
                            assert(exists|m: int| 0 <= m < s0.len() && s0[m].publisher_id == publisher_id);
                        }
                    }
                    assert forall|a: int, b: int|
                        0 <= a < t.len() && 0 <= b < t.len() && a != b implies t[a].publisher_id
                        != t[b].publisher_id by {
                        if a < s0.len() && b < s0.len() {
                        } else if a == s0.len() {
                            assert(s0[b].publisher_id != publisher_id);
                        } else {
                            assert(s0[a].publisher_id != publisher_id);
                        }
                    }
                    assert forall|a: int| 0 <= a < t.len() implies stream_ok(#[trigger] t[a]) by {
                        if a < s0.len() {
                            assert(t[a] == s0[a]);
                        }
                    }
                }
            },
            Some(st) => {
                let ghost i = stream_index(s0, publisher_id);
                if st.received == 0 {
                    let ns = StreamState {
                        received: 1,
                        last_counter: counter,
                        first_counter_seen: counter,
                        ..st
                    };
                    self.streams.replace(ns);
                    self.received = self.received.wrapping_add(1);
                    self.history.bump(1, 0, now);
                    proof {
                        self.lemma_stream_update_ok(s0, i, ns);
                        lemma_totals_update(s0, i, ns);
                        lemma_wrapping_add_mod(r0, total_received(s0), 1);
                    }
                    return;
                }
                if counter == st.last_counter + 1 {
                    let ns = StreamState { last_counter: counter, received: st.received + 1, ..st };
                    self.streams.replace(ns);
                    self.received = self.received.wrapping_add(1);
                    self.history.bump(1, 0, now);
                    proof {
                        self.lemma_stream_update_ok(s0, i, ns);
                        lemma_totals_update(s0, i, ns);
                        lemma_wrapping_add_mod(r0, total_received(s0), 1);
                    }
                } else if counter > st.last_counter + 1 {
                    let gap = counter - st.last_counter - 1;
                    let ns = StreamState {
                        last_counter: counter,
                        received: st.received + 1,
                        lost: st.lost + gap,
                        ..st
                    };
                    self.streams.replace(ns);
                    self.lost_wire = self.lost_wire.wrapping_add(gap);
                    self.received = self.received.wrapping_add(1);
                    self.history.bump(1, gap, now);
                    proof {
                        self.lemma_stream_update_ok(s0, i, ns);
                        lemma_totals_update(s0, i, ns);
                        lemma_wrapping_add_mod(r0, total_received(s0), 1);
                        lemma_wrapping_add_mod(l0, total_lost(s0), gap);
                    }
                } else if counter == st.last_counter {
                    self.duplicates = self.duplicates.wrapping_add(1);
                    proof { assert(self.streams.states() =~= streams_after(s0, publisher_id, counter)); }
                } else if counter < st.first_counter_seen {
                    // The publisher restarted with a reset counter: rebaseline.
                    let ns = StreamState {
                        last_counter: counter,
                        first_counter_seen: counter,
                        received: st.received + 1,
                        ..st
                    };
                    self.streams.replace(ns);
                    self.received = self.received.wrapping_add(1);
                    self.history.bump(1, 0, now);
                    proof {
                        self.lemma_stream_update_ok(s0, i, ns);
                        lemma_totals_update(s0, i, ns);
                        lemma_wrapping_add_mod(r0, total_received(s0), 1);
                    }
                } else {
                    self.reordered = self.reordered.wrapping_add(1);
                    proof { assert(self.streams.states() =~= streams_after(s0, publisher_id, counter)); }
                }
            },
        }
    }

    /// Record one received sample. `publisher_id` and `counter` come from
    /// the message payload; the history is bumped at the current second.
    pub fn on_sample(&mut self, publisher_id: u32, counter: u64)
        requires
            old(self).wf(),
            old(self).sample_fits(publisher_id, counter),
        ensures
            final(self).wf(),
            final(self).sample_counted(old(self), publisher_id, counter),
            exists|now: u64| final(self).history_after_sample(old(self), publisher_id, counter, now),
    {
        let now = now_s();
        self.on_sample_at(publisher_id, counter, now);
    }

    /// Add loss reported by the local DDS stack.
    pub fn record_sample_lost_dds(&mut self, n: u64)
        requires
            old(self).wf(),
        ensures
            final(self).wf(),
            final(self).lost_dds_local() == wrapping_add(old(self).lost_dds_local(), n),
            final(self).received() == old(self).received(),
            final(self).lost_wire() == old(self).lost_wire(),
            final(self).reordered() == old(self).reordered(),
            final(self).duplicates() == old(self).duplicates(),
            final(self).clock_skew_skipped() == old(self).clock_skew_skipped(),
            final(self).streams() == old(self).streams(),
            final(self).history() == old(self).history(),
            final(self).latency() == old(self).latency(),
            final(self).latency_window() == old(self).latency_window(),
            final(self).started_ns() == old(self).started_ns(),
    {
        self.lost_dds_local = self.lost_dds_local.wrapping_add(n);
    }

    /// Room for one more latency sample when the stamps give a positive
    /// latency.
    pub open spec fn latency_fits(&self, stamp_ns: u64, recv_ns: u64) -> bool {
        recv_ns > stamp_ns ==> {
            &&& self.latency().count() < u64::MAX
            &&& self.latency_window().count() < u64::MAX
        }
    }

    /// `self` is `old` after a latency observation with the given stamps
    /// at second `now`: a receive time before the stamp only counts as
    /// clock skew; a receive time equal to the stamp (a latency of 0)
    /// changes nothing; otherwise both histograms record the difference and
    /// the latency row keeps its largest value in microseconds.
    pub open spec fn latency_recorded(&self, old: &Self, stamp_ns: u64, recv_ns: u64, now: u64) -> bool {
        &&& self.received() == old.received()
        &&& self.lost_wire() == old.lost_wire()
        &&& self.reordered() == old.reordered()
        &&& self.duplicates() == old.duplicates()
        &&& self.lost_dds_local() == old.lost_dds_local()
        &&& self.streams() == old.streams()
        &&& self.started_ns() == old.started_ns()
        &&& if recv_ns < stamp_ns {
            &&& self.clock_skew_skipped() == wrapping_add(old.clock_skew_skipped(), 1)
            &&& self.latency() == old.latency()
            &&& self.latency_window() == old.latency_window()
            &&& self.history() == old.history()
        } else if recv_ns == stamp_ns {
            &&& self.clock_skew_skipped() == old.clock_skew_skipped()
            &&& self.latency() == old.latency()
            &&& self.latency_window() == old.latency_window()
            &&& self.history() == old.history()
        } else {
            let ns = (recv_ns - stamp_ns) as u64;
            let h = old.history();
            let (lw, ls) = advanced(h.lat_us.window(), h.lat_us.start_s(), now);
            &&& self.clock_skew_skipped() == old.clock_skew_skipped()
            &&& recorded(old.latency(), self.latency(), ns)
            &&& recorded(old.latency_window(), self.latency_window(), ns)
            &&& row_is(self.history().recv, advanced(h.recv.window(), h.recv.start_s(), now))
            &&& row_is(self.history().lost, advanced(h.lost.window(), h.lost.start_s(), now))
            &&& row_is(self.history().lat_us, (max_into_last(lw, (ns / 1000) as u64), ls))
        }
    }

    /// Record one end-to-end latency observation at second `now`.
    pub fn record_latency_at(&mut self, stamp_ns: u64, recv_ns: u64, now: u64)
        requires
            old(self).wf(),
            old(self).latency_fits(stamp_ns, recv_ns),
        ensures
            final(self).wf(),
            final(self).latency_recorded(old(self), stamp_ns, recv_ns, now),
    {
        if recv_ns < stamp_ns {
            self.clock_skew_skipped = self.clock_skew_skipped.wrapping_add(1);
            return;
        }
        if recv_ns == stamp_ns {
            return;
        }
        let ns = recv_ns - stamp_ns;
        self.latency.record(ns);
        self.latency_window.record(ns);
        self.history.note_latency(ns / 1_000, now);
    }

    /// Record one end-to-end latency observation: `recv_ns` is the local
    /// receive time, `stamp_ns` the send time embedded by the publisher.
    pub fn record_latency(&mut self, stamp_ns: u64, recv_ns: u64)
        requires
            old(self).wf(),
            old(self).latency_fits(stamp_ns, recv_ns),
        ensures
            final(self).wf(),
            exists|now: u64| final(self).latency_recorded(old(self), stamp_ns, recv_ns, now),
    {
        let now = now_s();
        self.record_latency_at(stamp_ns, recv_ns, now);
    }

    /// Integer snapshot of the counters, the cumulative latency and the
    /// per-publisher streams.
    pub fn snapshot(&self) -> (s: SubMetricsSnapshot)
        requires
            self.wf(),
        ensures
            s.received == self.received(),
            s.lost_wire == self.lost_wire(),
            s.lost_dds_local == self.lost_dds_local(),
            s.reordered == self.reordered(),
            s.duplicates == self.duplicates(),
            s.clock_skew_skipped == self.clock_skew_skipped(),
            s.latency == self.latency().snapshot_spec(),
            s.streams@ == self.streams().map_values(|st: StreamState| stream_snapshot_of(st)),
            s.received as int == mod_u64(total_received(self.streams())),
            s.lost_wire as int == mod_u64(total_lost(self.streams())),
            forall|i: int, j: int|
                0 <= i < s.streams@.len() && 0 <= j < s.streams@.len() && i != j
                    ==> s.streams@[i].publisher_id != s.streams@[j].publisher_id,
            forall|i: int|
                0 <= i < s.streams@.len() ==> #[trigger] s.streams@[i].received >= 1
                    && s.streams@[i].first_counter_seen <= s.streams@[i].last_counter,
    {
        let n = self.streams.len();
        let ghost ss = self.streams.states();
        let mut streams: Vec<StreamSnapshot> = Vec::new();
        let mut i: usize = 0;
        while i < n
            invariant
                n == ss.len(),
                ss == self.streams.states(),
                self.streams.inv(),
                i <= n,
                streams@ =~= ss.take(i as int).map_values(
                    |st: StreamState| stream_snapshot_of(st),
                ),
            decreases n - i,
        {
            let st = self.streams.at(i);
            streams.push(
                StreamSnapshot {
                    publisher_id: st.publisher_id,
                    received: st.received,
                    lost: st.lost,
                    last_counter: st.last_counter,
                    first_counter_seen: st.first_counter_seen,
                },
            );
            proof {
                assert(ss.take(i + 1) =~= ss.take(i as int).push(st));
            }
            i = i + 1;
        }
        proof {
            assert(ss.take(n as int) =~= ss);
            assert forall|i: int, j: int|
                0 <= i < streams@.len() && 0 <= j < streams@.len() && i != j
                    implies streams@[i].publisher_id != streams@[j].publisher_id by {
                assert(streams@[i] == stream_snapshot_of(ss[i]));
                assert(streams@[j] == stream_snapshot_of(ss[j]));
            }
            assert forall|i: int| 0 <= i < streams@.len() implies #[trigger] streams@[i].received >= 1
                && streams@[i].first_counter_seen <= streams@[i].last_counter by {
                assert(streams@[i] == stream_snapshot_of(ss[i]));
                assert(stream_ok(ss[i]));
            }
        }
        SubMetricsSnapshot {
            received: self.received,
            lost_wire: self.lost_wire,
            lost_dds_local: self.lost_dds_local,
            reordered: self.reordered,
            duplicates: self.duplicates,
            clock_skew_skipped: self.clock_skew_skipped,
            latency: self.latency.snapshot(),
            streams,
        }
    }

    /// The history rows of `self` are those of `old` advanced to `now`.
    pub open spec fn history_advanced(&self, old: &Self, now: u64) -> bool {
        let h = old.history();
        &&& row_is(self.history().recv, advanced(h.recv.window(), h.recv.start_s(), now))
        &&& row_is(self.history().lost, advanced(h.lost.window(), h.lost.start_s(), now))
        &&& row_is(self.history().lat_us, advanced(h.lat_us.window(), h.lat_us.start_s(), now))
    }

    /// Advance the history to second `now` and draw it as three sparkline
    /// rows: received, lost, and largest latency per second.
    pub fn render_history_at(&mut self, now: u64) -> (r: String)
        requires
            old(self).wf(),
        ensures
            final(self).wf(),
            final(self).history_advanced(old(self), now),
            final(self).history().recv.window().len() == final(self).history().lost.window().len(),
            final(self).history().recv.window().len() == final(self).history().lat_us.window().len(),
            1 <= final(self).history().recv.window().len() <= HISTORY_CAP,
            r@ == "  recv \u{2502}"@ + sparkline_of(final(self).history().recv.window())
                + "\n  lost \u{2502}"@ + sparkline_of(final(self).history().lost.window())
                + "\n  lat  \u{2502}"@ + sparkline_of(final(self).history().lat_us.window()),
            final(self).received() == old(self).received(),
            final(self).lost_wire() == old(self).lost_wire(),
            final(self).reordered() == old(self).reordered(),
            final(self).duplicates() == old(self).duplicates(),
            final(self).lost_dds_local() == old(self).lost_dds_local(),
            final(self).clock_skew_skipped() == old(self).clock_skew_skipped(),
            final(self).streams() == old(self).streams(),
            final(self).latency() == old(self).latency(),
            final(self).latency_window() == old(self).latency_window(),
            final(self).started_ns() == old(self).started_ns(),
    {
        proof {
            self.history.recv.lemma_window_bounded();
            lemma_advanced_covers(
                self.history.recv.window(),
                self.history.recv.start_s(),
                now,
            );
            self.history.recv.lemma_window_bounded();
        }
        self.history.advance_to(now);
        proof {
            self.history.recv.lemma_window_bounded();
        }
        let recv = self.history.recv.sparkline();
        let lost = self.history.lost.sparkline();
        let lat = self.history.lat_us.sparkline();
        let mut out = String::from_str("  recv \u{2502}");
        out.append(recv.as_str());
        out.append("\n  lost \u{2502}");
        out.append(lost.as_str());
        out.append("\n  lat  \u{2502}");
        out.append(lat.as_str());
        out
    }

    /// Advance the history to the current second and draw it.
    pub fn render_history(&mut self) -> (r: String)
        requires
            old(self).wf(),
        ensures
            final(self).wf(),
            final(self).received() == old(self).received(),
            final(self).lost_wire() == old(self).lost_wire(),
            final(self).reordered() == old(self).reordered(),
            final(self).duplicates() == old(self).duplicates(),
            final(self).lost_dds_local() == old(self).lost_dds_local(),
            final(self).clock_skew_skipped() == old(self).clock_skew_skipped(),
            final(self).streams() == old(self).streams(),
            final(self).latency() == old(self).latency(),
            final(self).latency_window() == old(self).latency_window(),
            final(self).started_ns() == old(self).started_ns(),
            r@ == "  recv \u{2502}"@ + sparkline_of(final(self).history().recv.window())
                + "\n  lost \u{2502}"@ + sparkline_of(final(self).history().lost.window())
                + "\n  lat  \u{2502}"@ + sparkline_of(final(self).history().lat_us.window()),
            exists|now: u64| final(self).history_advanced(old(self), now),
            final(self).history().recv.window().len() == final(self).history().lost.window().len(),
            final(self).history().recv.window().len() == final(self).history().lat_us.window().len(),
            1 <= final(self).history().recv.window().len() <= HISTORY_CAP,
    {
        let now = now_s();
        self.render_history_at(now)
    }

    proof fn lemma_stream_update_ok(&self, s0: Seq<StreamState>, i: int, ns: StreamState)
        requires
            streams_ok(s0),
            0 <= i < s0.len(),
            ns.publisher_id == s0[i].publisher_id,
            stream_ok(ns),
            self.streams.states() == s0.update(i, ns),
        ensures
            streams_ok(self.streams.states()),
    {
        let t = self.streams.states();
        assert forall|a: int, b: int|
            0 <= a < t.len() && 0 <= b < t.len() && a != b implies t[a].publisher_id
            != t[b].publisher_id by {
            assert(t[a].publisher_id == s0[a].publisher_id);
            assert(t[b].publisher_id == s0[b].publisher_id);
        }
        assert forall|a: int| 0 <= a < t.len() implies stream_ok(#[trigger] t[a]) by {
            if a != i {
                assert(t[a] == s0[a]);
            }
        }
    }
}

/// After a sample, the publisher's entry is the updated state.
proof fn lemma_counted_entry(old: SubMetrics, new: SubMetrics, pid: u32, counter: u64)
    requires
        new.wf(),
        new.sample_counted(&old, pid, counter),
        lookup(old.streams(), pid) is Some,
    ensures
        lookup(new.streams(), pid) == Some(stream_after(lookup(old.streams(), pid), pid, counter)),
{
    let s0 = old.streams();
    let i = stream_index(s0, pid);
    assert(i >= 0);
    assert(s0[i].publisher_id == pid) by {
        assert(exists|k: int| 0 <= k < s0.len() && s0[k].publisher_id == pid);
    }
    let t = new.streams();
    new.lemma_wf_facts();
    assert(t == s0.update(i, stream_after(lookup(s0, pid), pid, counter)));
    assert(t[i].publisher_id == pid);
    assert(ids_distinct(t));
    lemma_lookup_found(t, pid, i);
}

/// However far a known publisher's counter jumps forward, every counter
/// skipped is counted as lost, in its stream and in `lost_wire`; the
/// sample is received and becomes the last one, and the first counter
/// seen stays.
pub proof fn law_gap_counts_every_missing(old: SubMetrics, new: SubMetrics, pid: u32, counter: u64)
    requires
        new.wf(),
        new.sample_counted(&old, pid, counter),
        lookup(old.streams(), pid) is Some,
        lookup(old.streams(), pid).unwrap().received >= 1,
        counter > lookup(old.streams(), pid).unwrap().last_counter + 1,
    ensures
        ({
            let st = lookup(old.streams(), pid).unwrap();
            let gap = (counter - st.last_counter - 1) as u64;
            &&& lookup(new.streams(), pid) == Some(
                StreamState {
                    last_counter: counter,
                    received: (st.received + 1) as u64,
                    lost: (st.lost + gap) as u64,
                    ..st
                },
            )
            &&& new.lost_wire() == wrapping_add(old.lost_wire(), gap)
            &&& new.received() == wrapping_add(old.received(), 1)
            &&& new.duplicates() == old.duplicates()
            &&& new.reordered() == old.reordered()
        }),
{
    lemma_counted_entry(old, new, pid, counter);
}

/// Only a counter below the first one seen rebaselines a known
/// publisher: its first counter becomes that counter then, and stays
/// otherwise; the stream's loss count never goes down.
pub proof fn law_restart_only_below_first(old: SubMetrics, new: SubMetrics, pid: u32, counter: u64)
    requires
        old.wf(),
        old.sample_fits(pid, counter),
        new.wf(),
        new.sample_counted(&old, pid, counter),
        lookup(old.streams(), pid) is Some,
    ensures
        ({
            let st = lookup(old.streams(), pid).unwrap();
            let nst = lookup(new.streams(), pid).unwrap();
            &&& lookup(new.streams(), pid) is Some
            &&& nst.first_counter_seen == (if counter < st.first_counter_seen {
                counter
            } else {
                st.first_counter_seen
            })
            &&& nst.lost >= st.lost
            &&& nst.publisher_id == pid
        }),
{
    lemma_counted_entry(old, new, pid, counter);
    let s0 = old.streams();
    let i = stream_index(s0, pid);
    assert(s0[i].publisher_id == pid) by {
        assert(exists|k: int| 0 <= k < s0.len() && s0[k].publisher_id == pid);
    }
    old.lemma_wf_facts();
    assert(stream_ok(s0[i]));
    assert(lookup(s0, pid) == Some(s0[i]));
    let st = s0[i];
    assert(st.received >= 1);
    assert(st.first_counter_seen <= st.last_counter);
}

/// A counter equal to the last one is a duplicate, and any other counter
/// from the first to the last one seen is a reorder: only that counter
/// moves, and the publisher's stream is unchanged.
pub proof fn law_duplicate_and_reorder(old: SubMetrics, new: SubMetrics, pid: u32, counter: u64)
    requires
        old.wf(),
        new.wf(),
        new.sample_counted(&old, pid, counter),
        lookup(old.streams(), pid) is Some,
        lookup(old.streams(), pid).unwrap().first_counter_seen <= counter <= lookup(
            old.streams(),
            pid,
        ).unwrap().last_counter,
    ensures
        lookup(new.streams(), pid) == lookup(old.streams(), pid),
        new.received() == old.received(),
        new.lost_wire() == old.lost_wire(),
        counter == lookup(old.streams(), pid).unwrap().last_counter ==> new.duplicates()
            == wrapping_add(old.duplicates(), 1) && new.reordered() == old.reordered(),
        counter != lookup(old.streams(), pid).unwrap().last_counter ==> new.reordered()
            == wrapping_add(old.reordered(), 1) && new.duplicates() == old.duplicates(),
{
    lemma_counted_entry(old, new, pid, counter);
    let s0 = old.streams();
    let i = stream_index(s0, pid);
    assert(s0[i].publisher_id == pid) by {
        assert(exists|k: int| 0 <= k < s0.len() && s0[k].publisher_id == pid);
    }
    assert(stream_ok(s0[i]));
}

/// What one sample does to the streams and the run-wide counters, case by
/// case: other publishers are untouched; a new publisher starts a stream
/// at that counter with nothing lost; the next counter in sequence is
/// received; a counter below the first one seen restarts the stream there.
pub proof fn law_sample_effects(old: SubMetrics, new: SubMetrics, pid: u32, counter: u64)
    requires
        old.wf(),
        old.sample_fits(pid, counter),
        new.wf(),
        new.sample_counted(&old, pid, counter),
    ensures
        forall|other: u32| other != pid ==> #[trigger] lookup(new.streams(), other) == lookup(old.streams(), other),
        lookup(old.streams(), pid) is None ==> {
            &&& lookup(new.streams(), pid) == Some(
                StreamState {
                    publisher_id: pid,
                    last_counter: counter,
                    first_counter_seen: counter,
                    received: 1,
                    lost: 0,
                },
            )
            &&& new.received() == wrapping_add(old.received(), 1)
            &&& new.lost_wire() == old.lost_wire()
        },
        lookup(old.streams(), pid) is Some && counter == lookup(old.streams(), pid).unwrap().last_counter
            + 1 ==> {
            &&& lookup(new.streams(), pid) == Some(
                StreamState {
                    last_counter: counter,
                    received: (lookup(old.streams(), pid).unwrap().received + 1) as u64,
                    ..lookup(old.streams(), pid).unwrap()
                },
            )
            &&& new.received() == wrapping_add(old.received(), 1)
            &&& new.lost_wire() == old.lost_wire()
        },
        lookup(old.streams(), pid) is Some && counter < lookup(
            old.streams(),
            pid,
        ).unwrap().first_counter_seen ==> {
            &&& lookup(new.streams(), pid) == Some(
                StreamState {
                    last_counter: counter,
                    first_counter_seen: counter,
                    received: (lookup(old.streams(), pid).unwrap().received + 1) as u64,
                    ..lookup(old.streams(), pid).unwrap()
                },
            )
            &&& new.received() == wrapping_add(old.received(), 1)
            &&& new.lost_wire() == old.lost_wire()
        },
        new.duplicates() == old.duplicates() || new.reordered() == old.reordered(),
{
    old.lemma_wf_facts();
    new.lemma_wf_facts();
    assert forall|other: u32| other != pid implies #[trigger] lookup(new.streams(), other) == lookup(
        old.streams(),
        other,
    ) by {
        lemma_streams_isolated(old.streams(), pid, counter, other);
    }
    let s0 = old.streams();
    if lookup(s0, pid) is None {
        let t = new.streams();
        assert(t == s0.push(stream_after(None, pid, counter)));
        assert(t[s0.len() as int].publisher_id == pid);
        assert(ids_distinct(t));
        lemma_lookup_found(t, pid, s0.len() as int);
    } else {
        lemma_counted_entry(old, new, pid, counter);
        let i = stream_index(s0, pid);
        assert(s0[i].publisher_id == pid) by {
            assert(exists|k: int| 0 <= k < s0.len() && s0[k].publisher_id == pid);
        }
        assert(stream_ok(s0[i]));
    }
}

} // verus!
