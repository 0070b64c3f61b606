//! Writer-side bookkeeping of remote readers: one `MatchSession` per
//! reader, open while the reader is matched, closed once it unmatches.

use vstd::prelude::*;

use crate::pub_metrics::PubMetrics;

verus! {

/// One reader's lifetime as seen by our writer: when the match opened and
/// closed, and the writer's `sent` counter at both moments.
pub struct MatchSession {
    pub reader_guid: String,
    pub first_matched_ns: u64,
    pub last_unmatched_ns: Option<u64>,
    pub sent_at_match: u64,
    pub sent_at_unmatch: Option<u64>,
}

/// `a - b`, or 0 when `b > a`.
pub open spec fn sat_sub(a: u64, b: u64) -> u64 {
    if a >= b { (a - b) as u64 } else { 0 }
}

impl MatchSession {
    /// Samples sent while this match was open. For a still-open session
    /// the caller passes the writer's current `sent` counter.
    pub open spec fn spec_samples_during(&self, current_sent: u64) -> u64 {
        let end = match self.sent_at_unmatch {
            Some(e) => e,
            None => current_sent,
        };
        sat_sub(end, self.sent_at_match)
    }

    pub fn samples_during(&self, current_sent: u64) -> (r: u64)
        ensures
            r == self.spec_samples_during(current_sent),
    {
        let end = match self.sent_at_unmatch {
            Some(e) => e,
            None => current_sent,
        };
        end.saturating_sub(self.sent_at_match)
    }
}

impl Clone for MatchSession {
    fn clone(&self) -> (r: Self)
        ensures
            r == *self,
    {
        MatchSession {
            reader_guid: self.reader_guid.clone(),
            first_matched_ns: self.first_matched_ns,
            last_unmatched_ns: self.last_unmatched_ns,
            sent_at_match: self.sent_at_match,
            sent_at_unmatch: self.sent_at_unmatch,
        }
    }
}

/// A match or unmatch, queued for a reporter.
pub enum MatchEvent {
    Matched(MatchSession),
    Unmatched(MatchSession),
}

/// Open and closed sessions at one instant.
pub struct MatchTableSnapshot {
    pub open: Vec<MatchSession>,
    pub closed: Vec<MatchSession>,
}

/// Index of the session of reader `guid` in `s`, or -1.
pub open spec fn guid_index(s: Seq<MatchSession>, guid: Seq<char>) -> int {
    if exists|i: int| 0 <= i < s.len() && s[i].reader_guid@ == guid {
        choose|i: int| 0 <= i < s.len() && s[i].reader_guid@ == guid
    } else {
        -1
    }
}

/// No reader has two open sessions.
pub open spec fn distinct_readers(s: Seq<MatchSession>) -> bool {
    forall|i: int, j: int|
        0 <= i < s.len() && 0 <= j < s.len() && i != j ==> s[i].reader_guid@ != s[j].reader_guid@
}

/// The session opened for `guid` at clock reading `now` with the writer's
/// `sent` counter at `sent_now`.
pub open spec fn opened_session(guid: String, sent_now: u64, now: u64) -> MatchSession {
    MatchSession {
        reader_guid: guid,
        first_matched_ns: now,
        last_unmatched_ns: None,
        sent_at_match: sent_now,
        sent_at_unmatch: None,
    }
}

/// `s` closed at clock reading `now` with the writer's counter at `sent_now`.
pub open spec fn closed_session(s: MatchSession, sent_now: u64, now: u64) -> MatchSession {
    MatchSession { last_unmatched_ns: Some(now), sent_at_unmatch: Some(sent_now), ..s }
}

proof fn lemma_guid_found(s: Seq<MatchSession>, guid: Seq<char>, i: int)
    requires
        distinct_readers(s),
        0 <= i < s.len(),
        s[i].reader_guid@ == guid,
    ensures
        guid_index(s, guid) == i,
{
    assert(exists|k: int| 0 <= k < s.len() && s[k].reader_guid@ == guid);
}

/// History of writer/reader match sessions: the open ones, the closed
/// ones, and the events not yet handed to a reporter.
pub struct MatchTable {
    open: Vec<MatchSession>,
    closed: Vec<MatchSession>,
    pending: Vec<MatchEvent>,
}

impl MatchTable {
    /// Sessions of currently matched readers, in match order.
    pub closed spec fn open_sessions(&self) -> Seq<MatchSession> {
        self.open@
    }

    /// Finished sessions, in unmatch order.
    pub closed spec fn closed_sessions(&self) -> Seq<MatchSession> {
        self.closed@
    }

    /// Events since the last `drain_events`, oldest first.
    pub closed spec fn pending_events(&self) -> Seq<MatchEvent> {
        self.pending@
    }

    pub closed spec fn wf(&self) -> bool {
        distinct_readers(self.open@)
    }

    pub fn new() -> (r: Self)
        ensures
            r.wf(),
            r.open_sessions().len() == 0,
            r.closed_sessions().len() == 0,
            r.pending_events().len() == 0,
    {
        MatchTable { open: Vec::new(), closed: Vec::new(), pending: Vec::new() }
    }

    fn find_open(&self, guid: &String) -> (r: Option<usize>)
        requires
            self.wf(),
        ensures
            match r {
                Some(i) => i < self.open@.len() && guid_index(self.open@, guid@) == i,
                None => guid_index(self.open@, guid@) == -1,
            },
    {
        let n = self.open.len();
        let mut i: usize = 0;
        while i < n
            invariant
                n == self.open@.len(),
                distinct_readers(self.open@),
                i <= n,
                forall|k: int| 0 <= k < i ==> self.open@[k].reader_guid@ != guid@,
            decreases n - i,
        {
            if self.open[i].reader_guid == *guid {
                proof {
                    lemma_guid_found(self.open@, guid@, i as int);
                }
                return Some(i);
            }
            i = i + 1;
        }
        None
    }

    /// `self` is `old` after reader `guid` matched at clock reading `now`
    /// with the writer's counter at `sent_now`: a reader that already has
    /// an open session changes nothing, otherwise a session opens and a
    /// `Matched` event is queued.
    pub open spec fn matched_into(&self, old: &Self, guid: String, sent_now: u64, now: u64) -> bool {
        if guid_index(old.open_sessions(), guid@) >= 0 {
            &&& self.open_sessions() == old.open_sessions()
            &&& self.closed_sessions() == old.closed_sessions()
            &&& self.pending_events() == old.pending_events()
        } else {
            let s = opened_session(guid, sent_now, now);
            &&& self.open_sessions() == old.open_sessions().push(s)
            &&& self.closed_sessions() == old.closed_sessions()
            &&& self.pending_events() == old.pending_events().push(MatchEvent::Matched(s))
        }
    }

    pub fn on_matched_at(&mut self, reader_guid: String, sent_now: u64, now: u64)
        requires
            old(self).wf(),
        ensures
            final(self).wf(),
            final(self).matched_into(old(self), reader_guid, sent_now, now),
    {
        if self.find_open(&reader_guid).is_some() {
            return;
        }
        let session = MatchSession {
            reader_guid,
            first_matched_ns: now,
            last_unmatched_ns: None,
            sent_at_match: sent_now,
            sent_at_unmatch: None,
        };
        let ghost o = self.open@;
        let copy = session.clone();
        self.open.push(session);
        self.pending.push(MatchEvent::Matched(copy));
        proof {
            assert forall|i: int, j: int|
                0 <= i < self.open@.len() && 0 <= j < self.open@.len() && i != j implies self.open@[i].reader_guid@
                != self.open@[j].reader_guid@ by {
                if i < o.len() && j < o.len() {
                } else if i == o.len() {
                    assert(o[j].reader_guid@ != copy.reader_guid@);
                } else {
                    assert(o[i].reader_guid@ != copy.reader_guid@);
                }
            }
        }
    }

    /// Reader `reader_guid` matched our writer; `sent_now` is the writer's
    /// current `sent` counter.
    pub fn on_matched(&mut self, reader_guid: String, sent_now: u64)
        requires
            old(self).wf(),
        ensures
            final(self).wf(),
            exists|now: u64| final(self).matched_into(old(self), reader_guid, sent_now, now),
    {
        let now = crate::clock::now_ns();
        self.on_matched_at(reader_guid, sent_now, now);
    }

    /// `self` is `old` after reader `guid` unmatched at clock reading
    /// `now`: its open session, if any, is closed with the writer's
    /// counter at `sent_now` and an `Unmatched` event is queued; an
    /// unknown reader changes nothing.
    pub open spec fn unmatched_into(&self, old: &Self, guid: Seq<char>, sent_now: u64, now: u64) -> bool {
        let i = guid_index(old.open_sessions(), guid);
        if i >= 0 {
            let s = closed_session(old.open_sessions()[i], sent_now, now);
            &&& self.open_sessions() == old.open_sessions().remove(i)
            &&& self.closed_sessions() == old.closed_sessions().push(s)
            &&& self.pending_events() == old.pending_events().push(MatchEvent::Unmatched(s))
        } else {
            &&& self.open_sessions() == old.open_sessions()
            &&& self.closed_sessions() == old.closed_sessions()
            &&& self.pending_events() == old.pending_events()
        }
    }

    pub fn on_unmatched_at(&mut self, reader_guid: &str, sent_now: u64, now: u64)
        requires
            old(self).wf(),
        ensures
            final(self).wf(),
            final(self).unmatched_into(old(self), reader_guid@, sent_now, now),
    {
        let guid = reader_guid.to_owned();
        match self.find_open(&guid) {
            Some(i) => {
                let ghost o = self.open@;
                let mut session = self.open.remove(i);
                session.last_unmatched_ns = Some(now);
                session.sent_at_unmatch = Some(sent_now);
                let copy = session.clone();
                self.closed.push(session);
                self.pending.push(MatchEvent::Unmatched(copy));
                proof {
                    assert forall|a: int, b: int|
                        0 <= a < self.open@.len() && 0 <= b < self.open@.len() && a != b implies self.open@[a].reader_guid@
                        != self.open@[b].reader_guid@ by {
                        let a2 = if a < i { a } else { a + 1 };
                        let b2 = if b < i { b } else { b + 1 };
                        assert(self.open@[a] == o[a2]);
                        assert(self.open@[b] == o[b2]);
                    }
                }
            },
            None => {},
        }
    }

    /// Reader `reader_guid` unmatched our writer; `sent_now` is the
    /// writer's current `sent` counter.
    pub fn on_unmatched(&mut self, reader_guid: &str, sent_now: u64)
        requires
            old(self).wf(),
        ensures
            final(self).wf(),
            exists|now: u64| final(self).unmatched_into(old(self), reader_guid@, sent_now, now),
    {
        let now = crate::clock::now_ns();
        self.on_unmatched_at(reader_guid, sent_now, now);
    }

    /// Hand out every event queued since the last drain.
    pub fn drain_events(&mut self) -> (r: Vec<MatchEvent>)
        requires
            old(self).wf(),
        ensures
            final(self).wf(),
            r@ == old(self).pending_events(),
            final(self).pending_events().len() == 0,
            final(self).open_sessions() == old(self).open_sessions(),
            final(self).closed_sessions() == old(self).closed_sessions(),
    {
        let mut taken: Vec<MatchEvent> = Vec::new();
        std::mem::swap(&mut taken, &mut self.pending);
        taken
    }

    pub fn snapshot(&self) -> (s: MatchTableSnapshot)
        ensures
            s.open@ == self.open_sessions(),
            s.closed@ == self.closed_sessions(),
    {
        MatchTableSnapshot { open: clone_sessions(&self.open), closed: clone_sessions(&self.closed) }
    }

    /// Set every open session's `sent_at_match` to 0, to go with a reset of
    /// the writer's `sent` counter.
    pub fn rebase_sent_counter(&mut self)
        requires
            old(self).wf(),
        ensures
            final(self).wf(),
            final(self).open_sessions().len() == old(self).open_sessions().len(),
            forall|i: int|
                0 <= i < old(self).open_sessions().len() ==> #[trigger] final(self).open_sessions()[i]
                    == (MatchSession { sent_at_match: 0, ..old(self).open_sessions()[i] }),
            final(self).closed_sessions() == old(self).closed_sessions(),
            final(self).pending_events() == old(self).pending_events(),
    {
        let n = self.open.len();
        let ghost o = self.open@;
        let mut i: usize = 0;
        while i < n
            invariant
                n == self.open@.len(),
                o.len() == n,
                i <= n,
                forall|k: int| 0 <= k < i ==> #[trigger] self.open@[k] == (MatchSession { sent_at_match: 0, ..o[k] }),
                forall|k: int| i <= k < n ==> #[trigger] self.open@[k] == o[k],
                self.closed@ == old(self).closed@,
                self.pending@ == old(self).pending@,
            decreases n - i,
        {
            let mut s = self.open.remove(i);
            s.sent_at_match = 0;
            self.open.insert(i, s);
            i = i + 1;
        }
        proof {
            assert forall|a: int, b: int|
                0 <= a < self.open@.len() && 0 <= b < self.open@.len() && a != b implies self.open@[a].reader_guid@
                != self.open@[b].reader_guid@ by {
                assert(self.open@[a].reader_guid == o[a].reader_guid);
                assert(self.open@[b].reader_guid == o[b].reader_guid);
            }
        }
    }
}

fn clone_sessions(v: &Vec<MatchSession>) -> (r: Vec<MatchSession>)
    ensures
        r@ == v@,
{
    let mut out: Vec<MatchSession> = Vec::new();
    let mut i: usize = 0;
    while i < v.len()
        invariant
            i <= v@.len(),
            out@ == v@.take(i as int),
        decreases v@.len() - i,
    {
        out.push(v[i].clone());
        proof {
            assert(v@.take(i + 1) =~= v@.take(i as int).push(v@[i as int]));
        }
        i = i + 1;
    }
    proof {
        assert(v@.take(v@.len() as int) =~= v@);
    }
    out
}

/// Apply one publication-matched status change: a positive change in the
/// number of matched readers opens a session for `reader_guid`, a negative
/// one closes it, zero does nothing. The session records the writer's
/// current `sent` counter.
pub fn handle_writer_status(
    matches: &mut MatchTable,
    metrics: &PubMetrics,
    reader_guid: String,
    count_change: i32,
)
    requires
        old(matches).wf(),
    ensures
        final(matches).wf(),
        count_change > 0 ==> exists|now: u64|
            final(matches).matched_into(old(matches), reader_guid, metrics.sent_count(), now),
        count_change < 0 ==> exists|now: u64|
            final(matches).unmatched_into(old(matches), reader_guid@, metrics.sent_count(), now),
        count_change == 0 ==> *final(matches) == *old(matches),
{
    let sent_now = metrics.sent();
    if count_change > 0 {
        matches.on_matched(reader_guid, sent_now);
    } else if count_change < 0 {
        matches.on_unmatched(reader_guid.as_str(), sent_now);
    }
}

/// Right after a rebase, an open session counts every sample the writer
/// has sent since the reset.
pub proof fn lemma_rebased_counts_all(s: MatchSession, current_sent: u64)
    requires
        s.sent_at_match == 0,
        s.sent_at_unmatch is None,
    ensures
        s.spec_samples_during(current_sent) == current_sent,
{
}

/// Unmatching undoes matching: a reader with no open session that matches
/// and then unmatches leaves the open sessions as they were and adds one
/// closed session, which counts the samples sent between the two events.
pub proof fn lemma_match_then_unmatch(
    t0: MatchTable,
    t1: MatchTable,
    t2: MatchTable,
    guid: String,
    sent1: u64,
    now1: u64,
    sent2: u64,
    now2: u64,
)
    requires
        t0.wf(),
        t1.wf(),
        guid_index(t0.open_sessions(), guid@) == -1,
        t1.matched_into(&t0, guid, sent1, now1),
        t2.unmatched_into(&t1, guid@, sent2, now2),
    ensures
        t2.open_sessions() == t0.open_sessions(),
        t2.closed_sessions() == t0.closed_sessions().push(
            closed_session(opened_session(guid, sent1, now1), sent2, now2),
        ),
        t2.closed_sessions().last().spec_samples_during(sent2) == sat_sub(sent2, sent1),
{
    let o = t0.open_sessions();
    let n = o.len() as int;
    assert(t1.open_sessions()[n].reader_guid@ == guid@);
    lemma_guid_found(t1.open_sessions(), guid@, n);
    assert(t1.open_sessions().remove(n) =~= o);
}

/// Open sessions belong to distinct readers.
pub proof fn lemma_open_readers_distinct(t: MatchTable)
    requires
        t.wf(),
    ensures
        distinct_readers(t.open_sessions()),
{
}

/// After an unmatch, the reader has no open session.
pub proof fn lemma_unmatched_not_open(
    t0: MatchTable,
    t1: MatchTable,
    guid: Seq<char>,
    sent_now: u64,
    now: u64,
)
    requires
        t0.wf(),
        t1.unmatched_into(&t0, guid, sent_now, now),
    ensures
        guid_index(t1.open_sessions(), guid) == -1,
{
    let o = t0.open_sessions();
    let i = guid_index(o, guid);
    if i >= 0 {
        assert(exists|k: int| 0 <= k < o.len() && o[k].reader_guid@ == guid);
        let r = o.remove(i);
        assert forall|m: int| 0 <= m < r.len() implies r[m].reader_guid@ != guid by {
            let m2 = if m < i { m } else { m + 1 };
            assert(r[m] == o[m2]);
        }
    }
}

} // verus!
