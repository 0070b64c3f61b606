//! Publisher-side counters: samples sent, write errors, and how long the
//! local `write()` hand-off took.

use vstd::prelude::*;
use vstd::wrapping::u64_specs::wrapping_add;

use crate::clock::now_ns;
use crate::history::seq_max;
use crate::latency::{lemma_seq_sum_nonneg, seq_sum};

verus! {

/// Counters of a `PubMetrics` at one instant (the time-derived rate is
/// computed by whoever holds the run's clock).
pub struct PubMetricsSnapshot {
    pub started_ns: u64,
    pub now_ns: u64,
    pub sent: u64,
    pub errors: u64,
    pub last_send_ns: u64,
    /// Mean write time since the last reset, 0 before the first write.
    pub write_ns_avg: u64,
    /// Total nanoseconds spent in `write()` since the last reset (mod 2^64).
    pub write_ns_total: u64,
    pub write_ns_max: u64,
}

/// Publisher counters. The counts and the write-time total wrap around at
/// 2^64.
pub struct PubMetrics {
    started_ns: u64,
    sent: u64,
    errors: u64,
    last_send_ns: u64,
    write_ns_total: u64,
    write_ns_max: u64,
    window_max: u64,
}

impl PubMetrics {
    pub closed spec fn started_ns(&self) -> u64 {
        self.started_ns
    }

    pub closed spec fn sent_count(&self) -> u64 {
        self.sent
    }

    pub closed spec fn errors(&self) -> u64 {
        self.errors
    }

    /// Clock reading at the last successful write (0 before any).
    pub closed spec fn last_send_ns(&self) -> u64 {
        self.last_send_ns
    }

    pub closed spec fn write_ns_total(&self) -> u64 {
        self.write_ns_total
    }

    /// Largest write time since the last reset.
    pub closed spec fn write_ns_max(&self) -> u64 {
        self.write_ns_max
    }

    /// Largest write time since the last reset or `take_write_ns_max`.
    pub closed spec fn window_write_max(&self) -> u64 {
        self.window_max
    }

    pub open spec fn is_zeroed(&self) -> bool {
        &&& self.sent_count() == 0
        &&& self.errors() == 0
        &&& self.last_send_ns() == 0
        &&& self.write_ns_total() == 0
        &&& self.write_ns_max() == 0
        &&& self.window_write_max() == 0
    }

    pub fn new() -> (r: Self)
        ensures
            r.is_zeroed(),
    {
        PubMetrics {
            started_ns: now_ns(),
            sent: 0,
            errors: 0,
            last_send_ns: 0,
            write_ns_total: 0,
            write_ns_max: 0,
            window_max: 0,
        }
    }

    /// Zero every counter and re-stamp the start time (used at the warmup
    /// boundary).
    pub fn reset(&mut self)
        ensures
            final(self).is_zeroed(),
    {
        self.sent = 0;
        self.errors = 0;
        self.last_send_ns = 0;
        self.write_ns_total = 0;
        self.write_ns_max = 0;
        self.window_max = 0;
        self.started_ns = now_ns();
    }

    /// Return the largest write time of the current window and start a new
    /// window; the maximum since the last reset is kept.
    pub fn take_write_ns_max(&mut self) -> (r: u64)
        ensures
            r == old(self).window_write_max(),
            final(self).window_write_max() == 0,
            final(self).write_ns_max() == old(self).write_ns_max(),
            final(self).sent_count() == old(self).sent_count(),
            final(self).errors() == old(self).errors(),
            final(self).last_send_ns() == old(self).last_send_ns(),
            final(self).write_ns_total() == old(self).write_ns_total(),
            final(self).started_ns() == old(self).started_ns(),
    {
        let m = self.window_max;
        self.window_max = 0;
        m
    }

    /// `self` is `old` after a successful write that took `write_ns` and
    /// ended at clock reading `now`.
    pub open spec fn write_recorded(&self, old: &Self, write_ns: u64, now: u64) -> bool {
        &&& self.sent_count() == wrapping_add(old.sent_count(), 1)
        &&& self.last_send_ns() == now
        &&& self.write_ns_total() == wrapping_add(old.write_ns_total(), write_ns)
        &&& self.write_ns_max() == (if write_ns > old.write_ns_max() {
            write_ns
        } else {
            old.write_ns_max()
        })
        &&& self.window_write_max() == (if write_ns > old.window_write_max() {
            write_ns
        } else {
            old.window_write_max()
        })
        &&& self.errors() == old.errors()
        &&& self.started_ns() == old.started_ns()
    }

    /// Record a successful write that took `write_ns`, at clock reading `now`.
    pub fn record_write_at(&mut self, write_ns: u64, now: u64)
        ensures
            final(self).write_recorded(old(self), write_ns, now),
    {
        self.sent = self.sent.wrapping_add(1);
        self.last_send_ns = now;
        self.write_ns_total = self.write_ns_total.wrapping_add(write_ns);
        if write_ns > self.write_ns_max {
            self.write_ns_max = write_ns;
        }
        if write_ns > self.window_max {
            self.window_max = write_ns;
        }
    }

    /// Record a successful write that took `write_ns`.
    pub fn record_write(&mut self, write_ns: u64)
        ensures
            exists|now: u64| final(self).write_recorded(old(self), write_ns, now),
    {
        let now = now_ns();
        self.record_write_at(write_ns, now);
    }

    pub fn record_error(&mut self)
        ensures
            final(self).errors() == wrapping_add(old(self).errors(), 1),
            final(self).sent_count() == old(self).sent_count(),
            final(self).last_send_ns() == old(self).last_send_ns(),
            final(self).write_ns_total() == old(self).write_ns_total(),
            final(self).write_ns_max() == old(self).write_ns_max(),
            final(self).window_write_max() == old(self).window_write_max(),
            final(self).started_ns() == old(self).started_ns(),
    {
        self.errors = self.errors.wrapping_add(1);
    }

    /// Current sample count.
    pub fn sent(&self) -> (r: u64)
        ensures
            r == self.sent_count(),
    {
        self.sent
    }

    /// The snapshot taken at clock reading `now`.
    pub open spec fn snapshot_spec(&self, now: u64) -> PubMetricsSnapshot {
        PubMetricsSnapshot {
            started_ns: self.started_ns(),
            now_ns: now,
            sent: self.sent_count(),
            errors: self.errors(),
            last_send_ns: self.last_send_ns(),
            write_ns_avg: if self.sent_count() > 0 {
                (self.write_ns_total() / self.sent_count()) as u64
            } else {
                0
            },
            write_ns_total: self.write_ns_total(),
            write_ns_max: self.write_ns_max(),
        }
    }

    pub fn snapshot_at(&self, now: u64) -> (s: PubMetricsSnapshot)
        ensures
            s == self.snapshot_spec(now),
    {
        let sent = self.sent;
        PubMetricsSnapshot {
            started_ns: self.started_ns,
            now_ns: now,
            sent,
            errors: self.errors,
            last_send_ns: self.last_send_ns,
            write_ns_avg: if sent > 0 { self.write_ns_total / sent } else { 0 },
            write_ns_total: self.write_ns_total,
            write_ns_max: self.write_ns_max,
        }
    }

    /// Snapshot of the counters, stamped with the current clock reading.
    pub fn snapshot(&self) -> (s: PubMetricsSnapshot)
        ensures
            s == self.snapshot_spec(s.now_ns),
    {
        let now = now_ns();
        self.snapshot_at(now)
    }
}

/// Windowed maximum: when `ms[0]` has just opened a window (after `new`,
/// `reset` or `take_write_ns_max`) and each `ms[j + 1]` is `ms[j]` after a
/// successful write of `ws[j]`, the window's maximum is the largest of
/// `ws` (0 when there is none), so the next `take_write_ns_max` returns
/// it; the maximum since the last reset is at least as large.
pub proof fn lemma_window_max(ms: Seq<PubMetrics>, ws: Seq<u64>, nows: Seq<u64>)
    requires
        ms.len() == ws.len() + 1,
        nows.len() == ws.len(),
        ms[0].window_write_max() == 0,
        ms[0].write_ns_max() >= ms[0].window_write_max(),
        forall|j: int|
            #![trigger ws[j]]
            0 <= j < ws.len() ==> ms[j + 1].write_recorded(&ms[j], ws[j], nows[j]),
    ensures
        ms.last().window_write_max() == seq_max(ws),
        ms.last().write_ns_max() >= ms.last().window_write_max(),
    decreases ws.len(),
{
    if ws.len() > 0 {
        let n = ws.len() - 1;
        let ms0 = ms.drop_last();
        let ws0 = ws.drop_last();
        let ns0 = nows.drop_last();
        assert forall|j: int|
            #![trigger ws0[j]]
            0 <= j < ws0.len() implies ms0[j + 1].write_recorded(&ms0[j], ws0[j], ns0[j]) by {
            assert(ws[j] == ws0[j]);
        }
        lemma_window_max(ms0, ws0, ns0);
        assert(ws[n] == ws.last());
        assert(ms[n + 1].write_recorded(&ms[n], ws[n], nows[n]));
        assert(ms0.last() == ms[n]);
    }
}

/// From zeroed counters, a run of successful writes `ws` (each `ms[j + 1]`
/// is `ms[j]` after writing `ws[j]`) leaves `sent` equal to the number of
/// writes, the write-time total equal to their sum and the maximum equal
/// to the largest of them, while that sum fits in a `u64`; so the
/// snapshot's average write time is the sum divided by the number of
/// writes, rounded down (0 before the first write).
pub proof fn law_write_average(ms: Seq<PubMetrics>, ws: Seq<u64>, nows: Seq<u64>)
    requires
        ms.len() == ws.len() + 1,
        nows.len() == ws.len(),
        ms[0].is_zeroed(),
        ws.len() <= u64::MAX,
        seq_sum(ws) <= u64::MAX,
        forall|j: int|
            #![trigger ws[j]]
            0 <= j < ws.len() ==> ms[j + 1].write_recorded(&ms[j], ws[j], nows[j]),
    ensures
        ms.last().sent_count() == ws.len(),
        ms.last().write_ns_total() == seq_sum(ws),
        ms.last().write_ns_max() == seq_max(ws),
        ms.last().errors() == 0,
        forall|now: u64|
            #[trigger] ms.last().snapshot_spec(now).write_ns_avg == (if ws.len() > 0 {
                seq_sum(ws) / (ws.len() as int)
            } else {
                0
            }),
    decreases ws.len(),
{
    if ws.len() > 0 {
        let n = ws.len() - 1;
        let ms0 = ms.drop_last();
        let ws0 = ws.drop_last();
        let ns0 = nows.drop_last();
        assert forall|j: int|
            #![trigger ws0[j]]
            0 <= j < ws0.len() implies ms0[j + 1].write_recorded(&ms0[j], ws0[j], ns0[j]) by {
            assert(ws[j] == ws0[j]);
        }
        lemma_seq_sum_nonneg(ws0);
        assert(seq_sum(ws) == seq_sum(ws0) + ws.last());
        law_write_average(ms0, ws0, ns0);
        assert(ws[n] == ws.last());
        assert(ms[n + 1].write_recorded(&ms[n], ws[n], nows[n]));
        assert(ms0.last() == ms[n]);
    }
}

} // verus!
