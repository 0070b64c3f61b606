//! One-second rolling histograms used to draw ASCII sparklines of the
//! subscriber's receive / loss / latency history.

use std::collections::VecDeque;
use vstd::prelude::*;

verus! {

/// Number of one-second buckets a row keeps.
pub const HISTORY_CAP: usize = 60;

/// Width of one bucket, in seconds.
pub const BUCKET_SECS: u64 = 1;

/// The last `n` elements of `s` (all of `s` when it is shorter).
pub open spec fn keep_last(s: Seq<u64>, n: nat) -> Seq<u64> {
    if s.len() > n {
        s.skip(s.len() - n)
    } else {
        s
    }
}

/// `k` empty buckets.
pub open spec fn zeros(k: nat) -> Seq<u64> {
    Seq::new(k, |i: int| 0u64)
}

/// Window and start second of a row after it is advanced to `now`:
/// an empty row, or one that has been quiet for more than `HISTORY_CAP`
/// seconds, restarts with a single empty bucket at `now`; a clock that
/// did not move forward leaves the row alone; otherwise one empty bucket
/// opens per elapsed second and only the last `HISTORY_CAP` are kept.
pub open spec fn advanced(b: Seq<u64>, start: u64, now: u64) -> (Seq<u64>, u64) {
    if b.len() == 0 || now > start + HISTORY_CAP {
        (seq![0u64], now)
    } else if now <= start {
        (b, start)
    } else {
        (keep_last(b + zeros((now - start) as nat), HISTORY_CAP as nat), now)
    }
}

/// `s` with `count` added to its last bucket (unchanged when empty).
pub open spec fn add_to_last(s: Seq<u64>, count: u64) -> Seq<u64> {
    if s.len() == 0 {
        s
    } else {
        s.update(s.len() - 1, (s.last() + count) as u64)
    }
}

/// `s` with its last bucket raised to at least `value` (unchanged when empty).
pub open spec fn max_into_last(s: Seq<u64>, value: u64) -> Seq<u64> {
    if s.len() == 0 {
        s
    } else if s.last() >= value {
        s
    } else {
        s.update(s.len() - 1, value)
    }
}

/// Largest element of `s`, 0 for an empty sequence.
pub open spec fn seq_max(s: Seq<u64>) -> u64
    decreases s.len(),
{
    if s.len() == 0 {
        0
    } else {
        let m = seq_max(s.drop_last());
        if s.last() > m {
            s.last()
        } else {
            m
        }
    }
}

/// Height (0..=8) of a bucket holding `v` in a row whose largest bucket is
/// `max`: `8 * v / max` rounded to the nearest integer, halves up.
pub open spec fn spark_level(v: u64, max: u64) -> int {
    if max == 0 {
        0
    } else {
        (16 * v + max) / (2 * max)
    }
}

/// The glyph drawn for a level: a blank, then the eight block elements.
pub open spec fn spark_char(level: int) -> char {
    if level <= 0 {
        ' '
    } else if level == 1 {
        '\u{2581}'
    } else if level == 2 {
        '\u{2582}'
    } else if level == 3 {
        '\u{2583}'
    } else if level == 4 {
        '\u{2584}'
    } else if level == 5 {
        '\u{2585}'
    } else if level == 6 {
        '\u{2586}'
    } else if level == 7 {
        '\u{2587}'
    } else {
        '\u{2588}'
    }
}

/// The sparkline of a row: one glyph per bucket, scaled to the row's max.
pub open spec fn sparkline_of(s: Seq<u64>) -> Seq<char> {
    Seq::new(s.len(), |i: int| spark_char(spark_level(s[i], seq_max(s))))
}

pub proof fn lemma_seq_max_bound(s: Seq<u64>, i: int)
    requires
        0 <= i < s.len(),
    ensures
        s[i] <= seq_max(s),
    decreases s.len(),
{
    if i < s.len() - 1 {
        lemma_seq_max_bound(s.drop_last(), i);
    }
}

proof fn lemma_keep_last_push(x: Seq<u64>, v: u64, n: nat)
    requires
        n > 0,
    ensures
        keep_last(keep_last(x, n).push(v), n) == keep_last(x.push(v), n),
{
    let y = keep_last(x, n);
    if x.len() > n {
        assert(keep_last(y.push(v), n) =~= keep_last(x.push(v), n));
    } else {
        assert(y =~= x);
    }
}

/// A one-second-resolution rolling histogram holding at most
/// `HISTORY_CAP` buckets; the last bucket covers `start_s()`.
pub struct TimeBuckets {
    buckets: VecDeque<u64>,
    current_start_s: u64,
}

impl TimeBuckets {
    /// The buckets, oldest first.
    pub closed spec fn window(&self) -> Seq<u64> {
        self.buckets@
    }

    /// Start second of the most recent bucket.
    pub closed spec fn start_s(&self) -> u64 {
        self.current_start_s
    }

    pub closed spec fn wf(&self) -> bool {
        self.buckets@.len() <= HISTORY_CAP
    }

    /// A row never holds more than `HISTORY_CAP` buckets.
    pub proof fn lemma_window_bounded(&self)
        requires
            self.wf(),
        ensures
            self.window().len() <= HISTORY_CAP,
    {
    }

    pub fn new() -> (r: Self)
        ensures
            r.wf(),
            r.window() == Seq::<u64>::empty(),
            r.start_s() == 0,
    {
        TimeBuckets { buckets: VecDeque::new(), current_start_s: 0 }
    }

    /// Advance the window so that its last bucket covers `now`.
    pub fn advance_to(&mut self, now: u64)
        requires
            old(self).wf(),
        ensures
            final(self).wf(),
            (final(self).window(), final(self).start_s()) == advanced(
                old(self).window(),
                old(self).start_s(),
                now,
            ),
    {
        broadcast use vstd::std_specs::vecdeque::group_vec_dequeue_axioms;

        if self.buckets.len() == 0 {
            self.current_start_s = now;
            self.buckets.push_back(0);
            assert(self.buckets@ =~= seq![0u64]);
            return;
        }
        let gap = now.saturating_sub(self.current_start_s);
        if gap > HISTORY_CAP as u64 {
            self.buckets.clear();
            self.current_start_s = now;
            self.buckets.push_back(0);
            assert(self.buckets@ =~= seq![0u64]);
            return;
        }
        let ghost b0 = self.buckets@;
        let ghost s0 = self.current_start_s;
        proof {
            assert(b0 + zeros(0) =~= b0);
        }
        // One empty bucket per elapsed second (BUCKET_SECS is one second).
        while now > self.current_start_s
            invariant
                b0.len() > 0,
                b0.len() <= HISTORY_CAP,
                s0 <= self.current_start_s,
                now > s0 ==> self.current_start_s <= now,
                now <= s0 ==> self.current_start_s == s0,
                self.buckets@ == keep_last(
                    b0 + zeros((self.current_start_s - s0) as nat),
                    HISTORY_CAP as nat,
                ),
                self.buckets@.len() <= HISTORY_CAP,
            decreases now - self.current_start_s,
        {
            let ghost k = (self.current_start_s - s0) as nat;
            self.current_start_s = self.current_start_s + BUCKET_SECS;
            self.buckets.push_back(0);
            if self.buckets.len() > HISTORY_CAP {
                self.buckets.pop_front();
            }
            proof {
                let x = b0 + zeros(k);
                assert(b0 + zeros(k + 1) =~= x.push(0u64));
                lemma_keep_last_push(x, 0u64, HISTORY_CAP as nat);
                let y = keep_last(x, HISTORY_CAP as nat);
                if y.push(0u64).len() > HISTORY_CAP {
                    assert(self.buckets@ =~= keep_last(y.push(0u64), HISTORY_CAP as nat));
                } else {
                    assert(self.buckets@ =~= keep_last(y.push(0u64), HISTORY_CAP as nat));
                }
            }
        }
        proof {
            if now <= s0 {
                assert(self.buckets@ =~= b0);
            }
        }
    }

    /// Add `count` to the most recent bucket (no-op while the row is empty).
    pub fn add_count(&mut self, count: u64)
        requires
            old(self).wf(),
            old(self).window().len() > 0 ==> old(self).window().last() + count <= u64::MAX,
        ensures
            final(self).wf(),
            final(self).start_s() == old(self).start_s(),
            final(self).window() == add_to_last(old(self).window(), count),
    {
        match self.buckets.pop_back() {
            Some(last) => {
                self.buckets.push_back(last + count);
                assert(self.buckets@ =~= add_to_last(old(self).window(), count));
            },
            None => {},
        }
    }

    /// Raise the most recent bucket to at least `value` (no-op while empty).
    pub fn add_max(&mut self, value: u64)
        requires
            old(self).wf(),
        ensures
            final(self).wf(),
            final(self).start_s() == old(self).start_s(),
            final(self).window() == max_into_last(old(self).window(), value),
    {
        match self.buckets.pop_back() {
            Some(last) => {
                let m = if last >= value { last } else { value };
                self.buckets.push_back(m);
                assert(self.buckets@ =~= max_into_last(old(self).window(), value));
            },
            None => {},
        }
    }

    pub fn reset(&mut self)
        ensures
            final(self).wf(),
            final(self).window() == Seq::<u64>::empty(),
            final(self).start_s() == 0,
    {
        self.buckets.clear();
        self.current_start_s = 0;
    }

    /// Whether the most recent bucket can take `add` more (see `row_room`).
    pub fn has_room(&self, add: u64) -> (r: bool)
        ensures
            r == row_room(self.window(), add),
    {
        broadcast use vstd::std_specs::vecdeque::group_vec_dequeue_axioms;

        let n = self.buckets.len();
        if n == 0 {
            true
        } else {
            let last = self.buckets[n - 1];
            last <= u64::MAX - add
        }
    }

    /// Largest bucket of the row (0 when empty).
    pub fn max_bucket(&self) -> (m: u64)
        ensures
            m == seq_max(self.window()),
    {
        broadcast use vstd::std_specs::vecdeque::group_vec_dequeue_axioms;

        let n = self.buckets.len();
        let mut m: u64 = 0;
        let mut i: usize = 0;
        while i < n
            invariant
                n == self.buckets@.len(),
                i <= n,
                m == seq_max(self.buckets@.take(i as int)),
            decreases n - i,
        {
            let v = self.buckets[i];
            proof {
                assert(self.buckets@.take(i + 1).drop_last() =~= self.buckets@.take(i as int));
            }
            if v > m {
                m = v;
            }
            i = i + 1;
        }
        proof {
            assert(self.buckets@.take(n as int) =~= self.buckets@);
        }
        m
    }

    /// Render the row as one glyph per bucket, scaled to its largest bucket.
    pub fn sparkline(&self) -> (r: String)
        ensures
            r@ == sparkline_of(self.window()),
    {
        broadcast use vstd::std_specs::vecdeque::group_vec_dequeue_axioms;

        let max = self.max_bucket();
        let n = self.buckets.len();
        let mut out = String::new();
        let mut i: usize = 0;
        while i < n
            invariant
                n == self.buckets@.len(),
                i <= n,
                max == seq_max(self.buckets@),
                out@ =~= sparkline_of(self.buckets@).take(i as int),
            decreases n - i,
        {
            let v = self.buckets[i];
            proof {
                lemma_seq_max_bound(self.buckets@, i as int);
            }
            let level = spark_level_exec(v, max);
            out.append(spark_str(level));
            i = i + 1;
        }
        proof {
            assert(sparkline_of(self.buckets@).take(n as int) =~= sparkline_of(self.buckets@));
        }
        out
    }
}

/// `spark_level(v, max)` for a bucket no larger than the row's max.
pub fn spark_level_exec(v: u64, max: u64) -> (r: u8)
    requires
        v <= max,
    ensures
        r as int == spark_level(v, max),
        r <= 8,
{
    if max == 0 {
        0
    } else {
        let num: u128 = 16 * (v as u128) + (max as u128);
        let den: u128 = 2 * (max as u128);
        proof {
            assert(num <= 16 * (max as int) + (max as int));
            assert(num < 9 * den) by (nonlinear_arith)
                requires
                    num <= 17 * (max as int),
                    den == 2 * (max as int),
                    max > 0,
            ;
            assert(num / den < 9) by (nonlinear_arith)
                requires
                    num < 9 * den,
                    den > 0,
            ;
        }
        (num / den) as u8
    }
}

/// The one-glyph string drawn for `level`.
pub fn spark_str(level: u8) -> (r: &'static str)
    ensures
        r@ == seq![spark_char(level as int)],
{
    if level == 0 {
        proof { reveal_strlit(" "); }
        " "
    } else if level == 1 {
        proof { reveal_strlit("\u{2581}"); }
        "\u{2581}"
    } else if level == 2 {
        proof { reveal_strlit("\u{2582}"); }
        "\u{2582}"
    } else if level == 3 {
        proof { reveal_strlit("\u{2583}"); }
        "\u{2583}"
    } else if level == 4 {
        proof { reveal_strlit("\u{2584}"); }
        "\u{2584}"
    } else if level == 5 {
        proof { reveal_strlit("\u{2585}"); }
        "\u{2585}"
    } else if level == 6 {
        proof { reveal_strlit("\u{2586}"); }
        "\u{2586}"
    } else if level == 7 {
        proof { reveal_strlit("\u{2587}"); }
        "\u{2587}"
    } else {
        proof { reveal_strlit("\u{2588}"); }
        "\u{2588}"
    }
}

/// Window and start of a row after advancing to `now` and adding `add`
/// to its most recent bucket (nothing is added when `add` is 0).
pub open spec fn row_after(w: Seq<u64>, start: u64, now: u64, add: u64) -> (Seq<u64>, u64) {
    let (aw, s) = advanced(w, start, now);
    (if add > 0 { add_to_last(aw, add) } else { aw }, s)
}

/// The most recent bucket of a row can take `add` more without overflow,
/// whatever second the row is advanced to first.
pub open spec fn row_room(w: Seq<u64>, add: u64) -> bool {
    w.len() > 0 ==> w.last() + add <= u64::MAX
}

pub proof fn lemma_advanced_room(w: Seq<u64>, start: u64, now: u64, add: u64)
    requires
        row_room(w, add),
        w.len() <= HISTORY_CAP,
    ensures
        advanced(w, start, now).0.len() > 0,
        advanced(w, start, now).0.len() <= HISTORY_CAP,
        advanced(w, start, now).0.last() + add <= u64::MAX,
{
    if w.len() == 0 || now > start + HISTORY_CAP {
    } else if now <= start {
    } else {
        let x = w + zeros((now - start) as nat);
        let y = keep_last(x, HISTORY_CAP as nat);
        assert(x.last() == 0);
        assert(y.last() == x.last());
    }
}

/// After advancing to `now`, a row has at least one and at most
/// `HISTORY_CAP` buckets, and its most recent bucket covers `now` unless
/// the clock went back (then the row is left as it was).
pub proof fn lemma_advanced_covers(w: Seq<u64>, start: u64, now: u64)
    requires
        w.len() <= HISTORY_CAP,
    ensures
        1 <= advanced(w, start, now).0.len() <= HISTORY_CAP,
        (w.len() == 0 || now >= start) ==> advanced(w, start, now).1 == now,
        (w.len() > 0 && now < start) ==> advanced(w, start, now) == (w, start),
{
    lemma_advanced_room(w, start, now, 0);
}

/// The three sparkline rows of the subscriber, always advanced together
/// so that they stay aligned on the same seconds.
pub struct SubHistory {
    pub recv: TimeBuckets,
    pub lost: TimeBuckets,
    /// Largest latency per bucket, in microseconds.
    pub lat_us: TimeBuckets,
}

/// `r` holds window `v.0` starting at second `v.1`.
pub open spec fn row_is(r: TimeBuckets, v: (Seq<u64>, u64)) -> bool {
    r.window() == v.0 && r.start_s() == v.1
}

/// Rows advanced together keep the same length and start second.
pub proof fn lemma_advanced_aligned(b1: Seq<u64>, b2: Seq<u64>, start: u64, now: u64)
    requires
        b1.len() == b2.len(),
    ensures
        advanced(b1, start, now).0.len() == advanced(b2, start, now).0.len(),
        advanced(b1, start, now).1 == advanced(b2, start, now).1,
{
}

impl SubHistory {
    /// Each row is well formed, and the three rows cover the same seconds:
    /// same length, same start.
    pub open spec fn wf(&self) -> bool {
        &&& self.recv.wf() && self.lost.wf() && self.lat_us.wf()
        &&& self.recv.window().len() == self.lost.window().len()
        &&& self.recv.window().len() == self.lat_us.window().len()
        &&& self.recv.start_s() == self.lost.start_s()
        &&& self.recv.start_s() == self.lat_us.start_s()
    }

    pub open spec fn is_empty(&self) -> bool {
        &&& self.recv.window().len() == 0
        &&& self.lost.window().len() == 0
        &&& self.lat_us.window().len() == 0
        &&& self.recv.start_s() == 0
        &&& self.lost.start_s() == 0
        &&& self.lat_us.start_s() == 0
    }

    pub fn new() -> (r: Self)
        ensures
            r.wf(),
            r.is_empty(),
    {
        SubHistory { recv: TimeBuckets::new(), lost: TimeBuckets::new(), lat_us: TimeBuckets::new() }
    }

    /// Advance all three rows to the same `now`.
    pub fn advance_to(&mut self, now: u64)
        requires
            old(self).wf(),
        ensures
            final(self).wf(),
            row_is(final(self).recv, advanced(old(self).recv.window(), old(self).recv.start_s(), now)),
            row_is(final(self).lost, advanced(old(self).lost.window(), old(self).lost.start_s(), now)),
            row_is(final(self).lat_us, advanced(old(self).lat_us.window(), old(self).lat_us.start_s(), now)),
    {
        proof {
            lemma_advanced_aligned(self.recv.window(), self.lost.window(), self.recv.start_s(), now);
            lemma_advanced_aligned(self.recv.window(), self.lat_us.window(), self.recv.start_s(), now);
        }
        self.recv.advance_to(now);
        self.lost.advance_to(now);
        self.lat_us.advance_to(now);
    }

    /// Advance all rows to `now`, then add `recv` received and `lost`
    /// lost samples to the current second.
    pub fn bump(&mut self, recv: u64, lost: u64, now: u64)
        requires
            old(self).wf(),
            row_room(old(self).recv.window(), recv),
            row_room(old(self).lost.window(), lost),
        ensures
            final(self).wf(),
            row_is(final(self).recv, row_after(old(self).recv.window(), old(self).recv.start_s(), now, recv)),
            row_is(final(self).lost, row_after(old(self).lost.window(), old(self).lost.start_s(), now, lost)),
            row_is(final(self).lat_us, row_after(old(self).lat_us.window(), old(self).lat_us.start_s(), now, 0)),
    {
        proof {
            lemma_advanced_room(self.recv.window(), self.recv.start_s(), now, recv);
            lemma_advanced_room(self.lost.window(), self.lost.start_s(), now, lost);
        }
        self.advance_to(now);
        if recv > 0 {
            self.recv.add_count(recv);
        }
        if lost > 0 {
            self.lost.add_count(lost);
        }
    }

    /// Advance all rows to `now`, then raise the current latency bucket to
    /// at least `lat_us`.
    pub fn note_latency(&mut self, lat_us: u64, now: u64)
        requires
            old(self).wf(),
        ensures
            final(self).wf(),
            row_is(final(self).recv, advanced(old(self).recv.window(), old(self).recv.start_s(), now)),
            row_is(final(self).lost, advanced(old(self).lost.window(), old(self).lost.start_s(), now)),
            ({
                let (w, s) = advanced(old(self).lat_us.window(), old(self).lat_us.start_s(), now);
                row_is(final(self).lat_us, (max_into_last(w, lat_us), s))
            }),
    {
        self.advance_to(now);
        self.lat_us.add_max(lat_us);
    }

    pub fn reset(&mut self)
        ensures
            final(self).wf(),
            final(self).is_empty(),
    {
        self.recv.reset();
        self.lost.reset();
        self.lat_us.reset();
    }
}

/// A sparkline has one glyph per bucket; an empty bucket is blank, the
/// tallest non-empty bucket is a full block, and the drawn height (0 to 8)
/// never decreases as the bucket's count grows.
pub proof fn law_sparkline_shape(s: Seq<u64>)
    ensures
        sparkline_of(s).len() == s.len(),
        forall|i: int| 0 <= i < s.len() && s[i] == 0 ==> #[trigger] sparkline_of(s)[i] == ' ',
        forall|i: int|
            0 <= i < s.len() && s[i] == seq_max(s) && s[i] > 0 ==> #[trigger] sparkline_of(s)[i]
                == '\u{2588}',
        forall|i: int|
            0 <= i < s.len() ==> 0 <= #[trigger] spark_level(s[i], seq_max(s)) <= 8,
        forall|i: int, j: int|
            0 <= i < s.len() && 0 <= j < s.len() && s[i] <= s[j] ==> #[trigger] spark_level(
                s[i],
                seq_max(s),
            ) <= #[trigger] spark_level(s[j], seq_max(s)),
{
    let m = seq_max(s);
    assert forall|i: int| 0 <= i < s.len() implies 0 <= #[trigger] spark_level(s[i], m) <= 8 by {
        lemma_seq_max_bound(s, i);
        let v = s[i];
        if m > 0 {
            assert(0 <= (16 * v + m) / (2 * m) <= 8) by (nonlinear_arith)
                requires
                    v <= m,
                    m > 0,
            ;
        }
    }
    assert forall|i: int| 0 <= i < s.len() && s[i] == 0 implies #[trigger] sparkline_of(s)[i] == ' ' by {
        if m > 0 {
            assert((16 * 0 + m) / (2 * m) == 0) by (nonlinear_arith)
                requires
                    m > 0,
            ;
        }
    }
    assert forall|i: int|
        0 <= i < s.len() && s[i] == m && s[i] > 0 implies #[trigger] sparkline_of(s)[i] == '\u{2588}' by {
        assert((16 * m + m) / (2 * m) == 8) by (nonlinear_arith)
            requires
                m > 0,
        ;
    }
    assert forall|i: int, j: int|
        0 <= i < s.len() && 0 <= j < s.len() && s[i] <= s[j] implies #[trigger] spark_level(s[i], m)
        <= #[trigger] spark_level(s[j], m) by {
        let a = s[i];
        let b = s[j];
        if m > 0 {
            assert((16 * a + m) / (2 * m) <= (16 * b + m) / (2 * m)) by (nonlinear_arith)
                requires
                    a <= b,
                    m > 0,
            ;
        }
    }
}

} // verus!
