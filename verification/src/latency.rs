//! Log-2 bucket histogram of end-to-end latencies.

use vstd::arithmetic::power2::{pow2, lemma_pow2_strictly_increases, lemma2_to64, lemma_pow2_pos};
use vstd::bits::{lemma_u64_shl_is_mul, lemma_u64_shr_is_div};
use vstd::prelude::*;
use vstd::std_specs::bits::u64_leading_zeros;

verus! {

/// Number of power-of-two buckets; bucket `i` covers `[2^i, 2^(i+1))`
/// nanoseconds, the last one also everything above.
pub const LAT_BUCKETS: usize = 40;

/// Sum of the elements of `s`.
pub open spec fn seq_sum(s: Seq<u64>) -> int
    decreases s.len(),
{
    if s.len() == 0 {
        0
    } else {
        seq_sum(s.drop_last()) + s.last()
    }
}

/// `floor(log2(n))`, with 0 for `n <= 1`.
pub open spec fn floor_log2(n: nat) -> nat
    decreases n,
{
    if n <= 1 {
        0
    } else {
        1 + floor_log2(n / 2)
    }
}

/// The bucket a sample of `ns` nanoseconds is counted in.
pub open spec fn lat_bucket(ns: u64) -> int {
    let l = floor_log2(ns as nat);
    if l >= LAT_BUCKETS - 1 {
        LAT_BUCKETS - 1
    } else {
        l as int
    }
}

/// `p` is the integer square root of `n`: `p^2 <= n < (p + 1)^2`.
pub open spec fn is_isqrt(p: int, n: int) -> bool {
    &&& p >= 0
    &&& p * p <= n
    &&& n < (p + 1) * (p + 1)
}

/// The value reported for bucket `i`: the geometric mean of its edges
/// `2^i` and `2^(i+1)`, rounded down, i.e. the integer square root of
/// `2 * 4^i` (`floor(2^i * sqrt(2))`).
pub open spec fn bucket_mid(i: int) -> int {
    choose|p: int| #[trigger] is_isqrt(p, (2 * pow2(i as nat) * pow2(i as nat)) as int)
}

/// `ceil(count * pct / 100)`: the rank of the `pct`-th percentile sample.
pub open spec fn ceil_pct(count: u64, pct: u64) -> int {
    (count * pct + 99) / 100
}

/// Bucket `i` is the first one at which the running count reaches `t`.
pub open spec fn reaches(b: Seq<u64>, t: int, i: int) -> bool {
    &&& 0 <= i < b.len()
    &&& seq_sum(b.take(i + 1)) >= t
    &&& seq_sum(b.take(i)) < t
}

/// The `pct`-th percentile reported by a histogram with buckets `b`,
/// `count` samples and largest sample `max`: 0 when empty, otherwise the
/// middle of the first bucket at which the running count reaches
/// `ceil(count * pct / 100)`.
pub open spec fn pct_value(b: Seq<u64>, count: u64, max: u64, pct: u64) -> u64 {
    let t = ceil_pct(count, pct);
    if count == 0 {
        0
    } else if exists|i: int| reaches(b, t, i) {
        bucket_mid(choose|i: int| reaches(b, t, i)) as u64
    } else {
        max
    }
}

pub proof fn lemma_seq_sum_take_step(s: Seq<u64>, i: int)
    requires
        0 <= i < s.len(),
    ensures
        seq_sum(s.take(i + 1)) == seq_sum(s.take(i)) + s[i],
{
    assert(s.take(i + 1).drop_last() =~= s.take(i));
}

pub proof fn lemma_seq_sum_take_mono(s: Seq<u64>, i: int, j: int)
    requires
        0 <= i <= j <= s.len(),
    ensures
        seq_sum(s.take(i)) <= seq_sum(s.take(j)),
    decreases j - i,
{
    if i < j {
        lemma_seq_sum_take_step(s, j - 1);
        lemma_seq_sum_take_mono(s, i, j - 1);
    }
}

pub proof fn lemma_seq_sum_whole(s: Seq<u64>)
    ensures
        seq_sum(s.take(s.len() as int)) == seq_sum(s),
{
    assert(s.take(s.len() as int) =~= s);
}

pub proof fn lemma_seq_sum_bump(s: Seq<u64>, i: int)
    requires
        0 <= i < s.len(),
        s[i] < u64::MAX,
    ensures
        seq_sum(s.update(i, (s[i] + 1) as u64)) == seq_sum(s) + 1,
    decreases s.len(),
{
    let u = s.update(i, (s[i] + 1) as u64);
    if i == s.len() - 1 {
        assert(u.drop_last() =~= s.drop_last());
    } else {
        assert(u.drop_last() =~= s.drop_last().update(i, (s[i] + 1) as u64));
        lemma_seq_sum_bump(s.drop_last(), i);
    }
}

pub proof fn lemma_seq_sum_nonneg(s: Seq<u64>)
    ensures
        seq_sum(s) >= 0,
    decreases s.len(),
{
    if s.len() > 0 {
        lemma_seq_sum_nonneg(s.drop_last());
    }
}

pub proof fn lemma_elem_le_sum(s: Seq<u64>, i: int)
    requires
        0 <= i < s.len(),
    ensures
        s[i] <= seq_sum(s),
{
    lemma_seq_sum_nonneg(s.take(i));
    lemma_seq_sum_take_step(s, i);
    lemma_seq_sum_take_mono(s, i + 1, s.len() as int);
    lemma_seq_sum_whole(s);
}

pub proof fn lemma_reaches_unique(b: Seq<u64>, t: int, i: int, j: int)
    requires
        reaches(b, t, i),
        reaches(b, t, j),
    ensures
        i == j,
{
    if i < j {
        lemma_seq_sum_take_mono(b, i + 1, j);
    } else if j < i {
        lemma_seq_sum_take_mono(b, j + 1, i);
    }
}

proof fn lemma_leading_zeros_log2(n: u64)
    requires
        n > 0,
    ensures
        64 - u64_leading_zeros(n) == floor_log2(n as nat) + 1,
    decreases n,
{
    reveal(u64_leading_zeros);
    if n == 1 {
        assert(u64_leading_zeros(0) == 64);
    } else {
        lemma_leading_zeros_log2(n / 2);
    }
}

/// Bucket `floor_log2(n)` covers `n`: `2^i <= n < 2^(i+1)`.
pub proof fn lemma_floor_log2_bounds(n: nat)
    requires
        n > 0,
    ensures
        pow2(floor_log2(n)) <= n < pow2(floor_log2(n) + 1),
    decreases n,
{
    lemma2_to64();
    if n > 1 {
        lemma_floor_log2_bounds(n / 2);
        vstd::arithmetic::power2::lemma_pow2_unfold(floor_log2(n));
        vstd::arithmetic::power2::lemma_pow2_unfold(floor_log2(n) + 1);
    }
}

/// Every `n >= 0` has an integer square root.
proof fn lemma_isqrt_exists(n: int)
    requires
        n >= 0,
    ensures
        exists|p: int| #[trigger] is_isqrt(p, n),
    decreases n,
{
    if n == 0 {
        assert(is_isqrt(0, 0));
    } else {
        lemma_isqrt_exists(n - 1);
        let p = choose|p: int| #[trigger] is_isqrt(p, n - 1);
        if (p + 1) * (p + 1) <= n {
            assert((p + 1) * (p + 1) == n);
            assert(n < (p + 2) * (p + 2)) by (nonlinear_arith)
                requires
                    (p + 1) * (p + 1) == n,
                    p >= 0,
            ;
            assert(is_isqrt(p + 1, n));
        } else {
            assert(is_isqrt(p, n));
        }
    }
}

/// The integer square root is unique.
proof fn lemma_isqrt_unique(p: int, q: int, n: int)
    requires
        is_isqrt(p, n),
        is_isqrt(q, n),
    ensures
        p == q,
{
    if p < q {
        assert((p + 1) * (p + 1) <= q * q) by (nonlinear_arith)
            requires
                0 <= p + 1 <= q,
        ;
    } else if q < p {
        assert((q + 1) * (q + 1) <= p * p) by (nonlinear_arith)
            requires
                0 <= q + 1 <= p,
        ;
    }
}

/// `bucket_mid(i)` is the integer square root of `2 * 4^i`.
proof fn lemma_bucket_mid_is_isqrt(i: nat)
    ensures
        is_isqrt(bucket_mid(i as int), (2 * pow2(i) * pow2(i)) as int),
{
    lemma_pow2_pos(i);
    let n = (2 * pow2(i) * pow2(i)) as int;
    lemma_isqrt_exists(n);
}

/// A bucket's reported value lies inside the bucket:
/// `2^i <= bucket_mid(i) < 2^(i+1)`.
pub proof fn lemma_bucket_mid_in_bucket(i: nat)
    ensures
        pow2(i) <= bucket_mid(i as int) < pow2(i + 1),
{
    lemma_pow2_pos(i);
    vstd::arithmetic::power2::lemma_pow2_unfold(i + 1);
    lemma_bucket_mid_is_isqrt(i);
    let l = pow2(i) as int;
    let p = bucket_mid(i as int);
    assert(l <= p) by (nonlinear_arith)
        requires
            l > 0,
            p >= 0,
            2 * l * l < (p + 1) * (p + 1),
    ;
    assert(p < 2 * l) by (nonlinear_arith)
        requires
            l > 0,
            p >= 0,
            p * p <= 2 * l * l,
    ;
}

/// The reported value is within a factor of `sqrt(2)` of every sample of
/// its bucket: for `2^i <= v < 2^(i+1)` and `p = bucket_mid(i)`,
/// `p <= v * sqrt(2)` and `v < (p + 1) * sqrt(2)`.
pub proof fn lemma_bucket_mid_band(i: nat, v: int)
    requires
        pow2(i) <= v < pow2(i + 1),
    ensures
        bucket_mid(i as int) * bucket_mid(i as int) <= 2 * v * v,
        v * v < 2 * (bucket_mid(i as int) + 1) * (bucket_mid(i as int) + 1),
{
    lemma_pow2_pos(i);
    vstd::arithmetic::power2::lemma_pow2_unfold(i + 1);
    lemma_bucket_mid_is_isqrt(i);
    let l = pow2(i) as int;
    let p = bucket_mid(i as int);
    assert(p * p <= 2 * v * v) by (nonlinear_arith)
        requires
            0 < l <= v,
            p * p <= 2 * l * l,
    ;
    assert(v * v < 2 * (p + 1) * (p + 1)) by (nonlinear_arith)
        requires
            0 < l <= v < 2 * l,
            2 * l * l < (p + 1) * (p + 1),
    ;
}

/// Integer square root of `n < 2^80`, by bisection.
fn isqrt_u128(n: u128) -> (r: u64)
    requires
        n < 0x1_0000_0000_0000_0000_0000,
    ensures
        is_isqrt(r as int, n as int),
{
    let mut lo: u128 = 0;
    let mut hi: u128 = 0x100_0000_0000;
    assert(hi * hi == 0x1_0000_0000_0000_0000_0000);
    while hi - lo > 1
        invariant
            lo < hi <= 0x100_0000_0000,
            lo * lo <= n,
            n < hi * hi,
        decreases hi - lo,
    {
        let mid = lo + (hi - lo) / 2;
        assert(mid * mid <= 0x100_0000_0000 * 0x100_0000_0000) by (nonlinear_arith)
            requires
                0 <= mid <= 0x100_0000_0000,
        ;
        if mid * mid <= n {
            lo = mid;
        } else {
            hi = mid;
        }
    }
    assert(hi == lo + 1);
    lo as u64
}

/// `bucket_mid(i)` for a bucket index.
fn bucket_mid_exec(i: usize) -> (r: u64)
    requires
        i < LAT_BUCKETS,
    ensures
        r == bucket_mid(i as int),
{
    proof {
        lemma2_to64();
        if i < 39 {
            lemma_pow2_strictly_increases(i as nat, 39);
        }
        vstd::arithmetic::power2::lemma2_to64_rest();
        lemma_u64_shl_is_mul(1u64, i as u64);
    }
    let lower: u64 = 1u64 << (i as u64);
    let l = lower as u128;
    assert(2 * l * l < 0x1_0000_0000_0000_0000_0000) by (nonlinear_arith)
        requires
            l <= 0x80_0000_0000,
    ;
    let n: u128 = 2 * l * l;
    let r = isqrt_u128(n);
    proof {
        lemma_bucket_mid_is_isqrt(i as nat);
        lemma_isqrt_unique(r as int, bucket_mid(i as int), n as int);
    }
    r
}

/// Bucket index for a sample of `ns > 0` nanoseconds.
fn bucket_of(ns: u64) -> (r: usize)
    requires
        ns > 0,
    ensures
        r as int == lat_bucket(ns),
        r < LAT_BUCKETS,
{
    proof {
        lemma_leading_zeros_log2(ns);
    }
    let bits: u32 = 64u32 - ns.leading_zeros();
    let b: usize = bits.saturating_sub(1) as usize;
    if b < LAT_BUCKETS - 1 {
        b
    } else {
        LAT_BUCKETS - 1
    }
}

/// `new` is `old` with one more sample of `ns` nanoseconds: count + 1,
/// the sum grows by `ns` (mod 2^64), min and max take `ns` into account
/// and the sample's bucket grows by one.
pub open spec fn recorded(old: LatencyHisto, new: LatencyHisto, ns: u64) -> bool {
    &&& new.count() == old.count() + 1
    &&& new.total_ns() == old.total_ns() + ns
    &&& new.sum_ns() == vstd::wrapping::u64_specs::wrapping_add(old.sum_ns(), ns)
    &&& new.min_ns() == (if ns < old.min_ns() { ns } else { old.min_ns() })
    &&& new.max_ns() == (if ns > old.max_ns() { ns } else { old.max_ns() })
    &&& new.bucket_counts() == old.bucket_counts().update(
        lat_bucket(ns),
        (old.bucket_counts()[lat_bucket(ns)] + 1) as u64,
    )
}

/// Summary of a `LatencyHisto` at one instant.
pub struct LatencySnapshot {
    pub count: u64,
    pub min_ns: u64,
    pub avg_ns: u64,
    pub max_ns: u64,
    pub p50_ns: u64,
    pub p95_ns: u64,
    pub p99_ns: u64,
}

/// Latency histogram: sample count, sum, min and max, and the number of
/// samples that fell in each power-of-two bucket.
pub struct LatencyHisto {
    count: u64,
    sum_ns: u64,
    min_ns: u64,
    max_ns: u64,
    buckets: Vec<u64>,
    /// Exact sum of all recorded samples.
    total: Ghost<int>,
}

impl LatencyHisto {
    pub closed spec fn count(&self) -> u64 {
        self.count
    }

    /// Sum of all recorded samples, modulo 2^64.
    pub closed spec fn sum_ns(&self) -> u64 {
        self.sum_ns
    }

    /// Smallest recorded sample (`u64::MAX` while empty).
    pub closed spec fn min_ns(&self) -> u64 {
        self.min_ns
    }

    /// Largest recorded sample (0 while empty).
    pub closed spec fn max_ns(&self) -> u64 {
        self.max_ns
    }

    /// Per-bucket sample counts.
    pub closed spec fn bucket_counts(&self) -> Seq<u64> {
        self.buckets@
    }

    /// Exact sum of all recorded samples (`sum_ns` is this modulo 2^64).
    pub closed spec fn total_ns(&self) -> int {
        self.total@
    }

    /// The buckets are `LAT_BUCKETS` long and together hold `count`
    /// samples; an empty histogram has sum 0, min `u64::MAX` and max 0;
    /// otherwise `count * min <= total <= count * max`, and the sum is the
    /// total modulo 2^64.
    pub closed spec fn wf(&self) -> bool {
        &&& self.buckets@.len() == LAT_BUCKETS
        &&& seq_sum(self.buckets@) == self.count
        &&& self.total@ >= 0
        &&& self.sum_ns as int == self.total@ % 0x1_0000_0000_0000_0000
        &&& self.count == 0 ==> self.min_ns == u64::MAX && self.max_ns == 0 && self.total@ == 0
        &&& self.count > 0 ==> {
            &&& self.min_ns <= self.max_ns
            &&& self.count * self.min_ns <= self.total@
            &&& self.total@ <= self.count * self.max_ns
        }
    }

    /// The state of a histogram that holds no sample.
    pub open spec fn is_empty_histo(&self) -> bool {
        &&& self.count() == 0
        &&& self.total_ns() == 0
        &&& self.sum_ns() == 0
        &&& self.min_ns() == u64::MAX
        &&& self.max_ns() == 0
        &&& self.bucket_counts() == Seq::new(LAT_BUCKETS as nat, |i: int| 0u64)
    }

    proof fn lemma_zero_buckets(s: Seq<u64>)
        requires
            forall|i: int| 0 <= i < s.len() ==> s[i] == 0,
        ensures
            seq_sum(s) == 0,
        decreases s.len(),
    {
        if s.len() > 0 {
            Self::lemma_zero_buckets(s.drop_last());
        }
    }

    /// Number of samples recorded.
    pub fn sample_count(&self) -> (r: u64)
        ensures
            r == self.count(),
    {
        self.count
    }

    pub fn new() -> (r: Self)
        ensures
            r.wf(),
            r.is_empty_histo(),
    {
        let buckets = vec![0u64; LAT_BUCKETS];
        proof {
            Self::lemma_zero_buckets(buckets@);
            assert(buckets@ =~= Seq::new(LAT_BUCKETS as nat, |i: int| 0u64));
        }
        LatencyHisto { count: 0, sum_ns: 0, min_ns: u64::MAX, max_ns: 0, buckets, total: Ghost(0) }
    }

    /// Record one sample; a zero sample is ignored. The histogram holds at
    /// most `u64::MAX` samples.
    pub fn record(&mut self, ns: u64)
        requires
            old(self).wf(),
            ns != 0 ==> old(self).count() < u64::MAX,
        ensures
            final(self).wf(),
            ns == 0 ==> *final(self) == *old(self),
            ns != 0 ==> recorded(*old(self), *final(self), ns),
    {
        if ns == 0 {
            return;
        }
        let b = bucket_of(ns);
        proof {
            lemma_elem_le_sum(self.buckets@, b as int);
            lemma_seq_sum_bump(self.buckets@, b as int);
            lemma_wrapping_add_mod(self.sum_ns, self.total@, ns);
            lemma_bounds_after_record(
                self.count as int,
                self.min_ns as int,
                self.max_ns as int,
                self.total@,
                ns as int,
            );
        }
        self.total = Ghost(self.total@ + ns);
        self.count = self.count + 1;
        self.sum_ns = self.sum_ns.wrapping_add(ns);
        if ns < self.min_ns {
            self.min_ns = ns;
        }
        if ns > self.max_ns {
            self.max_ns = ns;
        }
        let old_b = self.buckets[b];
        self.buckets.set(b, old_b + 1);
    }

    pub fn reset(&mut self)
        requires
            old(self).wf(),
        ensures
            final(self).wf(),
            final(self).is_empty_histo(),
    {
        self.count = 0;
        self.sum_ns = 0;
        self.min_ns = u64::MAX;
        self.max_ns = 0;
        self.total = Ghost(0);
        let mut i: usize = 0;
        while i < LAT_BUCKETS
            invariant
                self.buckets@.len() == LAT_BUCKETS,
                self.count == 0,
                self.sum_ns == 0,
                self.min_ns == u64::MAX,
                self.max_ns == 0,
                self.total@ == 0,
                i <= LAT_BUCKETS,
                forall|j: int| 0 <= j < i ==> self.buckets@[j] == 0,
            decreases LAT_BUCKETS - i,
        {
            self.buckets.set(i, 0);
            i = i + 1;
        }
        proof {
            Self::lemma_zero_buckets(self.buckets@);
            assert(self.buckets@ =~= Seq::new(LAT_BUCKETS as nat, |i: int| 0u64));
        }
    }

    /// The `pct`-th percentile estimate.
    fn percentile(&self, pct: u64) -> (r: u64)
        requires
            self.wf(),
            1 <= pct <= 100,
        ensures
            r == pct_value(self.bucket_counts(), self.count(), self.max_ns(), pct),
    {
        let total = self.count;
        if total == 0 {
            return 0;
        }
        proof {
            assert((total as int) * (pct as int) <= (u64::MAX as int) * 100) by (nonlinear_arith)
                requires
                    pct <= 100,
            ;
            assert(((total as int) * (pct as int) + 99) / 100 <= total) by (nonlinear_arith)
                requires
                    pct <= 100,
                    total > 0,
            ;
            assert(((total as int) * (pct as int) + 99) / 100 >= 1) by (nonlinear_arith)
                requires
                    pct >= 1,
                    total > 0,
            ;
        }
        let threshold: u64 = (((total as u128) * (pct as u128) + 99) / 100) as u64;
        let ghost b = self.buckets@;
        let ghost t = ceil_pct(total, pct);
        proof {
            assert(threshold == t);
            assert(b.take(0) =~= Seq::<u64>::empty());
            assert(seq_sum(b.take(0)) == 0);
        }
        let mut acc: u64 = 0;
        let mut i: usize = 0;
        while i < LAT_BUCKETS
            invariant
                self.wf(),
                b == self.buckets@,
                total == self.count,
                total > 0,
                1 <= pct <= 100,
                t == ceil_pct(total, pct),
                1 <= t <= total,
                threshold == t,
                i <= LAT_BUCKETS,
                acc == seq_sum(b.take(i as int)),
                acc < t,
            decreases LAT_BUCKETS - i,
        {
            proof {
                lemma_seq_sum_take_step(b, i as int);
                lemma_seq_sum_take_mono(b, i + 1, b.len() as int);
                lemma_seq_sum_whole(b);
            }
            acc = acc + self.buckets[i];
            if acc >= threshold {
                proof {
                    assert(reaches(b, t, i as int));
                    assert(exists|k: int| reaches(b, t, k));
                    let c = choose|k: int| reaches(b, t, k);
                    lemma_reaches_unique(b, t, i as int, c);
                    assert(pct_value(b, total, self.max_ns, pct) == bucket_mid(i as int) as u64);
                }
                return bucket_mid_exec(i);
            }
            i = i + 1;
        }
        proof {
            assert forall|k: int| !reaches(b, t, k) by {
                if reaches(b, t, k) {
                    lemma_seq_sum_take_mono(b, k + 1, LAT_BUCKETS as int);
                }
            }
        }
        self.max_ns
    }

    /// Count, min, average, max and the 50th/95th/99th percentiles.
    pub open spec fn snapshot_spec(&self) -> LatencySnapshot {
        LatencySnapshot {
            count: self.count(),
            min_ns: if self.count() == 0 { 0 } else { self.min_ns() },
            avg_ns: if self.count() > 0 { (self.sum_ns() / self.count()) as u64 } else { 0 },
            max_ns: self.max_ns(),
            p50_ns: pct_value(self.bucket_counts(), self.count(), self.max_ns(), 50),
            p95_ns: pct_value(self.bucket_counts(), self.count(), self.max_ns(), 95),
            p99_ns: pct_value(self.bucket_counts(), self.count(), self.max_ns(), 99),
        }
    }

    pub fn snapshot(&self) -> (s: LatencySnapshot)
        requires
            self.wf(),
        ensures
            s == self.snapshot_spec(),
            s.p50_ns <= s.p95_ns <= s.p99_ns,
            s.count == 0 ==> s.min_ns == 0 && s.avg_ns == 0 && s.max_ns == 0 && s.p99_ns == 0,
            s.count > 0 ==> s.min_ns <= s.max_ns,
            s.count > 0 && self.total_ns() <= u64::MAX ==> s.min_ns <= s.avg_ns <= s.max_ns,
    {
        proof {
            lemma_percentiles_ordered(*self, 50, 95);
            lemma_percentiles_ordered(*self, 95, 99);
            lemma_snapshot_bounds(*self);
        }
        let count = self.count;
        LatencySnapshot {
            count,
            min_ns: if count == 0 { 0 } else { self.min_ns },
            avg_ns: if count > 0 { self.sum_ns / count } else { 0 },
            max_ns: self.max_ns,
            p50_ns: self.percentile(50),
            p95_ns: self.percentile(95),
            p99_ns: self.percentile(99),
        }
    }
}

/// Some bucket is the first to reach any rank `t` between 1 and the total.
proof fn lemma_reaches_exists(b: Seq<u64>, t: int)
    requires
        1 <= t <= seq_sum(b),
    ensures
        exists|i: int| reaches(b, t, i),
    decreases b.len(),
{
    let n = b.len() as int;
    let d = b.drop_last();
    lemma_seq_sum_whole(b);
    assert(b.take(n - 1) =~= d);
    if seq_sum(d) >= t {
        lemma_reaches_exists(d, t);
        let i = choose|i: int| reaches(d, t, i);
        assert(b.take(i + 1) =~= d.take(i + 1));
        assert(b.take(i) =~= d.take(i));
        assert(reaches(b, t, i));
    } else {
        assert(reaches(b, t, n - 1));
    }
}

/// The first bucket reaching a rank moves right as the rank grows.
proof fn lemma_reaches_mono(b: Seq<u64>, t1: int, i1: int, t2: int, i2: int)
    requires
        t1 <= t2,
        reaches(b, t1, i1),
        reaches(b, t2, i2),
    ensures
        i1 <= i2,
{
    if i2 < i1 {
        lemma_seq_sum_take_mono(b, i2 + 1, i1);
    }
}

/// Percentiles are ordered: on a histogram, the reported `p`-th percentile
/// is at most the reported `q`-th one whenever `p <= q` (so
/// `p50 <= p95 <= p99` in every snapshot).
pub proof fn lemma_percentiles_ordered(h: LatencyHisto, p: u64, q: u64)
    requires
        h.wf(),
        1 <= p <= q <= 100,
    ensures
        pct_value(h.bucket_counts(), h.count(), h.max_ns(), p) <= pct_value(
            h.bucket_counts(),
            h.count(),
            h.max_ns(),
            q,
        ),
{
    let b = h.bucket_counts();
    let c = h.count();
    if c > 0 {
        let t1 = ceil_pct(c, p);
        let t2 = ceil_pct(c, q);
        assert(1 <= t1 <= t2 <= c) by (nonlinear_arith)
            requires
                t1 == (c * p + 99) / 100,
                t2 == (c * q + 99) / 100,
                1 <= p <= q <= 100,
                c > 0,
        ;
        lemma_reaches_exists(b, t1);
        lemma_reaches_exists(b, t2);
        let i1 = choose|i: int| reaches(b, t1, i);
        let i2 = choose|i: int| reaches(b, t2, i);
        lemma_reaches_mono(b, t1, i1, t2, i2);
        lemma2_to64();
        lemma_bucket_mid_in_bucket(i2 as nat);
        if i2 < 39 {
            lemma_pow2_strictly_increases((i2 + 1) as nat, 40);
        }
        vstd::arithmetic::power2::lemma2_to64_rest();
        lemma_bucket_mid_in_bucket(i1 as nat);
        if i1 + 1 < i2 {
            lemma_pow2_strictly_increases((i1 + 1) as nat, i2 as nat);
        }
        assert(bucket_mid(i1) <= bucket_mid(i2));
    }
}

/// A wrapping counter that shows `total` modulo 2^64 shows `total + d`
/// modulo 2^64 after a wrapping add of `d`.
pub(crate) proof fn lemma_wrapping_add_mod(r: u64, total: int, d: u64)
    requires
        total >= 0,
        r as int == total % 0x1_0000_0000_0000_0000,
    ensures
        vstd::wrapping::u64_specs::wrapping_add(r, d) as int == (total + d) % 0x1_0000_0000_0000_0000,
{
    let m: int = 0x1_0000_0000_0000_0000;
    vstd::arithmetic::div_mod::lemma_add_mod_noop(total, d as int, m);
    vstd::arithmetic::div_mod::lemma_small_mod(d as nat, m as nat);
    if r + d < m {
        vstd::arithmetic::div_mod::lemma_small_mod((r + d) as nat, m as nat);
    } else {
        vstd::arithmetic::div_mod::lemma_mod_add_multiples_vanish(r + d - m, m);
        vstd::arithmetic::div_mod::lemma_small_mod((r + d - m) as nat, m as nat);
    }
}

/// One more sample keeps `count * min <= total <= count * max`.
proof fn lemma_bounds_after_record(c: int, mn: int, mx: int, t: int, ns: int)
    requires
        c >= 0,
        ns >= 1,
        c == 0 ==> t == 0 && mx == 0,
        c > 0 ==> c * mn <= t && t <= c * mx && mn <= mx,
    ensures
        ({
            let mn2 = if ns < mn { ns } else { mn };
            let mx2 = if ns > mx { ns } else { mx };
            &&& (c + 1) * mn2 <= t + ns
            &&& t + ns <= (c + 1) * mx2
            &&& mn2 <= mx2
        }),
{
    let mn2 = if ns < mn { ns } else { mn };
    let mx2 = if ns > mx { ns } else { mx };
    if c == 0 {
        if ns >= mn {
            assert(mn2 == mn);
        }
    } else {
        assert(c * mn2 <= c * mn) by (nonlinear_arith)
            requires
                c > 0,
                mn2 <= mn,
        ;
        assert(c * mx <= c * mx2) by (nonlinear_arith)
            requires
                c > 0,
                mx <= mx2,
        ;
        assert((c + 1) * mn2 == c * mn2 + mn2) by (nonlinear_arith);
        assert((c + 1) * mx2 == c * mx2 + mx2) by (nonlinear_arith);
    }
}

/// What a snapshot of a histogram reports: all zeros when it is empty;
/// otherwise `min <= max`, and `min <= avg <= max` when the sum of the
/// samples has not wrapped around.
pub proof fn lemma_snapshot_bounds(h: LatencyHisto)
    requires
        h.wf(),
    ensures
        h.count() == 0 ==> h.snapshot_spec() == (LatencySnapshot {
            count: 0,
            min_ns: 0,
            avg_ns: 0,
            max_ns: 0,
            p50_ns: 0,
            p95_ns: 0,
            p99_ns: 0,
        }),
        h.count() == 0 ==> h.min_ns() == u64::MAX && h.total_ns() == 0 && h.sum_ns() == 0,
        h.count() > 0 ==> h.snapshot_spec().min_ns <= h.snapshot_spec().max_ns,
        h.count() > 0 && h.total_ns() <= u64::MAX ==> h.snapshot_spec().min_ns
            <= h.snapshot_spec().avg_ns <= h.snapshot_spec().max_ns,
{
    if h.count() > 0 && h.total_ns() <= u64::MAX {
        let c = h.count() as int;
        let t = h.total_ns();
        vstd::arithmetic::div_mod::lemma_small_mod(t as nat, 0x1_0000_0000_0000_0000nat);
        assert(h.sum_ns() == t);
        let mn = h.min_ns() as int;
        let mx = h.max_ns() as int;
        assert(mn <= t / c <= mx) by (nonlinear_arith)
            requires
                c > 0,
                c * mn <= t,
                t <= c * mx,
        ;
    }
}

/// The reported average is the mean of the recorded samples: the sum of
/// all samples divided by their count (rounded down), when the sum has not
/// wrapped around.
pub proof fn law_average(h: LatencyHisto)
    requires
        h.wf(),
        h.count() > 0,
        h.total_ns() <= u64::MAX,
    ensures
        h.snapshot_spec().avg_ns == h.total_ns() / (h.count() as int),
        h.snapshot_spec().avg_ns * h.count() <= h.total_ns() < (h.snapshot_spec().avg_ns + 1) * h.count(),
{
    vstd::arithmetic::div_mod::lemma_small_mod(h.total_ns() as nat, 0x1_0000_0000_0000_0000nat);
    assert(h.sum_ns() == h.total_ns());
    let a = h.total_ns() / (h.count() as int);
    let c = h.count() as int;
    let t = h.total_ns();
    assert(a * c <= t < (a + 1) * c) by (nonlinear_arith)
        requires
            c > 0,
            t >= 0,
            a == t / c,
    ;
}

/// `v` lies in the bucket `[2^i, 2^(i+1))` at which the running count of
/// samples first reaches `pct` percent of all `count` samples: fewer than
/// `pct` percent lie in the buckets below it, at least `pct` percent in it
/// and below.
pub open spec fn percentile_in_bucket(b: Seq<u64>, count: u64, pct: u64, v: u64) -> bool {
    exists|i: int|
        0 <= i < b.len() && 100 * seq_sum(#[trigger] b.take(i)) < count * pct && count * pct <= 100
            * seq_sum(b.take(i + 1)) && pow2(i as nat) <= v < pow2((i + 1) as nat)
}

proof fn lemma_pct_in_bucket(h: LatencyHisto, pct: u64)
    requires
        h.wf(),
        h.count() > 0,
        1 <= pct <= 100,
    ensures
        percentile_in_bucket(
            h.bucket_counts(),
            h.count(),
            pct,
            pct_value(h.bucket_counts(), h.count(), h.max_ns(), pct),
        ),
{
    let b = h.bucket_counts();
    let c = h.count();
    let t = ceil_pct(c, pct);
    let x = c * pct;
    assert(1 <= t <= c) by (nonlinear_arith)
        requires
            t == (c * pct + 99) / 100,
            1 <= pct <= 100,
            c > 0,
    ;
    lemma_seq_sum_whole(b);
    assert(b.take(b.len() as int) =~= b);
    lemma_reaches_exists(b, t);
    let i = choose|i: int| reaches(b, t, i);
    let lo = seq_sum(b.take(i));
    let hi = seq_sum(b.take(i + 1));
    assert(100 * lo < x && x <= 100 * hi) by (nonlinear_arith)
        requires
            lo < t,
            t <= hi,
            t == (x + 99) / 100,
            x >= 0,
    ;
    lemma2_to64();
    lemma_bucket_mid_in_bucket(i as nat);
    if i < 39 {
        lemma_pow2_strictly_increases((i + 1) as nat, 40);
    }
    vstd::arithmetic::power2::lemma2_to64_rest();
    let v = pct_value(b, c, h.max_ns(), pct);
    assert(v == bucket_mid(i) as u64);
    assert(pow2(i as nat) <= v < pow2((i + 1) as nat));
}

/// The reported 50th, 95th and 99th percentiles of a histogram that holds
/// samples each lie in the bucket at which the running count of samples
/// first reaches that share of all samples.
pub proof fn law_percentiles(h: LatencyHisto)
    requires
        h.wf(),
        h.count() > 0,
    ensures
        percentile_in_bucket(h.bucket_counts(), h.count(), 50, h.snapshot_spec().p50_ns),
        percentile_in_bucket(h.bucket_counts(), h.count(), 95, h.snapshot_spec().p95_ns),
        percentile_in_bucket(h.bucket_counts(), h.count(), 99, h.snapshot_spec().p99_ns),
{
    lemma_pct_in_bucket(h, 50);
    lemma_pct_in_bucket(h, 95);
    lemma_pct_in_bucket(h, 99);
}

/// From an empty histogram, recording the non-zero samples `xs` in turn
/// (each `hs[j + 1]` is `hs[j]` after recording `xs[j]`) leaves the count
/// equal to the number of samples and the exact total equal to their sum;
/// while that sum fits in a `u64`, the snapshot's average is the sum
/// divided by the number of samples, rounded down.
pub proof fn law_recorded_average(hs: Seq<LatencyHisto>, xs: Seq<u64>)
    requires
        hs.len() == xs.len() + 1,
        hs[0].wf(),
        hs[0].is_empty_histo(),
        forall|j: int| 0 <= j < hs.len() ==> (#[trigger] hs[j]).wf(),
        forall|j: int| #![trigger xs[j]] 0 <= j < xs.len() ==> xs[j] != 0 && recorded(hs[j], hs[j + 1], xs[j]),
        seq_sum(xs) <= u64::MAX,
    ensures
        hs.last().count() == xs.len(),
        hs.last().total_ns() == seq_sum(xs),
        xs.len() > 0 ==> hs.last().snapshot_spec().avg_ns == seq_sum(xs) / (xs.len() as int),
    decreases xs.len(),
{
    if xs.len() > 0 {
        let n = xs.len() - 1;
        let hs0 = hs.drop_last();
        let xs0 = xs.drop_last();
        assert forall|j: int| #![trigger xs0[j]] 0 <= j < xs0.len() implies xs0[j] != 0 && recorded(
            hs0[j],
            hs0[j + 1],
            xs0[j],
        ) by {
            assert(xs[j] == xs0[j]);
        }
        assert forall|j: int| 0 <= j < hs0.len() implies (#[trigger] hs0[j]).wf() by {
            assert(hs[j] == hs0[j]);
        }
        lemma_seq_sum_nonneg(xs0);
        assert(seq_sum(xs) == seq_sum(xs0) + xs.last());
        law_recorded_average(hs0, xs0);
        assert(xs[n] == xs.last());
        assert(recorded(hs[n], hs[n + 1], xs[n]));
        assert(hs0.last() == hs[n]);
        assert(hs.last() == hs[n + 1]);
        assert(hs[n + 1].wf());
        law_average(hs.last());
    }
}

} // verus!
