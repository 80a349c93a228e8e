//! Metrics: consensus counters, network counters, a latency histogram
//! with power-of-two buckets and a sliding throughput window.
//!
//! Counters wrap around at their maximum, as atomic counters do.  The
//! floating-point views of these numbers (rates, averages, percentile
//! indices) are computed by the caller from the integer totals here.

use vstd::prelude::*;

use crate::clock::{duration_as_millis, duration_millis, now_unix_millis, now_unix_secs};
use std::time::Duration;

verus! {

/// `x + 1`, wrapping to 0 at `u64::MAX`.
pub open spec fn wrap_inc(x: u64) -> u64 {
    if x == u64::MAX {
        0
    } else {
        (x + 1) as u64
    }
}

/// `x + y` modulo 2^64.
pub open spec fn wrap_add(x: u64, y: u64) -> u64 {
    ((x + y) % 0x1_0000_0000_0000_0000) as u64
}

/// Increments a counter, wrapping at `u64::MAX`.
pub fn counter_inc(x: u64) -> (r: u64)
    ensures
        r == wrap_inc(x),
{
    if x == u64::MAX {
        0
    } else {
        x + 1
    }
}

/// Adds to a counter modulo 2^64.
pub fn counter_add(x: u64, y: u64) -> (r: u64)
    ensures
        r == wrap_add(x, y),
{
    if x <= u64::MAX - y {
        x + y
    } else {
        let r = y - (u64::MAX - x) - 1;
        assert(r == x + y - 0x1_0000_0000_0000_0000);
        r
    }
}

// ---------------------------------------------------------------------
// Consensus metrics
// ---------------------------------------------------------------------

/// Snapshot of the consensus counters.
#[derive(Debug, Clone, Copy, PartialEq, Eq, Structural)]
pub struct ConsensusStats {
    pub rounds_completed: u64,
    pub votes_cast: u64,
    pub finalizations: u64,
    pub consensus_failures: u64,
    pub average_round_time_ms: u64,
}

/// Exponential moving average of the round time: the first round sets it,
/// later rounds weigh the previous average nine to one.
pub open spec fn ema_round_time(avg: u64, ms: u64) -> u64 {
    if avg == 0 {
        ms
    } else {
        ((avg * 9 + ms) / 10) as u64
    }
}

/// The counters after one more completed round that took `ms` milliseconds.
pub open spec fn after_round(s: ConsensusStats, ms: u64) -> ConsensusStats {
    ConsensusStats {
        rounds_completed: wrap_inc(s.rounds_completed),
        average_round_time_ms: ema_round_time(s.average_round_time_ms, ms),
        ..s
    }
}

/// Counters for consensus rounds, votes, finalizations and failures.
#[derive(Debug)]
pub struct ConsensusMetrics {
    rounds_completed: u64,
    votes_cast: u64,
    finalizations: u64,
    consensus_failures: u64,
    average_round_time: u64,
}

impl View for ConsensusMetrics {
    type V = ConsensusStats;

    closed spec fn view(&self) -> ConsensusStats {
        ConsensusStats {
            rounds_completed: self.rounds_completed,
            votes_cast: self.votes_cast,
            finalizations: self.finalizations,
            consensus_failures: self.consensus_failures,
            average_round_time_ms: self.average_round_time,
        }
    }
}

impl ConsensusMetrics {
    /// All counters start at zero.
    pub fn new() -> (m: Self)
        ensures
            m@ == (ConsensusStats {
                rounds_completed: 0,
                votes_cast: 0,
                finalizations: 0,
                consensus_failures: 0,
                average_round_time_ms: 0,
            }),
    {
        ConsensusMetrics {
            rounds_completed: 0,
            votes_cast: 0,
            finalizations: 0,
            consensus_failures: 0,
            average_round_time: 0,
        }
    }

    /// Records a completed round that took `round_ms` milliseconds.
    pub fn record_round_millis(&mut self, round_ms: u64)
        ensures
            final(self)@ == after_round(old(self)@, round_ms),
    {
        self.rounds_completed = counter_inc(self.rounds_completed);
        let current_avg = self.average_round_time;
        let new_avg: u64 = if current_avg == 0 {
            round_ms
        } else {
            let wide: u128 = ((current_avg as u128) * 9 + round_ms as u128) / 10;
            assert(wide <= u64::MAX) by {
                assert((current_avg as u128) * 9 + round_ms as u128 <= 10 * (u64::MAX as u128));
            }
            wide as u64
        };
        self.average_round_time = new_avg;
    }

    /// Records a completed round of the given duration (its whole
    /// milliseconds, truncated to 64 bits).
    pub fn round_completed(&mut self, duration: Duration)
        ensures
            final(self)@ == after_round(old(self)@, duration_millis(duration) as u64),
    {
        let ms = #[verifier::truncate] (duration_as_millis(&duration) as u64);
        self.record_round_millis(ms);
    }

    /// Records a vote.
    pub fn vote_cast(&mut self)
        ensures
            final(self)@ == (ConsensusStats { votes_cast: wrap_inc(old(self)@.votes_cast), ..old(self)@ }),
    {
        self.votes_cast = counter_inc(self.votes_cast);
    }

    /// Records a finalized node.
    pub fn node_finalized(&mut self)
        ensures
            final(self)@ == (ConsensusStats {
                finalizations: wrap_inc(old(self)@.finalizations),
                ..old(self)@
            }),
    {
        self.finalizations = counter_inc(self.finalizations);
    }

    /// Records a failed consensus attempt.
    pub fn consensus_failed(&mut self)
        ensures
            final(self)@ == (ConsensusStats {
                consensus_failures: wrap_inc(old(self)@.consensus_failures),
                ..old(self)@
            }),
    {
        self.consensus_failures = counter_inc(self.consensus_failures);
    }

    /// The current counters.
    pub fn get_stats(&self) -> (s: ConsensusStats)
        ensures
            s == self@,
    {
        ConsensusStats {
            rounds_completed: self.rounds_completed,
            votes_cast: self.votes_cast,
            finalizations: self.finalizations,
            consensus_failures: self.consensus_failures,
            average_round_time_ms: self.average_round_time,
        }
    }
}

impl Default for ConsensusMetrics {
    fn default() -> (m: Self)
        ensures
            m@ == (ConsensusStats {
                rounds_completed: 0,
                votes_cast: 0,
                finalizations: 0,
                consensus_failures: 0,
                average_round_time_ms: 0,
            }),
    {
        Self::new()
    }
}

// ---------------------------------------------------------------------
// Latency histogram
// ---------------------------------------------------------------------

/// `2^e`.
pub open spec fn two_pow(e: nat) -> nat
    decreases e,
{
    if e == 0 {
        1
    } else {
        2 * two_pow((e - 1) as nat)
    }
}

/// The first of `p, 2p, 4p, ...` that is at least `x`.
pub open spec fn pow2_at_least(x: nat, p: nat) -> nat
    decreases (if x > p {
        x - p
    } else {
        0
    }),
    when p > 0
{
    if p >= x {
        p
    } else {
        pow2_at_least(x, p * 2)
    }
}

/// The histogram bucket of a latency: 1 for 0 ms, otherwise the smallest
/// power of two that is at least the latency.
pub open spec fn latency_bucket(ms: u64) -> nat {
    pow2_at_least(ms as nat, 1)
}

proof fn lemma_two_pow_monotone(a: nat, b: nat)
    requires
        a <= b,
    ensures
        two_pow(a) <= two_pow(b),
    decreases b,
{
    if a < b {
        lemma_two_pow_monotone(a, (b - 1) as nat);
    }
}

proof fn lemma_two_pow_is_pow2(e: nat)
    ensures
        two_pow(e) == vstd::arithmetic::power2::pow2(e),
    decreases e,
{
    if e > 0 {
        lemma_two_pow_is_pow2((e - 1) as nat);
        vstd::arithmetic::power2::lemma_pow2_unfold(e);
    } else {
        vstd::arithmetic::power2::lemma2_to64();
    }
}

proof fn lemma_two_pow_62_63()
    ensures
        two_pow(62) == 0x4000_0000_0000_0000,
        two_pow(63) == 0x8000_0000_0000_0000,
{
    lemma_two_pow_is_pow2(62);
    lemma_two_pow_is_pow2(63);
    vstd::arithmetic::power2::lemma2_to64_rest();
}

/// The bucket of a latency (`u64::next_power_of_two`, with 0 mapped to 1).
/// The bucket is a power of two, at least `ms`, and the smallest such.
pub fn latency_bucket_of(ms: u64) -> (b: u64)
    requires
        ms <= 0x8000_0000_0000_0000,
    ensures
        b == latency_bucket(ms),
        b >= ms,
        b == 1 || b / 2 < ms,
        exists|e: nat| b == two_pow(e),
{
    let mut p: u64 = 1;
    let ghost mut e: nat = 0;
    proof {
        lemma_two_pow_62_63();
    }
    while p < ms
        invariant
            1 <= p,
            ms <= 0x8000_0000_0000_0000,
            p == two_pow(e),
            e <= 63,
            p == 1 || p / 2 < ms,
            pow2_at_least(ms as nat, p as nat) == latency_bucket(ms),
            two_pow(62) == 0x4000_0000_0000_0000,
            two_pow(63) == 0x8000_0000_0000_0000,
        decreases 64 - e,
    {
        proof {
            if e >= 63 {
                lemma_two_pow_monotone(63, e);
            }
            assert(e <= 62);
            lemma_two_pow_monotone(e, 62);
        }
        p = p * 2;
        proof {
            e = e + 1;
        }
    }
    p
}

/// Keys strictly increasing, every count positive.
pub open spec fn buckets_wf(s: Seq<(u64, u64)>) -> bool {
    &&& forall|i: int, j: int| 0 <= i < j < s.len() ==> s[i].0 < s[j].0
    &&& forall|i: int| 0 <= i < s.len() ==> s[i].1 > 0
}

/// Number of samples recorded in bucket `k`.
pub open spec fn bucket_count(s: Seq<(u64, u64)>, k: u64) -> nat {
    if exists|i: int| 0 <= i < s.len() && s[i].0 == k {
        s[choose|i: int| 0 <= i < s.len() && s[i].0 == k].1 as nat
    } else {
        0
    }
}

/// All samples, smallest first: each bucket key repeated by its count.
pub open spec fn expand(s: Seq<(u64, u64)>) -> Seq<u64>
    decreases s.len(),
{
    if s.len() == 0 {
        Seq::empty()
    } else {
        expand(s.drop_last()) + Seq::new(s.last().1 as nat, |j: int| s.last().0)
    }
}

proof fn lemma_bucket_count(s: Seq<(u64, u64)>, k: u64)
    requires
        buckets_wf(s),
    ensures
        forall|i: int| 0 <= i < s.len() && s[i].0 == k ==> bucket_count(s, k) == s[i].1,
        (forall|i: int| 0 <= i < s.len() ==> s[i].0 != k) ==> bucket_count(s, k) == 0,
{
    if exists|i: int| 0 <= i < s.len() && s[i].0 == k {
        let c = choose|i: int| 0 <= i < s.len() && s[i].0 == k;
        assert forall|i: int| 0 <= i < s.len() && s[i].0 == k implies bucket_count(s, k) == s[i].1 by {
            if i < c {
                assert(s[i].0 < s[c].0);
            } else if c < i {
                assert(s[c].0 < s[i].0);
            }
        }
    }
}

proof fn lemma_expand_len_update(s: Seq<(u64, u64)>, i: int, x: (u64, u64))
    requires
        0 <= i < s.len(),
    ensures
        expand(s.update(i, x)).len() == expand(s).len() - s[i].1 + x.1,
    decreases s.len(),
{
    let t = s.update(i, x);
    if i == s.len() - 1 {
        assert(t.drop_last() =~= s.drop_last());
    } else {
        assert(t.drop_last() =~= s.drop_last().update(i, x));
        lemma_expand_len_update(s.drop_last(), i, x);
    }
}

proof fn lemma_expand_len_insert(s: Seq<(u64, u64)>, i: int, x: (u64, u64))
    requires
        0 <= i <= s.len(),
    ensures
        expand(s.insert(i, x)).len() == expand(s).len() + x.1,
    decreases s.len(),
{
    let t = s.insert(i, x);
    if i == s.len() {
        assert(t.drop_last() =~= s);
    } else {
        assert(t.drop_last() =~= s.drop_last().insert(i, x));
        lemma_expand_len_insert(s.drop_last(), i, x);
    }
}

proof fn lemma_count_le_len(s: Seq<(u64, u64)>, i: int)
    requires
        0 <= i < s.len(),
    ensures
        s[i].1 <= expand(s).len(),
    decreases s.len(),
{
    if i < s.len() - 1 {
        lemma_count_le_len(s.drop_last(), i);
    }
}

/// The expansion of a prefix of the buckets is a prefix of the expansion.
proof fn lemma_expand_prefix(s: Seq<(u64, u64)>, j: int)
    requires
        0 <= j <= s.len(),
    ensures
        expand(s.subrange(0, j)).len() <= expand(s).len(),
        forall|k: int|
            0 <= k < expand(s.subrange(0, j)).len() ==> #[trigger] expand(s)[k] == expand(
                s.subrange(0, j),
            )[k],
    decreases s.len(),
{
    if j == s.len() {
        assert(s.subrange(0, j) =~= s);
    } else {
        lemma_expand_prefix(s.drop_last(), j);
        assert(s.drop_last().subrange(0, j) =~= s.subrange(0, j));
    }
}

/// Every sample is one of the bucket keys.
proof fn lemma_expand_members(s: Seq<(u64, u64)>, k: int)
    requires
        0 <= k < expand(s).len(),
    ensures
        exists|i: int| 0 <= i < s.len() && s[i].0 == expand(s)[k],
    decreases s.len(),
{
    let d = expand(s.drop_last());
    if k < d.len() {
        lemma_expand_members(s.drop_last(), k);
        let i = choose|i: int| 0 <= i < s.drop_last().len() && s.drop_last()[i].0 == d[k];
        assert(s[i].0 == expand(s)[k]);
    } else {
        assert(s[s.len() - 1].0 == expand(s)[k]);
    }
}

/// The samples of a well-formed histogram come out in ascending order.
pub proof fn lemma_samples_sorted(s: Seq<(u64, u64)>)
    requires
        buckets_wf(s),
    ensures
        forall|a: int, b: int| 0 <= a <= b < expand(s).len() ==> expand(s)[a] <= expand(s)[b],
    decreases s.len(),
{
    if s.len() > 0 {
        let d = s.drop_last();
        assert(buckets_wf(d));
        lemma_samples_sorted(d);
        assert forall|a: int, b: int| 0 <= a <= b < expand(s).len() implies expand(s)[a] <= expand(s)[b] by {
            let dl = expand(d).len();
            if b >= dl && a < dl {
                lemma_expand_members(d, a);
                let i = choose|i: int| 0 <= i < d.len() && d[i].0 == expand(d)[a];
                assert(s[i].0 < s[s.len() - 1].0);
            }
        }
    }
}

/// Latency totals: how many samples and their sum in milliseconds.
#[derive(Debug, Clone, Copy, PartialEq, Eq, Structural)]
pub struct LatencyTotals {
    pub total_samples: u64,
    pub sum_ms: u64,
}

/// Histogram of latencies in power-of-two millisecond buckets.
#[derive(Debug)]
pub struct LatencyHistogram {
    buckets: Vec<(u64, u64)>,
    total_samples: u64,
    sum_ms: u64,
}

impl LatencyHistogram {
    /// The buckets, ascending by key, with their counts.
    pub closed spec fn spec_buckets(&self) -> Seq<(u64, u64)> {
        self.buckets@
    }

    /// Number of samples recorded.
    pub closed spec fn spec_total(&self) -> u64 {
        self.total_samples
    }

    /// Sum of the recorded latencies in milliseconds.
    pub closed spec fn spec_sum(&self) -> u64 {
        self.sum_ms
    }

    /// Well-formedness: sorted buckets whose counts add up to the total.
    pub closed spec fn wf(&self) -> bool {
        buckets_wf(self.buckets@) && expand(self.buckets@).len() == self.total_samples
    }

    /// An empty histogram.
    pub fn new() -> (h: Self)
        ensures
            h.wf(),
            h.spec_buckets().len() == 0,
            h.spec_total() == 0,
            h.spec_sum() == 0,
    {
        let h = LatencyHistogram { buckets: Vec::new(), total_samples: 0, sum_ms: 0 };
        assert(expand(h.buckets@) =~= Seq::<u64>::empty());
        h
    }

    /// Records a latency of `latency_ms` milliseconds: its bucket gains one
    /// sample and the total and sum grow.
    #[verifier::rlimit(40)]
    pub fn record_millis(&mut self, latency_ms: u64)
        requires
            old(self).wf(),
            old(self).spec_total() < u64::MAX,
            old(self).spec_sum() + latency_ms <= u64::MAX,
            latency_ms <= 0x8000_0000_0000_0000,
        ensures
            final(self).wf(),
            forall|k: u64| #[trigger] bucket_count(final(self).spec_buckets(), k) == bucket_count(
                old(self).spec_buckets(),
                k,
            ) + if k == latency_bucket(latency_ms) {
                1int
            } else {
                0int
            },
            final(self).spec_total() == old(self).spec_total() + 1,
            final(self).spec_sum() == old(self).spec_sum() + latency_ms,
    {
        let b = latency_bucket_of(latency_ms);
        let ghost s = self.buckets@;
        let mut i: usize = 0;
        while i < self.buckets.len() && self.buckets[i].0 < b
            invariant
                self.buckets@ == s,
                i <= s.len(),
                forall|j: int| 0 <= j < i ==> s[j].0 < b,
            decreases s.len() - i,
        {
            i = i + 1;
        }
        proof {
            lemma_bucket_count(s, b);
        }
        if i < self.buckets.len() && self.buckets[i].0 == b {
            let c = self.buckets[i].1;
            proof {
                lemma_count_le_len(s, i as int);
            }
            self.buckets.set(i, (b, c + 1));
            proof {
                let t = self.buckets@;
                lemma_expand_len_update(s, i as int, (b, (c + 1) as u64));
                assert(buckets_wf(t));
                assert forall|k: u64| #[trigger] bucket_count(t, k) == bucket_count(s, k) + if k == b {
                    1int
                } else {
                    0int
                } by {
                    lemma_bucket_count(s, k);
                    lemma_bucket_count(t, k);
                    if k != b {
                        assert forall|j: int| 0 <= j < t.len() && t[j].0 == k implies s[j] == t[j] by {}
                        assert forall|j: int| 0 <= j < s.len() && s[j].0 == k implies s[j] == t[j] by {}
                    } else {
                        assert(t[i as int].0 == k);
                    }
                }
            }
        } else {
            proof {
                assert(i < s.len() ==> s[i as int].0 > b);
            }
            self.buckets.insert(i, (b, 1));
            proof {
                let t = self.buckets@;
                lemma_expand_len_insert(s, i as int, (b, 1));
                assert forall|x: int, y: int| 0 <= x < y < t.len() implies t[x].0 < t[y].0 by {
                    if y < i {
                    } else if y == i {
                    } else if x < i {
                        assert(t[y] == s[y - 1]);
                        if y - 1 > i {
                            assert(s[i as int].0 < s[y - 1].0);
                        }
                    } else if x == i {
                        assert(t[y] == s[y - 1]);
                        if y - 1 > i {
                            assert(s[i as int].0 < s[y - 1].0);
                        }
                    } else {
                        assert(t[x] == s[x - 1] && t[y] == s[y - 1]);
                    }
                }
                assert(buckets_wf(t));
                assert forall|k: u64| #[trigger] bucket_count(t, k) == bucket_count(s, k) + if k == b {
                    1int
                } else {
                    0int
                } by {
                    lemma_bucket_count(s, k);
                    lemma_bucket_count(t, k);
                    if k == b {
                        assert(t[i as int].0 == k);
                        assert forall|j: int| 0 <= j < s.len() implies s[j].0 != k by {
                            if j >= i {
                                if j > i {
                                    assert(s[i as int].0 < s[j].0);
                                }
                            }
                        }
                    } else {
                        assert forall|j: int| 0 <= j < t.len() && t[j].0 == k implies (if j < i {
                            s[j] == t[j]
                        } else {
                            j > i && s[j - 1] == t[j]
                        }) by {}
                        assert forall|j: int| 0 <= j < s.len() && s[j].0 == k implies (if j < i {
                            t[j] == s[j]
                        } else {
                            t[j + 1] == s[j]
                        }) by {}
                    }
                }
            }
        }
        self.total_samples = self.total_samples + 1;
        self.sum_ms = self.sum_ms + latency_ms;
    }

    /// `after` is this histogram with a sample of `ms` milliseconds
    /// recorded, or, when that sample does not fit the counters, unchanged.
    pub open spec fn records_or_skips(self, after: Self, ms: u64) -> bool {
        let fits = self.spec_total() < u64::MAX && self.spec_sum() + ms <= u64::MAX && ms
            <= 0x8000_0000_0000_0000;
        &&& fits ==> after.spec_total() == self.spec_total() + 1 && after.spec_sum()
            == self.spec_sum() + ms && forall|k: u64| #[trigger]
            bucket_count(after.spec_buckets(), k) == bucket_count(self.spec_buckets(), k) + if k
            == latency_bucket(ms) {
            1int
        } else {
            0int
        }
        &&& !fits ==> after.spec_buckets() == self.spec_buckets() && after.spec_total()
            == self.spec_total() && after.spec_sum() == self.spec_sum()
    }

    /// Records a latency given as a duration.  The sample is skipped only
    /// when recording it would overflow the counters (or the latency is
    /// beyond the largest bucket).
    pub fn record(&mut self, latency: Duration)
        requires
            old(self).wf(),
        ensures
            final(self).wf(),
            old(self).records_or_skips(*final(self), duration_millis(latency) as u64),
    {
        let ghost before = *self;
        let ms = #[verifier::truncate] (duration_as_millis(&latency) as u64);
        if self.total_samples < u64::MAX && ms <= u64::MAX - self.sum_ms && ms <= 0x8000_0000_0000_0000 {
            self.record_millis(ms);
        }
        assert(before.records_or_skips(*self, ms));
    }

    /// Number of samples and their sum.
    pub fn get_stats(&self) -> (t: LatencyTotals)
        ensures
            t.total_samples == self.spec_total(),
            t.sum_ms == self.spec_sum(),
    {
        LatencyTotals { total_samples: self.total_samples, sum_ms: self.sum_ms }
    }

    /// The `idx`-th smallest recorded sample (as its bucket value), or 0
    /// when there are not that many samples.
    pub fn sample_at(&self, idx: u64) -> (v: u64)
        requires
            self.wf(),
        ensures
            v == if idx < expand(self.spec_buckets()).len() {
                expand(self.spec_buckets())[idx as int]
            } else {
                0
            },
    {
        let ghost s = self.buckets@;
        let mut acc: u64 = 0;
        let mut i: usize = 0;
        while i < self.buckets.len()
            invariant
                s == self.buckets@,
                buckets_wf(s),
                expand(s).len() == self.total_samples,
                i <= s.len(),
                acc == expand(s.subrange(0, i as int)).len(),
                acc <= idx,
            decreases s.len() - i,
        {
            let (k, c) = self.buckets[i];
            proof {
                lemma_expand_prefix(s, i + 1);
                assert(s.subrange(0, i + 1).drop_last() =~= s.subrange(0, i as int));
            }
            if idx - acc < c {
                proof {
                    let e = expand(s.subrange(0, i + 1));
                    assert(e[idx as int] == k);
                    assert(expand(s)[idx as int] == e[idx as int]);
                }
                return k;
            }
            acc = acc + c;
            i = i + 1;
        }
        proof {
            assert(s.subrange(0, s.len() as int) =~= s);
        }
        0
    }

    /// The largest recorded sample (as its bucket value), or 0 when empty.
    pub fn max_sample(&self) -> (v: u64)
        requires
            self.wf(),
        ensures
            v == if expand(self.spec_buckets()).len() == 0 {
                0
            } else {
                expand(self.spec_buckets()).last()
            },
    {
        let n = self.buckets.len();
        if n == 0 {
            0
        } else {
            self.buckets[n - 1].0
        }
    }
}

// ---------------------------------------------------------------------
// Throughput window
// ---------------------------------------------------------------------

/// One transfer recorded in the throughput window.
#[derive(Debug, Clone, Copy, PartialEq, Eq, Structural)]
pub struct ThroughputSample {
    pub timestamp_ms: u64,
    pub bytes_sent: usize,
    pub bytes_received: usize,
}

/// Totals over the samples in the window.
#[derive(Debug, Clone, Copy, PartialEq, Eq, Structural)]
pub struct ThroughputTotals {
    pub total_sent: u128,
    pub total_received: u128,
    pub message_count: usize,
}

/// Length of the throughput window: one minute.
pub const THROUGHPUT_WINDOW_MS: u64 = 60_000;

/// Samples strictly newer than `cutoff`, in the order they were recorded.
pub open spec fn recent(s: Seq<ThroughputSample>, cutoff: u64) -> Seq<ThroughputSample>
    decreases s.len(),
{
    if s.len() == 0 {
        Seq::empty()
    } else {
        let r = recent(s.drop_last(), cutoff);
        if s.last().timestamp_ms > cutoff {
            r.push(s.last())
        } else {
            r
        }
    }
}

/// The oldest timestamp that falls out of a window of `window_ms` ending at `now_ms`.
pub open spec fn window_cutoff(now_ms: u64, window_ms: u64) -> u64 {
    if now_ms > window_ms {
        (now_ms - window_ms) as u64
    } else {
        0
    }
}

/// Sum of the bytes sent over the samples.
pub open spec fn sum_sent(s: Seq<ThroughputSample>) -> nat
    decreases s.len(),
{
    if s.len() == 0 {
        0
    } else {
        sum_sent(s.drop_last()) + s.last().bytes_sent as nat
    }
}

/// Sum of the bytes received over the samples.
pub open spec fn sum_received(s: Seq<ThroughputSample>) -> nat
    decreases s.len(),
{
    if s.len() == 0 {
        0
    } else {
        sum_received(s.drop_last()) + s.last().bytes_received as nat
    }
}

/// Transfers recorded over the last minute.
#[derive(Debug)]
pub struct ThroughputWindow {
    window_ms: u64,
    samples: Vec<ThroughputSample>,
}

impl ThroughputWindow {
    /// The samples, oldest first.
    pub closed spec fn spec_samples(&self) -> Seq<ThroughputSample> {
        self.samples@
    }

    /// The window length in milliseconds.
    pub closed spec fn spec_window_ms(&self) -> u64 {
        self.window_ms
    }

    /// An empty one-minute window.
    pub fn new() -> (w: Self)
        ensures
            w.spec_samples().len() == 0,
            w.spec_window_ms() == THROUGHPUT_WINDOW_MS,
    {
        ThroughputWindow { window_ms: THROUGHPUT_WINDOW_MS, samples: Vec::new() }
    }

    /// The window length in milliseconds.
    pub fn window_ms(&self) -> (ms: u64)
        ensures
            ms == self.spec_window_ms(),
    {
        self.window_ms
    }

    /// Drops the samples that are not newer than `now_ms` minus the window.
    pub fn cleanup_old_samples_at(&mut self, now_ms: u64)
        ensures
            final(self).spec_samples() == recent(
                old(self).spec_samples(),
                window_cutoff(now_ms, old(self).spec_window_ms()),
            ),
            final(self).spec_window_ms() == old(self).spec_window_ms(),
    {
        let cutoff: u64 = if now_ms > self.window_ms {
            now_ms - self.window_ms
        } else {
            0
        };
        let ghost s = self.samples@;
        let mut kept: Vec<ThroughputSample> = Vec::new();
        let mut i: usize = 0;
        while i < self.samples.len()
            invariant
                s == self.samples@,
                i <= s.len(),
                kept@ == recent(s.subrange(0, i as int), cutoff),
            decreases s.len() - i,
        {
            let x = self.samples[i];
            assert(s.subrange(0, i + 1).drop_last() =~= s.subrange(0, i as int));
            if x.timestamp_ms > cutoff {
                kept.push(x);
            }
            i = i + 1;
        }
        assert(s.subrange(0, s.len() as int) =~= s);
        self.samples = kept;
    }

    /// Drops the samples that fell out of the window, reading the clock.
    pub fn cleanup_old_samples(&mut self)
        ensures
            exists|now_ms: u64|
                final(self).spec_samples() == recent(
                    old(self).spec_samples(),
                    #[trigger] window_cutoff(now_ms, old(self).spec_window_ms()),
                ),
            final(self).spec_window_ms() == old(self).spec_window_ms(),
    {
        let now = now_unix_millis();
        self.cleanup_old_samples_at(now);
    }

    /// Records `bytes` sent at time `now_ms`, after dropping stale samples.
    pub fn record_sent_at(&mut self, now_ms: u64, bytes: usize)
        ensures
            final(self).spec_samples() == recent(
                old(self).spec_samples(),
                window_cutoff(now_ms, old(self).spec_window_ms()),
            ).push(ThroughputSample { timestamp_ms: now_ms, bytes_sent: bytes, bytes_received: 0 }),
            final(self).spec_window_ms() == old(self).spec_window_ms(),
    {
        self.cleanup_old_samples_at(now_ms);
        self.samples.push(ThroughputSample { timestamp_ms: now_ms, bytes_sent: bytes, bytes_received: 0 });
    }

    /// Records `bytes` received at time `now_ms`, after dropping stale samples.
    pub fn record_received_at(&mut self, now_ms: u64, bytes: usize)
        ensures
            final(self).spec_samples() == recent(
                old(self).spec_samples(),
                window_cutoff(now_ms, old(self).spec_window_ms()),
            ).push(ThroughputSample { timestamp_ms: now_ms, bytes_sent: 0, bytes_received: bytes }),
            final(self).spec_window_ms() == old(self).spec_window_ms(),
    {
        self.cleanup_old_samples_at(now_ms);
        self.samples.push(ThroughputSample { timestamp_ms: now_ms, bytes_sent: 0, bytes_received: bytes });
    }

    /// Records `bytes` sent now.
    pub fn record_sent(&mut self, bytes: usize)
        ensures
            exists|now_ms: u64|
                final(self).spec_samples() == recent(
                    old(self).spec_samples(),
                    #[trigger] window_cutoff(now_ms, old(self).spec_window_ms()),
                ).push(ThroughputSample { timestamp_ms: now_ms, bytes_sent: bytes, bytes_received: 0 }),
            final(self).spec_window_ms() == old(self).spec_window_ms(),
    {
        let now = now_unix_millis();
        self.record_sent_at(now, bytes);
    }

    /// Records `bytes` received now.
    pub fn record_received(&mut self, bytes: usize)
        ensures
            exists|now_ms: u64|
                final(self).spec_samples() == recent(
                    old(self).spec_samples(),
                    #[trigger] window_cutoff(now_ms, old(self).spec_window_ms()),
                ).push(ThroughputSample { timestamp_ms: now_ms, bytes_sent: 0, bytes_received: bytes }),
            final(self).spec_window_ms() == old(self).spec_window_ms(),
    {
        let now = now_unix_millis();
        self.record_received_at(now, bytes);
    }

    /// Bytes sent, bytes received and number of samples in the window.
    pub fn get_stats(&self) -> (t: ThroughputTotals)
        ensures
            t.total_sent == sum_sent(self.spec_samples()),
            t.total_received == sum_received(self.spec_samples()),
            t.message_count == self.spec_samples().len(),
    {
        let ghost s = self.samples@;
        let mut sent: u128 = 0;
        let mut received: u128 = 0;
        let mut i: usize = 0;
        while i < self.samples.len()
            invariant
                s == self.samples@,
                i <= s.len(),
                sent == sum_sent(s.subrange(0, i as int)),
                received == sum_received(s.subrange(0, i as int)),
                sent <= i * 0xFFFF_FFFF_FFFF_FFFF,
                received <= i * 0xFFFF_FFFF_FFFF_FFFF,
            decreases s.len() - i,
        {
            let x = self.samples[i];
            assert(s.subrange(0, i + 1).drop_last() =~= s.subrange(0, i as int));
            assert(x.bytes_sent <= 0xFFFF_FFFF_FFFF_FFFF && x.bytes_received <= 0xFFFF_FFFF_FFFF_FFFF);
            sent = sent + x.bytes_sent as u128;
            received = received + x.bytes_received as u128;
            i = i + 1;
        }
        assert(s.subrange(0, s.len() as int) =~= s);
        ThroughputTotals { total_sent: sent, total_received: received, message_count: self.samples.len() }
    }
}

// ---------------------------------------------------------------------
// Network metrics
// ---------------------------------------------------------------------

/// The integer counters of the network metrics.
#[derive(Debug, Clone, Copy, PartialEq, Eq, Structural)]
pub struct NetworkCounters {
    pub connected_peers: usize,
    pub total_connections: u64,
    pub failed_connections: u64,
    pub messages_sent: u64,
    pub messages_received: u64,
    pub bytes_sent: u64,
    pub bytes_received: u64,
    pub transactions_submitted: u64,
    pub nodes_validated: u64,
    pub validation_failures: u64,
    pub start_secs: u64,
    pub last_update: u64,
}

/// `x + 1` on a `usize`, wrapping to 0.
pub open spec fn wrap_inc_usize(x: usize) -> usize {
    if x == usize::MAX {
        0
    } else {
        (x + 1) as usize
    }
}

/// `x - 1` on a `usize`, wrapping to `usize::MAX`.
pub open spec fn wrap_dec_usize(x: usize) -> usize {
    if x == 0 {
        usize::MAX
    } else {
        (x - 1) as usize
    }
}

/// `a` and `b` agree except possibly on `last_update`.
pub open spec fn same_but_clock(a: NetworkCounters, b: NetworkCounters) -> bool {
    a == NetworkCounters { last_update: a.last_update, ..b }
}

/// Network metrics: connection, message and DAG counters, a latency
/// histogram and a throughput window.
#[derive(Debug)]
pub struct NetworkMetrics {
    counters: NetworkCounters,
    latency_histogram: LatencyHistogram,
    throughput_window: ThroughputWindow,
}

impl View for NetworkMetrics {
    type V = NetworkCounters;

    closed spec fn view(&self) -> NetworkCounters {
        self.counters
    }
}

impl NetworkMetrics {
    /// The latency histogram.
    pub closed spec fn spec_latency(&self) -> LatencyHistogram {
        self.latency_histogram
    }

    /// The throughput window.
    pub closed spec fn spec_throughput(&self) -> ThroughputWindow {
        self.throughput_window
    }

    /// Well-formedness of the latency histogram.
    pub closed spec fn wf(&self) -> bool {
        self.latency_histogram.wf()
    }

    /// All counters zero; start time and last update read from the clock.
    pub fn new() -> (m: Self)
        ensures
            m.wf(),
            m@ == (NetworkCounters {
                connected_peers: 0,
                total_connections: 0,
                failed_connections: 0,
                messages_sent: 0,
                messages_received: 0,
                bytes_sent: 0,
                bytes_received: 0,
                transactions_submitted: 0,
                nodes_validated: 0,
                validation_failures: 0,
                start_secs: m@.start_secs,
                last_update: m@.last_update,
            }),
            m.spec_latency().spec_total() == 0,
            m.spec_latency().spec_sum() == 0,
            m.spec_latency().spec_buckets().len() == 0,
            m.spec_throughput().spec_samples().len() == 0,
            m.spec_throughput().spec_window_ms() == THROUGHPUT_WINDOW_MS,
    {
        let start = now_unix_secs();
        let now = now_unix_secs();
        NetworkMetrics {
            counters: NetworkCounters {
                connected_peers: 0,
                total_connections: 0,
                failed_connections: 0,
                messages_sent: 0,
                messages_received: 0,
                bytes_sent: 0,
                bytes_received: 0,
                transactions_submitted: 0,
                nodes_validated: 0,
                validation_failures: 0,
                start_secs: start,
                last_update: now,
            },
            latency_histogram: LatencyHistogram::new(),
            throughput_window: ThroughputWindow::new(),
        }
    }

    fn update_timestamp(&mut self)
        ensures
            same_but_clock(final(self)@, old(self)@),
            final(self).spec_latency() == old(self).spec_latency(),
            final(self).spec_throughput() == old(self).spec_throughput(),
    {
        self.counters.last_update = now_unix_secs();
    }

    /// A peer connected.
    pub fn peer_connected(&mut self)
        ensures
            final(self).wf() == old(self).wf(),
            same_but_clock(
                final(self)@,
                NetworkCounters {
                    connected_peers: wrap_inc_usize(old(self)@.connected_peers),
                    total_connections: wrap_inc(old(self)@.total_connections),
                    ..old(self)@
                },
            ),
            final(self).spec_latency() == old(self).spec_latency(),
            final(self).spec_throughput() == old(self).spec_throughput(),
    {
        self.counters.connected_peers = if self.counters.connected_peers == usize::MAX {
            0
        } else {
            self.counters.connected_peers + 1
        };
        self.counters.total_connections = counter_inc(self.counters.total_connections);
        self.update_timestamp();
    }

    /// A peer disconnected.
    pub fn peer_disconnected(&mut self)
        ensures
            final(self).wf() == old(self).wf(),
            same_but_clock(
                final(self)@,
                NetworkCounters { connected_peers: wrap_dec_usize(old(self)@.connected_peers), ..old(self)@ },
            ),
            final(self).spec_latency() == old(self).spec_latency(),
            final(self).spec_throughput() == old(self).spec_throughput(),
    {
        self.counters.connected_peers = if self.counters.connected_peers == 0 {
            usize::MAX
        } else {
            self.counters.connected_peers - 1
        };
        self.update_timestamp();
    }

    /// A connection attempt failed.
    pub fn connection_failed(&mut self)
        ensures
            final(self).wf() == old(self).wf(),
            same_but_clock(
                final(self)@,
                NetworkCounters { failed_connections: wrap_inc(old(self)@.failed_connections), ..old(self)@ },
            ),
            final(self).spec_latency() == old(self).spec_latency(),
            final(self).spec_throughput() == old(self).spec_throughput(),
    {
        self.counters.failed_connections = counter_inc(self.counters.failed_connections);
        self.update_timestamp();
    }

    /// A message of `bytes` bytes was sent.
    pub fn message_sent(&mut self, bytes: usize)
        ensures
            final(self).wf() == old(self).wf(),
            same_but_clock(
                final(self)@,
                NetworkCounters {
                    messages_sent: wrap_inc(old(self)@.messages_sent),
                    bytes_sent: wrap_add(old(self)@.bytes_sent, bytes as u64),
                    ..old(self)@
                },
            ),
            final(self).spec_latency() == old(self).spec_latency(),
            exists|now_ms: u64|
                final(self).spec_throughput().spec_samples() == recent(
                    old(self).spec_throughput().spec_samples(),
                    #[trigger] window_cutoff(now_ms, old(self).spec_throughput().spec_window_ms()),
                ).push(ThroughputSample { timestamp_ms: now_ms, bytes_sent: bytes, bytes_received: 0 }),
            final(self).spec_throughput().spec_window_ms() == old(self).spec_throughput().spec_window_ms(),
    {
        self.counters.messages_sent = counter_inc(self.counters.messages_sent);
        self.counters.bytes_sent = counter_add(self.counters.bytes_sent, bytes as u64);
        let now = now_unix_millis();
        self.throughput_window.record_sent_at(now, bytes);
        self.update_timestamp();
        assert(self.spec_throughput().spec_samples() == recent(
            old(self).spec_throughput().spec_samples(),
            window_cutoff(now, old(self).spec_throughput().spec_window_ms()),
        ).push(ThroughputSample { timestamp_ms: now, bytes_sent: bytes, bytes_received: 0 }));
    }

    /// A message of `bytes` bytes was received.
    pub fn message_received(&mut self, bytes: usize)
        ensures
            final(self).wf() == old(self).wf(),
            same_but_clock(
                final(self)@,
                NetworkCounters {
                    messages_received: wrap_inc(old(self)@.messages_received),
                    bytes_received: wrap_add(old(self)@.bytes_received, bytes as u64),
                    ..old(self)@
                },
            ),
            final(self).spec_latency() == old(self).spec_latency(),
            exists|now_ms: u64|
                final(self).spec_throughput().spec_samples() == recent(
                    old(self).spec_throughput().spec_samples(),
                    #[trigger] window_cutoff(now_ms, old(self).spec_throughput().spec_window_ms()),
                ).push(ThroughputSample { timestamp_ms: now_ms, bytes_sent: 0, bytes_received: bytes }),
            final(self).spec_throughput().spec_window_ms() == old(self).spec_throughput().spec_window_ms(),
    {
        self.counters.messages_received = counter_inc(self.counters.messages_received);
        self.counters.bytes_received = counter_add(self.counters.bytes_received, bytes as u64);
        let now = now_unix_millis();
        self.throughput_window.record_received_at(now, bytes);
        self.update_timestamp();
        assert(self.spec_throughput().spec_samples() == recent(
            old(self).spec_throughput().spec_samples(),
            window_cutoff(now, old(self).spec_throughput().spec_window_ms()),
        ).push(ThroughputSample { timestamp_ms: now, bytes_sent: 0, bytes_received: bytes }));
    }

    /// A transaction was submitted.
    pub fn increment_transactions(&mut self)
        ensures
            final(self).wf() == old(self).wf(),
            same_but_clock(
                final(self)@,
                NetworkCounters {
                    transactions_submitted: wrap_inc(old(self)@.transactions_submitted),
                    ..old(self)@
                },
            ),
            final(self).spec_latency() == old(self).spec_latency(),
            final(self).spec_throughput() == old(self).spec_throughput(),
    {
        self.counters.transactions_submitted = counter_inc(self.counters.transactions_submitted);
        self.update_timestamp();
    }

    /// A node passed validation.
    pub fn node_validated(&mut self)
        ensures
            final(self).wf() == old(self).wf(),
            same_but_clock(
                final(self)@,
                NetworkCounters { nodes_validated: wrap_inc(old(self)@.nodes_validated), ..old(self)@ },
            ),
            final(self).spec_latency() == old(self).spec_latency(),
            final(self).spec_throughput() == old(self).spec_throughput(),
    {
        self.counters.nodes_validated = counter_inc(self.counters.nodes_validated);
        self.update_timestamp();
    }

    /// A node failed validation.
    pub fn validation_failed(&mut self)
        ensures
            final(self).wf() == old(self).wf(),
            same_but_clock(
                final(self)@,
                NetworkCounters { validation_failures: wrap_inc(old(self)@.validation_failures), ..old(self)@ },
            ),
            final(self).spec_latency() == old(self).spec_latency(),
            final(self).spec_throughput() == old(self).spec_throughput(),
    {
        self.counters.validation_failures = counter_inc(self.counters.validation_failures);
        self.update_timestamp();
    }

    /// Records a network latency in the histogram.
    pub fn record_latency(&mut self, latency: Duration)
        requires
            old(self).wf(),
        ensures
            final(self).wf(),
            same_but_clock(final(self)@, old(self)@),
            old(self).spec_latency().records_or_skips(
                final(self).spec_latency(),
                duration_millis(latency) as u64,
            ),
            final(self).spec_throughput() == old(self).spec_throughput(),
    {
        let ghost h0 = self.latency_histogram;
        self.latency_histogram.record(latency);
        assert(self.latency_histogram.wf());
        self.update_timestamp();
        assert(h0 == old(self).spec_latency());
    }

    /// The integer counters.
    pub fn counters(&self) -> (c: NetworkCounters)
        ensures
            c == self@,
    {
        self.counters
    }

    /// The latency histogram.
    pub fn latency_histogram(&self) -> (h: &LatencyHistogram)
        ensures
            *h == self.spec_latency(),
    {
        &self.latency_histogram
    }

    /// The throughput window.
    pub fn throughput_window(&self) -> (w: &ThroughputWindow)
        ensures
            *w == self.spec_throughput(),
    {
        &self.throughput_window
    }

    /// Seconds since the metrics were created (0 if the clock went back).
    pub fn uptime_seconds(&self) -> (secs: u64)
        ensures
            exists|now: u64| secs == #[trigger] window_cutoff(now, self@.start_secs),
    {
        let now = now_unix_secs();
        let secs = if now > self.counters.start_secs {
            now - self.counters.start_secs
        } else {
            0
        };
        assert(secs == window_cutoff(now, self@.start_secs));
        secs
    }
}


impl Default for NetworkMetrics {
    fn default() -> (m: Self)
        ensures
            m.wf(),
            m@ == (NetworkCounters {
                connected_peers: 0,
                total_connections: 0,
                failed_connections: 0,
                messages_sent: 0,
                messages_received: 0,
                bytes_sent: 0,
                bytes_received: 0,
                transactions_submitted: 0,
                nodes_validated: 0,
                validation_failures: 0,
                start_secs: m@.start_secs,
                last_update: m@.last_update,
            }),
            m.spec_latency().spec_total() == 0,
            m.spec_latency().spec_sum() == 0,
            m.spec_latency().spec_buckets().len() == 0,
            m.spec_throughput().spec_samples().len() == 0,
            m.spec_throughput().spec_window_ms() == THROUGHPUT_WINDOW_MS,
    {
        NetworkMetrics::new()
    }
}

/// Cleaning the throughput window keeps exactly the samples newer than the
/// cutoff, in their order: every kept sample is newer than the cutoff, and
/// every sample newer than the cutoff is kept.  The cutoff is the window
/// length before `now_ms`.
pub proof fn lemma_recent_keeps_exactly_newer(s: Seq<ThroughputSample>, cutoff: u64)
    ensures
        recent(s, cutoff) == s.filter(|x: ThroughputSample| x.timestamp_ms > cutoff),
        forall|i: int| 0 <= i < recent(s, cutoff).len() ==> (#[trigger] recent(s, cutoff)[i]).timestamp_ms > cutoff,
        forall|i: int| 0 <= i < s.len() && (#[trigger] s[i]).timestamp_ms > cutoff ==> recent(s, cutoff).contains(s[i]),
    decreases s.len(),
{
    reveal(Seq::filter);
    broadcast use vstd::seq_lib::group_filter_ensures;
    if s.len() > 0 {
        lemma_recent_keeps_exactly_newer(s.drop_last(), cutoff);
    }
    let f = s.filter(|x: ThroughputSample| x.timestamp_ms > cutoff);
    assert forall|i: int| 0 <= i < s.len() && (#[trigger] s[i]).timestamp_ms > cutoff implies recent(s, cutoff).contains(s[i]) by {
        s.lemma_filter_contains(|x: ThroughputSample| x.timestamp_ms > cutoff, i);
    }
    assert forall|i: int| 0 <= i < recent(s, cutoff).len() implies (#[trigger] recent(s, cutoff)[i]).timestamp_ms > cutoff by {
        s.lemma_filter_pred(|x: ThroughputSample| x.timestamp_ms > cutoff, i);
    }
}

/// The cutoff of a window is the window length before `now_ms` (the epoch
/// when less time than that has passed).
pub proof fn lemma_window_cutoff(now_ms: u64, window_ms: u64)
    ensures
        now_ms >= window_ms ==> window_cutoff(now_ms, window_ms) + window_ms == now_ms,
        now_ms < window_ms ==> window_cutoff(now_ms, window_ms) == 0,
{
}

} // verus!
