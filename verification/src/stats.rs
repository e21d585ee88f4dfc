//! Per-worker statistics: monotone instant counters for per-second deltas,
//! latency histograms, per-status error counts, and the cross-worker
//! aggregation the runner performs at the end of a run.

use vstd::multiset::Multiset;
use vstd::prelude::*;

verus! {

/// A 3-significant-figure HDR latency histogram in nanoseconds, from the
/// `hdrhistogram` crate; opaque to the verifier, described through
/// `hist_samples`.
#[verifier::external_body]
pub struct LatencyHistogram {
    inner: hdrhistogram::Histogram<u64>,
}

/// The recorded samples of a latency histogram, as a multiset of the
/// values handed to `record`.
pub uninterp spec fn hist_samples(h: LatencyHistogram) -> Multiset<u64>;

impl LatencyHistogram {
    /// Relies on `hdrhistogram::Histogram::new`: three significant digits
    /// is a valid precision, so the construction succeeds, auto-resizing
    /// and empty.
    #[verifier::external_body]
    pub fn new() -> (h: LatencyHistogram)
        ensures
            hist_samples(h) == Multiset::<u64>::empty(),
    {
        LatencyHistogram { inner: hdrhistogram::Histogram::new(3).unwrap() }
    }

    /// Relies on `hdrhistogram::Histogram::record`: with auto-resize on it
    /// stores the sample exactly, growing the counts array as needed; the
    /// resize can only fail where its bin count (at most 262 144 for three
    /// significant digits) does not fit in `usize`, which cannot happen on
    /// this target. The fallback clamps the sample into range on targets
    /// that narrow, so recording never fails.
    #[verifier::external_body]
    pub fn record(&mut self, value: u64)
        ensures
            hist_samples(*final(self)) == hist_samples(*old(self)).insert(value),
    {
        if self.inner.record(value).is_err() {
            self.inner.saturating_record(value);
        }
    }

    /// Relies on `hdrhistogram::Histogram::add`: every recorded sample of
    /// the source is added to this histogram. With auto-resize on (as every
    /// histogram of this library has), `add` can only fail where a resize
    /// fails, and the resize's bin count (at most 262 144 for three
    /// significant digits) always fits in `usize` on this target; so the
    /// merge succeeds.
    #[verifier::external_body]
    pub fn add(&mut self, src: &LatencyHistogram) -> (r: Result<(), ()>)
        ensures
            r is Ok,
            hist_samples(*final(self)) == hist_samples(*old(self)).add(hist_samples(*src)),
    {
        self.inner.add(&src.inner).map_err(|_| ())
    }

    /// Relies on `hdrhistogram::Histogram::len`: the total number of
    /// samples recorded; the internal count saturates at `u64::MAX`.
    #[verifier::external_body]
    pub fn len(&self) -> (r: u64)
        ensures
            hist_samples(*self).len() <= u64::MAX ==> r == hist_samples(*self).len(),
            hist_samples(*self).len() > u64::MAX ==> r == u64::MAX,
    {
        self.inner.len()
    }

    /// Relies on `hdrhistogram::serialization::V2Serializer`: encodes the
    /// histogram so a caller outside the library can decode it and render
    /// percentiles.
    #[verifier::external_body]
    pub fn to_serialized_bytes(&self) -> (r: Result<Vec<u8>, ()>) {
        let mut buf = Vec::new();
        let mut ser = hdrhistogram::serialization::V2Serializer::new();
        match hdrhistogram::serialization::Serializer::serialize(&mut ser, &self.inner, &mut buf) {
            Ok(_) => Ok(buf),
            Err(_) => Err(()),
        }
    }
}

/// Monotonically increasing per-worker counters, sampled once per second
/// for progress deltas.
pub struct InstantStats {
    pub requests_issued: usize,
    pub bytes_written: usize,
    pub bytes_read: usize,
}

impl Clone for InstantStats {
    fn clone(&self) -> (r: Self)
        ensures
            r == *self,
    {
        InstantStats {
            requests_issued: self.requests_issued,
            bytes_written: self.bytes_written,
            bytes_read: self.bytes_read,
        }
    }
}

impl Default for InstantStats {
    fn default() -> (r: Self)
        ensures
            r.requests_issued == 0,
            r.bytes_written == 0,
            r.bytes_read == 0,
    {
        InstantStats { requests_issued: 0, bytes_written: 0, bytes_read: 0 }
    }
}

/// The growth of a counter that may have wrapped once since the last
/// sample.
pub open spec fn spec_changed(prev: usize, curr: usize) -> usize {
    if curr >= prev {
        (curr - prev) as usize
    } else {
        (usize::MAX - prev + curr) as usize
    }
}

/// The delta of a counter since the previous sample, allowing for one
/// wrap-around.
pub fn changed(prev: usize, curr: usize) -> (r: usize)
    ensures
        r == spec_changed(prev, curr),
{
    if curr >= prev {
        curr - prev
    } else {
        (usize::MAX - prev) + curr
    }
}

impl InstantStats {
    /// The counter deltas since the sample `since`.
    pub fn changed(&self, since: &InstantStats) -> (r: InstantStats)
        ensures
            r.requests_issued == spec_changed(since.requests_issued, self.requests_issued),
            r.bytes_written == spec_changed(since.bytes_written, self.bytes_written),
            r.bytes_read == spec_changed(since.bytes_read, self.bytes_read),
    {
        InstantStats {
            requests_issued: changed(since.requests_issued, self.requests_issued),
            bytes_written: changed(since.bytes_written, self.bytes_written),
            bytes_read: changed(since.bytes_read, self.bytes_read),
        }
    }
}

/// Error counts by HTTP status code, with one entry per status.
pub struct ErrorCounts {
    pub entries: Vec<(u16, usize)>,
}

/// The count recorded for a status: the sum over all entries carrying it.
pub open spec fn errors_count(s: Seq<(u16, usize)>, status: u16) -> int
    decreases s.len(),
{
    if s.len() == 0 {
        0
    } else {
        errors_count(s.drop_last(), status) + if s.last().0 == status {
            s.last().1 as int
        } else {
            0int
        }
    }
}

/// Addition that stops at the largest representable count.
pub open spec fn sat_add(a: int, b: int) -> int {
    if a + b > usize::MAX as int {
        usize::MAX as int
    } else {
        a + b
    }
}

impl ErrorCounts {
    pub open spec fn count_of(&self, status: u16) -> int {
        errors_count(self.entries@, status)
    }

    /// One entry per status code.
    pub open spec fn wf(&self) -> bool {
        forall|i: int, j: int|
            0 <= i < j < self.entries@.len() ==> (#[trigger] self.entries@[i]).0 != (
            #[trigger] self.entries@[j]).0
    }

    pub fn new() -> (r: Self)
        ensures
            r.wf(),
            forall|st: u16| r.count_of(st) == 0,
            r.entries@.len() == 0,
    {
        let r = ErrorCounts { entries: Vec::new() };
        proof {
            assert(forall|st: u16| r.count_of(st) == 0);
        }
        r
    }

    /// Bumps the count for `status` by one, stopping at the largest
    /// representable count.
    #[verifier::loop_isolation(false)]
    pub fn record(&mut self, status: u16)
        requires
            old(self).wf(),
        ensures
            final(self).wf(),
            forall|st: u16|
                final(self).count_of(st) == if st == status {
                    sat_add(old(self).count_of(st), 1)
                } else {
                    old(self).count_of(st)
                },
    {
        self.add_count(status, 1);
    }

    /// Adds every count of `other` into this map, stopping at the largest
    /// representable count.
    #[verifier::loop_isolation(false)]
    pub fn merge(&mut self, other: &ErrorCounts)
        requires
            old(self).wf(),
            other.wf(),
        ensures
            final(self).wf(),
            forall|st: u16|
                final(self).count_of(st) == sat_add(old(self).count_of(st), other.count_of(st)),
    {
        let ghost others = other.entries@;
        proof {
            assert(others.take(0) =~= Seq::<(u16, usize)>::empty());
            assert forall|st: u16|
                old(self).count_of(st) == sat_add(
                    old(self).count_of(st),
                    errors_count(others.take(0), st),
                ) by {
                lemma_errors_count_bounded(*old(self), st);
            }
        }
        let mut i: usize = 0;
        while i < other.entries.len()
            invariant
                self.wf(),
                other.wf(),
                others == other.entries@,
                i <= others.len(),
                forall|st: u16|
                    self.count_of(st) == sat_add(
                        old(self).count_of(st),
                        errors_count(others.take(i as int), st),
                    ),
            decreases others.len() - i,
        {
            let (k, v) = other.entries[i];
            let ghost mid = self.entries@;
            self.add_count(k, v);
            proof {
                assert forall|st: u16|
                    self.count_of(st) == sat_add(
                        old(self).count_of(st),
                        errors_count(others.take(i as int + 1), st),
                    ) by {
                    assert(others.take(i as int + 1).drop_last() =~= others.take(i as int));
                    assert(others.take(i as int + 1).last() == others[i as int]);
                    lemma_errors_count_bounded(*old(self), st);
                    lemma_errors_count_nonneg(others.take(i as int), st);
                }
            }
            i += 1;
        }
        proof {
            assert(others.take(others.len() as int) =~= others);
        }
    }

    /// Adds `v` to the count for `status`.
    #[verifier::loop_isolation(false)]
    fn add_count(&mut self, status: u16, v: usize)
        requires
            old(self).wf(),
        ensures
            final(self).wf(),
            forall|st: u16|
                final(self).count_of(st) == if st == status {
                    sat_add(old(self).count_of(st), v as int)
                } else {
                    old(self).count_of(st)
                },
    {
        let ghost entries0 = self.entries@;
        let mut i: usize = 0;
        while i < self.entries.len()
            invariant
                self.entries@ == entries0,
                i <= entries0.len(),
                forall|j: int| 0 <= j < i ==> (#[trigger] entries0[j]).0 != status,
            decreases entries0.len() - i,
        {
            let (k, cur) = self.entries[i];
            if k == status {
                let nv = if cur <= usize::MAX - v {
                    cur + v
                } else {
                    usize::MAX
                };
                self.entries.set(i, (k, nv));
                proof {
                    assert forall|j: int| 0 <= j < entries0.len() implies (
                    #[trigger] self.entries@[j]).0 == entries0[j].0 by {}
                    assert forall|st: u16|
                        final(self).count_of(st) == (if st == status {
                            sat_add(old(self).count_of(st), v as int)
                        } else {
                            old(self).count_of(st)
                        }) by {
                        lemma_errors_count_update(entries0, i as int, nv, st);
                        if st == status {
                            lemma_errors_count_only_key(*old(self), i as int, status);
                            lemma_errors_count_bounded(*old(self), st);
                        }
                    }
                }
                return ;
            }
            i += 1;
        }
        self.entries.push((status, v));
        proof {
            assert(self.entries@.drop_last() =~= entries0);
            assert forall|j: int| 0 <= j < self.entries@.len() - 1 implies (
            #[trigger] self.entries@[j]).0 == entries0[j].0 by {}
            assert(forall|j: int|
                0 <= j < entries0.len() ==> (#[trigger] entries0[j]).0 != status);
            assert forall|st: u16|
                final(self).count_of(st) == (if st == status {
                    sat_add(old(self).count_of(st), v as int)
                } else {
                    old(self).count_of(st)
                }) by {
                if st == status {
                    lemma_errors_count_absent(entries0, status);
                }
            }
        }
    }

    /// The number of errors recorded for one status code.
    #[verifier::loop_isolation(false)]
    pub fn count(&self, status: u16) -> (r: usize)
        requires
            self.wf(),
        ensures
            r == self.count_of(status),
    {
        let ghost entries0 = self.entries@;
        let mut i: usize = 0;
        while i < self.entries.len()
            invariant
                self.entries@ == entries0,
                i <= entries0.len(),
                forall|j: int| 0 <= j < i ==> (#[trigger] entries0[j]).0 != status,
                self.wf(),
            decreases entries0.len() - i,
        {
            let (k, v) = self.entries[i];
            if k == status {
                proof {
                    lemma_errors_count_only_key(*self, i as int, status);
                }
                return v;
            }
            i += 1;
        }
        proof {
            lemma_errors_count_absent(entries0, status);
        }
        0
    }

    /// The number of distinct status codes recorded.
    pub fn num_statuses(&self) -> (r: usize)
        ensures
            r == self.entries@.len(),
    {
        self.entries.len()
    }

    /// The status code and count of entry `i`, for rendering.
    pub fn entry_at(&self, i: usize) -> (r: (u16, usize))
        requires
            i < self.entries@.len(),
        ensures
            r == self.entries@[i as int],
    {
        self.entries[i]
    }
}

/// Updating entry `i`'s count changes only that entry's contribution.
proof fn lemma_errors_count_update(s: Seq<(u16, usize)>, i: int, nv: usize, st: u16)
    requires
        0 <= i < s.len(),
    ensures
        errors_count(s.update(i, (s[i].0, nv)), st) == errors_count(s, st) + if s[i].0 == st {
            nv - s[i].1
        } else {
            0int
        },
    decreases s.len(),
{
    let upd = s.update(i, (s[i].0, nv));
    if i == s.len() - 1 {
        assert(upd.drop_last() =~= s.drop_last());
        assert(upd.last() == (s[i].0, nv));
    } else {
        assert(upd.drop_last() =~= s.drop_last().update(i, (s[i].0, nv)));
        lemma_errors_count_update(s.drop_last(), i, nv, st);
        assert(upd.last() == s.last());
    }
}

/// A count is never negative.
proof fn lemma_errors_count_nonneg(s: Seq<(u16, usize)>, st: u16)
    ensures
        errors_count(s, st) >= 0,
    decreases s.len(),
{
    if s.len() > 0 {
        lemma_errors_count_nonneg(s.drop_last(), st);
    }
}

/// With one entry per status, every count fits in a single counter.
proof fn lemma_errors_count_bounded_seq(s: Seq<(u16, usize)>, st: u16)
    requires
        forall|j: int, k: int| 0 <= j < k < s.len() ==> (#[trigger] s[j]).0 != (#[trigger] s[k]).0,
    ensures
        0 <= errors_count(s, st) <= usize::MAX,
    decreases s.len(),
{
    if s.len() == 0 {
    } else if s.last().0 == st {
        lemma_errors_count_only_key_seq(s, s.len() - 1, st);
    } else {
        assert forall|j: int, k: int| 0 <= j < k < s.drop_last().len() implies (
        #[trigger] s.drop_last()[j]).0 != (#[trigger] s.drop_last()[k]).0 by {
            assert(s.drop_last()[j] == s[j]);
            assert(s.drop_last()[k] == s[k]);
        }
        lemma_errors_count_bounded_seq(s.drop_last(), st);
    }
}

/// The same, stated on the map itself.
proof fn lemma_errors_count_bounded(ec: ErrorCounts, st: u16)
    requires
        ec.wf(),
    ensures
        0 <= errors_count(ec.entries@, st) <= usize::MAX,
{
    lemma_errors_count_bounded_seq(ec.entries@, st);
}

/// When entry `i` holds the only occurrence of its key, the count for that
/// key is exactly that entry's value.
proof fn lemma_errors_count_only_key_seq(s: Seq<(u16, usize)>, i: int, status: u16)
    requires
        0 <= i < s.len(),
        s[i].0 == status,
        forall|j: int, k: int| 0 <= j < k < s.len() ==> (#[trigger] s[j]).0 != (#[trigger] s[k]).0,
    ensures
        errors_count(s, status) == s[i].1,
    decreases s.len(),
{
    if i == s.len() - 1 {
        assert forall|j: int| 0 <= j < s.drop_last().len() implies (
        #[trigger] s.drop_last()[j]).0 != status by {
            assert(s.drop_last()[j] == s[j]);
            assert(s[j].0 != s[i].0);
        }
        lemma_errors_count_absent(s.drop_last(), status);
    } else {
        assert(s.last().0 != status);
        assert forall|j: int, k: int| 0 <= j < k < s.drop_last().len() implies (
        #[trigger] s.drop_last()[j]).0 != (#[trigger] s.drop_last()[k]).0 by {
            assert(s.drop_last()[j] == s[j]);
            assert(s.drop_last()[k] == s[k]);
        }
        lemma_errors_count_only_key_seq(s.drop_last(), i, status);
    }
}

/// The same, stated on the map itself.
proof fn lemma_errors_count_only_key(ec: ErrorCounts, i: int, status: u16)
    requires
        ec.wf(),
        0 <= i < ec.entries@.len(),
        ec.entries@[i].0 == status,
    ensures
        errors_count(ec.entries@, status) == ec.entries@[i].1,
{
    lemma_errors_count_only_key_seq(ec.entries@, i, status);
}

/// A key that appears in no entry has count zero.
proof fn lemma_errors_count_absent(s: Seq<(u16, usize)>, status: u16)
    requires
        forall|j: int| 0 <= j < s.len() ==> (#[trigger] s[j]).0 != status,
    ensures
        errors_count(s, status) == 0,
    decreases s.len(),
{
    if s.len() > 0 {
        lemma_errors_count_absent(s.drop_last(), status);
    }
}

/// Latency histograms and error counts for one worker.
pub struct RunStats {
    pub errors: ErrorCounts,
    pub rtt_latency_hist: LatencyHistogram,
    pub ttfb_latency_hist: LatencyHistogram,
}

impl RunStats {
    pub open spec fn wf(&self) -> bool {
        self.errors.wf()
    }

    pub fn new() -> (r: Self)
        ensures
            r.wf(),
            hist_samples(r.rtt_latency_hist) == Multiset::<u64>::empty(),
            hist_samples(r.ttfb_latency_hist) == Multiset::<u64>::empty(),
            forall|st: u16| r.errors.count_of(st) == 0,
    {
        RunStats {
            errors: ErrorCounts::new(),
            rtt_latency_hist: LatencyHistogram::new(),
            ttfb_latency_hist: LatencyHistogram::new(),
        }
    }

    /// Adds the other worker's histograms and error counts into this one:
    /// the merged histograms hold exactly the samples of both, and the
    /// merge succeeds.
    pub fn merge(&mut self, other: &RunStats) -> (r: Result<(), ()>)
        requires
            old(self).wf(),
            other.wf(),
        ensures
            final(self).wf(),
            r is Ok,
            r is Ok ==> {
                &&& hist_samples(final(self).rtt_latency_hist) == hist_samples(
                    old(self).rtt_latency_hist,
                ).add(hist_samples(other.rtt_latency_hist))
                &&& hist_samples(final(self).ttfb_latency_hist) == hist_samples(
                    old(self).ttfb_latency_hist,
                ).add(hist_samples(other.ttfb_latency_hist))
                &&& forall|st: u16|
                    final(self).errors.count_of(st) == sat_add(
                        old(self).errors.count_of(st),
                        other.errors.count_of(st),
                    )
            },
    {
        let r1 = self.rtt_latency_hist.add(&other.rtt_latency_hist);
        if r1.is_err() {
            return Err(());
        }
        let r2 = self.ttfb_latency_hist.add(&other.ttfb_latency_hist);
        if r2.is_err() {
            return Err(());
        }
        self.errors.merge(&other.errors);
        Ok(())
    }

    /// The number of samples in the round-trip-time histogram (the
    /// internal count saturates at `u64::MAX`).
    pub fn rtt_sample_count(&self) -> (r: u64)
        ensures
            hist_samples(self.rtt_latency_hist).len() <= u64::MAX ==> r == hist_samples(
                self.rtt_latency_hist,
            ).len(),
            hist_samples(self.rtt_latency_hist).len() > u64::MAX ==> r == u64::MAX,
    {
        self.rtt_latency_hist.len()
    }

    /// The number of samples in the time-to-first-byte histogram (the
    /// internal count saturates at `u64::MAX`).
    pub fn ttfb_sample_count(&self) -> (r: u64)
        ensures
            hist_samples(self.ttfb_latency_hist).len() <= u64::MAX ==> r == hist_samples(
                self.ttfb_latency_hist,
            ).len(),
            hist_samples(self.ttfb_latency_hist).len() > u64::MAX ==> r == u64::MAX,
    {
        self.ttfb_latency_hist.len()
    }
}

/// A histogram produced by merging holds as many samples as the two parts
/// together.
pub proof fn lemma_merged_histogram_total(a: Multiset<u64>, b: Multiset<u64>)
    ensures
        a.add(b).len() == a.len() + b.len(),
{
    broadcast use vstd::multiset::axiom_len_add;

}

/// Everything one worker shares with the runner: instant counters and run
/// statistics.
pub struct WorkerStats {
    pub instant_stats: InstantStats,
    pub run_stats: RunStats,
}

impl WorkerStats {
    pub open spec fn wf(&self) -> bool {
        self.run_stats.wf()
    }

    pub fn new() -> (r: Self)
        ensures
            r.wf(),
            r.instant_stats.requests_issued == 0,
            r.instant_stats.bytes_written == 0,
            r.instant_stats.bytes_read == 0,
            hist_samples(r.run_stats.rtt_latency_hist) == Multiset::<u64>::empty(),
            hist_samples(r.run_stats.ttfb_latency_hist) == Multiset::<u64>::empty(),
            forall|st: u16| r.run_stats.errors.count_of(st) == 0,
    {
        WorkerStats { instant_stats: InstantStats::default(), run_stats: RunStats::new() }
    }
}

impl Default for WorkerStats {
    fn default() -> (r: Self)
        ensures
            r.wf(),
    {
        WorkerStats::new()
    }
}

/// Whether an HTTP status code counts as a success.
pub open spec fn spec_is_success(status: u16) -> bool {
    200 <= status < 300
}

/// Records the outcome of one request, as the stats-collector hook does
/// after the response is drained. A success records both latencies and
/// advances the instant counters (which wrap); any other status only bumps
/// its error count.
pub fn record_response(
    stats: &mut WorkerStats,
    status: u16,
    rtt_ns: u64,
    ttfb_ns: u64,
    req_size: usize,
    resp_len: usize,
)
    requires
        old(stats).wf(),
    ensures
        final(stats).wf(),
        spec_is_success(status) ==> {
            &&& hist_samples(final(stats).run_stats.rtt_latency_hist) == hist_samples(
                old(stats).run_stats.rtt_latency_hist,
            ).insert(rtt_ns)
            &&& hist_samples(final(stats).run_stats.ttfb_latency_hist) == hist_samples(
                old(stats).run_stats.ttfb_latency_hist,
            ).insert(ttfb_ns)
            &&& final(stats).instant_stats.requests_issued == (
            old(stats).instant_stats.requests_issued as int + 1) % (usize::MAX as int + 1)
            &&& final(stats).instant_stats.bytes_written == (
            old(stats).instant_stats.bytes_written as int + req_size as int) % (usize::MAX as int
                + 1)
            &&& final(stats).instant_stats.bytes_read == (
            old(stats).instant_stats.bytes_read as int + resp_len as int) % (usize::MAX as int + 1)
            &&& forall|st: u16|
                final(stats).run_stats.errors.count_of(st) == old(
                    stats,
                ).run_stats.errors.count_of(st)
        },
        !spec_is_success(status) ==> {
            &&& hist_samples(final(stats).run_stats.rtt_latency_hist) == hist_samples(
                old(stats).run_stats.rtt_latency_hist,
            )
            &&& hist_samples(final(stats).run_stats.ttfb_latency_hist) == hist_samples(
                old(stats).run_stats.ttfb_latency_hist,
            )
            &&& final(stats).instant_stats == old(stats).instant_stats
            &&& forall|st: u16|
                final(stats).run_stats.errors.count_of(st) == if st == status {
                    sat_add(old(stats).run_stats.errors.count_of(st), 1)
                } else {
                    old(stats).run_stats.errors.count_of(st)
                }
        },
    {
    if 200 <= status && status < 300 {
        proof {
            let m = (usize::MAX as int + 1) as nat;
            vstd::arithmetic::div_mod::lemma_small_mod(
                old(stats).instant_stats.requests_issued as nat,
                m,
            );
            vstd::arithmetic::div_mod::lemma_small_mod(
                old(stats).instant_stats.bytes_written as nat,
                m,
            );
            vstd::arithmetic::div_mod::lemma_small_mod(
                old(stats).instant_stats.bytes_read as nat,
                m,
            );
            lemma_wrap_step(
                old(stats).instant_stats.requests_issued as int,
                old(stats).instant_stats.requests_issued,
                1,
            );
            lemma_wrap_step(
                old(stats).instant_stats.bytes_written as int,
                old(stats).instant_stats.bytes_written,
                req_size,
            );
            lemma_wrap_step(
                old(stats).instant_stats.bytes_read as int,
                old(stats).instant_stats.bytes_read,
                resp_len,
            );
        }
        stats.run_stats.rtt_latency_hist.record(rtt_ns);
        stats.run_stats.ttfb_latency_hist.record(ttfb_ns);
        stats.instant_stats.requests_issued = stats.instant_stats.requests_issued.wrapping_add(1);
        stats.instant_stats.bytes_written = stats.instant_stats.bytes_written.wrapping_add(
            req_size,
        );
        stats.instant_stats.bytes_read = stats.instant_stats.bytes_read.wrapping_add(resp_len);
    } else {
        stats.run_stats.errors.record(status);
    }
}

/// Start and end of one connection's run, in nanoseconds of a common
/// monotonic clock.
#[derive(Clone, Copy)]
pub struct ConnectionRunInfo {
    pub start_time_ns: u128,
    pub end_time_ns: u128,
}

/// The result of one worker: its id and the run info of each connection.
pub struct WorkerInfo {
    pub worker_id: usize,
    pub run_infos: Vec<ConnectionRunInfo>,
}

/// The earliest connection start over a run, or `u128::MAX` when no
/// connection ran.
pub open spec fn spec_min_start(infos: Seq<ConnectionRunInfo>) -> int
    decreases infos.len(),
{
    if infos.len() == 0 {
        u128::MAX as int
    } else {
        let rest = spec_min_start(infos.drop_last());
        if infos.last().start_time_ns < rest {
            infos.last().start_time_ns as int
        } else {
            rest
        }
    }
}

/// The latest connection end over a run, or 0 when no connection ran.
pub open spec fn spec_max_end(infos: Seq<ConnectionRunInfo>) -> int
    decreases infos.len(),
{
    if infos.len() == 0 {
        0
    } else {
        let rest = spec_max_end(infos.drop_last());
        if infos.last().end_time_ns > rest {
            infos.last().end_time_ns as int
        } else {
            rest
        }
    }
}

/// The total runtime of a run: latest end minus earliest start over all
/// connections, and 0 when no connection ran or the clock readings are
/// inconsistent.
pub open spec fn spec_total_runtime(infos: Seq<ConnectionRunInfo>) -> int {
    if spec_max_end(infos) > spec_min_start(infos) {
        spec_max_end(infos) - spec_min_start(infos)
    } else {
        0
    }
}

/// The wall time between the earliest connection start and the latest
/// connection end, over every connection of every worker.
#[verifier::loop_isolation(false)]
pub fn get_total_runtime(infos: &Vec<WorkerInfo>) -> (r: u128)
    ensures
        r == spec_total_runtime(flat_infos(infos@)),
{
    let mut min_start: u128 = u128::MAX;
    let mut max_end: u128 = 0;
    let mut i: usize = 0;
    while i < infos.len()
        invariant
            i <= infos@.len(),
            min_start == spec_min_start(flat_infos(infos@.take(i as int))),
            max_end == spec_max_end(flat_infos(infos@.take(i as int))),
        decreases infos@.len() - i,
    {
        let ghost pre = flat_infos(infos@.take(i as int));
        let w = &infos[i];
        let mut j: usize = 0;
        while j < w.run_infos.len()
            invariant
                j <= w.run_infos@.len(),
                w == infos@[i as int],
                0 <= i < infos@.len(),
                min_start == spec_min_start(pre + w.run_infos@.take(j as int)),
                max_end == spec_max_end(pre + w.run_infos@.take(j as int)),
            decreases w.run_infos@.len() - j,
        {
            let info = &w.run_infos[j];
            proof {
                assert((pre + w.run_infos@.take(j as int + 1)).drop_last() =~= pre
                    + w.run_infos@.take(j as int));
                assert((pre + w.run_infos@.take(j as int + 1)).last() == w.run_infos@[j as int]);
            }
            if info.start_time_ns < min_start {
                min_start = info.start_time_ns;
            }
            if info.end_time_ns > max_end {
                max_end = info.end_time_ns;
            }
            j += 1;
        }
        proof {
            assert(pre + w.run_infos@.take(w.run_infos@.len() as int) =~= pre + w.run_infos@);
            lemma_flat_infos_step(infos@, i as int);
        }
        i += 1;
    }
    proof {
        assert(infos@.take(infos@.len() as int) =~= infos@);
    }
    if max_end > min_start {
        max_end - min_start
    } else {
        0
    }
}

/// All connection run infos of a sequence of workers, in order.
pub open spec fn flat_infos(ws: Seq<WorkerInfo>) -> Seq<ConnectionRunInfo>
    decreases ws.len(),
{
    if ws.len() == 0 {
        Seq::empty()
    } else {
        flat_infos(ws.drop_last()) + ws.last().run_infos@
    }
}

proof fn lemma_flat_infos_step(ws: Seq<WorkerInfo>, i: int)
    requires
        0 <= i < ws.len(),
    ensures
        flat_infos(ws.take(i + 1)) == flat_infos(ws.take(i)) + ws[i].run_infos@,
{
    assert(ws.take(i + 1).drop_last() =~= ws.take(i));
    assert(ws.take(i + 1).last() == ws[i]);
}

/// Sums the per-worker deltas since the previous samples and stores the
/// new samples, as the runner's progress loop does each second.
#[verifier::loop_isolation(false)]
pub fn sum_instant_stats(prev: &mut Vec<InstantStats>, curr: &Vec<InstantStats>) -> (r:
    InstantStats)
    requires
        old(prev)@.len() == curr@.len(),
    ensures
        final(prev)@.len() == curr@.len(),
        forall|i: int| 0 <= i < curr@.len() ==> final(prev)@[i] == curr@[i],
        r.requests_issued as int == sum_deltas_requests(old(prev)@, curr@) % (usize::MAX as int
            + 1),
        r.bytes_written as int == sum_deltas_written(old(prev)@, curr@) % (usize::MAX as int + 1),
        r.bytes_read as int == sum_deltas_read(old(prev)@, curr@) % (usize::MAX as int + 1),
{
    let mut acc = InstantStats::default();
    proof {
        assert(old(prev)@.take(0) =~= Seq::<InstantStats>::empty());
        assert(curr@.take(0) =~= Seq::<InstantStats>::empty());
        vstd::arithmetic::div_mod::lemma_small_mod(0, (usize::MAX as int + 1) as nat);
    }
    let mut i: usize = 0;
    while i < curr.len()
        invariant
            prev@.len() == curr@.len(),
            i <= curr@.len(),
            forall|j: int| 0 <= j < i ==> prev@[j] == curr@[j],
            forall|j: int| i <= j < curr@.len() ==> prev@[j] == old(prev)@[j],
            acc.requests_issued as int == sum_deltas_requests(old(prev)@.take(i as int), curr@.take(i as int)) % (
            usize::MAX as int + 1),
            acc.bytes_written as int == sum_deltas_written(old(prev)@.take(i as int), curr@.take(i as int)) % (
            usize::MAX as int + 1),
            acc.bytes_read as int == sum_deltas_read(old(prev)@.take(i as int), curr@.take(i as int)) % (
            usize::MAX as int + 1),
        decreases curr@.len() - i,
    {
        let delta = curr[i].changed(&prev[i]);
        let snapshot = curr[i].clone();
        prev.set(i, snapshot);
        proof {
            lemma_sum_deltas_step(old(prev)@, curr@, i as int);
            lemma_sum_deltas_nonneg(old(prev)@.take(i as int), curr@.take(i as int));
            lemma_wrap_step(
                sum_deltas_requests(old(prev)@.take(i as int), curr@.take(i as int)),
                acc.requests_issued,
                delta.requests_issued,
            );
            lemma_wrap_step(
                sum_deltas_written(old(prev)@.take(i as int), curr@.take(i as int)),
                acc.bytes_written,
                delta.bytes_written,
            );
            lemma_wrap_step(
                sum_deltas_read(old(prev)@.take(i as int), curr@.take(i as int)),
                acc.bytes_read,
                delta.bytes_read,
            );
        }
        acc.requests_issued = acc.requests_issued.wrapping_add(delta.requests_issued);
        acc.bytes_written = acc.bytes_written.wrapping_add(delta.bytes_written);
        acc.bytes_read = acc.bytes_read.wrapping_add(delta.bytes_read);
        i += 1;
    }
    proof {
        assert(old(prev)@.take(curr@.len() as int) =~= old(prev)@);
        assert(curr@.take(curr@.len() as int) =~= curr@);
    }
    acc
}

/// Sum of the request-count deltas, worker by worker.
pub open spec fn sum_deltas_requests(prev: Seq<InstantStats>, curr: Seq<InstantStats>) -> int
    decreases curr.len(),
{
    if curr.len() == 0 || prev.len() != curr.len() {
        0
    } else {
        sum_deltas_requests(prev.drop_last(), curr.drop_last()) + spec_changed(
            prev.last().requests_issued,
            curr.last().requests_issued,
        )
    }
}

/// Sum of the bytes-written deltas, worker by worker.
pub open spec fn sum_deltas_written(prev: Seq<InstantStats>, curr: Seq<InstantStats>) -> int
    decreases curr.len(),
{
    if curr.len() == 0 || prev.len() != curr.len() {
        0
    } else {
        sum_deltas_written(prev.drop_last(), curr.drop_last()) + spec_changed(
            prev.last().bytes_written,
            curr.last().bytes_written,
        )
    }
}

/// Sum of the bytes-read deltas, worker by worker.
pub open spec fn sum_deltas_read(prev: Seq<InstantStats>, curr: Seq<InstantStats>) -> int
    decreases curr.len(),
{
    if curr.len() == 0 || prev.len() != curr.len() {
        0
    } else {
        sum_deltas_read(prev.drop_last(), curr.drop_last()) + spec_changed(
            prev.last().bytes_read,
            curr.last().bytes_read,
        )
    }
}

/// One wrapping addition extends a running total taken modulo the counter
/// range.
proof fn lemma_wrap_step(total: int, acc: usize, delta: usize)
    requires
        total >= 0,
        acc as int == total % (usize::MAX as int + 1),
    ensures
        vstd::wrapping::usize_specs::wrapping_add(acc, delta) as int == (total + delta) % (
        usize::MAX as int + 1),
{
    let m = usize::MAX as int + 1;
    vstd::arithmetic::div_mod::lemma_add_mod_noop(total, delta as int, m);
    vstd::arithmetic::div_mod::lemma_small_mod(delta as nat, m as nat);
    if acc + delta <= usize::MAX {
        vstd::arithmetic::div_mod::lemma_small_mod((acc + delta) as nat, m as nat);
    } else {
        vstd::arithmetic::div_mod::lemma_mod_sub_multiples_vanish(acc + delta, m);
        vstd::arithmetic::div_mod::lemma_small_mod((acc + delta - m) as nat, m as nat);
    }
}

proof fn lemma_sum_deltas_nonneg(prev: Seq<InstantStats>, curr: Seq<InstantStats>)
    ensures
        sum_deltas_requests(prev, curr) >= 0,
        sum_deltas_written(prev, curr) >= 0,
        sum_deltas_read(prev, curr) >= 0,
    decreases curr.len(),
{
    if curr.len() > 0 && prev.len() == curr.len() {
        lemma_sum_deltas_nonneg(prev.drop_last(), curr.drop_last());
    }
}

proof fn lemma_sum_deltas_step(prev: Seq<InstantStats>, curr: Seq<InstantStats>, i: int)
    requires
        prev.len() == curr.len(),
        0 <= i < curr.len(),
    ensures
        sum_deltas_requests(prev.take(i + 1), curr.take(i + 1)) == sum_deltas_requests(
            prev.take(i),
            curr.take(i),
        ) + spec_changed(prev[i].requests_issued, curr[i].requests_issued),
        sum_deltas_written(prev.take(i + 1), curr.take(i + 1)) == sum_deltas_written(
            prev.take(i),
            curr.take(i),
        ) + spec_changed(prev[i].bytes_written, curr[i].bytes_written),
        sum_deltas_read(prev.take(i + 1), curr.take(i + 1)) == sum_deltas_read(
            prev.take(i),
            curr.take(i),
        ) + spec_changed(prev[i].bytes_read, curr[i].bytes_read),
{
    assert(prev.take(i + 1).drop_last() =~= prev.take(i));
    assert(curr.take(i + 1).drop_last() =~= curr.take(i));
    assert(prev.take(i + 1).last() == prev[i]);
    assert(curr.take(i + 1).last() == curr[i]);
}

} // verus!
