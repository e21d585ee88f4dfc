//! The per-request hook pipeline of a connection: the stats collector, the
//! rate-limit gate, and the two completion conditions, invoked in that
//! fixed order, plus the run flag that combines the global and the
//! per-connection stop signals.

use crate::stats::{record_response, spec_is_success, WorkerStats};
use crate::util::{divvy, divvy_share};
use vstd::prelude::*;

verus! {

/// The conjunction of the process-wide flag and this connection's own
/// flag; the connection keeps issuing requests only while both hold.
pub struct RunFlag {
    pub global_run: bool,
    pub local_run: bool,
}

impl RunFlag {
    pub fn new(global_run: bool, local_run: bool) -> (r: Self)
        ensures
            r.global_run == global_run,
            r.local_run == local_run,
    {
        RunFlag { global_run, local_run }
    }

    pub fn should_run(&self) -> (r: bool)
        ensures
            r == (self.global_run && self.local_run),
    {
        self.global_run && self.local_run
    }
}

/// How a run decides it is finished: after a number of requests, split
/// across workers and connections, or after a wall-clock duration in
/// seconds, copied to every worker.
pub enum CompletionCondition {
    NumRequests(usize),
    Duration(u64),
}

/// Stops a connection once it has issued its share of requests: the
/// counter grows on every poll, and the poll that would pass the quota
/// clears the connection's local run flag instead.
pub struct RequestCompletionCondition {
    pub num_requests: usize,
    pub num_requests_for_completion: usize,
}

impl RequestCompletionCondition {
    pub fn new(num_requests_for_completion: usize) -> (r: Self)
        ensures
            r.num_requests == 0,
            r.num_requests_for_completion == num_requests_for_completion,
    {
        RequestCompletionCondition { num_requests: 0, num_requests_for_completion }
    }
}

/// The stats collector's per-request scratch state: the declared request
/// size and the two timestamps bracketing the request, in nanoseconds of
/// a common monotonic clock.
pub struct StatsCollectorState {
    pub req_size: usize,
    pub start_ns: Option<u64>,
    pub ttfb_ns: Option<u64>,
}

/// One connection's ordered hook pipeline. The stats collector always
/// comes first so its timing brackets the other hooks' work; then the
/// rate-limit gate, if a limiter is configured; then the request-count
/// completion, if the run completes by request count; then the duration
/// completion, installed on connection 0 only.
pub struct HookChain {
    pub stats: StatsCollectorState,
    pub rate_limit: bool,
    pub requests_completion: Option<RequestCompletionCondition>,
    pub duration_completion: bool,
    /// This connection's own run flag; cleared by the request-count hook.
    pub local_run: bool,
    /// How many polls have allowed a request so far.
    pub issued: Ghost<nat>,
}

/// The number of requests a quota has allowed after `num` polls.
pub open spec fn spec_allowed(num: usize, quota: usize) -> nat {
    if num <= quota {
        num as nat
    } else {
        quota as nat
    }
}

impl HookChain {
    /// With a request-count hook present: the counter never passes one
    /// beyond the quota, the allowed count matches it, and the local flag
    /// is down exactly when the quota is spent.
    pub open spec fn wf(&self) -> bool {
        match self.requests_completion {
            Some(c) => {
                &&& c.num_requests_for_completion < usize::MAX
                &&& c.num_requests <= c.num_requests_for_completion + 1
                &&& self.issued@ == spec_allowed(c.num_requests, c.num_requests_for_completion)
                &&& self.local_run <==> c.num_requests <= c.num_requests_for_completion
            },
            None => true,
        }
    }

    /// Builds the hook chain for connection `id`, in the fixed order.
    pub fn new(id: usize, has_limiter: bool, completion: Option<CompletionCondition>) -> (r: Self)
        requires
            (completion matches Some(CompletionCondition::NumRequests(n)) ==> n < usize::MAX),
        ensures
            r.wf(),
            r.local_run,
            r.issued@ == 0,
            r.rate_limit == has_limiter,
            r.stats.start_ns is None,
            r.stats.ttfb_ns is None,
            match completion {
                Some(CompletionCondition::NumRequests(n)) => r.requests_completion matches Some(c)
                    && c.num_requests == 0 && c.num_requests_for_completion == n,
                _ => r.requests_completion is None,
            },
            r.duration_completion == (completion matches Some(CompletionCondition::Duration(_))
                && id == 0),
    {
        let requests_completion = match &completion {
            Some(CompletionCondition::NumRequests(n)) => Some(RequestCompletionCondition::new(*n)),
            _ => None,
        };
        let duration_completion = match &completion {
            Some(CompletionCondition::Duration(_)) => id == 0,
            _ => false,
        };
        HookChain {
            stats: StatsCollectorState { req_size: 0, start_ns: None, ttfb_ns: None },
            rate_limit: has_limiter,
            requests_completion,
            duration_completion,
            local_run: true,
            issued: Ghost(0),
        }
    }

    /// Polls every hook in order, stopping at the first refusal. The
    /// stats and duration hooks always agree; the rate-limit gate passes
    /// `rate_ok` through (the caller has already slept when the limiter
    /// refused); the request-count hook counts the poll and clears the
    /// local flag on the poll after its quota.
    pub fn should_issue_request(&mut self, rate_ok: bool) -> (r: bool)
        requires
            old(self).wf(),
            old(self).local_run,
        ensures
            final(self).wf(),
            final(self).stats == old(self).stats,
            final(self).rate_limit == old(self).rate_limit,
            final(self).duration_completion == old(self).duration_completion,
            final(self).issued@ == old(self).issued@ + if r {
                1nat
            } else {
                0nat
            },
            old(self).rate_limit && !rate_ok ==> !r && *final(self) == *old(self),
            (!old(self).rate_limit || rate_ok) ==> match old(self).requests_completion {
                None => r && final(self).requests_completion is None && final(self).local_run
                    == old(self).local_run,
                Some(c) => {
                    &&& final(self).requests_completion matches Some(c2) && c2.num_requests == c.num_requests
                        + 1 && c2.num_requests_for_completion == c.num_requests_for_completion
                    &&& r == (c.num_requests < c.num_requests_for_completion)
                    &&& final(self).local_run == (c.num_requests < c.num_requests_for_completion)
                },
            },
    {
        // Stats hook: always issues.
        // Rate-limit gate: refuse without touching the hooks further down.
        if self.rate_limit && !rate_ok {
            return false;
        }
        // Request-count completion.
        let verdict = match &self.requests_completion {
            None => true,
            Some(c) => {
                let num = c.num_requests + 1;
                let quota = c.num_requests_for_completion;
                self.requests_completion = Some(
                    RequestCompletionCondition {
                        num_requests: num,
                        num_requests_for_completion: quota,
                    },
                );
                if num == quota + 1 {
                    self.local_run = false;
                    false
                } else {
                    true
                }
            },
        };
        if !verdict {
            return false;
        }
        // Duration completion: always issues (its timer runs elsewhere).
        proof {
            self.issued@ = self.issued@ + 1nat;
        }
        true
    }

    /// Marks the start of a request: the stats collector takes the
    /// declared body size and the send timestamp.
    pub fn before_request(&mut self, req_size: usize, now_ns: u64)
        ensures
            final(self).stats.req_size == req_size,
            final(self).stats.start_ns == Some(now_ns),
            final(self).stats.ttfb_ns == old(self).stats.ttfb_ns,
            final(self).rate_limit == old(self).rate_limit,
            final(self).requests_completion == old(self).requests_completion,
            final(self).duration_completion == old(self).duration_completion,
            final(self).local_run == old(self).local_run,
            final(self).issued@ == old(self).issued@,
    {
        self.stats.start_ns = Some(now_ns);
        self.stats.req_size = req_size;
    }

    /// Marks the arrival of the first response byte: the stats collector
    /// records the time to first byte.
    pub fn after_request(&mut self, now_ns: u64)
        requires
            old(self).stats.start_ns matches Some(t) && t <= now_ns,
        ensures
            final(self).stats.req_size == old(self).stats.req_size,
            final(self).stats.start_ns == old(self).stats.start_ns,
            final(self).stats.ttfb_ns == Some(
                (now_ns - old(self).stats.start_ns->0) as u64,
            ),
            final(self).rate_limit == old(self).rate_limit,
            final(self).requests_completion == old(self).requests_completion,
            final(self).duration_completion == old(self).duration_completion,
            final(self).local_run == old(self).local_run,
            final(self).issued@ == old(self).issued@,
    {
        let start = match &self.stats.start_ns {
            Some(t) => *t,
            None => 0,
        };
        self.stats.ttfb_ns = Some(now_ns - start);
    }

    /// Records the drained response into the worker's statistics: on a
    /// success both latencies and the counters, otherwise the error count
    /// for the status.
    pub fn after_response(
        &mut self,
        worker: &mut WorkerStats,
        status: u16,
        resp_len: usize,
        now_ns: u64,
    )
        requires
            old(worker).wf(),
            old(self).stats.start_ns matches Some(t) && t <= now_ns,
            old(self).stats.ttfb_ns is Some,
        ensures
            final(worker).wf(),
            *final(self) == *old(self),
            spec_is_success(status) ==> {
                &&& crate::stats::hist_samples(final(worker).run_stats.rtt_latency_hist)
                    == crate::stats::hist_samples(old(worker).run_stats.rtt_latency_hist).insert(
                    (now_ns - old(self).stats.start_ns->0) as u64,
                )
                &&& crate::stats::hist_samples(final(worker).run_stats.ttfb_latency_hist)
                    == crate::stats::hist_samples(old(worker).run_stats.ttfb_latency_hist).insert(
                    old(self).stats.ttfb_ns->0,
                )
                &&& final(worker).instant_stats.requests_issued == (
                old(worker).instant_stats.requests_issued as int + 1) % (usize::MAX as int + 1)
                &&& final(worker).instant_stats.bytes_written == (
                old(worker).instant_stats.bytes_written as int
                    + old(self).stats.req_size as int) % (usize::MAX as int + 1)
                &&& final(worker).instant_stats.bytes_read == (
                old(worker).instant_stats.bytes_read as int + resp_len as int) % (
                usize::MAX as int + 1)
                &&& forall|st: u16|
                    final(worker).run_stats.errors.count_of(st) == old(
                        worker,
                    ).run_stats.errors.count_of(st)
            },
            !spec_is_success(status) ==> {
                &&& crate::stats::hist_samples(final(worker).run_stats.rtt_latency_hist)
                    == crate::stats::hist_samples(old(worker).run_stats.rtt_latency_hist)
                &&& crate::stats::hist_samples(final(worker).run_stats.ttfb_latency_hist)
                    == crate::stats::hist_samples(old(worker).run_stats.ttfb_latency_hist)
                &&& final(worker).instant_stats == old(worker).instant_stats
                &&& forall|st: u16|
                    final(worker).run_stats.errors.count_of(st) == if st == status {
                        crate::stats::sat_add(old(worker).run_stats.errors.count_of(st), 1)
                    } else {
                        old(worker).run_stats.errors.count_of(st)
                    }
            },
    {
        let start = match &self.stats.start_ns {
            Some(t) => *t,
            None => 0,
        };
        let ttfb = match &self.stats.ttfb_ns {
            Some(t) => *t,
            None => 0,
        };
        let rtt = now_ns - start;
        record_response(worker, status, rtt, ttfb, self.stats.req_size, resp_len);
    }
}

/// A connection never lets more requests through than its local quota.
pub proof fn lemma_no_quota_overshoot(chain: HookChain)
    requires
        chain.wf(),
        chain.requests_completion is Some,
    ensures
        chain.issued@ <= chain.requests_completion->0.num_requests_for_completion,
{
}

/// Splits a completion condition over `num_items` slots the way the
/// runner splits across workers and a worker across its connections: a
/// request count is divvied, a duration is copied, no condition stays
/// none.
pub fn divvy_completion(cond: &Option<CompletionCondition>, num_items: usize) -> (r: Vec<
    Option<CompletionCondition>,
>)
    requires
        num_items >= 1,
    ensures
        r@.len() == num_items,
        forall|i: int|
            0 <= i < num_items ==> #[trigger] r@[i] == match *cond {
                None => None::<CompletionCondition>,
                Some(CompletionCondition::Duration(d)) => Some(CompletionCondition::Duration(d)),
                Some(CompletionCondition::NumRequests(n)) => Some(
                    CompletionCondition::NumRequests(divvy_share(n, num_items, i) as usize),
                ),
            },
{
    let mut r: Vec<Option<CompletionCondition>> = Vec::new();
    match cond {
        None => {
            let mut i: usize = 0;
            while i < num_items
                invariant
                    i <= num_items,
                    r@.len() == i,
                    forall|j: int| 0 <= j < i ==> #[trigger] r@[j] is None,
                decreases num_items - i,
            {
                r.push(None);
                i += 1;
            }
        },
        Some(CompletionCondition::Duration(d)) => {
            let mut i: usize = 0;
            while i < num_items
                invariant
                    i <= num_items,
                    r@.len() == i,
                    forall|j: int|
                        0 <= j < i ==> #[trigger] r@[j] == Some(
                            CompletionCondition::Duration(*d),
                        ),
                decreases num_items - i,
            {
                r.push(Some(CompletionCondition::Duration(*d)));
                i += 1;
            }
        },
        Some(CompletionCondition::NumRequests(n)) => {
            let shares = divvy(*n, num_items);
            let mut i: usize = 0;
            while i < num_items
                invariant
                    i <= num_items,
                    shares@.len() == num_items,
                    forall|j: int|
                        0 <= j < num_items ==> shares@[j] == divvy_share(*n, num_items, j),
                    r@.len() == i,
                    forall|j: int|
                        0 <= j < i ==> #[trigger] r@[j] == Some(
                            CompletionCondition::NumRequests(
                                divvy_share(*n, num_items, j) as usize,
                            ),
                        ),
                decreases num_items - i,
            {
                r.push(Some(CompletionCondition::NumRequests(shares[i])));
                i += 1;
            }
        },
    }
    r
}

/// When every connection lets through at most its share of `divvy(R, C)`,
/// the run as a whole lets through at most `R` requests.
pub proof fn lemma_total_requests_bound(issued: Seq<int>, total: usize, n: usize)
    requires
        n >= 1,
        issued.len() == n,
        forall|i: int| 0 <= i < n ==> 0 <= #[trigger] issued[i] <= divvy_share(total, n, i),
    ensures
        crate::util::sum_int(issued) <= total,
{
    crate::util::lemma_divvy_properties(total, n);
    lemma_sum_le(issued, crate::util::divvy_seq(total, n));
}

/// A pointwise bound carries over to the sums.
proof fn lemma_sum_le(a: Seq<int>, b: Seq<int>)
    requires
        a.len() == b.len(),
        forall|i: int| 0 <= i < a.len() ==> #[trigger] a[i] <= #[trigger] b[i],
    ensures
        crate::util::sum_int(a) <= crate::util::sum_int(b),
    decreases a.len(),
{
    if a.len() > 0 {
        assert(a.drop_first().len() == b.drop_first().len());
        assert forall|i: int|
            0 <= i < a.drop_first().len() implies #[trigger] a.drop_first()[i]
            <= #[trigger] b.drop_first()[i] by {
            assert(a.drop_first()[i] == a[i + 1]);
            assert(b.drop_first()[i] == b[i + 1]);
        }
        lemma_sum_le(a.drop_first(), b.drop_first());
    }
}

} // verus!
