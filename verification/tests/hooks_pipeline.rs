use loaded::hooks::{divvy_completion, CompletionCondition, HookChain, RunFlag};
use loaded::stats::WorkerStats;

#[test]
fn run_flag_is_a_conjunction() {
    assert!(RunFlag::new(true, true).should_run());
    assert!(!RunFlag::new(true, false).should_run());
    assert!(!RunFlag::new(false, true).should_run());
    assert!(!RunFlag::new(false, false).should_run());
}

#[test]
fn request_quota_stops_own_connection_only_after_quota() {
    let mut chain = HookChain::new(0, false, Some(CompletionCondition::NumRequests(3)));
    assert!(chain.should_issue_request(true));
    assert!(chain.should_issue_request(true));
    assert!(chain.should_issue_request(true));
    assert!(chain.local_run);
    // The fourth poll would pass the quota: refuse and stop this connection.
    assert!(!chain.should_issue_request(true));
    assert!(!chain.local_run);
}

#[test]
fn rate_limit_gate_refuses_without_counting() {
    let mut chain = HookChain::new(0, true, Some(CompletionCondition::NumRequests(2)));
    // A refused poll does not consume quota.
    assert!(!chain.should_issue_request(false));
    assert!(chain.local_run);
    assert!(chain.should_issue_request(true));
    assert!(chain.should_issue_request(true));
    assert!(!chain.should_issue_request(true));
    assert!(!chain.local_run);
}

#[test]
fn chain_without_hooks_always_issues() {
    let mut chain = HookChain::new(3, false, None);
    for _ in 0..100 {
        assert!(chain.should_issue_request(true));
    }
    assert!(chain.local_run);
}

#[test]
fn duration_hook_installed_on_connection_zero_only() {
    let c0 = HookChain::new(0, false, Some(CompletionCondition::Duration(2)));
    let c1 = HookChain::new(1, false, Some(CompletionCondition::Duration(2)));
    assert!(c0.duration_completion);
    assert!(!c1.duration_completion);
    assert!(c0.requests_completion.is_none());
}

#[test]
fn stats_hook_timing_and_recording() {
    let mut chain = HookChain::new(0, false, None);
    let mut worker = WorkerStats::new();
    chain.before_request(256, 1_000);
    chain.after_request(1_400);
    chain.after_response(&mut worker, 200, 512, 2_000);
    assert_eq!(worker.instant_stats.requests_issued, 1);
    assert_eq!(worker.instant_stats.bytes_written, 256);
    assert_eq!(worker.instant_stats.bytes_read, 512);
    assert_eq!(worker.run_stats.rtt_sample_count(), 1);

    chain.before_request(256, 5_000);
    chain.after_request(5_100);
    chain.after_response(&mut worker, 503, 0, 6_000);
    assert_eq!(worker.instant_stats.requests_issued, 1);
    assert_eq!(worker.run_stats.errors.count(503), 1);
}

#[test]
fn completion_conditions_divvied_like_connections() {
    let shares = divvy_completion(&Some(CompletionCondition::NumRequests(10)), 4);
    let counts: Vec<usize> = shares
        .iter()
        .map(|c| match c {
            Some(CompletionCondition::NumRequests(n)) => *n,
            _ => panic!("expected a request-count condition"),
        })
        .collect();
    assert_eq!(counts, vec![3, 3, 2, 2]);

    let durs = divvy_completion(&Some(CompletionCondition::Duration(9)), 3);
    assert_eq!(durs.len(), 3);
    for d in &durs {
        assert!(matches!(d, Some(CompletionCondition::Duration(9))));
    }

    let nones = divvy_completion(&None, 2);
    assert_eq!(nones.len(), 2);
    for n in &nones {
        assert!(n.is_none());
    }
}
