use sirius_forester::config::{ClaimMode, Config, GateFallback, Oracle202};

#[test]
fn defaults_match_contracts_section_3() {
    let c = Config::default();
    assert!(c.claim_order_enforced);
    assert_eq!(c.backoff_409.strategy, "release_and_comment");
    assert_eq!(c.backoff_409.base_ms, 500);
    assert_eq!(c.backoff_409.max_ms, 8000);
    assert_eq!(c.oracle_202, Oracle202::BackOff);
    assert_eq!(c.gate_tier, "safe");
    assert_eq!(c.target_status, "in_review");
    assert_eq!(c.retry_budget, 3);
    assert_eq!(c.worker_concurrency, 3);
    assert_eq!(c.claim_mode, ClaimMode::Adaptive);
    assert_eq!(c.gate.test_cmd, None);
    assert_eq!(c.gate.fallback, GateFallback::FullSuite);
    assert_eq!(c.agent_timeout_secs, 1800);
    assert_eq!(c.lease_ttl_secs, 900);
    assert_eq!(c.heartbeat_interval_secs(), 300);
}

#[test]
fn backoff_is_exponential_and_clamped() {
    let c = Config::default();
    assert_eq!(c.backoff_delay_ms(0), 500);
    assert_eq!(c.backoff_delay_ms(1), 1000);
    assert_eq!(c.backoff_delay_ms(2), 2000);
    assert_eq!(c.backoff_delay_ms(3), 4000);
    assert_eq!(c.backoff_delay_ms(4), 8000);
    assert_eq!(c.backoff_delay_ms(10), 8000);
}

#[test]
fn backoff_saturates_instead_of_overflowing() {
    let mut c = Config::default();
    c.backoff_409.base_ms = u64::MAX / 2;
    c.backoff_409.max_ms = u64::MAX;
    assert_eq!(c.backoff_delay_ms(0), u64::MAX / 2);
    assert_eq!(c.backoff_delay_ms(5), u64::MAX);
    assert_eq!(c.backoff_delay_ms(u32::MAX), u64::MAX);
}

#[test]
fn backoff_never_below_base_when_base_under_max() {
    let c = Config::default();
    for k in 0..40u32 {
        let d = c.backoff_delay_ms(k);
        assert!(d >= 500 && d <= 8000);
        assert!(c.backoff_delay_ms(k + 1) >= d);
    }
}

#[test]
fn heartbeat_interval_is_floored_at_one_second() {
    let mut c = Config::default();
    c.lease_ttl_secs = 2;
    assert_eq!(c.heartbeat_interval_secs(), 1);
    c.lease_ttl_secs = 0;
    assert_eq!(c.heartbeat_interval_secs(), 1);
    c.lease_ttl_secs = 9;
    assert_eq!(c.heartbeat_interval_secs(), 3);
}

#[test]
fn policy_names_are_debug_names() {
    assert_eq!(Oracle202::BackOff.debug_name(), "BackOff");
    assert_eq!(Oracle202::ForceWithBudget.debug_name(), "ForceWithBudget");
    assert_eq!(ClaimMode::Adaptive.debug_name(), "Adaptive");
    assert_eq!(ClaimMode::Never.debug_name(), "Never");
}
