use sirius_forester::amt::Amt;
use sirius_forester::config::{ClaimMode, Config, GateConfig, GateFallback, Oracle202};
use sirius_forester::hayven::Hayven;
use sirius_forester::json::{parse_json, render, Json};
use sirius_forester::ledger::Ledger;
use sirius_forester::run::{
    agent_log_path, claim_decision, emit_event, file_deadend, issue_id, issue_title, lock_entities,
    log_path_for, release_entities, release_entity_checked, release_issue_checked, run_iteration,
    ClaimDecision, IterationOutcome, LockResult, ADAPTIVE_409_THRESHOLD, RELEASE_ATTEMPTS,
};
use sirius_forester::shell::{MockResponse, MockRunner};

fn cfg() -> Config {
    Config {
        claim_mode: ClaimMode::Always,
        gate: GateConfig { test_cmd: Some("run-suite".into()), fallback: GateFallback::FullSuite },
        ..Config::default()
    }
}

fn ndjson(out: &[Json]) -> String {
    let lines: Vec<String> = out.iter().map(render).collect();
    lines.join("\n")
}

fn count(m: &MockRunner, needle: &str) -> usize {
    m.recorded().iter().filter(|c| c.contains(needle)).count()
}

fn exactly(m: &MockRunner, line: &str) -> usize {
    m.recorded().iter().filter(|c| c.as_str() == line).count()
}

fn program_prefix(m: &mut MockRunner, issue: &str) {
    m.expect(&["amt", "--json", "claim"], 0, &format!(r#"{{"id":"{issue}","title":"T"}}"#));
    m.expect(&["hayven", "query"], 0, r#"{"hits":[{"id":"e1"}]}"#);
    m.expect(&["hayven", "claim"], 0, r#"{"id":"c1"}"#);
    m.expect(&["hayven", "context"], 0, r#"{"pack":true}"#);
    m.expect(&["hayven", "recall"], 0, r#"{"notes":[]}"#);
}

#[test]
fn claim_order_locks_in_order_and_releases_reverse() {
    let mut m = MockRunner::new();
    m.expect(&["hayven", "claim"], 0, r#"{"id":"c1"}"#);
    m.expect(&["hayven", "claim"], 0, r#"{"id":"c2"}"#);
    let hv = Hayven::new();
    let mut led = Ledger::open_in_memory().unwrap();
    let r = lock_entities(&hv, &mut led, &mut m, &cfg(), "AMT-7", "t", &["e1".into(), "e2".into()]);
    match r {
        LockResult::Locked { claim_ids, verdicts } => {
            assert_eq!(claim_ids, vec!["c1", "c2"]);
            assert_eq!(verdicts, vec!["registered", "registered"]);
        }
        other => panic!("expected Locked, got {other:?}"),
    }
    let calls = m.recorded();
    assert!(calls[0].contains("hayven claim e1"));
    assert!(calls[1].contains("hayven claim e2"));

    let mut m2 = MockRunner::new();
    m2.expect(&["hayven", "release"], 0, "ok");
    m2.expect(&["hayven", "release"], 0, "ok");
    let mut led2 = Ledger::open_in_memory().unwrap();
    release_entities(&hv, &mut led2, &mut m2, "AMT-7", &["c1".into(), "c2".into()]);
    let rel = m2.recorded();
    assert!(rel[0].contains("release c2"));
    assert!(rel[1].contains("release c1"));
}

#[test]
fn overlap_on_second_entity_unwinds_first() {
    let mut m = MockRunner::new();
    m.expect(&["hayven", "claim"], 0, r#"{"id":"c1"}"#);
    m.push(MockResponse::new(&["hayven", "claim"], 1, "", "held by other/agent"));
    let hv = Hayven::new();
    let mut led = Ledger::open_in_memory().unwrap();
    let r = lock_entities(&hv, &mut led, &mut m, &cfg(), "AMT-7", "t", &["e1".into(), "e2".into()]);
    match r {
        LockResult::Overlap { blocker, acquired } => {
            assert!(blocker.contains("e2"));
            assert_eq!(acquired, vec!["c1"]);
        }
        other => panic!("expected Overlap, got {other:?}"),
    }
    assert_eq!(led.count_policy_events("backoff_409", 100).unwrap(), 1);
}

#[test]
fn oracle_conflict_backs_off_by_default() {
    let mut m = MockRunner::new();
    m.push(MockResponse::new(&["hayven", "claim"], 3, "", "adjacency"));
    let hv = Hayven::new();
    let mut led = Ledger::open_in_memory().unwrap();
    let c = Config { claim_mode: ClaimMode::Always, oracle_202: Oracle202::BackOff, ..Config::default() };
    let r = lock_entities(&hv, &mut led, &mut m, &c, "AMT-7", "t", &["e1".into()]);
    assert!(matches!(r, LockResult::OracleBackoff { .. }));
    assert_eq!(led.count_policy_events("oracle_202", 100).unwrap(), 1);
}

#[test]
fn oracle_force_with_budget_forces_claim() {
    let mut m = MockRunner::new();
    m.push(MockResponse::new(&["hayven", "claim"], 3, "", "adjacency"));
    m.push(MockResponse::new(&["hayven", "claim"], 0, r#"{"id":"forced"}"#, ""));
    let hv = Hayven::new();
    let mut led = Ledger::open_in_memory().unwrap();
    let c = Config {
        claim_mode: ClaimMode::Always,
        oracle_202: Oracle202::ForceWithBudget,
        ..Config::default()
    };
    let r = lock_entities(&hv, &mut led, &mut m, &c, "AMT-7", "t", &["e1".into()]);
    match r {
        LockResult::Locked { claim_ids, verdicts } => {
            assert_eq!(claim_ids, vec!["forced"]);
            assert_eq!(verdicts, vec!["forced"]);
        }
        other => panic!("expected Locked, got {other:?}"),
    }
    assert!(m.recorded()[1].contains("--force"));
}

#[test]
fn adaptive_relies_on_gate_when_calm() {
    let led = Ledger::open_in_memory().unwrap();
    assert_eq!(claim_decision(ClaimMode::Adaptive, &led), ClaimDecision::RelyOnGate);
}

#[test]
fn adaptive_preclaims_under_contention() {
    let mut led = Ledger::open_in_memory().unwrap();
    for _ in 0..ADAPTIVE_409_THRESHOLD {
        led.log_policy_event(None, "backoff_409", parse_json("{}").unwrap()).unwrap();
    }
    assert_eq!(claim_decision(ClaimMode::Adaptive, &led), ClaimDecision::PreClaim);
}

#[test]
fn fixed_claim_modes_ignore_history() {
    let mut led = Ledger::open_in_memory().unwrap();
    assert_eq!(claim_decision(ClaimMode::Always, &led), ClaimDecision::PreClaim);
    for _ in 0..5 {
        led.log_policy_event(None, "backoff_409", Json::Null).unwrap();
    }
    assert_eq!(claim_decision(ClaimMode::Never, &led), ClaimDecision::RelyOnGate);
}

#[test]
fn no_work_short_circuits() {
    let mut m = MockRunner::new();
    m.expect(&["amt", "--json", "claim"], 0, r#"{"claimed":false,"retry_after":30}"#);
    let amt = Amt::new();
    let hv = Hayven::new();
    let mut led = Ledger::open_in_memory().unwrap();
    let mut out = Vec::new();
    let o = run_iteration(&amt, &hv, &mut led, &cfg(), &mut m, "sirius/oak", Some("todo"), "true", &mut out);
    assert_eq!(o, IterationOutcome::NoWork { retry_after: Some(30) });
    assert!(ndjson(&out).contains("\"claimed\":false"));
    assert_eq!(m.call_count(), 1);
}

#[test]
fn claim_error_is_an_iteration_error() {
    let mut m = MockRunner::new();
    m.push(MockResponse::new(&["amt", "--json", "claim"], 2, "", "no workspace"));
    let amt = Amt::new();
    let hv = Hayven::new();
    let mut led = Ledger::open_in_memory().unwrap();
    let mut out = Vec::new();
    let o = run_iteration(&amt, &hv, &mut led, &cfg(), &mut m, "w", None, "true", &mut out);
    assert_eq!(o, IterationOutcome::Error("no workspace".into()));
    assert_eq!(m.call_count(), 1);
}

#[test]
fn full_iteration_completes_and_writes_ledger_row() {
    let mut m = MockRunner::new();
    m.expect(&["amt", "--json", "claim"], 0, r#"{"id":"AMT-7","title":"Fix"}"#);
    m.expect(&["hayven", "query"], 0, r#"{"hits":[{"id":"e1"}]}"#);
    m.expect(&["hayven", "claim"], 0, r#"{"id":"c1"}"#);
    m.expect(&["hayven", "context"], 0, r#"{"pack":true}"#);
    m.expect(&["hayven", "recall"], 0, r#"{"notes":[]}"#);
    m.expect(&["amt", "--json", "claim", "--issue"], 0, r#"{"id":"AMT-7"}"#);
    m.expect(&["sh", "-c"], 0, "");
    m.expect(&["git", "diff"], 0, "src/run.rs\n");
    m.expect(
        &["hayven", "affected-tests"],
        0,
        r#"{"roots":["run"],"note":"no traces yet — may UNDER-report","tests":[]}"#,
    );
    m.expect(&["sh", "-c"], 0, "test result: ok");
    m.expect(&["amt", "--json", "issue", "update"], 0, r#"{"id":"AMT-7"}"#);
    m.expect(&["amt", "--json", "decide"], 0, r#"{"id":"D-1","resolves":"AMT-7"}"#);
    m.expect(&["amt", "--json", "decision", "show"], 0, r#"{"id":"D-1","resolves":"AMT-7"}"#);
    m.expect(&["amt", "--json", "issue", "comment"], 0, r#"{"ok":true}"#);
    m.expect(&["hayven", "remember"], 0, r#"{"id":"mem"}"#);
    m.expect(&["hayven", "release"], 0, "ok");
    m.expect(&["amt", "--json", "release"], 0, r#"{"id":"AMT-7"}"#);

    let amt = Amt::new();
    let hv = Hayven::new();
    let mut led = Ledger::open_in_memory().unwrap();
    let mut out = Vec::new();
    let o = run_iteration(&amt, &hv, &mut led, &cfg(), &mut m, "sirius/oak", Some("todo"), "true", &mut out);
    assert_eq!(o, IterationOutcome::Completed);

    assert_eq!(led.iterations.len(), 1);
    assert_eq!(led.iterations[0].outcome.as_deref(), Some("completed"));
    assert_eq!(led.iterations[0].gate_result.as_deref(), Some("pass"));
    assert!(led.iterations[0].receipt_id.is_some());

    let s = ndjson(&out);
    assert!(s.contains("\"phase\":\"receipt\""));
    assert!(s.contains("\"phase\":\"release\""));
    let release = m.recorded().into_iter().find(|c| c.contains("amt --json release AMT-7")).unwrap();
    assert!(release.contains("--status in_review"));
}

#[test]
fn failed_gate_does_not_advance_the_issue() {
    let mut m = MockRunner::new();
    m.expect(&["amt", "--json", "claim"], 0, r#"{"id":"AMT-9","title":"Regress"}"#);
    m.expect(&["hayven", "query"], 0, r#"{"hits":[{"id":"e1"}]}"#);
    m.expect(&["hayven", "claim"], 0, r#"{"id":"c1"}"#);
    m.expect(&["hayven", "context"], 0, r#"{"pack":true}"#);
    m.expect(&["hayven", "recall"], 0, r#"{"notes":[]}"#);
    m.expect(&["amt", "--json", "claim", "--issue"], 0, r#"{"id":"AMT-9"}"#);
    m.expect(&["sh", "-c"], 0, "");
    m.expect(&["git", "diff"], 0, "src/run.rs\n");
    m.expect(&["hayven", "affected-tests"], 0, r#"{"roots":["run"],"note":"may UNDER-report","tests":[]}"#);
    m.push(MockResponse::new(&["sh", "-c"], 101, "test result: FAILED. 1 failed", ""));
    m.expect(&["hayven", "release"], 0, "ok");
    m.expect(&["amt", "--json", "release"], 0, r#"{"id":"AMT-9"}"#);

    let amt = Amt::new();
    let hv = Hayven::new();
    let mut led = Ledger::open_in_memory().unwrap();
    let mut out = Vec::new();
    let c = Config { retry_budget: 1, ..cfg() };
    let o = run_iteration(&amt, &hv, &mut led, &c, &mut m, "sirius/oak", Some("todo"), "true", &mut out);
    assert_eq!(o, IterationOutcome::Deadend);

    let calls = m.recorded();
    let release = calls
        .iter()
        .find(|c| c.contains("amt --json release AMT-9"))
        .expect("issue was released");
    assert!(release.contains("--status todo"), "gate-failed issue must return to todo, got: {release}");
    assert!(!release.contains("in_review"), "gate-failed issue must not be promoted, got: {release}");
    assert!(!calls.iter().any(|c| c.contains("issue update")));
    assert!(!calls.iter().any(|c| c.contains("amt --json decide")));

    assert_eq!(led.iterations[0].outcome.as_deref(), Some("gate_failed"));
    assert_eq!(led.iterations[0].gate_result.as_deref(), Some("fail"));
    assert!(led.iterations[0].receipt_id.is_none());
    assert!(ndjson(&out).contains("\"advanced\":false"));
}

#[test]
fn agent_timeout_kills_releases_without_advancing_and_files_deadend() {
    let mut m = MockRunner::new();
    m.expect(&["amt", "--json", "claim"], 0, r#"{"id":"AMT-11","title":"Hang"}"#);
    m.expect(&["hayven", "query"], 0, r#"{"hits":[{"id":"e1"}]}"#);
    m.expect(&["hayven", "claim"], 0, r#"{"id":"c1"}"#);
    m.expect(&["hayven", "context"], 0, r#"{"pack":true}"#);
    m.expect(&["hayven", "recall"], 0, r#"{"notes":[]}"#);
    m.expect(&["amt", "--json", "claim", "--issue"], 0, r#"{"id":"AMT-11"}"#);
    m.expect(&["sh", "-c"], 0, "");
    m.expect(&["hayven", "release"], 0, "ok");
    m.expect(&["amt", "--json", "release"], 0, r#"{"id":"AMT-11"}"#);
    m.expect(&["hayven", "remember"], 0, r#"{"id":"mem"}"#);
    m.arm_agent_timeout(2);

    let amt = Amt::new();
    let hv = Hayven::new();
    let mut led = Ledger::open_in_memory().unwrap();
    let mut out = Vec::new();
    let o = run_iteration(&amt, &hv, &mut led, &cfg(), &mut m, "sirius/oak", Some("todo"), "sleep 999", &mut out);
    assert_eq!(o, IterationOutcome::Deadend);

    let calls = m.recorded();
    let release = calls
        .iter()
        .find(|c| c.contains("amt --json release AMT-11"))
        .expect("issue released");
    assert!(release.contains("--status todo"));
    assert!(!calls.iter().any(|c| c.contains("issue update")));
    assert!(!calls.iter().any(|c| c.contains("amt --json decide")));
    assert!(!calls.iter().any(|c| c.contains("git diff")), "no gate on timeout");
    assert!(calls.iter().any(|c| c.contains("hayven remember") && c.contains("timed out")));

    assert_eq!(led.iterations[0].outcome.as_deref(), Some("agent_timeout"));
    assert!(led.iterations[0].gate_result.is_none());
    assert!(led.iterations[0].receipt_id.is_none());

    let s = ndjson(&out);
    assert!(s.contains("\"timed_out\":true"));
    assert!(s.contains("\"reason\":\"agent_timeout\""));
}

#[test]
fn heartbeat_renews_both_leases_while_agent_runs() {
    let mut m = MockRunner::new();
    m.expect(&["amt", "--json", "claim"], 0, r#"{"id":"AMT-12","title":"Long"}"#);
    m.expect(&["hayven", "query"], 0, r#"{"hits":[{"id":"e1"}]}"#);
    m.expect(&["hayven", "claim"], 0, r#"{"id":"c1"}"#);
    m.expect(&["hayven", "context"], 0, r#"{"pack":true}"#);
    m.expect(&["hayven", "recall"], 0, r#"{"notes":[]}"#);
    m.expect(&["amt", "--json", "claim", "--issue"], 0, r#"{"id":"AMT-12"}"#);
    m.expect(&["sh", "-c"], 0, "");
    m.expect(&["git", "diff"], 0, "");
    m.expect(&["amt", "--json", "release"], 0, r#"{"id":"AMT-12"}"#);
    m.arm_agent_heartbeats(3);

    let amt = Amt::new();
    let hv = Hayven::new();
    let mut led = Ledger::open_in_memory().unwrap();
    let mut out = Vec::new();
    let _ = run_iteration(&amt, &hv, &mut led, &cfg(), &mut m, "sirius/oak", Some("todo"), "long-cmd", &mut out);

    assert_eq!(count(&m, "amt --json claim --issue AMT-12"), 4, "1 pre-spawn + 3 periodic issue heartbeats");
    assert_eq!(count(&m, "hayven claim e1"), 4, "1 lock + 3 periodic entity refreshes");
}

#[test]
fn release_entity_retries_and_recovers_transient_failure() {
    let mut m = MockRunner::new();
    m.push(MockResponse::new(&["hayven", "release"], 1, "", "daemon busy"));
    let hv = Hayven::new();
    let mut led = Ledger::open_in_memory().unwrap();
    release_entities(&hv, &mut led, &mut m, "AMT-7", &["c1".into()]);
    assert_eq!(count(&m, "hayven release"), 2, "one failure + one recovering retry");
    assert_eq!(led.count_policy_events("release_failure", 100).unwrap(), 0);
}

#[test]
fn release_entity_logs_policy_event_when_every_attempt_fails() {
    let mut m = MockRunner::new();
    for _ in 0..RELEASE_ATTEMPTS {
        m.push(MockResponse::new(&["hayven", "release"], 1, "", "still down"));
    }
    let hv = Hayven::new();
    let mut led = Ledger::open_in_memory().unwrap();
    release_entities(&hv, &mut led, &mut m, "AMT-7", &["c1".into()]);
    assert_eq!(count(&m, "hayven release"), RELEASE_ATTEMPTS as usize);
    assert_eq!(led.count_policy_events("release_failure", 100).unwrap(), 1);
}

#[test]
fn issue_release_logs_policy_event_when_every_attempt_fails() {
    let mut m = MockRunner::new();
    for _ in 0..RELEASE_ATTEMPTS {
        m.push(MockResponse::new(&["amt", "--json", "release"], 1, "", "amt unavailable"));
    }
    let amt = Amt::new();
    let mut led = Ledger::open_in_memory().unwrap();
    let ok = release_issue_checked(&amt, &mut led, &mut m, "AMT-7", "sirius/oak", Some("todo"), None);
    assert!(!ok);
    assert_eq!(count(&m, "amt --json release"), RELEASE_ATTEMPTS as usize);
    assert_eq!(led.count_policy_events("release_failure", 100).unwrap(), 1);
}

#[test]
fn single_release_reports_success_first_time() {
    let mut m = MockRunner::new();
    let hv = Hayven::new();
    let mut led = Ledger::open_in_memory().unwrap();
    assert!(release_entity_checked(&hv, &mut led, &mut m, "AMT-7", "c9"));
    assert_eq!(m.call_count(), 1);
    assert!(led.policy_events.is_empty());
}

#[test]
fn missing_claim_id_unwinds_instead_of_pushing_entity_name() {
    let mut m = MockRunner::new();
    m.expect(&["hayven", "claim"], 0, r#"{"id":"c1"}"#);
    m.expect(&["hayven", "claim"], 0, "");
    let hv = Hayven::new();
    let mut led = Ledger::open_in_memory().unwrap();
    let r = lock_entities(&hv, &mut led, &mut m, &cfg(), "AMT-7", "t", &["e1".into(), "e2".into()]);
    match r {
        LockResult::Overlap { blocker, acquired } => {
            assert!(blocker.contains("e2"), "blocker names the id-less entity");
            assert!(blocker.contains("without a claim id"));
            assert_eq!(acquired, vec!["c1"]);
        }
        other => panic!("expected Overlap on missing id, got {other:?}"),
    }
    assert_eq!(led.count_policy_events("backoff_409", 100).unwrap(), 1);
}

#[test]
fn retry_budget_reruns_work_gate_until_pass() {
    let mut m = MockRunner::new();
    program_prefix(&mut m, "AMT-20");
    m.expect(&["sh", "-c"], 0, "");
    m.expect(&["git", "diff"], 0, "src/run.rs\n");
    m.expect(&["hayven", "affected-tests"], 0, r#"{"roots":["run"],"note":"doubt","tests":[]}"#);
    m.push(MockResponse::new(&["sh", "-c"], 101, "test result: FAILED. 1 failed", ""));
    m.expect(&["sh", "-c"], 0, "");
    m.expect(&["git", "diff"], 0, "src/run.rs\n");
    m.expect(&["hayven", "affected-tests"], 0, r#"{"roots":["run"],"note":"doubt","tests":[]}"#);
    m.expect(&["sh", "-c"], 0, "test result: ok");
    m.expect(&["amt", "--json", "issue", "update"], 0, r#"{"id":"AMT-20"}"#);
    m.expect(&["amt", "--json", "decide"], 0, r#"{"id":"D-1","resolves":"AMT-20"}"#);
    m.expect(&["amt", "--json", "decision", "show"], 0, r#"{"id":"D-1","resolves":"AMT-20"}"#);
    m.expect(&["hayven", "remember"], 0, r#"{"id":"mem"}"#);
    m.expect(&["hayven", "release"], 0, "ok");
    m.expect(&["amt", "--json", "release"], 0, r#"{"id":"AMT-20"}"#);

    let amt = Amt::new();
    let hv = Hayven::new();
    let mut led = Ledger::open_in_memory().unwrap();
    let mut out = Vec::new();
    let c = Config { retry_budget: 2, ..cfg() };
    let o = run_iteration(&amt, &hv, &mut led, &c, &mut m, "sirius/oak", Some("todo"), "true", &mut out);
    assert_eq!(o, IterationOutcome::Completed);
    assert_eq!(exactly(&m, "sh -c true"), 2, "one retry means two agent runs");
    assert_eq!(led.count_policy_events("retry_budget", 100).unwrap(), 1);
    assert_eq!(led.iterations[0].outcome.as_deref(), Some("completed"));
    assert_eq!(led.iterations[0].gate_result.as_deref(), Some("pass"));
    assert!(ndjson(&out).contains("\"retrying\":true"));
}

#[test]
fn retry_budget_exhausts_and_deadends_after_all_attempts_fail() {
    let mut m = MockRunner::new();
    program_prefix(&mut m, "AMT-21");
    m.expect(&["sh", "-c"], 0, "");
    m.expect(&["git", "diff"], 0, "src/run.rs\n");
    m.expect(&["hayven", "affected-tests"], 0, r#"{"roots":["run"],"note":"doubt","tests":[]}"#);
    m.push(MockResponse::new(&["sh", "-c"], 101, "test result: FAILED. 1 failed", ""));
    m.expect(&["sh", "-c"], 0, "");
    m.expect(&["git", "diff"], 0, "src/run.rs\n");
    m.expect(&["hayven", "affected-tests"], 0, r#"{"roots":["run"],"note":"doubt","tests":[]}"#);
    m.push(MockResponse::new(&["sh", "-c"], 101, "test result: FAILED. 1 failed", ""));
    m.expect(&["hayven", "release"], 0, "ok");
    m.expect(&["amt", "--json", "release"], 0, r#"{"id":"AMT-21"}"#);
    m.expect(&["hayven", "remember"], 0, r#"{"id":"mem"}"#);

    let amt = Amt::new();
    let hv = Hayven::new();
    let mut led = Ledger::open_in_memory().unwrap();
    let mut out = Vec::new();
    let c = Config { retry_budget: 2, ..cfg() };
    let o = run_iteration(&amt, &hv, &mut led, &c, &mut m, "sirius/oak", Some("todo"), "true", &mut out);
    assert_eq!(o, IterationOutcome::Deadend);

    let calls = m.recorded();
    assert_eq!(exactly(&m, "sh -c true"), 2);
    assert_eq!(led.count_policy_events("retry_budget", 100).unwrap(), 1);
    let release = calls
        .iter()
        .find(|c| c.contains("amt --json release AMT-21"))
        .expect("issue released");
    assert!(release.contains("--status todo"));
    assert!(!calls.iter().any(|c| c.contains("issue update")));
    assert!(calls.iter().any(|c| c.contains("hayven remember")));
    assert_eq!(led.iterations[0].outcome.as_deref(), Some("gate_failed"));
    assert_eq!(led.iterations[0].gate_result.as_deref(), Some("fail"));
}

#[test]
fn agent_timeout_does_not_consume_retry_budget() {
    let mut m = MockRunner::new();
    program_prefix(&mut m, "AMT-22");
    m.expect(&["sh", "-c"], 0, "");
    m.expect(&["hayven", "release"], 0, "ok");
    m.expect(&["amt", "--json", "release"], 0, r#"{"id":"AMT-22"}"#);
    m.expect(&["hayven", "remember"], 0, r#"{"id":"mem"}"#);
    m.arm_agent_timeout(1);

    let amt = Amt::new();
    let hv = Hayven::new();
    let mut led = Ledger::open_in_memory().unwrap();
    let mut out = Vec::new();
    let c = Config { retry_budget: 3, ..cfg() };
    let o = run_iteration(&amt, &hv, &mut led, &c, &mut m, "sirius/oak", Some("todo"), "sleep 999", &mut out);
    assert_eq!(o, IterationOutcome::Deadend);
    assert_eq!(exactly(&m, "sh -c sleep 999"), 1, "a killed agent must not consume retries");
    assert_eq!(led.count_policy_events("retry_budget", 100).unwrap(), 0);
}

#[test]
fn forced_oracle_verdict_is_recorded_truthfully_in_the_ledger() {
    let mut m = MockRunner::new();
    m.expect(&["amt", "--json", "claim"], 0, r#"{"id":"AMT-23","title":"T"}"#);
    m.expect(&["hayven", "query"], 0, r#"{"hits":[{"id":"e1"}]}"#);
    m.push(MockResponse::new(&["hayven", "claim"], 3, "", "adjacency"));
    m.expect(&["hayven", "claim"], 0, r#"{"id":"c1"}"#);
    m.expect(&["hayven", "context"], 0, r#"{"pack":true}"#);
    m.expect(&["hayven", "recall"], 0, r#"{"notes":[]}"#);
    m.expect(&["sh", "-c"], 0, "");
    m.expect(&["git", "diff"], 0, "");
    m.expect(&["amt", "--json", "decide"], 0, r#"{"id":"D-1","resolves":"AMT-23"}"#);
    m.expect(&["amt", "--json", "decision", "show"], 0, r#"{"id":"D-1","resolves":"AMT-23"}"#);
    m.expect(&["hayven", "remember"], 0, r#"{"id":"mem"}"#);
    m.expect(&["hayven", "release"], 0, "ok");
    m.expect(&["amt", "--json", "release"], 0, r#"{"id":"AMT-23"}"#);

    let amt = Amt::new();
    let hv = Hayven::new();
    let mut led = Ledger::open_in_memory().unwrap();
    let mut out = Vec::new();
    let c = Config { oracle_202: Oracle202::ForceWithBudget, ..cfg() };
    let o = run_iteration(&amt, &hv, &mut led, &c, &mut m, "sirius/oak", Some("todo"), "true", &mut out);
    assert_eq!(o, IterationOutcome::Completed);
    assert_eq!(led.iterations[0].oracle_verdicts, Some(vec!["forced".to_string()]));
}

#[test]
fn oracle_backoff_release_records_backoff_not_forced() {
    let mut m = MockRunner::new();
    m.expect(&["amt", "--json", "claim"], 0, r#"{"id":"AMT-24","title":"T"}"#);
    m.expect(&["hayven", "query"], 0, r#"{"hits":[{"id":"e1"}]}"#);
    m.push(MockResponse::new(&["hayven", "claim"], 3, "", "adjacency"));
    m.expect(&["amt", "--json", "release"], 0, r#"{"id":"AMT-24"}"#);

    let amt = Amt::new();
    let hv = Hayven::new();
    let mut led = Ledger::open_in_memory().unwrap();
    let mut out = Vec::new();
    let c = Config { oracle_202: Oracle202::BackOff, ..cfg() };
    let o = run_iteration(&amt, &hv, &mut led, &c, &mut m, "sirius/oak", Some("todo"), "true", &mut out);
    assert_eq!(o, IterationOutcome::ReleasedOverlap);
    assert_eq!(led.iterations[0].oracle_verdicts, Some(vec!["backoff".to_string()]));
}

#[test]
fn emitted_events_carry_worker_issue_and_phase() {
    let mut out = Vec::new();
    emit_event(&mut out, "sirius/oak", Some("AMT-1"), "claim", vec![("extra".to_string(), Json::uint(3))]);
    assert_eq!(out.len(), 1);
    let e = &out[0];
    assert_eq!(e.get_string("worker"), Some("sirius/oak".to_string()));
    assert_eq!(e.get_string("issue"), Some("AMT-1".to_string()));
    assert_eq!(e.get_string("phase"), Some("claim".to_string()));
    assert_eq!(e.get("extra").and_then(|v| v.as_u64()), Some(3));
}

#[test]
fn issue_fields_are_read_from_the_claim() {
    let v = parse_json(r#"{"id":"AMT-3","title":"Do it"}"#).unwrap();
    assert_eq!(issue_id(&v), Some("AMT-3".to_string()));
    assert_eq!(issue_title(&v), "Do it");
    let bare = parse_json(r#"{"x":1}"#).unwrap();
    assert_eq!(issue_id(&bare), None);
    assert_eq!(issue_title(&bare), "");
}

#[test]
fn log_paths_are_sanitized() {
    assert_eq!(log_path_for("AMT-7", 42), ".sirius/logs/AMT-7-42.log");
    assert_eq!(log_path_for("a/b c", 1), ".sirius/logs/a_b_c-1.log");
    let p = agent_log_path("AMT-7").unwrap();
    assert!(p.starts_with(".sirius/logs/AMT-7-") && p.ends_with(".log"));
}

#[test]
fn deadend_note_is_remembered_on_the_entities() {
    let mut m = MockRunner::new();
    let hv = Hayven::new();
    file_deadend(&hv, &mut m, &["e1".into(), "e2".into()], "AMT-5", "agent timed out");
    let calls = m.recorded();
    assert_eq!(calls.len(), 1);
    assert!(calls[0].starts_with("hayven remember"));
    assert!(calls[0].contains("AMT-5"));
    assert!(calls[0].contains("agent timed out"));
    assert!(calls[0].contains("--scope e1,e2"));
}

#[test]
fn every_event_names_a_documented_phase() {
    let phases = ["claim", "map", "lock", "brief", "work", "gate", "receipt", "release"];
    let mut m = MockRunner::new();
    program_prefix(&mut m, "AMT-30");
    m.expect(&["git", "diff"], 0, "src/x.rs\n");
    m.push(MockResponse::new(&["sh", "-c"], 0, "", ""));
    m.push(MockResponse::new(&["sh", "-c"], 101, "FAILED", ""));
    let amt = Amt::new();
    let hv = Hayven::new();
    let mut led = Ledger::open_in_memory().unwrap();
    let mut out = Vec::new();
    let c = Config { retry_budget: 2, ..cfg() };
    let _ = run_iteration(&amt, &hv, &mut led, &c, &mut m, "sirius/oak", None, "true", &mut out);
    assert!(out.len() >= 6);
    for ev in &out {
        let p = ev.get_string("phase").unwrap();
        assert!(phases.contains(&p.as_str()), "undocumented phase {p}");
        assert_eq!(ev.get_string("event").as_deref(), Some("iteration"));
        assert_eq!(ev.get_string("worker").as_deref(), Some("sirius/oak"));
    }
    assert_eq!(out.first().unwrap().get_string("phase").as_deref(), Some("claim"));
    assert_eq!(out.last().unwrap().get_string("phase").as_deref(), Some("release"));
    // One ledger row, recorded honestly.
    assert_eq!(led.iterations.len(), 1);
    assert_eq!(led.iterations[0].issue_ref.as_deref(), Some("AMT-30"));
}

#[test]
fn iteration_releases_entities_before_the_issue() {
    let mut m = MockRunner::new();
    program_prefix(&mut m, "AMT-31");
    m.expect(&["git", "diff"], 0, "src/x.rs\n");
    m.push(MockResponse::new(&["sh", "-c"], 0, "", ""));
    m.push(MockResponse::new(&["sh", "-c"], 101, "FAILED", ""));
    let amt = Amt::new();
    let hv = Hayven::new();
    let mut led = Ledger::open_in_memory().unwrap();
    let mut out = Vec::new();
    let c = Config { retry_budget: 1, ..cfg() };
    let o = run_iteration(&amt, &hv, &mut led, &c, &mut m, "sirius/oak", None, "true", &mut out);
    assert_eq!(o, IterationOutcome::Deadend);
    let calls = m.recorded();
    let claim_issue = calls.iter().position(|c| c.starts_with("amt --json claim")).unwrap();
    let claim_entity = calls.iter().position(|c| c.starts_with("hayven claim e1")).unwrap();
    let rel_entity = calls.iter().position(|c| c.starts_with("hayven release c1")).unwrap();
    let rel_issue = calls.iter().position(|c| c.starts_with("amt --json release AMT-31")).unwrap();
    assert!(claim_issue < claim_entity, "issue is claimed first");
    assert!(claim_entity < rel_entity);
    assert!(rel_entity < rel_issue, "entities go back before the issue");
    assert!(calls[rel_issue + 1..].iter().all(|c| !c.starts_with("hayven release")));
}

#[test]
fn entity_overlap_releases_the_issue_naming_the_blocker() {
    let mut m = MockRunner::new();
    m.expect(&["amt", "--json", "claim"], 0, r#"{"id":"AMT-32","title":"T"}"#);
    m.expect(&["hayven", "query"], 0, r#"{"hits":[{"id":"e1"}]}"#);
    m.push(MockResponse::new(&["hayven", "claim"], 1, "", "held by other/agent"));
    m.expect(&["amt", "--json", "release"], 0, r#"{"id":"AMT-32"}"#);
    let amt = Amt::new();
    let hv = Hayven::new();
    let mut led = Ledger::open_in_memory().unwrap();
    let mut out = Vec::new();
    let o = run_iteration(&amt, &hv, &mut led, &cfg(), &mut m, "sirius/oak", None, "true", &mut out);
    assert_eq!(o, IterationOutcome::ReleasedOverlap);
    let calls = m.recorded();
    let release = calls.iter().find(|c| c.starts_with("amt --json release AMT-32")).expect("issue released");
    assert!(release.contains("--status todo"));
    assert!(release.contains("-m sirius: released — entity claim blocked by e1"), "got: {release}");
    assert_eq!(count(&m, "amt --json issue update"), 0);
    assert!(calls.iter().all(|c| !c.starts_with("sh ")), "no work while blocked");
    let last = render(out.last().expect("a release event"));
    assert!(last.contains("\"phase\":\"release\""), "{last}");
    assert!(last.contains("\"reason\":\"entity_overlap\""), "{last}");
    assert!(last.contains("\"blocker\":\"e1"), "{last}");
}

#[test]
fn failed_agent_with_nothing_to_gate_is_an_error_not_a_completion() {
    let mut m = MockRunner::new();
    program_prefix(&mut m, "AMT-33");
    m.push(MockResponse::new(&["sh", "-c"], 1, "", "boom"));
    m.expect(&["git", "diff"], 0, "");
    m.expect(&["amt", "--json", "release"], 0, r#"{"id":"AMT-33"}"#);
    let amt = Amt::new();
    let hv = Hayven::new();
    let mut led = Ledger::open_in_memory().unwrap();
    let mut out = Vec::new();
    let o = run_iteration(&amt, &hv, &mut led, &cfg(), &mut m, "sirius/oak", None, "false", &mut out);
    assert_eq!(o, IterationOutcome::Error("agent failed and left nothing to gate".into()));
    assert_eq!(led.iterations[0].outcome.as_deref(), Some("error"));
    assert_eq!(led.iterations[0].gate_result.as_deref(), Some("skipped"));
    assert!(led.iterations[0].receipt_id.is_none());
    let calls = m.recorded();
    assert_eq!(count(&m, "amt --json decide"), 0);
    assert_eq!(count(&m, "amt --json issue update"), 0);
    let release = calls.iter().find(|c| c.starts_with("amt --json release AMT-33")).unwrap();
    assert!(release.contains("--status todo"));
}

#[test]
fn each_iteration_logs_its_concurrency_decision() {
    let mut m = MockRunner::new();
    program_prefix(&mut m, "AMT-31");
    m.expect(&["sh", "-c"], 0, "");
    m.expect(&["git", "diff"], 0, "");
    m.expect(&["hayven", "release"], 0, "ok");
    m.expect(&["amt", "--json", "release"], 0, r#"{"id":"AMT-31"}"#);
    let amt = Amt::new();
    let hv = Hayven::new();
    let mut led = Ledger::open_in_memory().unwrap();
    let mut out = Vec::new();
    let _ = run_iteration(&amt, &hv, &mut led, &cfg(), &mut m, "sirius/oak", Some("todo"), "true", &mut out);
    let events: Vec<_> = led.policy_events.iter().filter(|e| e.kind == "concurrency").collect();
    assert_eq!(events.len(), 1);
    assert_eq!(events[0].iteration_id, Some(led.iterations[0].id));
    let detail = render(&events[0].detail);
    assert!(detail.contains("\"claim_mode\":\"Always\""), "{detail}");
    assert!(detail.contains("\"decision\":\"PreClaim\""), "{detail}");
    assert!(ndjson(&out).contains("\"claimed\":true"));
    assert!(ndjson(&out).contains("\"status\":\"in_review\""));
}

#[test]
fn completed_iteration_records_the_receipt_of_its_decision() {
    let mut m = MockRunner::new();
    program_prefix(&mut m, "AMT-34");
    m.expect(&["sh", "-c"], 0, "");
    m.expect(&["git", "diff"], 0, "src/run.rs\n");
    m.expect(&["hayven", "affected-tests"], 0, r#"{"roots":["run"],"tests":["run::t"]}"#);
    m.expect(&["sh", "-c"], 0, "test result: ok");
    m.expect(&["amt", "--json", "issue", "update"], 0, r#"{"id":"AMT-34"}"#);
    m.expect(&["amt", "--json", "decide"], 0, r#"{"id":"D-9"}"#);
    m.expect(&["amt", "--json", "decision", "show"], 0, r#"{"id":"D-9","resolves":"AMT-34"}"#);
    m.expect(&["amt", "--json", "issue", "comment"], 0, r#"{"ok":true}"#);
    m.expect(&["hayven", "remember"], 0, r#"{"id":"mem"}"#);
    m.expect(&["hayven", "release"], 0, "ok");
    m.expect(&["amt", "--json", "release"], 0, r#"{"id":"AMT-34"}"#);
    let amt = Amt::new();
    let hv = Hayven::new();
    let mut led = Ledger::open_in_memory().unwrap();
    let mut out = Vec::new();
    let o = run_iteration(&amt, &hv, &mut led, &cfg(), &mut m, "sirius/oak", Some("todo"), "true", &mut out);
    assert_eq!(o, IterationOutcome::Completed);
    let rid = led.iterations[0].receipt_id.expect("a receipt");
    let row = &led.receipts[(rid - 1) as usize];
    assert_eq!(row.id, rid);
    assert_eq!(row.kind, "decision");
    assert_eq!(row.reference, "D-9");
    assert_eq!(row.symbols, vec!["e1".to_string()]);
    assert_eq!(row.worker_id.as_deref(), Some("sirius/oak"));
    assert!(row.forward_ok && row.reverse_ok);
    assert_eq!(count(&m, "amt --json decision show D-9"), 1);
    assert_eq!(count(&m, "amt --json issue comment AMT-34"), 1);
    assert_eq!(count(&m, "amt --json issue update"), 1);
}
