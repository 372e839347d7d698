use sirius_forester::shell::{exit_trailer, AgentRunOpts, MockResponse, MockRunner, Runner};

fn opts(timeout_ms: u64) -> AgentRunOpts {
    AgentRunOpts { timeout_ms, heartbeat_interval_ms: 1000, log_path: None }
}

fn one_beat() -> Vec<(String, Vec<String>)> {
    vec![("hb".to_string(), vec!["renew".to_string()])]
}

fn beats_in(m: &MockRunner) -> usize {
    m.recorded().iter().filter(|c| c.as_str() == "hb renew").count()
}

#[test]
fn mock_matches_by_longest_prefix() {
    let mut m = MockRunner::new();
    m.expect(&["amt"], 0, "{\"generic\":true}");
    m.expect(&["amt", "claim"], 0, "{\"claimed\":false}");

    let out = m.run("amt", &["claim", "--json"]).unwrap();
    assert_eq!(out.stdout, "{\"claimed\":false}");
    // The generic one is still queued for a different amt call.
    let out2 = m.run("amt", &["issue", "show", "AMT-1"]).unwrap();
    assert_eq!(out2.stdout, "{\"generic\":true}");
}

#[test]
fn mock_records_calls() {
    let mut m = MockRunner::new();
    let _ = m.run("hayven", &["query", "add", "--json"]).unwrap();
    assert_eq!(m.recorded(), vec!["hayven query add --json".to_string()]);
    assert_eq!(m.call_count(), 1);
}

#[test]
fn unmatched_call_is_benign_success() {
    let mut m = MockRunner::new();
    let out = m.run("amt", &["whatever"]).unwrap();
    assert!(out.success());
}

#[test]
fn mock_run_agent_simulates_normal_return_with_heartbeats() {
    let mut m = MockRunner::new();
    m.expect(&["sh", "-c"], 0, "done");
    m.arm_agent_heartbeats(3);
    let outcome = m.run_agent("sh", &["-c", "x"], &opts(60_000), &one_beat()).unwrap();
    assert_eq!(beats_in(&m), 3);
    assert!(outcome.success());
    assert!(!outcome.timed_out());
    assert_eq!(outcome.output().stdout, "done");
}

#[test]
fn mock_run_agent_simulates_timeout() {
    let mut m = MockRunner::new();
    m.expect(&["sh", "-c"], 0, "");
    m.arm_agent_timeout(2);
    let outcome = m.run_agent("sh", &["-c", "sleep 999"], &opts(1000), &one_beat()).unwrap();
    assert_eq!(beats_in(&m), 2);
    assert!(outcome.timed_out());
    assert!(!outcome.success());
}

#[test]
fn equal_prefixes_answer_first_in_first_out() {
    let mut m = MockRunner::new();
    m.expect(&["git", "diff"], 0, "first");
    m.expect(&["git", "diff"], 0, "second");
    assert_eq!(m.run("git", &["diff"]).unwrap().stdout, "first");
    assert_eq!(m.run("git", &["diff"]).unwrap().stdout, "second");
    // Queue drained: the next call is a benign empty success.
    let third = m.run("git", &["diff"]).unwrap();
    assert!(third.success());
    assert_eq!(third.stdout, "");
}

#[test]
fn nonzero_response_is_not_success_and_keeps_stderr() {
    let mut m = MockRunner::new();
    m.push(MockResponse::new(&["amt"], 2, "", "boom"));
    let out = m.run("amt", &["x"]).unwrap();
    assert!(!out.success());
    assert_eq!(out.code_or_err(), 2);
    assert_eq!(out.stderr, "boom");
}

#[test]
fn unarmed_agent_run_has_no_heartbeats() {
    let mut m = MockRunner::new();
    m.expect(&["sh"], 0, "ok");
    let outcome = m.run_agent("sh", &["-c", "x"], &opts(1000), &one_beat()).unwrap();
    assert_eq!(beats_in(&m), 0);
    assert!(outcome.success());
    assert_eq!(m.call_count(), 1);
}

#[test]
fn exit_trailer_names_code_or_kill() {
    assert_eq!(exit_trailer(Some(0)), "\n[sirius] agent exit: 0\n");
    assert_eq!(exit_trailer(Some(-9)), "\n[sirius] agent exit: -9\n");
    assert_eq!(exit_trailer(None), "\n[sirius] agent exit: killed\n");
}
