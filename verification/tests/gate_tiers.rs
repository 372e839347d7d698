use sirius_forester::amt::Amt;
use sirius_forester::config::{GateConfig, GateFallback};
use sirius_forester::gate::{
    decide_plan, execute_plan, first_line, is_global_impact, last_lines, note_is_suspect,
    run_gate, select, shell_quote, GatePlan, Selection,
};
use sirius_forester::hayven::Hayven;
use sirius_forester::ledger::Ledger;
use sirius_forester::shell::{MockResponse, MockRunner};

fn quoted_list(items: &[String]) -> String {
    let parts: Vec<String> = items.iter().map(|s| format!("\"{s}\"")).collect();
    format!("[{}]", parts.join(","))
}

fn sel_json(ok: bool, roots: usize, note: &str, runnables: &[&str]) -> Selection {
    let mut m = MockRunner::new();
    let roots_arr: Vec<String> = (0..roots).map(|i| format!("r{i}")).collect();
    let tests: Vec<String> =
        runnables.iter().map(|r| format!("{{\"runnable\":\"{r}\"}}")).collect();
    let body = format!(
        "{{\"roots\":{},\"note\":\"{}\",\"tests\":[{}]}}",
        quoted_list(&roots_arr),
        note,
        tests.join(",")
    );
    m.push(MockResponse::new(&["hayven", "affected-tests"], if ok { 0 } else { 1 }, &body, ""));
    let hv = Hayven::new();
    select(&mut m, &hv, &["src/a.rs".into()])
}

fn gate_cfg(cmd: Option<&str>, fb: GateFallback) -> GateConfig {
    GateConfig { test_cmd: cmd.map(|s| s.to_string()), fallback: fb }
}

#[test]
fn select_parses_roots_note_runnables() {
    let s = sel_json(true, 3, "clean", &["t::a", "t::b"]);
    assert!(s.ok);
    assert_eq!(s.roots, 3);
    assert_eq!(s.runnables, vec!["t::a", "t::b"]);
}

#[test]
fn empty_changed_files_is_doubt() {
    let mut m = MockRunner::new();
    let hv = Hayven::new();
    let s = select(&mut m, &hv, &[]);
    assert!(!s.ok);
    assert_eq!(m.call_count(), 0);
}

#[test]
fn trusted_selection_runs_subset() {
    let s = sel_json(true, 2, "traced", &["t::a"]);
    let plan = decide_plan(&s, &["src/a.rs".into()], GateFallback::FullSuite);
    assert!(matches!(plan, GatePlan::Subset(ref ids, _) if ids == &["t::a"]));
}

#[test]
fn under_report_note_forces_full_suite() {
    let s = sel_json(true, 5, "no traces yet — static only, may UNDER-report", &["t::a"]);
    let plan = decide_plan(&s, &["src/a.rs".into()], GateFallback::FullSuite);
    assert!(matches!(plan, GatePlan::Full(_)), "got {plan:?}");
}

#[test]
fn zero_roots_forces_full_suite() {
    let s = sel_json(true, 0, "clean", &["t::a"]);
    let plan = decide_plan(&s, &["src/a.rs".into()], GateFallback::FullSuite);
    assert!(matches!(plan, GatePlan::Full(_)));
}

#[test]
fn empty_selection_forces_full_suite() {
    let s = sel_json(true, 3, "clean", &[]);
    let plan = decide_plan(&s, &["src/a.rs".into()], GateFallback::FullSuite);
    assert!(matches!(plan, GatePlan::Full(_)));
}

#[test]
fn global_impact_file_forces_full_even_with_narrow_selection() {
    let s = sel_json(true, 2, "traced", &["t::a"]);
    let plan = decide_plan(&s, &["Cargo.toml".into()], GateFallback::FullSuite);
    assert!(matches!(plan, GatePlan::Full(ref r) if r.contains("Cargo.toml")));
}

#[test]
fn fallback_fail_blocks_on_doubt() {
    let s = sel_json(false, 0, "", &[]);
    let plan = decide_plan(&s, &["src/a.rs".into()], GateFallback::Fail);
    assert!(matches!(plan, GatePlan::Block(_)));
}

#[test]
fn fallback_warn_passes_on_doubt() {
    let s = sel_json(false, 0, "", &[]);
    let plan = decide_plan(&s, &["src/a.rs".into()], GateFallback::PassWithWarning);
    assert!(matches!(plan, GatePlan::WarnPass(_)));
}

#[test]
fn execute_full_suite_passes_when_tests_pass() {
    let mut m = MockRunner::new();
    m.expect(&["sh", "-c"], 0, "ok");
    let v = execute_plan(&mut m, Some("cargo test"), GatePlan::Full("doubt".into()));
    assert!(v.passed);
    assert!(v.ran_tests);
    assert_eq!(v.plan, "full-suite");
    assert_eq!(m.recorded()[0], "sh -c cargo test");
}

#[test]
fn execute_full_suite_fails_when_tests_fail() {
    let mut m = MockRunner::new();
    m.push(MockResponse::new(&["sh", "-c"], 101, "", "test failed"));
    let v = execute_plan(&mut m, Some("cargo test"), GatePlan::Full("doubt".into()));
    assert!(!v.passed);
    assert!(v.ran_tests);
}

#[test]
fn execute_subset_appends_selected_ids() {
    let mut m = MockRunner::new();
    m.expect(&["sh", "-c"], 0, "ok");
    let v = execute_plan(
        &mut m,
        Some("pytest -q"),
        GatePlan::Subset(vec!["tests/test_x.py::test_a".into()], "1".into()),
    );
    assert!(v.passed);
    assert_eq!(v.tests_run, 1);
    assert_eq!(m.recorded()[0], "sh -c pytest -q tests/test_x.py::test_a");
}

#[test]
fn execute_without_test_cmd_fails_closed() {
    let mut m = MockRunner::new();
    let v = execute_plan(&mut m, None, GatePlan::Full("doubt".into()));
    assert!(!v.passed);
    assert!(!v.ran_tests);
    assert_eq!(v.plan, "unconfigured");
    assert_eq!(m.call_count(), 0);
}

#[test]
fn execute_block_and_warn_run_nothing() {
    let mut m = MockRunner::new();
    let b = execute_plan(&mut m, Some("cargo test"), GatePlan::Block("doubt".into()));
    assert!(!b.passed);
    assert_eq!(b.plan, "blocked");
    let w = execute_plan(&mut m, Some("cargo test"), GatePlan::WarnPass("doubt".into()));
    assert!(w.passed);
    assert_eq!(w.plan, "pass-with-warning");
    assert!(!w.ran_tests);
    assert_eq!(m.call_count(), 0);
}

#[test]
fn subset_ids_are_shell_quoted() {
    let mut m = MockRunner::new();
    let v = execute_plan(
        &mut m,
        Some("pytest"),
        GatePlan::Subset(vec!["t::it's".into(), "plain".into()], "2".into()),
    );
    assert!(v.passed);
    assert_eq!(v.plan, "subset(2)");
    assert_eq!(m.recorded()[0], "sh -c pytest 't::it'\\''s' plain");
}

#[test]
fn run_gate_pass_advances_status() {
    let mut m = MockRunner::new();
    m.expect(&["git", "diff"], 0, "src/run.rs\n");
    m.expect(
        &["hayven", "affected-tests"],
        0,
        r#"{"roots":["run"],"note":"no traces yet — may UNDER-report","tests":[]}"#,
    );
    m.expect(&["sh", "-c"], 0, "test result: ok");
    m.expect(&["amt", "--json", "issue", "update"], 0, r#"{"id":"AMT-7"}"#);
    let amt = Amt::new();
    let hv = Hayven::new();
    let mut led = Ledger::open_in_memory().unwrap();
    let cfg = gate_cfg(Some("cargo test"), GateFallback::FullSuite);
    let o = run_gate(&amt, &hv, &mut led, &mut m, &cfg, "AMT-7", "safe", "in_review", None).unwrap();
    assert!(o.passed);
    assert_eq!(o.plan, "full-suite");
    assert!(o.ran_tests);
    assert_eq!(o.advanced_to.as_deref(), Some("in_review"));
    assert!(m.recorded().iter().any(|c| c.contains("issue update")));
    assert!(!m.recorded().iter().any(|c| c.contains("issue comment")));
}

#[test]
fn run_gate_blocks_when_selected_tests_fail() {
    let mut m = MockRunner::new();
    m.expect(&["git", "diff"], 0, "src/run.rs\n");
    m.expect(
        &["hayven", "affected-tests"],
        0,
        r#"{"roots":["run"],"note":"no traces yet — may UNDER-report","tests":[]}"#,
    );
    m.push(MockResponse::new(&["sh", "-c"], 101, "test result: FAILED. 1 failed", ""));
    m.expect(&["amt", "--json", "issue", "comment"], 0, r#"{"ok":true}"#);
    let amt = Amt::new();
    let hv = Hayven::new();
    let mut led = Ledger::open_in_memory().unwrap();
    let cfg = gate_cfg(Some("cargo test"), GateFallback::FullSuite);
    let o = run_gate(&amt, &hv, &mut led, &mut m, &cfg, "AMT-7", "safe", "in_review", None).unwrap();
    assert!(!o.passed);
    assert!(o.advanced_to.is_none());
    assert!(o.comment_filed);
    assert!(m.recorded().iter().any(|c| c.contains("issue comment")));
    assert!(!m.recorded().iter().any(|c| c.contains("issue update")));
}

#[test]
fn run_gate_fails_closed_without_test_cmd() {
    let mut m = MockRunner::new();
    m.expect(&["git", "diff"], 0, "src/run.rs\n");
    m.expect(
        &["hayven", "affected-tests"],
        0,
        r#"{"roots":["run"],"note":"may UNDER-report","tests":[]}"#,
    );
    m.expect(&["amt", "--json", "issue", "comment"], 0, r#"{"ok":true}"#);
    let amt = Amt::new();
    let hv = Hayven::new();
    let mut led = Ledger::open_in_memory().unwrap();
    let cfg = gate_cfg(None, GateFallback::FullSuite);
    let o = run_gate(&amt, &hv, &mut led, &mut m, &cfg, "AMT-7", "safe", "in_review", None).unwrap();
    assert!(!o.passed);
    assert_eq!(o.plan, "unconfigured");
    assert!(!o.ran_tests);
    assert!(o.advanced_to.is_none());
}

#[test]
fn run_gate_errors_without_changed_files() {
    let mut m = MockRunner::new();
    m.expect(&["git", "diff"], 0, "");
    let amt = Amt::new();
    let hv = Hayven::new();
    let mut led = Ledger::open_in_memory().unwrap();
    let cfg = gate_cfg(Some("cargo test"), GateFallback::FullSuite);
    assert!(run_gate(&amt, &hv, &mut led, &mut m, &cfg, "AMT-7", "safe", "in_review", None)
        .is_err());
    assert_eq!(m.call_count(), 1);
}

#[test]
fn run_gate_logs_a_gate_tier_event() {
    let mut m = MockRunner::new();
    m.expect(&["git", "diff"], 0, "src/run.rs\n");
    m.expect(&["amt", "--json", "issue", "update"], 0, "{}");
    let amt = Amt::new();
    let hv = Hayven::new();
    let mut led = Ledger::open_in_memory().unwrap();
    let cfg = gate_cfg(Some("cargo test"), GateFallback::FullSuite);
    let _ = run_gate(&amt, &hv, &mut led, &mut m, &cfg, "AMT-7", "safe", "in_review", None).unwrap();
    assert_eq!(led.count_policy_events("gate_tier", 10).unwrap(), 1);
}

#[test]
fn suspicious_notes_and_global_files() {
    assert!(note_is_suspect("may UNDER-report"));
    assert!(note_is_suspect("no traces yet"));
    assert!(!note_is_suspect("traced"));
    assert!(is_global_impact("Cargo.toml"));
    assert!(is_global_impact("nested/package.json"));
    assert!(!is_global_impact("src/a.rs"));
}

#[test]
fn text_helpers() {
    assert_eq!(first_line("one\ntwo"), "one");
    assert_eq!(first_line(""), "");
    assert_eq!(shell_quote("plain-id_1"), "plain-id_1");
    assert_eq!(shell_quote("a b"), "'a b'");
    assert_eq!(last_lines("a\nb\nc", "", 2), "b\nc");
}
