use std::collections::HashSet;

use sirius_forester::bridge::LinkKind;
use sirius_forester::commands::{
    console_ui_url, decision_uri, doctor_exit_code, fleet_size, gate_can_advance, gate_exit_code,
    link_target, merge_symbols, next_action, regex_is_issue, tree_names, within_budget, WorkerAction,
    WorkerState, ERROR_BUDGET,
};
use sirius_forester::config::{Config, GateConfig, GateFallback};
use sirius_forester::ledger::Ledger;
use sirius_forester::run::IterationOutcome;

#[test]
fn tree_names_are_stable() {
    assert_eq!(tree_names(3), vec!["sirius/oak", "sirius/rowan", "sirius/birch"]);
}

#[test]
fn tree_names_stay_unique_past_the_roster() {
    let names = tree_names(12);
    let unique: HashSet<_> = names.iter().collect();
    assert_eq!(unique.len(), names.len(), "duplicate worker names: {names:?}");
    assert_eq!(names[7], "sirius/pine");
    assert_eq!(names[8], "sirius/tree9");
    assert_eq!(names[11], "sirius/tree12");
}

#[test]
fn issue_ref_detection() {
    assert!(regex_is_issue("AMT-7"));
    assert!(!regex_is_issue("some::symbol"));
    assert!(!regex_is_issue("AMT-7-extra"));
    assert!(!regex_is_issue("AMT-"));
    assert!(regex_is_issue("AMT-1234"));
}

#[test]
fn doctor_json_reports_health_in_the_envelope_not_the_exit_code() {
    assert_eq!(doctor_exit_code(true, true), 0);
    assert_eq!(doctor_exit_code(true, false), 0, "present-but-unhealthy");
    assert_eq!(doctor_exit_code(false, true), 0);
    assert_eq!(doctor_exit_code(false, false), 1, "human mode gates on drift");
}

#[test]
fn gate_exit_is_soft_blocked_on_fail() {
    assert_eq!(gate_exit_code(true), 0);
    assert_eq!(gate_exit_code(false), 3);
}

#[test]
fn fleet_size_is_clamped() {
    assert_eq!(fleet_size(0, 3), 1);
    assert_eq!(fleet_size(5, 3), 3);
    assert_eq!(fleet_size(2, 3), 2);
    assert_eq!(fleet_size(4, 0), 1);
}

#[test]
fn gate_can_advance_needs_a_command_or_an_opt_in() {
    let none = GateConfig { test_cmd: None, fallback: GateFallback::FullSuite };
    assert!(!gate_can_advance(&none));
    let warn = GateConfig { test_cmd: None, fallback: GateFallback::PassWithWarning };
    assert!(gate_can_advance(&warn));
    let cmd = GateConfig { test_cmd: Some("make test".into()), fallback: GateFallback::Fail };
    assert!(gate_can_advance(&cmd));
}

#[test]
fn link_target_needs_exactly_one() {
    assert_eq!(link_target(Some("AMT-1".into()), None), Some((LinkKind::Issue, "AMT-1".into())));
    assert_eq!(link_target(None, Some("D-2".into())), Some((LinkKind::Decision, "D-2".into())));
    assert_eq!(link_target(None, None), None);
    assert_eq!(link_target(Some("AMT-1".into()), Some("D-2".into())), None);
}

#[test]
fn merge_symbols_dedups_in_order() {
    let r = merge_symbols(vec!["a".into(), "b".into()], vec!["b".into(), "c".into(), "a".into()]);
    assert_eq!(r, vec!["a", "b", "c"]);
}

#[test]
fn decision_uri_strips_the_prefix() {
    assert_eq!(decision_uri("D-12"), "amt:decision/12");
    assert_eq!(decision_uri("12"), "amt:decision/12");
}

#[test]
fn console_url_honors_a_valid_port() {
    assert_eq!(console_ui_url(None), "http://localhost:1777");
    assert_eq!(console_ui_url(Some(" 8080 ".into())), "http://localhost:8080");
    assert_eq!(console_ui_url(Some("0".into())), "http://localhost:1777");
    assert_eq!(console_ui_url(Some("70000".into())), "http://localhost:1777");
    assert_eq!(console_ui_url(Some("abc".into())), "http://localhost:1777");
}

#[test]
fn errors_stop_after_the_budget() {
    let cfg = Config::default();
    let mut led = Ledger::open_in_memory().unwrap();
    let mut st = WorkerState::new();
    for i in 1..ERROR_BUDGET {
        let a = next_action(&mut st, &IterationOutcome::Error("x".into()), &cfg, &mut led, "w");
        assert!(matches!(a, WorkerAction::Wait { .. }), "error {i}");
    }
    let a = next_action(&mut st, &IterationOutcome::Error("x".into()), &cfg, &mut led, "w");
    assert_eq!(a, WorkerAction::Stop { failed: true });
}

#[test]
fn progress_resets_the_counters() {
    let cfg = Config::default();
    let mut led = Ledger::open_in_memory().unwrap();
    let mut st = WorkerState::new();
    next_action(&mut st, &IterationOutcome::Error("x".into()), &cfg, &mut led, "w");
    next_action(&mut st, &IterationOutcome::ReleasedOverlap, &cfg, &mut led, "w");
    let a = next_action(&mut st, &IterationOutcome::Completed, &cfg, &mut led, "w");
    assert_eq!(a, WorkerAction::Continue);
    assert_eq!(st, WorkerState::new());
}

#[test]
fn overlap_backs_off_exponentially_and_is_logged() {
    let cfg = Config::default();
    let mut led = Ledger::open_in_memory().unwrap();
    let mut st = WorkerState::new();
    let a1 = next_action(&mut st, &IterationOutcome::ReleasedOverlap, &cfg, &mut led, "w");
    let a2 = next_action(&mut st, &IterationOutcome::ReleasedOverlap, &cfg, &mut led, "w");
    assert_eq!(a1, WorkerAction::Wait { ms: 500 });
    assert_eq!(a2, WorkerAction::Wait { ms: 1000 });
    assert_eq!(led.count_policy_events("retry_budget", 10).unwrap(), 2);
}

#[test]
fn leased_board_is_probed_a_bounded_number_of_times() {
    let cfg = Config::default();
    let mut led = Ledger::open_in_memory().unwrap();
    let mut st = WorkerState::new();
    let busy = IterationOutcome::NoWork { retry_after: Some(900) };
    for _ in 0..3 {
        assert_eq!(next_action(&mut st, &busy, &cfg, &mut led, "w"), WorkerAction::Wait { ms: 30_000 });
    }
    assert_eq!(next_action(&mut st, &busy, &cfg, &mut led, "w"), WorkerAction::Stop { failed: false });
    let mut fresh = WorkerState::new();
    let dry = IterationOutcome::NoWork { retry_after: None };
    assert_eq!(next_action(&mut fresh, &dry, &cfg, &mut led, "w"), WorkerAction::Stop { failed: false });
    let short = IterationOutcome::NoWork { retry_after: Some(2) };
    assert_eq!(next_action(&mut fresh, &short, &cfg, &mut led, "w"), WorkerAction::Wait { ms: 2000 });
    assert_eq!(led.policy_events.len(), 0);
}

#[test]
fn shared_iteration_budget_admits_exactly_max_iterations() {
    assert!(within_budget(0, 0));
    assert!(within_budget(0, 1_000));
    assert!(within_budget(3, 0));
    assert!(within_budget(3, 2));
    assert!(!within_budget(3, 3));
    assert!(!within_budget(3, 4));
}
