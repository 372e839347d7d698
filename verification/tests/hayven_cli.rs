use sirius_forester::hayven::{combined, ClaimVerdict, Hayven};
use sirius_forester::shell::{CmdOutput, MockResponse, MockRunner};

#[test]
fn claim_exit0_is_registered_with_id() {
    let mut m = MockRunner::new();
    m.expect(&["hayven", "claim"], 0, r#"{"id":"clm_123"}"#);
    let h = Hayven::new();
    let v = h.claim(&mut m, &["a".into(), "b".into()], "AMT-7: t", false);
    assert_eq!(v, ClaimVerdict::Registered { claim_id: Some("clm_123".into()) });
    assert_eq!(m.recorded()[0], "hayven claim a b --intent AMT-7: t");
}

#[test]
fn claim_exit1_is_overlap() {
    let mut m = MockRunner::new();
    m.push(MockResponse::new(&["hayven", "claim"], 1, "", "409 overlap: held by other/agent"));
    let h = Hayven::new();
    match h.claim(&mut m, &["a".into()], "i", false) {
        ClaimVerdict::Overlap { detail } => assert!(detail.contains("409")),
        other => panic!("expected Overlap, got {other:?}"),
    }
}

#[test]
fn claim_exit3_is_oracle_conflict() {
    let mut m = MockRunner::new();
    m.push(MockResponse::new(&["hayven", "claim"], 3, "", "202 adjacency verdict"));
    let h = Hayven::new();
    assert!(matches!(
        h.claim(&mut m, &["a".into()], "i", false),
        ClaimVerdict::OracleConflict { .. }
    ));
}

#[test]
fn claim_other_exit_is_error_and_force_flag_is_passed() {
    let mut m = MockRunner::new();
    m.push(MockResponse::new(&["hayven", "claim"], 2, "", "daemon down"));
    let h = Hayven::new();
    match h.claim(&mut m, &["a".into()], "i", true) {
        ClaimVerdict::Error { detail } => assert!(detail.contains("daemon down")),
        other => panic!("expected Error, got {other:?}"),
    }
    assert_eq!(m.recorded()[0], "hayven claim a --intent i --force");
}

#[test]
fn affected_tests_changed_reports_ok_and_parses_json() {
    let mut m = MockRunner::new();
    m.expect(&["hayven", "affected-tests"], 0, r#"{"roots":["r"],"note":"clean","tests":[]}"#);
    let h = Hayven::new();
    let (ok, parsed, _) = h.affected_tests_changed(&mut m, &["src/a.rs".into()]);
    assert!(ok);
    assert!(parsed.is_some());
    assert_eq!(m.recorded()[0], "hayven affected-tests --changed src/a.rs --json");
}

#[test]
fn affected_tests_changed_marks_nonzero_exit_not_ok() {
    let mut m = MockRunner::new();
    m.push(MockResponse::new(&["hayven", "affected-tests"], 1, "", "index error"));
    let h = Hayven::new();
    let (ok, _, detail) = h.affected_tests_changed(&mut m, &["src/a.rs".into()]);
    assert!(!ok);
    assert!(detail.contains("index error"));
}

#[test]
fn affected_tests_changed_empty_files_is_not_ok() {
    let mut m = MockRunner::new();
    let h = Hayven::new();
    let (ok, _, _) = h.affected_tests_changed(&mut m, &[]);
    assert!(!ok);
    assert_eq!(m.call_count(), 0);
}

#[test]
fn remember_uses_positional_note_and_scope_csv() {
    let mut m = MockRunner::new();
    m.expect(&["hayven", "remember"], 0, r#"{"id":"mem_1"}"#);
    let h = Hayven::new();
    h.remember(&mut m, "AMT-7 governs this", Some("nodeA"), "decision", &["nodeA".into(), "nodeB".into()])
        .unwrap();
    assert_eq!(
        m.recorded()[0],
        "hayven remember AMT-7 governs this --node nodeA --kind decision --scope nodeA,nodeB --json"
    );
}

#[test]
fn release_by_claim_id() {
    let mut m = MockRunner::new();
    let h = Hayven::new();
    assert!(h.release(&mut m, "clm_9").is_ok());
    assert!(m.recorded()[0].starts_with("hayven release clm_9"));
}

#[test]
fn combined_joins_both_streams() {
    let o = CmdOutput { code: Some(1), stdout: "out".to_string(), stderr: "err".to_string() };
    assert_eq!(combined(&o), "out\nerr");
    let only_err = CmdOutput { code: Some(1), stdout: "  ".to_string(), stderr: "err".to_string() };
    assert_eq!(combined(&only_err), "  err");
}

#[test]
fn claim_killed_by_a_signal_is_an_error_not_an_overlap() {
    let mut m = MockRunner::new();
    let mut r = MockResponse::new(&["hayven", "claim"], 0, "", "killed");
    r.output.code = None;
    m.push(r);
    let h = Hayven::new();
    match h.claim(&mut m, &["a".into()], "i", false) {
        ClaimVerdict::Error { detail } => assert_eq!(detail, "killed"),
        other => panic!("expected Error, got {other:?}"),
    }
}
