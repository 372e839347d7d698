use sirius_forester::amt::{Amt, ClaimResult, err_text};
use sirius_forester::shell::{MockResponse, MockRunner};

#[test]
fn claim_success_parses_issue() {
    let mut m = MockRunner::new();
    m.expect(
        &["amt", "--json", "claim"],
        0,
        r#"{"id":"AMT-7","title":"Do the thing","status":"in_progress"}"#,
    );
    let amt = Amt::new();
    match amt.claim(&mut m, "sirius/oak", Some("todo")) {
        ClaimResult::Claimed(v) => {
            assert_eq!(v.get_string("id"), Some("AMT-7".to_string()));
        }
        other => panic!("expected Claimed, got {other:?}"),
    }
    assert_eq!(m.recorded()[0], "amt --json claim --agent sirius/oak --from todo");
}

#[test]
fn claim_no_work_parses_retry_after() {
    let mut m = MockRunner::new();
    m.expect(
        &["amt", "--json", "claim"],
        0,
        r#"{"claimed":false,"retry_after":900,"reason":"held by leases"}"#,
    );
    let amt = Amt::new();
    match amt.claim(&mut m, "sirius/oak", None) {
        ClaimResult::NoWork { retry_after, reason } => {
            assert_eq!(retry_after, Some(900));
            assert_eq!(reason, "held by leases");
        }
        other => panic!("expected NoWork, got {other:?}"),
    }
    assert_eq!(m.recorded()[0], "amt --json claim --agent sirius/oak");
}

#[test]
fn decide_extracts_decision_id() {
    let mut m = MockRunner::new();
    m.expect(&["amt", "--json", "decide"], 0, r#"{"id":"D-3","resolves":"AMT-7"}"#);
    let amt = Amt::new();
    assert_eq!(amt.decide(&mut m, "AMT-7", "why", "body").unwrap(), "D-3");
}

#[test]
fn comment_uses_issue_comment_form() {
    let mut m = MockRunner::new();
    m.expect(&["amt", "--json", "issue", "comment"], 0, r#"{"ok":true}"#);
    let amt = Amt::new();
    amt.comment(&mut m, "AMT-7", "linked a,b").unwrap();
    assert_eq!(m.recorded()[0], "amt --json issue comment AMT-7 -m linked a,b");
}

#[test]
fn error_exit_is_surfaced() {
    let mut m = MockRunner::new();
    m.push(MockResponse::new(&["amt", "--json", "issue", "show"], 1, "", "no such issue"));
    let amt = Amt::new();
    assert!(amt.issue_show(&mut m, "AMT-99").unwrap_err().contains("no such issue"));
}

#[test]
fn claim_failure_is_an_error() {
    let mut m = MockRunner::new();
    m.push(MockResponse::new(&["amt", "--json", "claim"], 2, "", "  not a workspace \n"));
    let amt = Amt::new();
    match amt.claim(&mut m, "sirius/oak", None) {
        ClaimResult::Error(e) => assert_eq!(e, "not a workspace"),
        other => panic!("expected Error, got {other:?}"),
    }
}

#[test]
fn claim_with_unparseable_output_is_an_error() {
    let mut m = MockRunner::new();
    m.expect(&["amt", "--json", "claim"], 0, "not json");
    let amt = Amt::new();
    assert!(matches!(amt.claim(&mut m, "w", None), ClaimResult::Error(_)));
}

#[test]
fn err_text_prefers_stderr_then_stdout() {
    assert_eq!(err_text("  bad  ", "ignored"), "bad");
    assert_eq!(err_text("   ", " from stdout "), "from stdout");
}

#[test]
fn release_passes_status_and_comment() {
    let mut m = MockRunner::new();
    let amt = Amt::new();
    amt.release(&mut m, "AMT-7", "sirius/oak", Some("todo"), Some("gave up")).unwrap();
    assert_eq!(
        m.recorded()[0],
        "amt --json release AMT-7 --agent sirius/oak --status todo -m gave up"
    );
}
