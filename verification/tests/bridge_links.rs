use sirius_forester::amt::Amt;
use sirius_forester::bridge::{
    dedup_refs, extract_refs, extract_symbols_from_comment, forward_comment_body, link,
    reverse_note_body, why_issue, why_symbol, LinkKind,
};
use sirius_forester::hayven::Hayven;
use sirius_forester::ledger::Ledger;
use sirius_forester::shell::{MockResponse, MockRunner};

fn count_containing(m: &MockRunner, needle: &str) -> usize {
    m.recorded().iter().filter(|c| c.contains(needle)).count()
}

#[test]
fn forward_body_names_entities() {
    let b = forward_comment_body("AMT-7", &["a".into(), "b".into()]);
    assert!(b.contains("AMT-7"));
    assert!(b.contains("2 entities"));
    assert!(b.contains("a, b"));
}

#[test]
fn extract_refs_dedups_and_separates() {
    let text = "Governed by AMT-7. See D-3 and AMT-7 again, plus D-3.";
    let (issues, decisions) = extract_refs(text);
    assert_eq!(issues, vec!["AMT-7"]);
    assert_eq!(decisions, vec!["D-3"]);
}

#[test]
fn link_issue_stamps_both_directions_and_writes_receipt() {
    let mut m = MockRunner::new();
    m.expect(&["amt", "--json", "issue", "comment"], 0, r#"{"ok":true}"#);
    m.expect(&["hayven", "remember"], 0, r#"{"id":"mem_1"}"#);
    m.expect(&["hayven", "remember"], 0, r#"{"id":"mem_2"}"#);
    let amt = Amt::new();
    let hv = Hayven::new();
    let mut led = Ledger::open_in_memory().unwrap();

    let r = link(
        &amt,
        &hv,
        &mut led,
        &mut m,
        LinkKind::Issue,
        "AMT-7",
        &["nodeA".into(), "nodeB".into()],
        Some("sirius/oak"),
    )
    .unwrap();
    assert!(r.forward_ok);
    assert!(r.reverse_ok);
    assert_eq!(r.receipt_id, 1);

    let calls = m.recorded();
    let comment_idx = calls.iter().position(|c| c.contains("issue comment")).unwrap();
    let remember_idx = calls.iter().position(|c| c.contains("remember")).unwrap();
    assert!(comment_idx < remember_idx);

    assert_eq!(led.receipts.len(), 1);
    assert_eq!(led.receipts[0].kind, "issue");
    assert_eq!(led.receipts[0].reference, "AMT-7");
    assert_eq!(led.receipts[0].symbols, vec!["nodeA", "nodeB"]);
    assert_eq!(led.receipts[0].worker_id, Some("sirius/oak".to_string()));
}

#[test]
fn link_empty_symbols_is_error() {
    let mut m = MockRunner::new();
    let amt = Amt::new();
    let hv = Hayven::new();
    let mut led = Ledger::open_in_memory().unwrap();
    assert!(link(&amt, &hv, &mut led, &mut m, LinkKind::Issue, "AMT-7", &[], None).is_err());
    assert_eq!(m.call_count(), 0);
    assert_eq!(led.receipts.len(), 0);
}

#[test]
fn link_reverse_failure_marks_reverse_not_ok() {
    let mut m = MockRunner::new();
    m.expect(&["amt", "--json", "issue", "comment"], 0, r#"{"ok":true}"#);
    for _ in 0..3 {
        m.push(MockResponse::new(&["hayven", "remember"], 1, "", "daemon down"));
    }
    let amt = Amt::new();
    let hv = Hayven::new();
    let mut led = Ledger::open_in_memory().unwrap();
    let r = link(&amt, &hv, &mut led, &mut m, LinkKind::Issue, "AMT-7", &["n".into()], None)
        .unwrap();
    assert!(r.forward_ok);
    assert!(!r.reverse_ok);
    assert_eq!(count_containing(&m, "remember"), 3);
    assert!(!led.receipts[0].reverse_ok);
}

#[test]
fn link_reverse_retry_recovers_transient_failure() {
    let mut m = MockRunner::new();
    m.expect(&["amt", "--json", "issue", "comment"], 0, r#"{"ok":true}"#);
    m.push(MockResponse::new(&["hayven", "remember"], 1, "", "daemon not ready"));
    m.push(MockResponse::new(&["hayven", "remember"], 1, "", "daemon not ready"));
    m.expect(&["hayven", "remember"], 0, r#"{"id":"mem_1"}"#);
    let amt = Amt::new();
    let hv = Hayven::new();
    let mut led = Ledger::open_in_memory().unwrap();
    let r = link(&amt, &hv, &mut led, &mut m, LinkKind::Issue, "AMT-7", &["n".into()], None)
        .unwrap();
    assert!(r.forward_ok);
    assert!(r.reverse_ok);
    assert_eq!(count_containing(&m, "remember"), 3);
}

#[test]
fn link_forward_failure_still_stamps_reverse() {
    let mut m = MockRunner::new();
    m.push(MockResponse::new(&["amt", "--json", "issue", "comment"], 1, "", "no such issue"));
    m.expect(&["hayven", "remember"], 0, r#"{"id":"mem_1"}"#);
    let amt = Amt::new();
    let hv = Hayven::new();
    let mut led = Ledger::open_in_memory().unwrap();
    let r = link(&amt, &hv, &mut led, &mut m, LinkKind::Issue, "AMT-9", &["n".into()], None)
        .unwrap();
    assert!(!r.forward_ok);
    assert!(r.reverse_ok);
    assert_eq!(led.receipts.len(), 1);
}

#[test]
fn why_symbol_resolves_refs() {
    let mut m = MockRunner::new();
    m.expect(
        &["hayven", "recall"],
        0,
        r#"{"count":1,"notes":[{"note":"Governed by AMT-7 (recorded by sirius link)"}]}"#,
    );
    m.expect(&["amt", "--json", "issue", "show"], 0, r#"{"id":"AMT-7","title":"Fix the widget"}"#);
    let amt = Amt::new();
    let hv = Hayven::new();
    let w = why_symbol(&amt, &hv, &mut m, "nodeA").unwrap();
    assert_eq!(w.issues.len(), 1);
    assert_eq!(w.issues[0].0, "AMT-7");
    assert_eq!(w.issues[0].1, "Fix the widget");
}

#[test]
fn why_issue_lifts_symbols_from_comment() {
    let mut m = MockRunner::new();
    m.expect(
        &["amt", "--json", "issue", "show"],
        0,
        r#"{"id":"AMT-7","activity":[
            {"body":"sirius: AMT-7 touches 2 entities — nodeA, nodeB"},
            {"body":"decided D-3"}
        ]}"#,
    );
    let amt = Amt::new();
    let w = why_issue(&amt, &mut m, "AMT-7").unwrap();
    assert_eq!(w.symbols, vec!["nodeA", "nodeB"]);
    assert_eq!(w.decisions, vec!["D-3"]);
}

#[test]
fn reverse_note_names_the_reference() {
    assert_eq!(reverse_note_body("D-4"), "Governed by D-4 (recorded by sirius link)");
}

#[test]
fn forward_body_is_singular_for_one_entity() {
    assert_eq!(forward_comment_body("AMT-1", &["x".into()]), "sirius: AMT-1 touches 1 entity — x");
}

#[test]
fn link_kind_names() {
    assert_eq!(LinkKind::Issue.as_str(), "issue");
    assert_eq!(LinkKind::Decision.as_str(), "decision");
}

#[test]
fn dedup_keeps_first_occurrence_order() {
    let v = vec!["b".to_string(), "a".to_string(), "b".to_string(), "c".to_string(), "a".to_string()];
    assert_eq!(dedup_refs(v), vec!["b", "a", "c"]);
}

#[test]
fn symbols_come_only_from_the_touches_line() {
    let syms = extract_symbols_from_comment("hello\nsirius: AMT-1 touches 1 entity — x\nother, y");
    assert_eq!(syms, vec!["x"]);
    assert!(extract_symbols_from_comment("no marker here, a, b").is_empty());
}

#[test]
fn forward_comment_reads_back_its_entities() {
    for names in [
        vec![],
        vec!["nodeA".to_string()],
        vec!["nodeA".to_string(), "crate::x::y".to_string(), "b c".to_string()],
    ] {
        for reference in ["AMT-7", "AMT—7", "D—1 —x"] {
            let body = forward_comment_body(reference, &names);
            assert_eq!(extract_symbols_from_comment(&body), names);
        }
    }
}
