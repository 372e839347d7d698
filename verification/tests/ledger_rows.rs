use sirius_forester::json::{parse_json, Json};
use sirius_forester::ledger::{format_iso8601, log_event, pad_num, Ledger, SCHEMA_VERSION};

#[test]
fn iso8601_epoch_zero() {
    assert_eq!(format_iso8601(0, 0), "1970-01-01T00:00:00.000Z");
}

#[test]
fn iso8601_known_timestamp() {
    assert_eq!(format_iso8601(1_783_123_200, 0), "2026-07-04T00:00:00.000Z");
}

#[test]
fn iso8601_leap_day_and_millis() {
    // 2024-02-29T12:34:56Z == 1709210096
    assert_eq!(format_iso8601(1_709_210_096, 7), "2024-02-29T12:34:56.007Z");
    // The last second of 1999.
    assert_eq!(format_iso8601(946_684_799, 999), "1999-12-31T23:59:59.999Z");
}

#[test]
fn iso8601_last_second_before_year_10000_keeps_the_shape() {
    let s = format_iso8601(253_402_300_799, 999);
    assert_eq!(s, "9999-12-31T23:59:59.999Z");
    assert_eq!(s.len(), 24);
    // Ordered as the times are, within the shape.
    assert!(format_iso8601(253_402_300_798, 999) < s);
    assert!(format_iso8601(951_782_400, 0) > format_iso8601(951_782_399, 999));
}

#[test]
fn pad_num_zero_fills() {
    assert_eq!(pad_num(7, 3), "007");
    assert_eq!(pad_num(1234, 2), "1234");
    assert_eq!(pad_num(0, 0), "0");
}

#[test]
fn schema_has_version_and_meta_rows() {
    let led = Ledger::open_in_memory().unwrap();
    assert_eq!(led.schema_version().unwrap(), SCHEMA_VERSION);
    assert_eq!(led.meta("schema_version").unwrap().as_deref(), Some("1"));
    assert!(led.meta("created_at").unwrap().is_some());
    assert!(led.meta("sirius_version").unwrap().is_some());
    assert_eq!(led.meta("nonexistent").unwrap(), None);
}

#[test]
fn receipt_roundtrip() {
    let mut led = Ledger::open_in_memory().unwrap();
    let id = led
        .insert_receipt("issue", "AMT-7", &["a".into(), "b".into()], true, false, Some("sirius/oak"))
        .unwrap();
    assert_eq!(id, 1);
    let row = &led.receipts[0];
    assert_eq!(row.id, 1);
    assert_eq!(row.kind, "issue");
    assert_eq!(row.symbols, vec!["a", "b"]);
    assert!(row.forward_ok);
    assert!(!row.reverse_ok);
    let id2 = led.insert_receipt("decision", "D-1", &["c".into()], true, true, None).unwrap();
    assert_eq!(id2, 2);
}

#[test]
fn iteration_lifecycle_writes_one_row() {
    let mut led = Ledger::open_in_memory().unwrap();
    led.upsert_worker("sirius/oak", "working").unwrap();
    let it = led.start_iteration("sirius/oak", Some("AMT-7")).unwrap();
    led.finish_iteration(
        it,
        &["e1".into()],
        "completed",
        Some("pass"),
        &["registered".into()],
        Some(1234),
        Some(42),
        None,
    )
    .unwrap();
    assert_eq!(led.iterations.len(), 1);
    let row = &led.iterations[0];
    assert_eq!(row.outcome.as_deref(), Some("completed"));
    assert_eq!(row.gate_result.as_deref(), Some("pass"));
    assert_eq!(row.entities, Some(vec!["e1".to_string()]));
    assert_eq!(row.oracle_verdicts, Some(vec!["registered".to_string()]));
    assert_eq!(row.tokens, Some(1234));
    assert_eq!(row.duration_ms, Some(42));
    assert!(row.ended_at.is_some());
}

#[test]
fn policy_events_count() {
    let mut led = Ledger::open_in_memory().unwrap();
    for _ in 0..5 {
        led.log_policy_event(None, "backoff_409", parse_json(r#"{"x":1}"#).unwrap()).unwrap();
    }
    assert_eq!(led.count_policy_events("backoff_409", 100).unwrap(), 5);
    assert_eq!(led.count_policy_events("backoff_409", 3).unwrap(), 3);
    assert_eq!(led.count_policy_events("gate_tier", 100).unwrap(), 0);
}

#[test]
fn upsert_worker_updates_in_place() {
    let mut led = Ledger::open_in_memory().unwrap();
    led.upsert_worker("w", "idle").unwrap();
    led.upsert_worker("w", "working").unwrap();
    assert_eq!(led.workers.len(), 1);
    assert_eq!(led.workers[0].status, "working");
    led.upsert_worker("v", "idle").unwrap();
    assert_eq!(led.workers.len(), 2);
}

#[test]
fn iteration_ids_are_dense() {
    let mut led = Ledger::open_in_memory().unwrap();
    led.upsert_worker("w", "working").unwrap();
    let a = led.start_iteration("w", None).unwrap();
    let b = led.start_iteration("w", Some("AMT-1")).unwrap();
    assert_eq!((a, b), (1, 2));
    assert_eq!(led.iterations[1].issue_ref.as_deref(), Some("AMT-1"));
    assert!(led.iterations[0].outcome.is_none());
}

#[test]
fn finishing_an_unknown_iteration_changes_nothing() {
    let mut led = Ledger::open_in_memory().unwrap();
    led.upsert_worker("w", "working").unwrap();
    let _ = led.start_iteration("w", None).unwrap();
    let _ = led.finish_iteration(99, &[], "error", None, &[], None, None, None);
    assert!(led.iterations[0].outcome.is_none());
}

#[test]
fn iteration_needs_a_known_worker() {
    let mut led = Ledger::open_in_memory().unwrap();
    assert_eq!(led.start_iteration("ghost", None), Err("FOREIGN KEY constraint failed".to_string()));
    assert!(led.iterations.is_empty());
}

#[test]
fn logged_event_is_counted() {
    let mut led = Ledger::open_in_memory().unwrap();
    log_event(&mut led, "claim_order", Json::uint(3));
    assert_eq!(led.count_policy_events("claim_order", 10).unwrap(), 1);
    assert_eq!(led.policy_events[0].id, 1);
    assert_eq!(led.policy_events[0].kind, "claim_order");
}

#[test]
fn fresh_ledger_names_its_version() {
    let led = Ledger::create_in_memory("9.9.9");
    assert_eq!(led.meta("sirius_version").unwrap().as_deref(), Some("9.9.9"));
}
