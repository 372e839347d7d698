use std::collections::HashSet;

use sirius_forester::json::{parse_json, Json};
use sirius_forester::spine::{
    build_line, fits_line, issue_ref, receipt_ref, splitmix64, uuid_v4, worker_ref, Spine,
    MAX_LINE_BYTES,
};

const UUID_V4: &str = r"^[0-9a-f]{8}-[0-9a-f]{4}-4[0-9a-f]{3}-[89ab][0-9a-f]{3}-[0-9a-f]{12}$";
const ID: &str = "00000000-0000-4000-8000-000000000000";

fn strings_json(v: &[String]) -> Json {
    Json::strings(v)
}

fn parse_line(line: &str) -> Json {
    assert!(line.ends_with('\n'));
    parse_json(line.trim_end()).unwrap()
}

fn refs_of(ev: &Json) -> Vec<String> {
    match ev.get("refs") {
        Some(Json::Array(items)) => items.iter().map(|j| j.as_string().unwrap()).collect(),
        other => panic!("refs is not an array: {other:?}"),
    }
}

#[test]
fn envelope_has_the_contract_shape() {
    let data = parse_json(r#"{"issue":"AMT-7","symbols":["auth::verify","auth::mint"]}"#).unwrap();
    let id = uuid_v4(1, 2, 3);
    let line = build_line(
        &id,
        "2026-07-11T00:00:00.000Z",
        "receipt.filed",
        vec![receipt_ref(42), issue_ref("AMT-7")],
        data,
    );
    let ev = parse_line(&line);
    assert_eq!(ev.get("v").and_then(|v| v.as_u64()), Some(1));
    assert_eq!(ev.get_string("source"), Some("sirius".to_string()));
    assert_eq!(ev.get_string("type"), Some("receipt.filed".to_string()));
    assert_eq!(ev.get("data").and_then(|d| d.get_string("issue")), Some("AMT-7".to_string()));
    assert_eq!(refs_of(&ev)[0], "sirius:receipt/42");
    assert!(ev.get_string("ts").unwrap().ends_with('Z'));
    let re = regex::Regex::new(UUID_V4).unwrap();
    assert!(re.is_match(&ev.get_string("id").unwrap()), "id must be a UUIDv4");
}

#[test]
fn ids_are_unique_across_many_emits() {
    let mut seen = HashSet::new();
    for counter in 0..5000u64 {
        assert!(seen.insert(uuid_v4(1_700_000_000_000_000_000, 4242, counter)), "uuid collision");
    }
}

#[test]
fn ids_are_uuid_v4_for_any_seed() {
    let re = regex::Regex::new(UUID_V4).unwrap();
    for (n, p, c) in [(0u64, 0u32, 0u64), (u64::MAX, u32::MAX, u64::MAX), (12345, 678, 9)] {
        assert!(re.is_match(&uuid_v4(n, p, c)));
    }
}

#[test]
fn oversized_payload_is_truncated_below_the_atomicity_bound() {
    let huge: Vec<String> = (0..2000).map(|i| format!("symbol::number_{i}")).collect();
    let data = Json::Object(vec![
        ("issue".to_string(), Json::string("A-1")),
        ("symbols".to_string(), strings_json(&huge)),
    ]);
    let line = build_line(
        ID,
        "2026-07-11T00:00:00.000Z",
        "receipt.filed",
        vec!["amt:issue/A-1".into(), "sirius:receipt/9".into()],
        data,
    );
    assert!(line.len() < MAX_LINE_BYTES);
    let ev = parse_line(&line);
    assert_eq!(ev.get("data").and_then(|d| d.get("truncated")).and_then(|t| t.as_bool()), Some(true));
    assert_eq!(refs_of(&ev), vec!["amt:issue/A-1", "sirius:receipt/9"]);
}

#[test]
fn pathologically_large_refs_are_dropped_as_the_last_resort() {
    let huge_refs: Vec<String> = (0..300).map(|i| format!("hayven:node/{i:0>32}")).collect();
    let line = build_line(
        ID,
        "2026-07-11T00:00:00.000Z",
        "receipt.filed",
        huge_refs,
        parse_json(r#"{"issue":"A-1"}"#).unwrap(),
    );
    assert!(line.len() < MAX_LINE_BYTES);
    let ev = parse_line(&line);
    assert_eq!(ev.get("data").and_then(|d| d.get("truncated")).and_then(|t| t.as_bool()), Some(true));
    assert!(refs_of(&ev).is_empty());
}

#[test]
fn every_line_stays_strictly_under_the_atomicity_bound() {
    for n in 60..200usize {
        let syms: Vec<String> = (0..n).map(|i| format!("symbol::number_{i:05}")).collect();
        let data = Json::Object(vec![("symbols".to_string(), strings_json(&syms))]);
        let line = build_line(ID, "2026-07-11T00:00:00.000Z", "receipt.filed", vec![], data);
        assert!(
            line.len() < MAX_LINE_BYTES,
            "n={n}: line is {} bytes, must be < {}",
            line.len(),
            MAX_LINE_BYTES
        );
        assert!(line.ends_with('\n'));
        let _ = parse_line(&line);
    }
}

#[test]
fn small_payload_is_kept_whole() {
    let line = build_line(ID, "2026-07-11T00:00:00.000Z", "job.dispatched", vec![], Json::Null);
    let ev = parse_line(&line);
    assert!(matches!(ev.get("data"), Some(Json::Null)));
}

#[test]
fn fits_line_counts_utf8_bytes_and_the_newline() {
    assert!(fits_line(&"a".repeat(4094)));
    assert!(!fits_line(&"a".repeat(4095)));
    // A two-byte character counts twice.
    assert!(!fits_line(&"é".repeat(2048)));
    assert!(fits_line(&"é".repeat(2047)));
}

#[test]
fn suite_uris() {
    assert_eq!(issue_ref("AMT-7"), "amt:issue/AMT-7");
    assert_eq!(worker_ref("sirius/oak"), "sirius:worker/sirius/oak");
    assert_eq!(receipt_ref(42), "sirius:receipt/42");
    assert_eq!(receipt_ref(-1), "sirius:receipt/-1");
}

#[test]
fn events_go_to_a_dated_file() {
    let s = Spine::new("/work");
    assert_eq!(s.dir, "/work/.suite/events");
    assert_eq!(s.event_file("2026-07-11T00:00:00.000Z"), "/work/.suite/events/2026-07-11.jsonl");
    assert_eq!(Spine::new("/w/").dir, "/w/.suite/events");
}

#[test]
fn splitmix_known_value() {
    // The reference SplitMix64 output for state 0.
    assert_eq!(splitmix64(0), 0xE220_A839_7B1D_CDAF);
}
