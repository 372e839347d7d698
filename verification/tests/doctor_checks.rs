use sirius_forester::doctor::{
    ametrite_schema_version, plugin_handoff_check, run_with_plugins_dir, Check, DoctorReport,
    PluginFiles,
};
use sirius_forester::shell::{MockResponse, MockRunner};
use sirius_forester::workspace::Workspace;

fn healthy_ws() -> Workspace {
    Workspace {
        root: "/repo".to_string(),
        ametrite_db: Some("/repo/.ametrite/ametrite.db".to_string()),
        hayven_dir: Some("/repo/.hayven".to_string()),
    }
}

fn ws_no_ametrite() -> Workspace {
    Workspace { root: "/nonexistent".to_string(), ametrite_db: None, hayven_dir: None }
}

fn schema3() -> Result<String, String> {
    Ok("3".to_string())
}

fn find<'a>(report: &'a DoctorReport, name: &str) -> &'a Check {
    report.checks.iter().find(|c| c.name == name).unwrap()
}

fn healthy_runner(curl: &str, status: &str) -> MockRunner {
    let mut m = MockRunner::new();
    m.expect(&["amt", "--version"], 0, "amt 0.1.0");
    m.push(MockResponse::new(&["curl"], 0, curl, ""));
    m.expect(&["hayven", "--version"], 0, "0.0.5");
    m.expect(&["hayven", "daemon", "status"], 0, status);
    m.push(MockResponse::new(&["amt", "--json", "claim", "--peek"], 0, r#"{"claimed":false}"#, ""));
    m.push(MockResponse::new(
        &["hayven", "--help"],
        0,
        "commands: affected-tests remember recall claim",
        "",
    ));
    m
}

fn files(marketplaces: &str, plugins: &str) -> PluginFiles {
    PluginFiles {
        known_marketplaces: Some(marketplaces.to_string()),
        installed_plugins: Some(plugins.to_string()),
    }
}

#[test]
fn all_green_when_everything_healthy() {
    let mut m = healthy_runner("200", "running");
    let report = run_with_plugins_dir(&healthy_ws(), &mut m, None, schema3());
    assert!(report.ok, "checks: {:?}", report.checks);
    assert_eq!(report.checks.len(), 6);
    let ph = find(&report, "plugin_handoff");
    assert!(ph.pass && !ph.gating);
    assert!(ph.detail.contains("skipped"), "detail: {}", ph.detail);
}

#[test]
fn advisory_failure_never_flips_overall_ok() {
    let mut m = healthy_runner("200", "running");
    let cold = PluginFiles { known_marketplaces: None, installed_plugins: None };
    let report = run_with_plugins_dir(&healthy_ws(), &mut m, Some(&cold), schema3());
    let ph = find(&report, "plugin_handoff");
    assert!(!ph.pass && !ph.gating, "advisory must fail here");
    assert!(report.ok, "advisory failure flipped ok");
}

#[test]
fn plugin_handoff_flags_the_audited_dropoff_state() {
    let f = files(
        r#"{"acme-plugins-official":{},"rlm-code":{},"hayvenhurst":{},"catryna-wikinelli":{}}"#,
        r#"{"version":2,"plugins":{"rlm-code@rlm-code":{},"frontend-design@acme-plugins-official":{},"hayvenhurst@hayvenhurst":{},"catryna@catryna-wikinelli":{}}}"#,
    );
    let c = plugin_handoff_check(Some(&f));
    assert!(!c.pass && !c.gating);
    assert!(c.detail.contains("sirius-forester marketplace"));
    assert!(c.detail.contains("sirius plugin"));
    assert!(!c.detail.contains("hayvenhurst plugin"), "{}", c.detail);
    assert!(!c.detail.contains("catryna plugin"), "{}", c.detail);
    assert!(c.detail.contains("/plugin marketplace add Davidb3l/Sirius-Forester"));
    assert!(c.detail.contains("/plugin install sirius@sirius-forester"));
}

#[test]
fn plugin_handoff_passes_when_bundle_complete() {
    let f = files(
        r#"{"sirius-forester":{},"hayvenhurst":{}}"#,
        r#"{"version":2,"plugins":{"sirius@sirius-forester":{},"hayvenhurst@sirius-forester":{},"catryna@sirius-forester":{}}}"#,
    );
    let c = plugin_handoff_check(Some(&f));
    assert!(c.pass && !c.gating, "detail: {}", c.detail);
}

#[test]
fn plugin_handoff_accepts_any_marketplace_per_plugin() {
    let f = files(
        r#"{"sirius-forester":{},"hayvenhurst":{},"catryna-wikinelli":{}}"#,
        r#"{"version":2,"plugins":{"sirius@sirius-forester":{},"hayvenhurst@hayvenhurst":{},"catryna@catryna-wikinelli":{}}}"#,
    );
    let c = plugin_handoff_check(Some(&f));
    assert!(c.pass, "mixed sources must pass, detail: {}", c.detail);
}

#[test]
fn plugin_handoff_cold_state_names_everything() {
    let cold = PluginFiles { known_marketplaces: None, installed_plugins: None };
    let c = plugin_handoff_check(Some(&cold));
    assert!(!c.pass && !c.gating);
    for needle in ["sirius-forester marketplace", "sirius plugin", "hayvenhurst plugin", "catryna plugin"] {
        assert!(c.detail.contains(needle), "missing {needle}: {}", c.detail);
    }
}

#[test]
fn plugin_handoff_prefix_requires_the_at_sign() {
    let f = files(
        r#"{"sirius-forester":{}}"#,
        r#"{"version":2,"plugins":{"sirius-console@somewhere":{},"hayvenhurst@hayvenhurst":{},"catryna@catryna-wikinelli":{}}}"#,
    );
    let c = plugin_handoff_check(Some(&f));
    assert!(!c.pass);
    assert!(c.detail.contains("sirius plugin"), "{}", c.detail);
}

#[test]
fn plugin_handoff_without_plugin_dir_is_a_skipped_pass() {
    let c = plugin_handoff_check(None);
    assert!(c.pass && !c.gating);
    assert!(c.detail.contains("skipped"));
}

#[test]
fn fails_without_ametrite_schema() {
    let mut m = MockRunner::new();
    m.expect(&["amt", "--version"], 0, "amt 0.1.0");
    m.expect(&["curl"], 0, "200");
    m.push(MockResponse::new(&["hayven", "--help"], 0, "affected-tests remember recall", ""));
    m.push(MockResponse::new(&["amt", "--json", "claim", "--peek"], 0, r#"{"ok":true}"#, ""));
    let report = run_with_plugins_dir(&ws_no_ametrite(), &mut m, None, Err("unused".to_string()));
    assert!(!report.ok);
    assert!(!find(&report, "amt_present_and_schema").pass);
}

#[test]
fn old_schema_fails_the_amt_check() {
    let mut m = healthy_runner("200", "running");
    let report = run_with_plugins_dir(&healthy_ws(), &mut m, None, Ok("2".to_string()));
    assert!(!report.ok);
    assert!(!find(&report, "amt_present_and_schema").pass);
}

#[test]
fn fails_when_daemon_down() {
    let mut m = healthy_runner("000", "stopped");
    let ws = Workspace { hayven_dir: None, ..healthy_ws() };
    let report = run_with_plugins_dir(&ws, &mut m, None, schema3());
    assert!(!report.ok);
    assert!(!find(&report, "hayven_daemon_7777").pass);
}

#[test]
fn fails_when_daemon_serves_different_workspace() {
    let mut m = healthy_runner("200", "running (other-repo)");
    let ws = Workspace { hayven_dir: None, ..healthy_ws() };
    let report = run_with_plugins_dir(&ws, &mut m, None, schema3());
    assert!(!report.ok, "checks: {:?}", report.checks);
    let c = find(&report, "hayven_daemon_7777");
    assert!(!c.pass, "expected mismatch to fail, got: {}", c.detail);
    assert!(c.detail.contains("not serving this workspace"), "detail: {}", c.detail);
    assert!(c.detail.contains("hayven daemon start"), "expected fix-it hint, detail: {}", c.detail);
}

#[test]
fn schema_version_is_parsed_from_the_meta_value() {
    let ws = healthy_ws();
    assert_eq!(ametrite_schema_version(&ws, Ok(" 3 \n".to_string())), Ok(3));
    assert!(ametrite_schema_version(&ws, Ok("three".to_string())).unwrap_err().contains("not an integer"));
    assert_eq!(ametrite_schema_version(&ws, Err("locked".to_string())), Err("locked".to_string()));
    assert!(ametrite_schema_version(&ws_no_ametrite(), schema3()).unwrap_err().contains("amt init"));
}

#[test]
fn constructors_set_gating() {
    let a = Check::ok("a", "fine".to_string());
    assert!(a.pass && a.gating);
    let b = Check::fail("b", "bad".to_string());
    assert!(!b.pass && b.gating);
    let c = Check::advisory("c", false, "meh".to_string());
    assert!(!c.pass && !c.gating);
}

#[test]
fn schema_version_reads_a_signed_decimal_only() {
    let ws = healthy_ws();
    assert_eq!(ametrite_schema_version(&ws, Ok(" 3\n".to_string())), Ok(3));
    assert_eq!(ametrite_schema_version(&ws, Ok("+12".to_string())), Ok(12));
    assert_eq!(ametrite_schema_version(&ws, Ok("-2".to_string())), Ok(-2));
    assert_eq!(ametrite_schema_version(&ws, Ok("9223372036854775807".to_string())), Ok(i64::MAX));
    for bad in ["", "3x", "+", "-", "1 2", "9223372036854775808"] {
        let r = ametrite_schema_version(&ws, Ok(bad.to_string()));
        assert!(r.is_err(), "{bad:?} gave {r:?}");
        assert!(r.unwrap_err().starts_with("ametrite schema_version not an integer: "));
    }
}
