use sirius_forester::workspace::{walk_up, Workspace};

#[test]
fn falls_back_to_cwd_without_ametrite() {
    let start = "/nonexistent-sirius-ws/a/b";
    let ws = Workspace::discover_bounded(start, None);
    assert_eq!(ws.root, start);
    assert!(ws.ametrite_db.is_none());
    assert!(ws.hayven_dir.is_none());
}

#[test]
fn sirius_files_sit_under_the_root() {
    let ws = Workspace { root: "/repo".to_string(), ametrite_db: None, hayven_dir: None };
    assert_eq!(ws.sirius_dir(), "/repo/.sirius");
    assert_eq!(ws.ledger_path(), "/repo/.sirius/sirius.db");
    assert_eq!(ws.config_path(), "/repo/.sirius/config.json");
}

#[test]
fn walk_stops_at_home() {
    // Starting at home itself examines nothing.
    assert_eq!(walk_up("/", "etc", true, Some("/")), None);
    // Without a bound the root's own children are found.
    assert_eq!(walk_up("/nonexistent-sirius-ws/x", "etc", true, None), Some("/etc".to_string()));
    // Bounded below the root, the same walk stops before reaching it.
    assert_eq!(walk_up("/nonexistent-sirius-ws/x", "etc", true, Some("/nonexistent-sirius-ws")), None);
}

#[test]
fn walk_distinguishes_files_from_dirs() {
    assert_eq!(walk_up("/nonexistent-sirius-ws", "etc", false, None), None);
}
