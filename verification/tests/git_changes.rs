use sirius_forester::gitrange::{
    changed_files, changed_since, changed_symbols, extract_ids, head_rev, untracked_files,
};
use sirius_forester::hayven::Hayven;
use sirius_forester::json::parse_json;
use sirius_forester::shell::{MockResponse, MockRunner};

#[test]
fn changed_files_splits_lines() {
    let mut m = MockRunner::new();
    m.expect(&["git", "diff"], 0, "src/a.rs\nsrc/b.rs\n\n");
    let files = changed_files(&mut m, None).unwrap();
    assert_eq!(files, vec!["src/a.rs", "src/b.rs"]);
    assert_eq!(m.recorded()[0], "git diff --name-only HEAD");
}

#[test]
fn changed_files_uses_range() {
    let mut m = MockRunner::new();
    m.expect(&["git", "diff"], 0, "x.rs\n");
    changed_files(&mut m, Some("main..HEAD")).unwrap();
    assert_eq!(m.recorded()[0], "git diff --name-only main..HEAD");
}

#[test]
fn changed_since_sees_committed_and_untracked_work() {
    let mut m = MockRunner::new();
    m.expect(&["git", "diff", "--name-only", "base123"], 0, "src/a.rs\n");
    m.expect(&["git", "ls-files"], 0, "src/new_test.rs\nsrc/a.rs\nTODO.txt\n");
    let pre = vec!["TODO.txt".to_string()];
    let files = changed_since(&mut m, Some("base123"), &pre).unwrap();
    assert_eq!(files, vec!["src/a.rs", "src/new_test.rs"]);
    assert_eq!(m.recorded()[0], "git diff --name-only base123");
    assert_eq!(m.recorded()[1], "git ls-files --others --exclude-standard");
}

#[test]
fn changed_since_propagates_git_errors() {
    let mut m = MockRunner::new();
    m.push(MockResponse::new(&["git", "diff"], 128, "", "fatal: not a git repository"));
    assert!(changed_since(&mut m, None, &[]).unwrap_err().contains("fatal"));
}

#[test]
fn head_rev_requires_real_output() {
    let mut m = MockRunner::new();
    m.expect(&["git", "rev-parse"], 0, "\n");
    assert!(head_rev(&mut m).is_err());
    m.expect(&["git", "rev-parse"], 0, "base123\n");
    assert_eq!(head_rev(&mut m).unwrap(), "base123");
}

#[test]
fn extract_ids_from_hits() {
    let v = parse_json(r#"{"hits":[{"id":"a::f"},{"id":"b::g"}]}"#).unwrap();
    assert_eq!(extract_ids(&v), vec!["a::f", "b::g"]);
}

#[test]
fn changed_symbols_dedups() {
    let mut m = MockRunner::new();
    m.push(MockResponse::new(&["git", "diff"], 0, "src/math.rs\nsrc/math_test.rs\n", ""));
    m.push(MockResponse::new(&["hayven", "query"], 0, r#"{"hits":[{"id":"src/math::add"}]}"#, ""));
    m.push(MockResponse::new(&["hayven", "query"], 0, r#"{"hits":[{"id":"src/math::add"}]}"#, ""));
    let hv = Hayven::new();
    let syms = changed_symbols(&mut m, &hv, None).unwrap();
    assert_eq!(syms, vec!["src/math::add"]);
}

#[test]
fn changed_symbols_queries_by_file_stem() {
    let mut m = MockRunner::new();
    m.push(MockResponse::new(&["git", "diff"], 0, "src/deep/widget.rs\n", ""));
    m.push(MockResponse::new(&["hayven", "query"], 0, r#"{"hits":[{"id":"w::x"}]}"#, ""));
    let hv = Hayven::new();
    let syms = changed_symbols(&mut m, &hv, None).unwrap();
    assert_eq!(syms, vec!["w::x"]);
    assert!(m.recorded()[1].contains(" widget"));
    assert!(!m.recorded()[1].contains("widget.rs"));
}

#[test]
fn untracked_lists_new_files() {
    let mut m = MockRunner::new();
    m.expect(&["git", "ls-files"], 0, "a\n\nb\n");
    assert_eq!(untracked_files(&mut m).unwrap(), vec!["a", "b"]);
}

#[test]
fn extract_ids_without_hits_is_empty() {
    let v = parse_json(r#"{"count":0}"#).unwrap();
    assert!(extract_ids(&v).is_empty());
}

#[test]
fn changed_since_head_baseline_without_base() {
    let mut m = MockRunner::new();
    m.expect(&["git", "diff"], 0, "z.rs\n");
    let files = changed_since(&mut m, None, &[]).unwrap();
    assert_eq!(files, vec!["z.rs"]);
    assert_eq!(m.recorded()[0], "git diff --name-only HEAD");
}
