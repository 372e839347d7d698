use sirius_forester::shell::{AgentRunOpts, CmdOutput, Process, ProcessRunner, Runner};

/// A scripted operating system: the agent exits after `exit_after` waits
/// (never, when `None`), with `exit_code`.
#[derive(Default)]
struct FakeProcess {
    exit_after: Option<usize>,
    exit_code: i32,
    fail_start: bool,
    runs: Vec<String>,
    waits: Vec<u64>,
    started: Option<(String, Option<String>)>,
    killed: bool,
    slept: Vec<u64>,
}

impl Process for FakeProcess {
    fn run(&mut self, program: &str, args: &[&str]) -> Result<CmdOutput, String> {
        let mut line = program.to_string();
        for a in args {
            line.push(' ');
            line.push_str(a);
        }
        self.runs.push(line);
        Ok(CmdOutput { code: Some(0), stdout: "ran".to_string(), stderr: String::new() })
    }

    fn sleep_ms(&mut self, ms: u64) {
        self.slept.push(ms);
    }

    fn start_agent(&mut self, program: &str, args: &[&str], log_path: Option<&str>) -> Result<(), String> {
        if self.fail_start {
            return Err("no such program".to_string());
        }
        self.started = Some((format!("{program} {}", args.join(" ")), log_path.map(|s| s.to_string())));
        Ok(())
    }

    fn wait_agent(&mut self, ms: u64) -> Result<Option<CmdOutput>, String> {
        self.waits.push(ms);
        match self.exit_after {
            Some(n) if self.waits.len() >= n => {
                Ok(Some(CmdOutput { code: Some(self.exit_code), stdout: String::new(), stderr: String::new() }))
            }
            _ => Ok(None),
        }
    }

    fn kill_agent(&mut self) -> CmdOutput {
        self.killed = true;
        CmdOutput { code: None, stdout: String::new(), stderr: String::new() }
    }
}

fn beat() -> Vec<(String, Vec<String>)> {
    vec![
        ("amt".to_string(), vec!["--json".to_string(), "claim".to_string()]),
        ("hayven".to_string(), vec!["claim".to_string(), "e1".to_string()]),
    ]
}

#[test]
fn real_runner_kills_and_times_out_a_hung_child() {
    let mut r = ProcessRunner::new(FakeProcess::default());
    let opts = AgentRunOpts { timeout_ms: 200, heartbeat_interval_ms: 50, log_path: None };
    let outcome = r.run_agent("sh", &["-c", "sleep 30"], &opts, &beat()).unwrap();
    assert!(outcome.timed_out());
    assert!(!outcome.success());
    assert!(r.process.killed);
    // It waited exactly the timeout, one interval at a time.
    assert_eq!(r.process.waits, vec![50, 50, 50, 50]);
    let amt_beats = r.process.runs.iter().filter(|c| c.starts_with("amt")).count();
    assert!(amt_beats >= 1, "heartbeat should fire while the child runs");
    assert_eq!(amt_beats, 3);
}

#[test]
fn agent_that_exits_is_not_killed_and_beats_run_in_whole_rounds() {
    let mut r = ProcessRunner::new(FakeProcess { exit_after: Some(3), ..FakeProcess::default() });
    let opts = AgentRunOpts { timeout_ms: 10_000, heartbeat_interval_ms: 1000, log_path: Some("x.log".into()) };
    let outcome = r.run_agent("sh", &["-c", "work"], &opts, &beat()).unwrap();
    assert!(outcome.success());
    assert!(!outcome.timed_out());
    assert!(!r.process.killed);
    assert_eq!(r.process.started, Some(("sh -c work".to_string(), Some("x.log".to_string()))));
    assert_eq!(
        r.process.runs,
        vec!["amt --json claim", "hayven claim e1", "amt --json claim", "hayven claim e1"]
    );
}

#[test]
fn a_failing_agent_exit_is_reported() {
    let mut r = ProcessRunner::new(FakeProcess { exit_after: Some(1), exit_code: 7, ..FakeProcess::default() });
    let opts = AgentRunOpts { timeout_ms: 100, heartbeat_interval_ms: 10, log_path: None };
    let outcome = r.run_agent("sh", &["-c", "false"], &opts, &beat()).unwrap();
    assert!(!outcome.success());
    assert!(!outcome.timed_out());
    assert_eq!(outcome.output().code, Some(7));
    assert!(r.process.runs.is_empty());
}

#[test]
fn an_agent_that_cannot_start_is_an_error() {
    let mut r = ProcessRunner::new(FakeProcess { fail_start: true, ..FakeProcess::default() });
    let opts = AgentRunOpts { timeout_ms: 100, heartbeat_interval_ms: 10, log_path: None };
    assert_eq!(r.run_agent("nope", &[], &opts, &beat()).unwrap_err(), "no such program");
    assert!(r.process.waits.is_empty());
}

#[test]
fn a_zero_interval_still_progresses() {
    let mut r = ProcessRunner::new(FakeProcess::default());
    let opts = AgentRunOpts { timeout_ms: 3, heartbeat_interval_ms: 0, log_path: None };
    let outcome = r.run_agent("sh", &[], &opts, &[]).unwrap();
    assert!(outcome.timed_out());
    assert_eq!(r.process.waits, vec![1, 1, 1]);
}

#[test]
fn plain_runs_and_sleeps_pass_through() {
    let mut r = ProcessRunner::new(FakeProcess::default());
    let out = r.run("git", &["status"]).unwrap();
    assert_eq!(out.stdout, "ran");
    r.sleep_ms(250);
    assert_eq!(r.process.runs, vec!["git status"]);
    assert_eq!(r.process.slept, vec![250]);
}
