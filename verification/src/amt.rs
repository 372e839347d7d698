//! The Ametrite (`amt`) boundary.
//!
//! Sirius never writes Ametrite's SQLite; every mutation goes through
//! `amt ... --json`. The forms here are the ground-truth `amt 0.1.0` ones:
//!   * `--json` is a global flag placed before the subcommand.
//!   * comments are `amt issue comment <ID> -m <body>`.
//!   * status updates are `amt issue update <ID> --status <s>`.
//!   * `amt claim` on success prints the full issue object; on no-work it
//!     prints `{claimed:false, retry_after, counts, reason}`.
//!   * `amt decide --issue <ID> --title <T> -b <body>` prints `{id:"D-n",...}`.
use vstd::prelude::*;
use crate::hayven::{string_result, strs, unit_view, lemma_strs_push};
use crate::json::{as_bool, as_str, as_u64, get, json_parse, json_render, parse_json, parsed, render, Json};
use crate::shell::{argv_of, one_call, Call, OutView, Runner};
use crate::text::{push_str, str_of, trim, trim_str};

verus! {

broadcast use crate::shell::lemma_push_drop_last;

/// Outcome of an `amt claim`.
#[derive(Debug)]
pub enum ClaimResult {
    /// Claimed: the full issue object.
    Claimed(Json),
    /// No work available; optional seconds to wait before retrying.
    NoWork { retry_after: Option<u64>, reason: String },
    /// The command itself failed (bad workspace, etc).
    Error(String),
}

pub enum ClaimResultView {
    Claimed(Json),
    NoWork(Option<u64>, Seq<char>),
    Error(Seq<char>),
}

impl View for ClaimResult {
    type V = ClaimResultView;

    open spec fn view(&self) -> ClaimResultView {
        match *self {
            ClaimResult::Claimed(v) => ClaimResultView::Claimed(v),
            ClaimResult::NoWork { retry_after, reason } => ClaimResultView::NoWork(
                retry_after,
                reason@,
            ),
            ClaimResult::Error(e) => ClaimResultView::Error(e@),
        }
    }
}

/// The error text of a failed `amt` call: stderr, or stdout when stderr is
/// blank, trimmed.
pub open spec fn err_text_spec(stderr: Seq<char>, stdout: Seq<char>) -> Seq<char> {
    if trim(stderr).len() == 0 {
        trim(stdout)
    } else {
        trim(stderr)
    }
}

/// What `amt claim` means, from its result.
pub open spec fn amt_claim(out: Result<OutView, Seq<char>>) -> ClaimResultView {
    match out {
        Err(e) => ClaimResultView::Error(e),
        Ok(o) => match json_parse(o.stdout) {
            Err(_) => ClaimResultView::Error(
                if trim(o.stderr).len() == 0 {
                    "amt claim produced no JSON"@
                } else {
                    trim(o.stderr)
                },
            ),
            Ok(v) => if as_bool(get(v, "claimed"@)) == Some(false) {
                ClaimResultView::NoWork(
                    as_u64(get(v, "retry_after"@)),
                    match as_str(get(v, "reason"@)) {
                        Some(r) => r,
                        None => "no claimable work"@,
                    },
                )
            } else if as_str(get(v, "id"@)) is Some {
                ClaimResultView::Claimed(v)
            } else {
                ClaimResultView::Error("unexpected amt claim JSON: "@ + json_render(v))
            },
        },
    }
}

/// The result of an `amt --json <cmd>` read: the parsed stdout on exit 0.
pub open spec fn amt_json(out: Result<OutView, Seq<char>>) -> Result<Json, Seq<char>> {
    match out {
        Err(e) => Err(e),
        Ok(o) => if o.code != Some(0i32) {
            Err(err_text_spec(o.stderr, o.stdout))
        } else {
            match json_parse(o.stdout) {
                Ok(j) => Ok(j),
                Err(e) => Err("amt returned non-JSON: "@ + e + "; stdout="@ + trim(o.stdout)),
            }
        },
    }
}

/// The result of an `amt --json <cmd>` write: `Ok` on exit 0.
pub open spec fn amt_unit(out: Result<OutView, Seq<char>>) -> Result<(), Seq<char>> {
    match out {
        Err(e) => Err(e),
        Ok(o) => if o.code == Some(0i32) {
            Ok(())
        } else {
            Err(err_text_spec(o.stderr, o.stdout))
        },
    }
}

/// The decision id `amt decide` prints.
pub open spec fn amt_decision_id(out: Result<OutView, Seq<char>>) -> Result<Seq<char>, Seq<char>> {
    match amt_json(out) {
        Err(e) => Err(e),
        Ok(v) => match as_str(get(v, "id"@)) {
            Some(id) => Ok(id),
            None => Err("amt decide returned no decision id: "@ + json_render(v)),
        },
    }
}

pub open spec fn claim_argv(agent: Seq<char>, from: Option<Seq<char>>) -> Seq<Seq<char>> {
    seq!["amt"@, "--json"@, "claim"@, "--agent"@, agent] + match from {
        Some(f) => seq!["--from"@, f],
        None => Seq::<Seq<char>>::empty(),
    }
}

pub open spec fn release_argv(
    issue: Seq<char>,
    agent: Seq<char>,
    status: Option<Seq<char>>,
    comment: Option<Seq<char>>,
) -> Seq<Seq<char>> {
    seq!["amt"@, "--json"@, "release"@, issue, "--agent"@, agent] + match status {
        Some(s) => seq!["--status"@, s],
        None => Seq::<Seq<char>>::empty(),
    } + match comment {
        Some(c) => seq!["-m"@, c],
        None => Seq::<Seq<char>>::empty(),
    }
}

pub open spec fn heartbeat_argv(issue: Seq<char>, agent: Seq<char>) -> Seq<Seq<char>> {
    seq!["amt"@, "--json"@, "claim"@, "--issue"@, issue, "--agent"@, agent]
}

pub open spec fn comment_argv(issue: Seq<char>, body: Seq<char>) -> Seq<Seq<char>> {
    seq!["amt"@, "--json"@, "issue"@, "comment"@, issue, "-m"@, body]
}

pub open spec fn update_argv(issue: Seq<char>, status: Seq<char>) -> Seq<Seq<char>> {
    seq!["amt"@, "--json"@, "issue"@, "update"@, issue, "--status"@, status]
}

pub open spec fn decide_argv(issue: Seq<char>, title: Seq<char>, body: Seq<char>) -> Seq<Seq<char>> {
    seq!["amt"@, "--json"@, "decide"@, "--issue"@, issue, "--title"@, title, "-b"@, body]
}

pub open spec fn opt_str(o: Option<&str>) -> Option<Seq<char>> {
    match o {
        Some(s) => Some(s@),
        None => None,
    }
}

/// The `amt` CLI, spoken through a [`Runner`].
pub struct Amt;

/// The error text of a failed `amt` call (see [`err_text_spec`]).
pub fn err_text(stderr: &str, stdout: &str) -> (r: String)
    ensures
        r@ == err_text_spec(stderr@, stdout@),
{
    let s = trim_str(stderr);
    if s.as_str().unicode_len() == 0 {
        trim_str(stdout)
    } else {
        s
    }
}

impl Amt {
    pub fn new() -> Amt {
        Amt
    }

    /// `amt --version`
    pub fn version<R: Runner>(&self, runner: &mut R) -> (r: Result<String, String>)
        ensures
            one_call(old(runner).calls(), final(runner).calls(), seq!["amt"@, "--version"@]),
            string_result(r) == (match final(runner).calls().last().out {
                Err(e) => Err(e),
                Ok(o) => if o.code == Some(0i32) {
                    Ok(trim(o.stdout))
                } else {
                    Err(trim(o.stderr))
                },
            }),
    {
        let args = ["--version"];
        let out = runner.run("amt", &args);
        assert(argv_of("amt"@, args@) =~= seq!["amt"@, "--version"@]);
        match out {
            Err(e) => Err(e),
            Ok(o) => if o.success() {
                Ok(trim_str(o.stdout.as_str()))
            } else {
                Err(trim_str(o.stderr.as_str()))
            },
        }
    }

    /// `amt --json claim --agent <agent> [--from <stages>]`.
    pub fn claim<R: Runner>(&self, runner: &mut R, agent: &str, from: Option<&str>) -> (r:
        ClaimResult)
        ensures
            one_call(old(runner).calls(), final(runner).calls(), claim_argv(agent@, opt_str(from))),
            r@ == amt_claim(final(runner).calls().last().out),
    {
        broadcast use lemma_strs_push;

        let mut args: Vec<&str> = Vec::new();
        args.push("--json");
        args.push("claim");
        args.push("--agent");
        args.push(agent);
        match from {
            Some(f) => {
                args.push("--from");
                args.push(f);
            },
            None => {},
        }
        assert(argv_of("amt"@, args@) =~= claim_argv(agent@, opt_str(from)));
        let out = match runner.run("amt", args.as_slice()) {
            Ok(o) => o,
            Err(e) => {
                return ClaimResult::Error(e);
            },
        };
        let v = match parse_json(out.stdout.as_str()) {
            Ok(v) => v,
            Err(_) => {
                let s = trim_str(out.stderr.as_str());
                return ClaimResult::Error(
                    if s.as_str().unicode_len() == 0 {
                        str_of("amt claim produced no JSON")
                    } else {
                        s
                    },
                );
            },
        };
        let claimed = match v.get("claimed") {
            Some(c) => c.as_bool(),
            None => None,
        };
        if claimed == Some(false) {
            let retry_after = match v.get("retry_after") {
                Some(x) => x.as_u64(),
                None => None,
            };
            let reason = match v.get_string("reason") {
                Some(r) => r,
                None => str_of("no claimable work"),
            };
            return ClaimResult::NoWork { retry_after, reason };
        }
        if v.get_string("id").is_some() {
            ClaimResult::Claimed(v)
        } else {
            let mut m = str_of("unexpected amt claim JSON: ");
            let t = render(&v);
            push_str(&mut m, t.as_str());
            ClaimResult::Error(m)
        }
    }

    /// `amt --json claim --issue <id> --agent <agent>` — re-claiming your own
    /// issue id renews its lease (heartbeat).
    pub fn heartbeat<R: Runner>(&self, runner: &mut R, issue: &str, agent: &str) -> (r: Result<
        (),
        String,
    >)
        ensures
            one_call(old(runner).calls(), final(runner).calls(), heartbeat_argv(issue@, agent@)),
            unit_view(r) == amt_unit(final(runner).calls().last().out),
    {
        let args = ["--json", "claim", "--issue", issue, "--agent", agent];
        assert(argv_of("amt"@, args@) =~= heartbeat_argv(issue@, agent@));
        self.json_ok(runner, &args)
    }

    /// `amt --json issue show <id>`
    pub fn issue_show<R: Runner>(&self, runner: &mut R, issue: &str) -> (r: Result<Json, String>)
        ensures
            one_call(
                old(runner).calls(),
                final(runner).calls(),
                seq!["amt"@, "--json"@, "issue"@, "show"@, issue@],
            ),
            parsed(r) == amt_json(final(runner).calls().last().out),
    {
        let args = ["--json", "issue", "show", issue];
        assert(argv_of("amt"@, args@) =~= seq!["amt"@, "--json"@, "issue"@, "show"@, issue@]);
        self.json(runner, &args)
    }

    /// `amt --json issue comment <id> -m <body>`
    pub fn comment<R: Runner>(&self, runner: &mut R, issue: &str, body: &str) -> (r: Result<
        (),
        String,
    >)
        ensures
            one_call(old(runner).calls(), final(runner).calls(), comment_argv(issue@, body@)),
            unit_view(r) == amt_unit(final(runner).calls().last().out),
    {
        let args = ["--json", "issue", "comment", issue, "-m", body];
        assert(argv_of("amt"@, args@) =~= comment_argv(issue@, body@));
        self.json_ok(runner, &args)
    }

    /// `amt --json issue update <id> --status <status>`
    pub fn update_status<R: Runner>(&self, runner: &mut R, issue: &str, status: &str) -> (r:
        Result<Json, String>)
        ensures
            one_call(old(runner).calls(), final(runner).calls(), update_argv(issue@, status@)),
            parsed(r) == amt_json(final(runner).calls().last().out),
    {
        let args = ["--json", "issue", "update", issue, "--status", status];
        assert(argv_of("amt"@, args@) =~= update_argv(issue@, status@));
        self.json(runner, &args)
    }

    /// `amt --json release <id> --agent <agent> [--status <s>] [-m <comment>]`
    pub fn release<R: Runner>(
        &self,
        runner: &mut R,
        issue: &str,
        agent: &str,
        status: Option<&str>,
        comment: Option<&str>,
    ) -> (r: Result<(), String>)
        ensures
            one_call(
                old(runner).calls(),
                final(runner).calls(),
                release_argv(issue@, agent@, opt_str(status), opt_str(comment)),
            ),
            unit_view(r) == amt_unit(final(runner).calls().last().out),
    {
        broadcast use lemma_strs_push;

        let mut args: Vec<&str> = Vec::new();
        args.push("--json");
        args.push("release");
        args.push(issue);
        args.push("--agent");
        args.push(agent);
        let ghost a0 = strs(args@);
        match status {
            Some(s) => {
                args.push("--status");
                args.push(s);
            },
            None => {},
        }
        let ghost a1 = strs(args@);
        match comment {
            Some(c) => {
                args.push("-m");
                args.push(c);
            },
            None => {},
        }
        assert(a1 =~= a0 + match opt_str(status) {
            Some(s) => seq!["--status"@, s],
            None => Seq::<Seq<char>>::empty(),
        });
        assert(argv_of("amt"@, args@) =~= release_argv(
            issue@,
            agent@,
            opt_str(status),
            opt_str(comment),
        ));
        self.json_ok(runner, args.as_slice())
    }

    /// `amt --json decide --issue <id> --title <title> -b <body>` → `D-n`.
    pub fn decide<R: Runner>(&self, runner: &mut R, issue: &str, title: &str, body: &str) -> (r:
        Result<String, String>)
        ensures
            one_call(
                old(runner).calls(),
                final(runner).calls(),
                decide_argv(issue@, title@, body@),
            ),
            string_result(r) == amt_decision_id(final(runner).calls().last().out),
    {
        let args = ["--json", "decide", "--issue", issue, "--title", title, "-b", body];
        assert(argv_of("amt"@, args@) =~= decide_argv(issue@, title@, body@));
        let v = match self.json(runner, &args) {
            Ok(v) => v,
            Err(e) => {
                return Err(e);
            },
        };
        match v.get_string("id") {
            Some(id) => Ok(id),
            None => {
                let mut m = str_of("amt decide returned no decision id: ");
                let t = render(&v);
                push_str(&mut m, t.as_str());
                Err(m)
            },
        }
    }

    /// `amt --json decision show <id>`
    pub fn decision_show<R: Runner>(&self, runner: &mut R, decision: &str) -> (r: Result<
        Json,
        String,
    >)
        ensures
            one_call(
                old(runner).calls(),
                final(runner).calls(),
                seq!["amt"@, "--json"@, "decision"@, "show"@, decision@],
            ),
            parsed(r) == amt_json(final(runner).calls().last().out),
    {
        let args = ["--json", "decision", "show", decision];
        assert(argv_of("amt"@, args@) =~= seq![
            "amt"@,
            "--json"@,
            "decision"@,
            "show"@,
            decision@,
        ]);
        self.json(runner, &args)
    }

    /// `amt --json search <terms>` — available for symbol mapping fallbacks.
    pub fn search<R: Runner>(&self, runner: &mut R, terms: &str) -> (r: Result<Json, String>)
        ensures
            one_call(
                old(runner).calls(),
                final(runner).calls(),
                seq!["amt"@, "--json"@, "search"@, terms@],
            ),
            parsed(r) == amt_json(final(runner).calls().last().out),
    {
        let args = ["--json", "search", terms];
        assert(argv_of("amt"@, args@) =~= seq!["amt"@, "--json"@, "search"@, terms@]);
        self.json(runner, &args)
    }

    fn json<R: Runner>(&self, runner: &mut R, args: &[&str]) -> (r: Result<Json, String>)
        ensures
            one_call(old(runner).calls(), final(runner).calls(), argv_of("amt"@, args@)),
            parsed(r) == amt_json(final(runner).calls().last().out),
    {
        let out = match runner.run("amt", args) {
            Ok(o) => o,
            Err(e) => {
                return Err(e);
            },
        };
        if !out.success() {
            return Err(err_text(out.stderr.as_str(), out.stdout.as_str()));
        }
        match parse_json(out.stdout.as_str()) {
            Ok(v) => Ok(v),
            Err(e) => {
                let mut m = str_of("amt returned non-JSON: ");
                push_str(&mut m, e.as_str());
                push_str(&mut m, "; stdout=");
                let t = trim_str(out.stdout.as_str());
                push_str(&mut m, t.as_str());
                Err(m)
            },
        }
    }

    fn json_ok<R: Runner>(&self, runner: &mut R, args: &[&str]) -> (r: Result<(), String>)
        ensures
            one_call(old(runner).calls(), final(runner).calls(), argv_of("amt"@, args@)),
            unit_view(r) == amt_unit(final(runner).calls().last().out),
    {
        let out = match runner.run("amt", args) {
            Ok(o) => o,
            Err(e) => {
                return Err(e);
            },
        };
        if out.success() {
            Ok(())
        } else {
            Err(err_text(out.stderr.as_str(), out.stdout.as_str()))
        }
    }
}

} // verus!
