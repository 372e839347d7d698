//! The Hayvenhurst (`hayven`) boundary.
//!
//! All Hayvenhurst reads/writes go through the `hayven` CLI. The forms here
//! are the ground-truth `hayven 0.0.5` ones:
//!   * `hayven claim <ids...> --intent "..." [--force]` — ids are positional,
//!     there is no `--agent` flag (the daemon derives the agent).
//!   * `hayven remember "<note>" [--node <id>] [--kind K] [--scope a,b]` — the
//!     note is the first positional argument.
//!   * `hayven claim` exit codes: 0 registered, 1 hard overlap (409), 3 soft
//!     oracle adjacency (202).
use vstd::prelude::*;
use crate::json::{as_str, get, json_parse, parse_json, parsed, Json};
use crate::shell::{argv_of, one_call, Call, CmdOutput, OutView, Runner};
use crate::text::{join, join_strings, push_char, push_str, str_of, string_views, trim, trim_str};

verus! {

broadcast use crate::shell::lemma_push_drop_last;

pub open spec fn strs(v: Seq<&str>) -> Seq<Seq<char>> {
    v.map_values(|a: &str| a@)
}

pub broadcast proof fn lemma_strs_push(v: Seq<&str>, x: &str)
    ensures
        #[trigger] strs(v.push(x)) == strs(v).push(x@),
{
    assert(strs(v.push(x)) =~= strs(v).push(x@));
}

/// Append borrowed views of `items` to an argument list.
pub fn push_strs<'a>(v: &mut Vec<&'a str>, items: &'a [String])
    ensures
        strs(final(v)@) == strs(old(v)@) + string_views(items@),
{
    let mut i: usize = 0;
    while i < items.len()
        invariant
            i <= items@.len(),
            strs(v@) == strs(old(v)@) + string_views(items@.take(i as int)),
        decreases items@.len() - i,
    {
        let ghost v0 = v@;
        v.push(items[i].as_str());
        assert(strs(v@) =~= strs(v0).push(items@[i as int]@));
        assert(string_views(items@.take(i + 1)) =~= string_views(items@.take(i as int)).push(
            items@[i as int]@,
        ));
        i = i + 1;
    }
    assert(items@.take(items@.len() as int) =~= items@);
}

/// stdout and stderr together, for human-readable detail text: hayven prints
/// errors on either stream depending on the path.
pub open spec fn hv_combined(o: OutView) -> Seq<char> {
    if trim(o.stderr).len() > 0 {
        if trim(o.stdout).len() > 0 {
            o.stdout + seq!['\n'] + o.stderr
        } else {
            o.stdout + o.stderr
        }
    } else {
        o.stdout
    }
}

/// stdout and stderr together (see [`hv_combined`]).
pub fn combined(out: &CmdOutput) -> (s: String)
    ensures
        s@ == hv_combined(out@),
{
    let mut s = out.stdout.clone();
    let e = trim_str(out.stderr.as_str());
    if e.as_str().unicode_len() > 0 {
        let t = trim_str(s.as_str());
        if t.as_str().unicode_len() > 0 {
            push_char(&mut s, '\n');
        }
        push_str(&mut s, out.stderr.as_str());
    }
    s
}

/// The result of a `hayven <cmd> --json` read: the parsed stdout on exit 0.
pub open spec fn hv_json(out: Result<OutView, Seq<char>>) -> Result<Json, Seq<char>> {
    match out {
        Err(e) => Err(e),
        Ok(o) => if o.code != Some(0i32) {
            Err(trim(hv_combined(o)))
        } else {
            match json_parse(o.stdout) {
                Ok(j) => Ok(j),
                Err(e) => Err("hayven returned non-JSON: "@ + e + "; stdout="@ + trim(o.stdout)),
            }
        },
    }
}

/// The `Result<(), String>` of a write: `Ok` on exit 0.
pub open spec fn hv_unit(out: Result<OutView, Seq<char>>) -> Result<(), Seq<char>> {
    match out {
        Err(e) => Err(e),
        Ok(o) => if o.code == Some(0i32) {
            Ok(())
        } else {
            Err(trim(hv_combined(o)))
        },
    }
}

pub open spec fn unit_view(r: Result<(), String>) -> Result<(), Seq<char>> {
    match r {
        Ok(()) => Ok(()),
        Err(e) => Err(e@),
    }
}

pub open spec fn string_result(r: Result<String, String>) -> Result<Seq<char>, Seq<char>> {
    match r {
        Ok(s) => Ok(s@),
        Err(e) => Err(e@),
    }
}

/// Result of a `hayven claim`, mapped from exit codes.
#[derive(Debug, Clone, PartialEq)]
pub enum ClaimVerdict {
    /// exit 0 — claim registered.
    Registered { claim_id: Option<String> },
    /// exit 1 — hard overlap (409). `detail` names the blocking claim if known.
    Overlap { detail: String },
    /// exit 3 — soft oracle adjacency conflict (202); force-able.
    OracleConflict { detail: String },
    /// Any other failure (daemon down, wrong project, etc).
    Error { detail: String },
}

pub enum VerdictView {
    Registered(Option<Seq<char>>),
    Overlap(Seq<char>),
    OracleConflict(Seq<char>),
    Error(Seq<char>),
}

pub open spec fn opt_view(o: Option<String>) -> Option<Seq<char>> {
    match o {
        Some(s) => Some(s@),
        None => None,
    }
}

impl View for ClaimVerdict {
    type V = VerdictView;

    open spec fn view(&self) -> VerdictView {
        match *self {
            ClaimVerdict::Registered { claim_id } => VerdictView::Registered(opt_view(claim_id)),
            ClaimVerdict::Overlap { detail } => VerdictView::Overlap(detail@),
            ClaimVerdict::OracleConflict { detail } => VerdictView::OracleConflict(detail@),
            ClaimVerdict::Error { detail } => VerdictView::Error(detail@),
        }
    }
}

pub open spec fn first_present(a: Option<Json>, b: Option<Json>, c: Option<Json>) -> Option<Json> {
    if a is Some {
        a
    } else if b is Some {
        b
    } else {
        c
    }
}

/// The claim id lifted from a claim's stdout: the first of `id`, `claim_id`,
/// `claimId` present, if it is a string.
pub open spec fn claim_id_of(stdout: Seq<char>) -> Option<Seq<char>> {
    match json_parse(stdout) {
        Ok(v) => as_str(first_present(get(v, "id"@), get(v, "claim_id"@), get(v, "claimId"@))),
        Err(_) => None,
    }
}

/// The verdict a claim's result maps to: exit 0 / 1 / 3, and anything else
/// (a signal kill, with no exit code, included) is an error.
pub open spec fn hv_verdict(out: Result<OutView, Seq<char>>) -> VerdictView {
    match out {
        Err(e) => VerdictView::Error(e),
        Ok(o) => {
            let detail = trim(hv_combined(o));
            match o.code {
                Some(c) => if c == 0 {
                    VerdictView::Registered(claim_id_of(o.stdout))
                } else if c == 1 {
                    VerdictView::Overlap(detail)
                } else if c == 3 {
                    VerdictView::OracleConflict(detail)
                } else {
                    VerdictView::Error(detail)
                },
                None => VerdictView::Error(detail),
            }
        },
    }
}

pub open spec fn claim_argv(ids: Seq<Seq<char>>, intent: Seq<char>, force: bool) -> Seq<Seq<char>> {
    seq!["hayven"@, "claim"@] + ids + seq!["--intent"@, intent] + if force {
        seq!["--force"@]
    } else {
        Seq::<Seq<char>>::empty()
    }
}

pub open spec fn remember_argv(
    note: Seq<char>,
    node: Option<Seq<char>>,
    kind: Seq<char>,
    scope: Seq<Seq<char>>,
) -> Seq<Seq<char>> {
    seq!["hayven"@, "remember"@, note] + match node {
        Some(n) => seq!["--node"@, n],
        None => Seq::<Seq<char>>::empty(),
    } + seq!["--kind"@, kind] + if scope.len() > 0 {
        seq!["--scope"@, join(scope, ","@)]
    } else {
        Seq::<Seq<char>>::empty()
    } + seq!["--json"@]
}

pub open spec fn affected_argv(files: Seq<Seq<char>>) -> Seq<Seq<char>> {
    seq!["hayven"@, "affected-tests"@, "--changed"@, join(files, ","@), "--json"@]
}

/// What the selector call returns: `(command_ok, parsed_json, detail)`.
pub open spec fn hv_affected(out: Result<OutView, Seq<char>>) -> (bool, Option<Json>, Seq<char>) {
    match out {
        Err(e) => (false, None, e),
        Ok(o) => (
            o.code == Some(0i32),
            match json_parse(o.stdout) {
                Ok(j) => Some(j),
                Err(_) => None,
            },
            trim(hv_combined(o)),
        ),
    }
}

/// The `hayven` CLI, spoken through a [`Runner`].
pub struct Hayven;

impl Hayven {
    pub fn new() -> Hayven {
        Hayven
    }

    /// `hayven --version`
    pub fn version<R: Runner>(&self, runner: &mut R) -> (r: Result<String, String>)
        ensures
            one_call(old(runner).calls(), final(runner).calls(), seq!["hayven"@, "--version"@]),
            string_result(r) == (match final(runner).calls().last().out {
                Err(e) => Err(e),
                Ok(o) => if o.code == Some(0i32) {
                    Ok(trim(o.stdout))
                } else {
                    Err(trim(o.stderr))
                },
            }),
    {
        let args = ["--version"];
        let out = runner.run("hayven", &args);
        assert(argv_of("hayven"@, args@) =~= seq!["hayven"@, "--version"@]);
        match out {
            Err(e) => Err(e),
            Ok(o) => if o.success() {
                Ok(trim_str(o.stdout.as_str()))
            } else {
                Err(trim_str(o.stderr.as_str()))
            },
        }
    }

    /// `hayven daemon status` — the trimmed status line ("running" /
    /// "stopped" / a project-mismatch message).
    pub fn daemon_status<R: Runner>(&self, runner: &mut R) -> (r: Result<String, String>)
        ensures
            one_call(
                old(runner).calls(),
                final(runner).calls(),
                seq!["hayven"@, "daemon"@, "status"@],
            ),
            string_result(r) == (match final(runner).calls().last().out {
                Err(e) => Err(e),
                Ok(o) => Ok(trim(hv_combined(o))),
            }),
    {
        let args = ["daemon", "status"];
        let out = runner.run("hayven", &args);
        assert(argv_of("hayven"@, args@) =~= seq!["hayven"@, "daemon"@, "status"@]);
        match out {
            Err(e) => Err(e),
            Ok(o) => {
                let c = combined(&o);
                Ok(trim_str(c.as_str()))
            },
        }
    }

    /// `hayven <args>` whose stdout is one JSON document.
    fn json<R: Runner>(&self, runner: &mut R, args: &[&str]) -> (r: Result<Json, String>)
        ensures
            one_call(old(runner).calls(), final(runner).calls(), argv_of("hayven"@, args@)),
            parsed(r) == hv_json(final(runner).calls().last().out),
    {
        let out = runner.run("hayven", args);
        match out {
            Err(e) => Err(e),
            Ok(o) => {
                if !o.success() {
                    let c = combined(&o);
                    return Err(trim_str(c.as_str()));
                }
                match parse_json(o.stdout.as_str()) {
                    Ok(j) => Ok(j),
                    Err(e) => {
                        let mut m = str_of("hayven returned non-JSON: ");
                        push_str(&mut m, e.as_str());
                        push_str(&mut m, "; stdout=");
                        let t = trim_str(o.stdout.as_str());
                        push_str(&mut m, t.as_str());
                        Err(m)
                    },
                }
            },
        }
    }

    /// `hayven query <terms> --json`
    pub fn query<R: Runner>(&self, runner: &mut R, terms: &str) -> (r: Result<Json, String>)
        ensures
            one_call(
                old(runner).calls(),
                final(runner).calls(),
                seq!["hayven"@, "query"@, terms@, "--json"@],
            ),
            parsed(r) == hv_json(final(runner).calls().last().out),
    {
        let args = ["query", terms, "--json"];
        assert(argv_of("hayven"@, args@) =~= seq!["hayven"@, "query"@, terms@, "--json"@]);
        self.json(runner, &args)
    }

    /// `hayven impact <symbol> --json`
    pub fn impact<R: Runner>(&self, runner: &mut R, symbol: &str) -> (r: Result<Json, String>)
        ensures
            one_call(
                old(runner).calls(),
                final(runner).calls(),
                seq!["hayven"@, "impact"@, symbol@, "--json"@],
            ),
            parsed(r) == hv_json(final(runner).calls().last().out),
    {
        let args = ["impact", symbol, "--json"];
        assert(argv_of("hayven"@, args@) =~= seq!["hayven"@, "impact"@, symbol@, "--json"@]);
        self.json(runner, &args)
    }

    /// `hayven context <symbol> --json`
    pub fn context<R: Runner>(&self, runner: &mut R, symbol: &str) -> (r: Result<Json, String>)
        ensures
            one_call(
                old(runner).calls(),
                final(runner).calls(),
                seq!["hayven"@, "context"@, symbol@, "--json"@],
            ),
            parsed(r) == hv_json(final(runner).calls().last().out),
    {
        let args = ["context", symbol, "--json"];
        assert(argv_of("hayven"@, args@) =~= seq!["hayven"@, "context"@, symbol@, "--json"@]);
        self.json(runner, &args)
    }

    /// `hayven recall --node <id> --json`
    pub fn recall_node<R: Runner>(&self, runner: &mut R, node: &str) -> (r: Result<Json, String>)
        ensures
            one_call(
                old(runner).calls(),
                final(runner).calls(),
                seq!["hayven"@, "recall"@, "--node"@, node@, "--json"@],
            ),
            parsed(r) == hv_json(final(runner).calls().last().out),
    {
        let args = ["recall", "--node", node, "--json"];
        assert(argv_of("hayven"@, args@) =~= seq![
            "hayven"@,
            "recall"@,
            "--node"@,
            node@,
            "--json"@,
        ]);
        self.json(runner, &args)
    }

    /// `hayven claim <ids...> --intent "<intent>" [--force]`, mapped
    /// 0 registered · 1 hard overlap (409) · 3 oracle adjacency (202).
    pub fn claim<R: Runner>(&self, runner: &mut R, ids: &[String], intent: &str, force: bool) -> (r:
        ClaimVerdict)
        ensures
            one_call(
                old(runner).calls(),
                final(runner).calls(),
                claim_argv(string_views(ids@), intent@, force),
            ),
            r@ == hv_verdict(final(runner).calls().last().out),
    {
        broadcast use lemma_strs_push;

        let mut args: Vec<&str> = Vec::new();
        args.push("claim");
        assert(strs(args@) =~= seq!["claim"@]);
        push_strs(&mut args, ids);
        args.push("--intent");
        args.push(intent);
        let ghost mid = strs(args@);
        assert(mid =~= seq!["claim"@] + string_views(ids@) + seq!["--intent"@, intent@]);
        if force {
            args.push("--force");
        }
        assert(strs(args@) =~= mid + if force {
            seq!["--force"@]
        } else {
            Seq::<Seq<char>>::empty()
        });
        assert(argv_of("hayven"@, args@) =~= claim_argv(string_views(ids@), intent@, force));
        let out = runner.run("hayven", args.as_slice());
        match out {
            Err(e) => ClaimVerdict::Error { detail: e },
            Ok(o) => {
                let c = combined(&o);
                let detail = trim_str(c.as_str());
                match o.code {
                    Some(0) => ClaimVerdict::Registered { claim_id: claim_id_from(o.stdout.as_str()) },
                    Some(1) => ClaimVerdict::Overlap { detail },
                    Some(3) => ClaimVerdict::OracleConflict { detail },
                    _ => ClaimVerdict::Error { detail },
                }
            },
        }
    }

    /// `hayven release <claim_id>`
    pub fn release<R: Runner>(&self, runner: &mut R, claim_id: &str) -> (r: Result<(), String>)
        ensures
            one_call(
                old(runner).calls(),
                final(runner).calls(),
                seq!["hayven"@, "release"@, claim_id@],
            ),
            unit_view(r) == hv_unit(final(runner).calls().last().out),
    {
        let args = ["release", claim_id];
        assert(argv_of("hayven"@, args@) =~= seq!["hayven"@, "release"@, claim_id@]);
        let out = runner.run("hayven", &args);
        match out {
            Err(e) => Err(e),
            Ok(o) => if o.success() {
                Ok(())
            } else {
                let c = combined(&o);
                Err(trim_str(c.as_str()))
            },
        }
    }

    /// `hayven remember "<note>" [--node <id>] --kind <kind> [--scope a,b] --json`,
    /// the reverse-provenance write.
    pub fn remember<R: Runner>(
        &self,
        runner: &mut R,
        note: &str,
        node: Option<&str>,
        kind: &str,
        scope: &[String],
    ) -> (r: Result<(), String>)
        ensures
            one_call(
                old(runner).calls(),
                final(runner).calls(),
                remember_argv(
                    note@,
                    match node {
                        Some(n) => Some(n@),
                        None => None,
                    },
                    kind@,
                    string_views(scope@),
                ),
            ),
            unit_view(r) == hv_unit(final(runner).calls().last().out),
    {
        broadcast use lemma_strs_push;

        let csv = join_strings(scope, ",");
        let mut args: Vec<&str> = Vec::new();
        args.push("remember");
        args.push(note);
        match node {
            Some(n) => {
                args.push("--node");
                args.push(n);
            },
            None => {},
        }
        args.push("--kind");
        args.push(kind);
        if scope.len() > 0 {
            args.push("--scope");
            args.push(csv.as_str());
        }
        args.push("--json");
        assert(argv_of("hayven"@, args@) =~= remember_argv(
            note@,
            match node {
                Some(n) => Some(n@),
                None => None,
            },
            kind@,
            string_views(scope@),
        ));
        let out = runner.run("hayven", args.as_slice());
        match out {
            Err(e) => Err(e),
            Ok(o) => if o.success() {
                Ok(())
            } else {
                let c = combined(&o);
                Err(trim_str(c.as_str()))
            },
        }
    }

    /// `hayven affected-tests --changed <csv> --json` — a SELECTOR only: exit 0
    /// means "selection computed", never "tests pass". Returns
    /// `(command_ok, parsed_json, detail)`; no files means no call and doubt.
    pub fn affected_tests_changed<R: Runner>(&self, runner: &mut R, files: &[String]) -> (r: (
        bool,
        Option<Json>,
        String,
    ))
        ensures
            files@.len() == 0 ==> final(runner).calls() == old(runner).calls() && !r.0 && r.1 is None
                && r.2@ == "no changed files"@,
            files@.len() > 0 ==> one_call(
                old(runner).calls(),
                final(runner).calls(),
                affected_argv(string_views(files@)),
            ) && (r.0, r.1, r.2@) == hv_affected(final(runner).calls().last().out),
    {
        if files.len() == 0 {
            return (false, None, str_of("no changed files"));
        }
        let csv = join_strings(files, ",");
        let args = ["affected-tests", "--changed", csv.as_str(), "--json"];
        assert(argv_of("hayven"@, args@) =~= affected_argv(string_views(files@)));
        match runner.run("hayven", &args) {
            Ok(o) => {
                let ok = o.success();
                let p = match parse_json(o.stdout.as_str()) {
                    Ok(j) => Some(j),
                    Err(_) => None,
                };
                let c = combined(&o);
                (ok, p, trim_str(c.as_str()))
            },
            Err(e) => (false, None, e),
        }
    }
}

/// The claim id in a claim's stdout (see [`claim_id_of`]).
fn claim_id_from(stdout: &str) -> (r: Option<String>)
    ensures
        opt_view(r) == claim_id_of(stdout@),
{
    match parse_json(stdout) {
        Ok(v) => {
            let pick = match v.get("id") {
                Some(x) => Some(x),
                None => match v.get("claim_id") {
                    Some(x) => Some(x),
                    None => v.get("claimId"),
                },
            };
            match pick {
                Some(x) => x.as_string(),
                None => None,
            }
        },
        Err(_) => None,
    }
}

} // verus!
