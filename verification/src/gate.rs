//! The test gate — `sirius gate AMT-n`.
//!
//! `hayven affected-tests` is a SELECTOR, not a runner: its exit code means
//! "selection computed", never "the tests pass". So Sirius owns the
//! run-the-tests half itself:
//!
//!   1. resolve the changed files from a git range,
//!   2. ask `hayven affected-tests --changed <files> --json` which tests they
//!      can affect,
//!   3. decide whether that selection can be *trusted to be complete* — and on
//!      any doubt (empty/stale selection, unparseable output, a hub/config
//!      change, no runnable ids) fall back to the FULL suite,
//!   4. run the chosen tests via `gate.test_cmd`, and
//!   5. take the verdict from the test runner's exit code.
//!
//! The governing rule is "ran too much, never missed a test". A pass advances
//! the issue via `amt issue update --status <target>`; a fail files the failure
//! as an issue comment and leaves the status untouched.
use vstd::prelude::*;
use crate::amt::{amt_json, amt_unit, comment_argv, update_argv, Amt};
use crate::config::{GateConfig, GateFallback};
use crate::hayven::{affected_argv, hv_affected, Hayven};
use crate::json::{as_array, as_str, as_u64, get, get_str, insert_member, lookup, Json};
use crate::ledger::Ledger;
use crate::gitrange::{changed_files, diff_argv, git_list};
use crate::shell::{argv_of, one_call, Call, OutView, Runner};
use crate::text::{
    chars_of, contains, dec, str_eq, join, join_char_vecs, join_strings, lines, lines_of, lowercase,
    push_char, push_str, starts_with, str_contains, str_of, string_of, string_views, to_lowercase,
    trim, trim_chars, trim_end, trim_end_chars, trim_str, u64_str, views,
};

verus! {

broadcast use crate::shell::lemma_push_drop_last;

// ── Selection ───────────────────────────────────────────────────────────────

/// The parsed answer from `hayven affected-tests --changed <files> --json`.
#[derive(Debug)]
pub struct Selection {
    /// The command exited 0 and its stdout parsed as JSON.
    pub ok: bool,
    /// How many changed files mapped to an indexed entity. 0 ⇒ nothing
    /// resolved, so the selection cannot vouch for completeness.
    pub roots: usize,
    /// The selector's self-reported caveat (e.g. "no traces yet … may UNDER-report").
    pub note: String,
    /// Concrete runnable test ids (`tests[].runnable`) to hand a test runner.
    pub runnables: Vec<String>,
    pub detail: String,
}

pub struct SelView {
    pub ok: bool,
    pub roots: nat,
    pub note: Seq<char>,
    pub runnables: Seq<Seq<char>>,
    pub detail: Seq<char>,
}

impl View for Selection {
    type V = SelView;

    open spec fn view(&self) -> SelView {
        SelView {
            ok: self.ok,
            roots: self.roots as nat,
            note: self.note@,
            runnables: string_views(self.runnables@),
            detail: self.detail@,
        }
    }
}

/// A test entry's runnable id: its `runnable` string, or the entry itself
/// when it is a bare string.
pub open spec fn runnable_of(t: Json) -> Option<Seq<char>> {
    match as_str(get(t, "runnable"@)) {
        Some(r) => Some(r),
        None => as_str(Some(t)),
    }
}

pub open spec fn runnables_in(ts: Seq<Json>) -> Seq<Seq<char>>
    decreases ts.len(),
{
    if ts.len() == 0 {
        seq![]
    } else {
        let r = runnables_in(ts.drop_last());
        match runnable_of(ts.last()) {
            Some(x) => r.push(x),
            None => r,
        }
    }
}

/// The selection a selector answer `(command_ok, parsed, detail)` gives.
pub open spec fn selection_of(a: (bool, Option<Json>, Seq<char>)) -> SelView {
    match a.1 {
        Some(v) => SelView {
            ok: a.0,
            roots: match as_array(get(v, "roots"@)) {
                Some(xs) => xs.len(),
                None => 0,
            },
            note: match as_str(get(v, "note"@)) {
                Some(n) => n,
                None => Seq::empty(),
            },
            runnables: match as_array(get(v, "tests"@)) {
                Some(ts) => runnables_in(ts),
                None => Seq::empty(),
            },
            detail: a.2,
        },
        None => SelView { ok: false, roots: 0, note: Seq::empty(), runnables: Seq::empty(), detail: a.2 },
    }
}

fn runnables_from(ts: &Vec<Json>) -> (r: Vec<String>)
    ensures
        string_views(r@) == runnables_in(ts@),
{
    let mut r: Vec<String> = Vec::new();
    let mut i: usize = 0;
    while i < ts.len()
        invariant
            i <= ts@.len(),
            string_views(r@) == runnables_in(ts@.take(i as int)),
        decreases ts@.len() - i,
    {
        assert(ts@.take(i + 1).drop_last() =~= ts@.take(i as int));
        assert(ts@.take(i + 1).last() == ts@[i as int]);
        let x = match ts[i].get_string("runnable") {
            Some(s) => Some(s),
            None => ts[i].as_string(),
        };
        let ghost r0 = string_views(r@);
        match x {
            Some(s) => {
                r.push(s);
                assert(string_views(r@) =~= r0.push(runnable_of(ts@[i as int])->Some_0));
            },
            None => {},
        }
        i = i + 1;
    }
    assert(ts@.take(ts@.len() as int) =~= ts@);
    r
}

/// Select over the changed files. Never fails — any failure surfaces as
/// `ok:false`, which the planner reads as doubt.
pub fn select<R: Runner>(runner: &mut R, hv: &Hayven, changed_files: &[String]) -> (sel: Selection)
    ensures
        changed_files@.len() == 0 ==> final(runner).calls() == old(runner).calls() && sel@
            == selection_of((false, None, "no changed files"@)),
        changed_files@.len() > 0 ==> one_call(
            old(runner).calls(),
            final(runner).calls(),
            affected_argv(string_views(changed_files@)),
        ) && sel@ == selection_of(hv_affected(final(runner).calls().last().out)),
{
    let (ok, parsed, detail) = hv.affected_tests_changed(runner, changed_files);
    match parsed {
        Some(v) => {
            let roots: usize = match v.get("roots") {
                Some(Json::Array(xs)) => xs.len(),
                _ => 0,
            };
            let note = match v.get_string("note") {
                Some(n) => n,
                None => String::new(),
            };
            let runnables = match v.get("tests") {
                Some(Json::Array(ts)) => runnables_from(ts),
                _ => Vec::new(),
            };
            let sel = Selection { ok, roots, note, runnables, detail };
            assert(string_views(sel.runnables@) == selection_of((ok, Some(v), detail@)).runnables);
            sel
        },
        None => {
            let sel = Selection {
                ok: false,
                roots: 0,
                note: String::new(),
                runnables: Vec::new(),
                detail,
            };
            assert(string_views(sel.runnables@) =~= Seq::<Seq<char>>::empty());
            sel
        },
    }
}

/// The keywords that mark a selector note as under-reporting.
pub open spec fn suspect_words() -> Seq<Seq<char>> {
    seq![
        "stale"@,
        "cold"@,
        "under-report"@,
        "under report"@,
        "under_report"@,
        "no traces"@,
        "may under"@,
    ]
}

/// The selector self-reports when it may be under-reporting (no traces, cold
/// or stale index). Any such note voids trust in a narrow selection.
pub open spec fn note_is_suspect_spec(note: Seq<char>) -> bool {
    exists|i: int| 0 <= i < suspect_words().len() && contains(lowercase(note), suspect_words()[i])
}

pub fn note_is_suspect(note: &str) -> (r: bool)
    ensures
        r == note_is_suspect_spec(note@),
{
    let n = to_lowercase(note);
    let words = [
        "stale",
        "cold",
        "under-report",
        "under report",
        "under_report",
        "no traces",
        "may under",
    ];
    assert(words@.map_values(|w: &str| w@) =~= suspect_words());
    let mut i: usize = 0;
    while i < 7
        invariant
            i <= 7,
            words@.len() == 7,
            words@.map_values(|w: &str| w@) == suspect_words(),
            n@ == lowercase(note@),
            forall|k: int| 0 <= k < i ==> !contains(n@, suspect_words()[k]),
        decreases 7 - i,
    {
        assert(words@[i as int]@ == suspect_words()[i as int]);
        if str_contains(n.as_str(), words[i]) {
            return true;
        }
        i = i + 1;
    }
    false
}

/// Index of the last `'/'` in `p`, or -1.
pub open spec fn last_slash(p: Seq<char>) -> int
    decreases p.len(),
{
    if p.len() == 0 {
        -1
    } else if p.last() == '/' {
        p.len() - 1
    } else {
        last_slash(p.drop_last())
    }
}

proof fn lemma_last_slash(p: Seq<char>, k: int)
    requires
        -1 <= k < p.len(),
        forall|i: int| k < i < p.len() ==> p[i] != '/',
        k >= 0 ==> p[k] == '/',
    ensures
        last_slash(p) == k,
    decreases p.len(),
{
    if p.len() > 0 && k < p.len() - 1 {
        lemma_last_slash(p.drop_last(), k);
    }
}

/// The last path segment: `path.rsplit('/').next()`.
pub open spec fn base_name(p: Seq<char>) -> Seq<char> {
    p.skip(last_slash(p) + 1)
}

/// File names whose blast radius the static graph cannot bound.
pub open spec fn global_names() -> Seq<Seq<char>> {
    seq![
        "Cargo.toml"@,
        "Cargo.lock"@,
        "build.rs"@,
        "package.json"@,
        "package-lock.json"@,
        "bun.lockb"@,
        "tsconfig.json"@,
        "conftest.py"@,
        "pyproject.toml"@,
        "setup.py"@,
        "setup.cfg"@,
        "tox.ini"@,
        "pytest.ini"@,
    ]
}

/// A changed file that can break anything: CI config, or a build/config/
/// dependency file. These always force a full run.
pub open spec fn is_global_impact_spec(path: Seq<char>) -> bool {
    ||| contains(path, "/.github/"@)
    ||| starts_with(path, ".github/"@)
    ||| global_names().contains(base_name(path))
    ||| starts_with(base_name(path), "requirements"@)
}

pub fn is_global_impact(path: &str) -> (r: bool)
    ensures
        r == is_global_impact_spec(path@),
{
    let p = chars_of(path);
    let mut k: usize = p.len();
    while k > 0 && p[k - 1] != '/'
        invariant
            k <= p@.len(),
            forall|i: int| k <= i < p@.len() ==> p@[i] != '/',
        decreases k,
    {
        k = k - 1;
    }
    proof {
        lemma_last_slash(p@, k - 1);
    }
    let base = crate::text::slice_chars(p.as_slice(), k, p.len());
    assert(base@ =~= base_name(path@));
    let gh = chars_of("/.github/");
    let gs = chars_of(".github/");
    if crate::text::contains_chars(p.as_slice(), gh.as_slice())
        || crate::text::starts_with_chars(p.as_slice(), gs.as_slice()) {
        return true;
    }
    let names = [
        "Cargo.toml",
        "Cargo.lock",
        "build.rs",
        "package.json",
        "package-lock.json",
        "bun.lockb",
        "tsconfig.json",
        "conftest.py",
        "pyproject.toml",
        "setup.py",
        "setup.cfg",
        "tox.ini",
        "pytest.ini",
    ];
    assert(names@.map_values(|w: &str| w@) =~= global_names());
    let mut i: usize = 0;
    while i < 13
        invariant
            i <= 13,
            names@.len() == 13,
            names@.map_values(|w: &str| w@) == global_names(),
            base@ == base_name(path@),
            forall|m: int| 0 <= m < i ==> global_names()[m] != base@,
        decreases 13 - i,
    {
        let w = chars_of(names[i]);
        assert(w@ == global_names()[i as int]);
        if crate::text::chars_eq(base.as_slice(), w.as_slice()) {
            assert(global_names().contains(base@));
            return true;
        }
        i = i + 1;
    }
    assert(!global_names().contains(base@));
    let req = chars_of("requirements");
    crate::text::starts_with_chars(base.as_slice(), req.as_slice())
}

// ── Plan ─────────────────────────────────────────────────────────────────────

/// What the test gate has decided to run.
#[derive(Debug, Clone, PartialEq)]
pub enum GatePlan {
    /// A trusted narrow selection — run exactly these runnable ids.
    Subset(Vec<String>, String),
    /// Doubt (or a hub/config change) → run the whole suite. Carries the reason.
    Full(String),
    /// Doubt, and policy (`fallback = fail`) says block rather than run all.
    Block(String),
    /// Doubt, and policy (`fallback = pass-with-warning`) says advance anyway.
    WarnPass(String),
}

pub enum PlanView {
    Subset(Seq<Seq<char>>, Seq<char>),
    Full(Seq<char>),
    Block(Seq<char>),
    WarnPass(Seq<char>),
}

impl View for GatePlan {
    type V = PlanView;

    open spec fn view(&self) -> PlanView {
        match *self {
            GatePlan::Subset(ids, r) => PlanView::Subset(string_views(ids@), r@),
            GatePlan::Full(r) => PlanView::Full(r@),
            GatePlan::Block(r) => PlanView::Block(r@),
            GatePlan::WarnPass(r) => PlanView::WarnPass(r@),
        }
    }
}

/// The first changed file with a global blast radius.
pub open spec fn first_global(files: Seq<Seq<char>>) -> Option<Seq<char>>
    decreases files.len(),
{
    if files.len() == 0 {
        None
    } else if is_global_impact_spec(files[0]) {
        Some(files[0])
    } else {
        first_global(files.skip(1))
    }
}

/// The first line of a text, trimmed ("" for an empty text).
pub open spec fn first_line_spec(s: Seq<char>) -> Seq<char> {
    if lines(s).len() > 0 {
        trim(lines(s)[0])
    } else {
        Seq::empty()
    }
}

/// The selection may be trusted to be complete.
pub open spec fn trustworthy(sel: SelView) -> bool {
    sel.ok && sel.roots > 0 && sel.runnables.len() > 0 && !note_is_suspect_spec(sel.note)
}

/// Why the selection was not trusted, most specific first.
pub open spec fn doubt_reason_spec(sel: SelView) -> Seq<char> {
    if !sel.ok {
        "selector failed or returned no JSON ("@ + first_line_spec(sel.detail) + ")"@
    } else if sel.roots == 0 {
        "no changed file mapped to an indexed entity (roots=0)"@
    } else if note_is_suspect_spec(sel.note) {
        "selector may under-report (note: "@ + sel.note + ")"@
    } else if sel.runnables.len() == 0 {
        "selector produced no runnable test ids"@
    } else {
        "selection not trustworthy"@
    }
}

/// What the test gate runs, given the selection, the changed files and the policy.
pub open spec fn decide_plan_spec(sel: SelView, files: Seq<Seq<char>>, fallback: GateFallback) -> PlanView {
    match first_global(files) {
        Some(f) => PlanView::Full("global-impact file changed ("@ + f + ")"@),
        None => if trustworthy(sel) {
            PlanView::Subset(
                sel.runnables,
                dec(sel.runnables.len()) + " affected test(s) selected"@,
            )
        } else {
            match fallback {
                GateFallback::FullSuite => PlanView::Full(doubt_reason_spec(sel)),
                GateFallback::Fail => PlanView::Block(doubt_reason_spec(sel)),
                GateFallback::PassWithWarning => PlanView::WarnPass(doubt_reason_spec(sel)),
            }
        },
    }
}

/// The first line of a text, trimmed.
pub fn first_line(s: &str) -> (r: String)
    ensures
        r@ == first_line_spec(s@),
{
    let cs = chars_of(s);
    let ls = lines_of(cs.as_slice());
    if ls.len() > 0 {
        let t = trim_chars(ls[0].as_slice());
        string_of(t.as_slice())
    } else {
        String::new()
    }
}

fn clone_strings(v: &Vec<String>) -> (r: Vec<String>)
    ensures
        string_views(r@) == string_views(v@),
{
    let mut r: Vec<String> = Vec::new();
    let mut i: usize = 0;
    while i < v.len()
        invariant
            i <= v@.len(),
            string_views(r@) == string_views(v@.take(i as int)),
        decreases v@.len() - i,
    {
        let ghost r0 = string_views(r@);
        r.push(v[i].clone());
        assert(string_views(r@) =~= r0.push(v@[i as int]@));
        assert(v@.take(i + 1) =~= v@.take(i as int).push(v@[i as int]));
        assert(string_views(r@) =~= string_views(v@.take(i + 1)));
        i = i + 1;
    }
    assert(v@.take(v@.len() as int) =~= v@);
    r
}

/// Decide what to run from a selection and the fallback policy. The trust bar
/// for a narrow run is deliberately high: the command succeeded, at least one
/// changed file resolved, there are runnable ids, the note raises no
/// under-reporting flag, and no global-impact file changed. Anything short of
/// all of that defers to `fallback`.
pub fn decide_plan(sel: &Selection, changed_files: &[String], fallback: GateFallback) -> (p: GatePlan)
    ensures
        p@ == decide_plan_spec(sel@, string_views(changed_files@), fallback),
{
    let mut i: usize = 0;
    assert(string_views(changed_files@).skip(0) =~= string_views(changed_files@));
    while i < changed_files.len()
        invariant
            i <= changed_files@.len(),
            first_global(string_views(changed_files@)) == first_global(
                string_views(changed_files@).skip(i as int),
            ),
        decreases changed_files@.len() - i,
    {
        let ghost rest = string_views(changed_files@).skip(i as int);
        assert(rest[0] == changed_files@[i as int]@);
        if is_global_impact(changed_files[i].as_str()) {
            let mut r = str_of("global-impact file changed (");
            push_str(&mut r, changed_files[i].as_str());
            push_str(&mut r, ")");
            return GatePlan::Full(r);
        }
        assert(rest.skip(1) =~= string_views(changed_files@).skip(i + 1));
        i = i + 1;
    }
    assert(string_views(changed_files@).skip(i as int) =~= Seq::<Seq<char>>::empty());
    let trusted = sel.ok && sel.roots > 0 && sel.runnables.len() > 0 && !note_is_suspect(
        sel.note.as_str(),
    );
    if trusted {
        let mut reason = u64_str(sel.runnables.len() as u64);
        push_str(&mut reason, " affected test(s) selected");
        return GatePlan::Subset(clone_strings(&sel.runnables), reason);
    }
    let reason = doubt_reason(sel);
    match fallback {
        GateFallback::FullSuite => GatePlan::Full(reason),
        GateFallback::Fail => GatePlan::Block(reason),
        GateFallback::PassWithWarning => GatePlan::WarnPass(reason),
    }
}

/// A human reason the selection wasn't trusted, most specific first.
fn doubt_reason(sel: &Selection) -> (r: String)
    ensures
        r@ == doubt_reason_spec(sel@),
{
    if !sel.ok {
        let mut r = str_of("selector failed or returned no JSON (");
        let f = first_line(sel.detail.as_str());
        push_str(&mut r, f.as_str());
        push_str(&mut r, ")");
        r
    } else if sel.roots == 0 {
        str_of("no changed file mapped to an indexed entity (roots=0)")
    } else if note_is_suspect(sel.note.as_str()) {
        let mut r = str_of("selector may under-report (note: ");
        push_str(&mut r, sel.note.as_str());
        push_str(&mut r, ")");
        r
    } else if sel.runnables.len() == 0 {
        str_of("selector produced no runnable test ids")
    } else {
        str_of("selection not trustworthy")
    }
}

// ── Execute ──────────────────────────────────────────────────────────────────

/// The result of running (or declining to run) the planned tests.
#[derive(Debug)]
pub struct GateVerdict {
    pub passed: bool,
    /// `subset(n)` / `full-suite` / `blocked` / `pass-with-warning` / `unconfigured`.
    pub plan: String,
    pub reason: String,
    pub ran_tests: bool,
    pub tests_run: usize,
    /// The runnable test ids the test gate ran (subset runs); empty for a
    /// full-suite run (the runner picks) or when no tests ran.
    pub test_ids: Vec<String>,
    pub detail: String,
}

pub struct VerdictV {
    pub passed: bool,
    pub plan: Seq<char>,
    pub reason: Seq<char>,
    pub ran_tests: bool,
    pub tests_run: nat,
    pub test_ids: Seq<Seq<char>>,
    pub detail: Seq<char>,
}

impl View for GateVerdict {
    type V = VerdictV;

    open spec fn view(&self) -> VerdictV {
        VerdictV {
            passed: self.passed,
            plan: self.plan@,
            reason: self.reason@,
            ran_tests: self.ran_tests,
            tests_run: self.tests_run as nat,
            test_ids: string_views(self.test_ids@),
            detail: self.detail@,
        }
    }
}

/// A test id as a single shell word: left alone when every character is
/// ASCII alphanumeric or one of `_ - . / : =`, else single-quoted with each
/// `'` written `'\''`.
pub open spec fn shell_safe(c: char) -> bool {
    ('a' <= c <= 'z') || ('A' <= c <= 'Z') || ('0' <= c <= '9') || c == '_' || c == '-' || c
        == '.' || c == '/' || c == ':' || c == '='
}

pub open spec fn escape_quotes(s: Seq<char>) -> Seq<char>
    decreases s.len(),
{
    if s.len() == 0 {
        seq![]
    } else {
        escape_quotes(s.drop_last()) + if s.last() == '\'' {
            seq!['\'', '\\', '\'', '\'']
        } else {
            seq![s.last()]
        }
    }
}

pub open spec fn shell_quote_spec(s: Seq<char>) -> Seq<char> {
    if forall|i: int| 0 <= i < s.len() ==> shell_safe(s[i]) {
        s
    } else {
        seq!['\''] + escape_quotes(s) + seq!['\'']
    }
}

/// Minimal POSIX single-quote for a test id passed to `sh -c`.
pub fn shell_quote(s: &str) -> (r: String)
    ensures
        r@ == shell_quote_spec(s@),
{
    let cs = chars_of(s);
    let mut safe = true;
    let mut i: usize = 0;
    while i < cs.len()
        invariant
            i <= cs@.len(),
            safe == forall|k: int| 0 <= k < i ==> shell_safe(cs@[k]),
        decreases cs@.len() - i,
    {
        let c = cs[i];
        let ok = ('a' <= c && c <= 'z') || ('A' <= c && c <= 'Z') || ('0' <= c && c <= '9') || c
            == '_' || c == '-' || c == '.' || c == '/' || c == ':' || c == '=';
        if !ok {
            safe = false;
        }
        i = i + 1;
    }
    if safe {
        return str_of(s);
    }
    let mut r = String::new();
    push_char(&mut r, '\'');
    let mut k: usize = 0;
    while k < cs.len()
        invariant
            k <= cs@.len(),
            r@ == seq!['\''] + escape_quotes(cs@.take(k as int)),
        decreases cs@.len() - k,
    {
        assert(cs@.take(k + 1).drop_last() =~= cs@.take(k as int));
        if cs[k] == '\'' {
            push_char(&mut r, '\'');
            push_char(&mut r, '\\');
            push_char(&mut r, '\'');
            push_char(&mut r, '\'');
        } else {
            push_char(&mut r, cs[k]);
        }
        assert(r@ =~= seq!['\''] + escape_quotes(cs@.take(k + 1)));
        k = k + 1;
    }
    assert(cs@.take(cs@.len() as int) =~= cs@);
    push_char(&mut r, '\'');
    r
}

/// The non-blank lines of a line list, each with trailing whitespace removed.
pub open spec fn kept_lines(ls: Seq<Seq<char>>) -> Seq<Seq<char>>
    decreases ls.len(),
{
    if ls.len() == 0 {
        seq![]
    } else {
        let r = kept_lines(ls.drop_last());
        if trim(ls.last()).len() > 0 {
            r.push(trim_end(ls.last()))
        } else {
            r
        }
    }
}

/// The last `n` non-blank lines of stdout then stderr, joined by `'\n'` —
/// enough to show the failing test without dumping the whole run.
pub open spec fn last_lines_spec(stdout: Seq<char>, stderr: Seq<char>, n: nat) -> Seq<char> {
    let k = kept_lines(lines(stdout) + lines(stderr));
    let start = if k.len() > n {
        k.len() - n
    } else {
        0
    };
    join(k.skip(start), seq!['\n'])
}

pub fn last_lines(stdout: &str, stderr: &str, n: usize) -> (r: String)
    ensures
        r@ == last_lines_spec(stdout@, stderr@, n as nat),
{
    let a = chars_of(stdout);
    let b = chars_of(stderr);
    let mut all = lines_of(a.as_slice());
    let mut lb = lines_of(b.as_slice());
    let ghost va = views(all@);
    all.append(&mut lb);
    assert(views(all@) =~= lines(stdout@) + lines(stderr@));
    let mut kept: Vec<Vec<char>> = Vec::new();
    let mut i: usize = 0;
    while i < all.len()
        invariant
            i <= all@.len(),
            views(kept@) == kept_lines(views(all@).take(i as int)),
        decreases all@.len() - i,
    {
        assert(views(all@).take(i + 1).drop_last() =~= views(all@).take(i as int));
        assert(views(all@).take(i + 1).last() == all@[i as int]@);
        let t = trim_chars(all[i].as_slice());
        if t.len() > 0 {
            let e = trim_end_chars(all[i].as_slice());
            let ghost k0 = views(kept@);
            kept.push(e);
            assert(views(kept@) =~= k0.push(e@));
        }
        i = i + 1;
    }
    assert(views(all@).take(all@.len() as int) =~= views(all@));
    let start: usize = if kept.len() > n {
        kept.len() - n
    } else {
        0
    };
    let tail = kept.split_off(start);
    assert(views(tail@) =~= kept_lines(lines(stdout@) + lines(stderr@)).skip(start as int));
    let nl = ['\n'];
    let j = join_char_vecs(tail.as_slice(), &nl);
    assert(nl@ =~= seq!['\n']);
    string_of(j.as_slice())
}

/// The test command with each selected id appended as a shell word.
pub open spec fn test_command(cmd: Seq<char>, ids: Seq<Seq<char>>) -> Seq<char>
    decreases ids.len(),
{
    if ids.len() == 0 {
        cmd
    } else {
        test_command(cmd, ids.drop_last()) + seq![' '] + shell_quote_spec(ids.last())
    }
}

/// The verdict of running `test_cmd` (with `ids` appended) through `sh -c`.
pub open spec fn run_verdict(
    ids: Seq<Seq<char>>,
    label: Seq<char>,
    reason: Seq<char>,
    out: Result<OutView, Seq<char>>,
) -> VerdictV {
    match out {
        Ok(o) => VerdictV {
            passed: o.code == Some(0i32),
            plan: label,
            reason,
            ran_tests: true,
            tests_run: ids.len(),
            test_ids: ids,
            detail: last_lines_spec(o.stdout, o.stderr, 20),
        },
        Err(e) => VerdictV {
            passed: false,
            plan: label,
            reason,
            ran_tests: false,
            tests_run: 0,
            test_ids: Seq::empty(),
            detail: e,
        },
    }
}

/// The verdict of a plan that runs nothing.
pub open spec fn no_run(passed: bool, label: Seq<char>, reason: Seq<char>) -> VerdictV {
    VerdictV {
        passed,
        plan: label,
        reason,
        ran_tests: false,
        tests_run: 0,
        test_ids: Seq::empty(),
        detail: Seq::empty(),
    }
}

pub open spec fn unconfigured() -> VerdictV {
    no_run(false, "unconfigured"@, "gate.test_cmd is not set — cannot run tests, refusing to pass"@)
}

/// Run `test_cmd` (optionally with selected ids appended) via `sh -c` and
/// read the verdict from its exit code.
fn run_cmd<R: Runner>(
    runner: &mut R,
    test_cmd: Option<&str>,
    ids: &[String],
    plan_label: String,
    reason: String,
) -> (v: GateVerdict)
    ensures
        test_cmd is None ==> final(runner).calls() == old(runner).calls() && v@ == unconfigured(),
        test_cmd matches Some(cmd) ==> one_call(
            old(runner).calls(),
            final(runner).calls(),
            seq!["sh"@, "-c"@, test_command(cmd@, string_views(ids@))],
        ) && v@ == run_verdict(
            string_views(ids@),
            plan_label@,
            reason@,
            final(runner).calls().last().out,
        ),
{
    let cmd = match test_cmd {
        None => {
            let v = GateVerdict {
                passed: false,
                plan: str_of("unconfigured"),
                reason: str_of("gate.test_cmd is not set — cannot run tests, refusing to pass"),
                ran_tests: false,
                tests_run: 0,
                test_ids: Vec::new(),
                detail: String::new(),
            };
            assert(v@.test_ids =~= Seq::<Seq<char>>::empty());
            assert(v@ == unconfigured());
            return v;
        },
        Some(c) => c,
    };
    let mut full = str_of(cmd);
    let mut i: usize = 0;
    while i < ids.len()
        invariant
            i <= ids@.len(),
            full@ == test_command(cmd@, string_views(ids@).take(i as int)),
        decreases ids@.len() - i,
    {
        assert(string_views(ids@).take(i + 1).drop_last() =~= string_views(ids@).take(i as int));
        assert(string_views(ids@).take(i + 1).last() == ids@[i as int]@);
        push_char(&mut full, ' ');
        let q = shell_quote(ids[i].as_str());
        push_str(&mut full, q.as_str());
        i = i + 1;
    }
    assert(string_views(ids@).take(ids@.len() as int) =~= string_views(ids@));
    let args = ["-c", full.as_str()];
    assert(argv_of("sh"@, args@) =~= seq!["sh"@, "-c"@, test_command(cmd@, string_views(ids@))]);
    match runner.run("sh", &args) {
        Ok(out) => {
            let mut tids: Vec<String> = Vec::new();
            let mut k: usize = 0;
            while k < ids.len()
                invariant
                    k <= ids@.len(),
                    string_views(tids@) == string_views(ids@.take(k as int)),
                decreases ids@.len() - k,
            {
                let ghost t0 = string_views(tids@);
                tids.push(ids[k].clone());
                assert(string_views(tids@) =~= t0.push(ids@[k as int]@));
                assert(ids@.take(k + 1) =~= ids@.take(k as int).push(ids@[k as int]));
                assert(string_views(tids@) =~= string_views(ids@.take(k + 1)));
                k = k + 1;
            }
            assert(ids@.take(ids@.len() as int) =~= ids@);
            let v = GateVerdict {
                passed: out.success(),
                plan: plan_label,
                reason,
                ran_tests: true,
                tests_run: ids.len(),
                test_ids: tids,
                detail: last_lines(out.stdout.as_str(), out.stderr.as_str(), 20),
            };
            assert(v@ == run_verdict(
                string_views(ids@),
                plan_label@,
                reason@,
                runner.calls().last().out,
            ));
            v
        },
        Err(e) => {
            let v = GateVerdict {
                passed: false,
                plan: plan_label,
                reason,
                ran_tests: false,
                tests_run: 0,
                test_ids: Vec::new(),
                detail: e,
            };
            assert(v@.test_ids =~= Seq::<Seq<char>>::empty());
            v
        },
    }
}

/// The label of a subset run: `subset(n)`.
pub open spec fn subset_label(n: nat) -> Seq<char> {
    "subset("@ + dec(n) + ")"@
}

/// What executing a plan does: no command for a block or a warned pass;
/// otherwise one `sh -c` run of the test command (or none, and a fail-closed
/// verdict, when no command is configured).
pub open spec fn execute_spec(
    test_cmd: Option<Seq<char>>,
    plan: PlanView,
    before: Seq<Call>,
    after: Seq<Call>,
    v: VerdictV,
) -> bool {
    match plan {
        PlanView::Block(r) => after == before && v == no_run(false, "blocked"@, r),
        PlanView::WarnPass(r) => after == before && v == no_run(true, "pass-with-warning"@, r),
        PlanView::Full(r) => match test_cmd {
            None => after == before && v == unconfigured(),
            Some(cmd) => one_call(before, after, seq!["sh"@, "-c"@, cmd]) && v == run_verdict(
                Seq::empty(),
                "full-suite"@,
                r,
                after.last().out,
            ),
        },
        PlanView::Subset(ids, r) => match test_cmd {
            None => after == before && v == unconfigured(),
            Some(cmd) => one_call(before, after, seq!["sh"@, "-c"@, test_command(cmd, ids)])
                && v == run_verdict(ids, subset_label(ids.len()), r, after.last().out),
        },
    }
}

pub open spec fn opt_str(o: Option<&str>) -> Option<Seq<char>> {
    match o {
        Some(s) => Some(s@),
        None => None,
    }
}

/// Execute a plan against the configured `test_cmd`. Fail-closed: if a run is
/// required but no command is configured, the test gate does NOT pass.
pub fn execute_plan<R: Runner>(runner: &mut R, test_cmd: Option<&str>, plan: GatePlan) -> (v:
    GateVerdict)
    ensures
        execute_spec(opt_str(test_cmd), plan@, old(runner).calls(), final(runner).calls(), v@),
{
    match plan {
        GatePlan::Block(reason) => {
            let v = GateVerdict {
                passed: false,
                plan: str_of("blocked"),
                reason,
                ran_tests: false,
                tests_run: 0,
                test_ids: Vec::new(),
                detail: String::new(),
            };
            assert(v@.test_ids =~= Seq::<Seq<char>>::empty());
            v
        },
        GatePlan::WarnPass(reason) => {
            let v = GateVerdict {
                passed: true,
                plan: str_of("pass-with-warning"),
                reason,
                ran_tests: false,
                tests_run: 0,
                test_ids: Vec::new(),
                detail: String::new(),
            };
            assert(v@.test_ids =~= Seq::<Seq<char>>::empty());
            v
        },
        GatePlan::Full(reason) => {
            let none: Vec<String> = Vec::new();
            let v = run_cmd(runner, test_cmd, none.as_slice(), str_of("full-suite"), reason);
            proof {
                assert(string_views(none@) =~= Seq::<Seq<char>>::empty());
            }
            v
        },
        GatePlan::Subset(ids, reason) => {
            let mut label = str_of("subset(");
            let n = u64_str(ids.len() as u64);
            push_str(&mut label, n.as_str());
            push_str(&mut label, ")");
            run_cmd(runner, test_cmd, ids.as_slice(), label, reason)
        },
    }
}

/// What evaluating the test gate does for `files`: with no files, the plan for an
/// empty selection is executed at once; otherwise one `hayven affected-tests`
/// call comes first and its answer is the selection.
pub open spec fn evaluate_spec(
    test_cmd: Option<Seq<char>>,
    fallback: GateFallback,
    files: Seq<Seq<char>>,
    before: Seq<Call>,
    after: Seq<Call>,
    v: VerdictV,
) -> bool {
    if files.len() == 0 {
        execute_spec(
            test_cmd,
            decide_plan_spec(selection_of((false, None, "no changed files"@)), files, fallback),
            before,
            after,
            v,
        )
    } else {
        let mid = before.push(after[before.len() as int]);
        &&& after.len() > before.len()
        &&& one_call(before, mid, affected_argv(files))
        &&& execute_spec(
            test_cmd,
            decide_plan_spec(selection_of(hv_affected(mid.last().out)), files, fallback),
            mid,
            after,
            v,
        )
    }
}

pub open spec fn cmd_of(c: Option<String>) -> Option<Seq<char>> {
    match c {
        Some(c) => Some(c@),
        None => None,
    }
}

/// Evaluate the test gate for a set of changed files, free of any Ametrite side
/// effects. The loop and the CLI both call this; each applies its own
/// advance/comment afterwards.
pub fn evaluate<R: Runner>(hv: &Hayven, runner: &mut R, gate: &GateConfig, changed_files: &[String]) -> (v:
    GateVerdict)
    ensures
        evaluate_spec(
            cmd_of(gate.test_cmd),
            gate.fallback,
            string_views(changed_files@),
            old(runner).calls(),
            final(runner).calls(),
            v@,
        ),
        final(runner).calls().len() >= old(runner).calls().len(),
        final(runner).calls().take(old(runner).calls().len() as int) == old(runner).calls(),
        forall|i: int|
            old(runner).calls().len() <= i < final(runner).calls().len() ==> (#[trigger] final(runner).calls()[i]).argv.len() > 1
                && ((final(runner).calls()[i].argv[0] == "hayven"@ && final(runner).calls()[i].argv[1]
                == "affected-tests"@) || final(runner).calls()[i].argv[0] == "sh"@),
{
    let ghost c0 = runner.calls();
    let sel = select(runner, hv, changed_files);
    let ghost c1 = runner.calls();
    let plan = decide_plan(&sel, changed_files, gate.fallback);
    let cmd: Option<&str> = match &gate.test_cmd {
        Some(c) => Some(c.as_str()),
        None => None,
    };
    let v = execute_plan(runner, cmd, plan);
    proof {
        if changed_files@.len() > 0 {
            let c2 = runner.calls();
            assert(c2.len() >= c1.len());
            assert(c2[c0.len() as int] == c1.last()) by {
                if c2.len() > c1.len() {
                    assert(c2.drop_last() == c1);
                    assert(c2[c0.len() as int] == c2.drop_last()[c0.len() as int]);
                }
            }
            assert(c0.push(c2[c0.len() as int]) =~= c1);
        }
    }
    v
}


// ── CLI orchestration ────────────────────────────────────────────────────────

/// What `sirius gate` reports.
#[derive(Debug)]
pub struct GateOutcome {
    pub issue: String,
    pub tier: String,
    pub passed: bool,
    pub advanced_to: Option<String>,
    /// Count of tests actually run (0 for a full-suite run — the runner decides).
    pub tests_selected: usize,
    /// The runnable test ids the test gate ran (subset runs); empty for full-suite.
    pub test_ids: Vec<String>,
    pub comment_filed: bool,
    /// How the test gate ran: `subset(n)`, `full-suite`, `blocked`,
    /// `pass-with-warning` or `unconfigured`.
    pub plan: String,
    /// Whether a test command was actually executed.
    pub ran_tests: bool,
}

pub struct OutcomeV {
    pub issue: Seq<char>,
    pub tier: Seq<char>,
    pub passed: bool,
    pub advanced_to: Option<Seq<char>>,
    pub tests_selected: nat,
    pub test_ids: Seq<Seq<char>>,
    pub comment_filed: bool,
    pub plan: Seq<char>,
    pub ran_tests: bool,
}

impl View for GateOutcome {
    type V = OutcomeV;

    open spec fn view(&self) -> OutcomeV {
        OutcomeV {
            issue: self.issue@,
            tier: self.tier@,
            passed: self.passed,
            advanced_to: crate::hayven::opt_view(self.advanced_to),
            tests_selected: self.tests_selected as nat,
            test_ids: string_views(self.test_ids@),
            comment_filed: self.comment_filed,
            plan: self.plan@,
            ran_tests: self.ran_tests,
        }
    }
}

pub open spec fn outcome_view(r: Result<GateOutcome, String>) -> Result<OutcomeV, Seq<char>> {
    match r {
        Ok(o) => Ok(o@),
        Err(e) => Err(e@),
    }
}

/// The outcome reported for a verdict.
pub open spec fn outcome_of(
    issue: Seq<char>,
    tier: Seq<char>,
    advanced_to: Option<Seq<char>>,
    comment_filed: bool,
    v: VerdictV,
) -> OutcomeV {
    OutcomeV {
        issue,
        tier,
        passed: v.passed,
        advanced_to,
        tests_selected: v.tests_run,
        test_ids: v.test_ids,
        comment_filed,
        plan: v.plan,
        ran_tests: v.ran_tests,
    }
}

/// The error for a range with no changed files.
pub open spec fn no_changes_msg(issue: Seq<char>, range: Option<Seq<char>>) -> Seq<char> {
    "cannot gate "@ + issue + ": no changed files in range "@ + match range {
        Some(r) => r,
        None => "working tree vs HEAD"@,
    } + " — make the change first"@
}

/// The comment filed when a gate passes without running tests.
pub open spec fn warn_body(tier: Seq<char>, reason: Seq<char>) -> Seq<char> {
    "sirius gate PASS-WITH-WARNING (tier "@ + tier + "): "@ + reason
        + " — advanced WITHOUT running tests. Set gate.fallback=full-suite to run them."@
}

/// The comment filed when a gate fails.
pub open spec fn fail_body(tier: Seq<char>, plan: Seq<char>, reason: Seq<char>, detail: Seq<char>) -> Seq<
    char,
> {
    "sirius gate FAILED (tier "@ + tier + ", plan "@ + plan + "): "@ + reason + ". "@
        + first_line_spec(detail)
}

/// The `gate_tier` policy event's detail.
pub open spec fn gate_detail(
    d: Json,
    issue: Seq<char>,
    tier: Seq<char>,
    v: VerdictV,
    advanced_to: Option<Seq<char>>,
) -> bool {
    &&& d is Object
    &&& get_str(d, "issue"@) == Some(issue)
    &&& get_str(d, "tier"@) == Some(tier)
    &&& get_str(d, "result"@) == Some(if v.passed { "pass"@ } else { "fail"@ })
    &&& get_str(d, "plan"@) == Some(v.plan)
    &&& get_str(d, "reason"@) == Some(v.reason)
    &&& as_u64(get(d, "tests_run"@)) == Some(v.tests_run as u64)
    &&& get_str(d, "advanced_to"@) == advanced_to
    &&& advanced_to is None ==> get(d, "advanced_to"@) is None
}

/// `l1` is `l0` with a `gate_tier` event appended (when its id fits), and
/// nothing else changed.
pub open spec fn gate_logged(
    l0: Ledger,
    l1: Ledger,
    issue: Seq<char>,
    tier: Seq<char>,
    v: VerdictV,
    advanced_to: Option<Seq<char>>,
) -> bool {
    &&& l1.wf()
    &&& l1.workers == l0.workers
    &&& l1.iterations == l0.iterations
    &&& l1.receipts == l0.receipts
    &&& l1.meta == l0.meta
    &&& if l0.policy_events@.len() < i64::MAX {
        &&& l1.policy_events@.drop_last() == l0.policy_events@
        &&& l1.policy_events@.len() == l0.policy_events@.len() + 1
        &&& l1.policy_events@.last().kind@ == "gate_tier"@
        &&& l1.policy_events@.last().iteration_id is None
        &&& gate_detail(l1.policy_events@.last().detail, issue, tier, v, advanced_to)
    } else {
        l1.policy_events == l0.policy_events
    }
}

/// What applying a verdict does: a pass advances the issue (and, for a pass
/// that ran no tests, files a warning comment); a fail files the failure as a
/// comment and never touches the status. Either way a `gate_tier` event is
/// logged, unless advancing failed, which is the error.
pub open spec fn apply_spec(
    before: Seq<Call>,
    after: Seq<Call>,
    l0: Ledger,
    l1: Ledger,
    issue: Seq<char>,
    tier: Seq<char>,
    target: Seq<char>,
    v: VerdictV,
    r: Result<OutcomeV, Seq<char>>,
) -> bool {
    if v.passed {
        let b1 = before.push(after[before.len() as int]);
        &&& after.len() > before.len()
        &&& one_call(before, b1, update_argv(issue, target))
        &&& match amt_json(b1.last().out) {
            Err(e) => r == Err::<OutcomeV, Seq<char>>(e) && after == b1 && l1 == l0,
            Ok(_) => {
                &&& if v.plan == "pass-with-warning"@ {
                    one_call(b1, after, comment_argv(issue, warn_body(tier, v.reason)))
                } else {
                    after == b1
                }
                &&& r == Ok::<OutcomeV, Seq<char>>(
                    outcome_of(issue, tier, Some(target), v.plan == "pass-with-warning"@, v),
                )
                &&& gate_logged(l0, l1, issue, tier, v, Some(target))
            },
        }
    } else {
        &&& one_call(
            before,
            after,
            comment_argv(issue, fail_body(tier, v.plan, v.reason, v.detail)),
        )
        &&& r == Ok::<OutcomeV, Seq<char>>(
            outcome_of(issue, tier, None, amt_unit(after.last().out) is Ok, v),
        )
        &&& gate_logged(l0, l1, issue, tier, v, None)
    }
}

/// Log the `gate_tier` event for a verdict (a failure to log is ignored).
fn log_gate_event(
    ledger: &mut Ledger,
    issue: &str,
    tier: &str,
    v: &GateVerdict,
    advanced_to: Option<&str>,
)
    requires
        old(ledger).wf(),
    ensures
        gate_logged(*old(ledger), *final(ledger), issue@, tier@, v@, opt_str(advanced_to)),
{
    proof {
        reveal_strlit("issue");
        reveal_strlit("tier");
        reveal_strlit("result");
        reveal_strlit("plan");
        reveal_strlit("reason");
        reveal_strlit("tests_run");
        reveal_strlit("advanced_to");
        assert("tier"@[0] != "plan"@[0]);
        assert("result"@[2] != "reason"@[2]);
        assert("issue"@.len() == 5 && "tier"@.len() == 4 && "result"@.len() == 6);
        assert("plan"@.len() == 4 && "reason"@.len() == 6 && "tests_run"@.len() == 9);
        assert("advanced_to"@.len() == 11);
    }
    let mut m: Vec<(String, Json)> = Vec::new();
    let ji = Json::string(issue);
    let ghost gi = ji;
    insert_member(&mut m, str_of("issue"), ji);
    let jt = Json::string(tier);
    let ghost gt = jt;
    insert_member(&mut m, str_of("tier"), jt);
    assert(lookup(m@, "issue"@) == Some(gi));
    let result = if v.passed {
        "pass"
    } else {
        "fail"
    };
    insert_member(&mut m, str_of("result"), Json::string(result));
    assert(lookup(m@, "issue"@) == Some(gi));
    assert(lookup(m@, "tier"@) == Some(gt));
    insert_member(&mut m, str_of("plan"), Json::string(v.plan.as_str()));
    assert(lookup(m@, "issue"@) == Some(gi));
    assert(lookup(m@, "tier"@) == Some(gt));
    insert_member(&mut m, str_of("reason"), Json::string(v.reason.as_str()));
    assert(lookup(m@, "issue"@) == Some(gi));
    assert(lookup(m@, "tier"@) == Some(gt));
    insert_member(&mut m, str_of("tests_run"), Json::uint(v.tests_run as u64));
    assert(lookup(m@, "issue"@) == Some(gi));
    assert(lookup(m@, "tier"@) == Some(gt));
    match advanced_to {
        Some(t) => {
            insert_member(&mut m, str_of("advanced_to"), Json::string(t));
        },
        None => {},
    }
    assert(lookup(m@, "issue"@) == Some(gi));
    assert(lookup(m@, "tier"@) == Some(gt));
    let detail = Json::Object(m);
    assert(gate_detail(detail, issue@, tier@, v@, opt_str(advanced_to))) by {
        assert(get_str(detail, "issue"@) == Some(issue@));
        assert(get_str(detail, "tier"@) == Some(tier@));
        assert(get_str(detail, "result"@) == Some(if v.passed { "pass"@ } else { "fail"@ }));
        assert(get_str(detail, "plan"@) == Some(v@.plan));
        assert(get_str(detail, "reason"@) == Some(v@.reason));
        assert(as_u64(get(detail, "tests_run"@)) == Some(v@.tests_run as u64));
        assert(get_str(detail, "advanced_to"@) == opt_str(advanced_to));
    }
    let _ = ledger.log_policy_event(None, "gate_tier", detail);
}

/// Apply a verdict to the issue: advance on pass, comment on fail.
fn apply_verdict<R: Runner>(
    amt: &Amt,
    ledger: &mut Ledger,
    runner: &mut R,
    issue: &str,
    tier: &str,
    target_status: &str,
    v: GateVerdict,
) -> (r: Result<GateOutcome, String>)
    requires
        old(ledger).wf(),
    ensures
        apply_spec(
            old(runner).calls(),
            final(runner).calls(),
            *old(ledger),
            *final(ledger),
            issue@,
            tier@,
            target_status@,
            v@,
            outcome_view(r),
        ),
{
    let ghost c0 = runner.calls();
    if v.passed {
        match amt.update_status(runner, issue, target_status) {
            Ok(_) => {},
            Err(e) => {
                proof {
                    assert(c0.push(runner.calls()[c0.len() as int]) =~= runner.calls());
                }
                return Err(e);
            },
        }
        let ghost c1 = runner.calls();
        let warned = str_eq(v.plan.as_str(), "pass-with-warning");
        if warned {
            let mut body = str_of("sirius gate PASS-WITH-WARNING (tier ");
            push_str(&mut body, tier);
            push_str(&mut body, "): ");
            push_str(&mut body, v.reason.as_str());
            push_str(
                &mut body,
                " — advanced WITHOUT running tests. Set gate.fallback=full-suite to run them.",
            );
            let _ = amt.comment(runner, issue, body.as_str());
        }
        proof {
            assert(runner.calls()[c0.len() as int] == c1.last()) by {
                if warned {
                    assert(runner.calls().drop_last() == c1);
                    assert(runner.calls()[c0.len() as int] == runner.calls().drop_last()[c0.len() as int]);
                }
            }
            assert(c0.push(runner.calls()[c0.len() as int]) =~= c1);
        }
        log_gate_event(ledger, issue, tier, &v, Some(target_status));
        let o = GateOutcome {
            issue: str_of(issue),
            tier: str_of(tier),
            passed: true,
            advanced_to: Some(str_of(target_status)),
            tests_selected: v.tests_run,
            test_ids: v.test_ids,
            comment_filed: warned,
            plan: v.plan,
            ran_tests: v.ran_tests,
        };
        Ok(o)
    } else {
        let mut body = str_of("sirius gate FAILED (tier ");
        push_str(&mut body, tier);
        push_str(&mut body, ", plan ");
        push_str(&mut body, v.plan.as_str());
        push_str(&mut body, "): ");
        push_str(&mut body, v.reason.as_str());
        push_str(&mut body, ". ");
        let f = first_line(v.detail.as_str());
        push_str(&mut body, f.as_str());
        let filed = amt.comment(runner, issue, body.as_str()).is_ok();
        log_gate_event(ledger, issue, tier, &v, None);
        let o = GateOutcome {
            issue: str_of(issue),
            tier: str_of(tier),
            passed: false,
            advanced_to: None,
            tests_selected: v.tests_run,
            test_ids: v.test_ids,
            comment_filed: filed,
            plan: v.plan,
            ran_tests: v.ran_tests,
        };
        Ok(o)
    }
}

/// Run the test gate for an issue: resolve changed files (git range), evaluate,
/// then advance on pass / comment on fail. `range` defaults to working-tree
/// vs HEAD.
pub fn run_gate<R: Runner>(
    amt: &Amt,
    hv: &Hayven,
    ledger: &mut Ledger,
    runner: &mut R,
    gate: &GateConfig,
    issue: &str,
    tier: &str,
    target_status: &str,
    range: Option<&str>,
) -> (r: Result<GateOutcome, String>)
    requires
        old(ledger).wf(),
    ensures
        final(ledger).wf(),
        final(runner).calls().len() > old(runner).calls().len(),
        ({
            let c1 = old(runner).calls().push(final(runner).calls()[old(runner).calls().len() as int]);
            &&& one_call(old(runner).calls(), c1, diff_argv(opt_str(range)))
            &&& match git_list(c1.last().out, "git diff failed"@) {
                Err(e) => outcome_view(r) == Err::<OutcomeV, Seq<char>>(e) && final(runner).calls()
                    == c1 && *final(ledger) == *old(ledger),
                Ok(files) => if files.len() == 0 {
                    &&& outcome_view(r) == Err::<OutcomeV, Seq<char>>(
                        no_changes_msg(issue@, opt_str(range)),
                    )
                    &&& final(runner).calls() == c1
                    &&& *final(ledger) == *old(ledger)
                } else {
                    exists|c2: Seq<Call>, v: VerdictV|
                        evaluate_spec(cmd_of(gate.test_cmd), gate.fallback, files, c1, c2, v)
                            && apply_spec(
                            c2,
                            final(runner).calls(),
                            *old(ledger),
                            *final(ledger),
                            issue@,
                            tier@,
                            target_status@,
                            v,
                            outcome_view(r),
                        )
                },
            }
        }),
{
    let ghost c0 = runner.calls();
    let changed = match changed_files(runner, range) {
        Ok(c) => c,
        Err(e) => {
            return Err(e);
        },
    };
    let ghost c1 = runner.calls();
    if changed.len() == 0 {
        let mut msg = str_of("cannot gate ");
        push_str(&mut msg, issue);
        push_str(&mut msg, ": no changed files in range ");
        match range {
            Some(rg) => push_str(&mut msg, rg),
            None => push_str(&mut msg, "working tree vs HEAD"),
        }
        push_str(&mut msg, " — make the change first");
        return Err(msg);
    }
    let v = evaluate(hv, runner, gate, changed.as_slice());
    let ghost c2 = runner.calls();
    let ghost vv = v@;
    let r = apply_verdict(amt, ledger, runner, issue, tier, target_status, v);
    proof {
        assert(c2.len() >= c1.len());
        assert(runner.calls().len() >= c2.len());
        assert(runner.calls().subrange(0, c1.len() as int) == c1);
        assert(runner.calls()[c0.len() as int] == c1.last());
        assert(c0.push(runner.calls()[c0.len() as int]) =~= c1);
    }
    r
}


// ── laws ────────────────────────────────────────────────────────────────────

/// "Ran too much, never missed a test": the test gate runs a narrow subset only
/// when no changed file has a global impact and the selection is trusted to
/// be complete, and then exactly the selected runnable ids.
pub proof fn law_subset_only_when_trusted(sel: SelView, files: Seq<Seq<char>>, fallback: GateFallback)
    ensures
        decide_plan_spec(sel, files, fallback) is Subset ==> first_global(files) is None && trustworthy(sel)
            && decide_plan_spec(sel, files, fallback)->Subset_0 == sel.runnables,
{
}

/// A change to a global-impact file always runs the full suite, whatever the
/// selection and the policy.
pub proof fn law_global_impact_runs_full(sel: SelView, files: Seq<Seq<char>>, fallback: GateFallback)
    requires
        exists|i: int| 0 <= i < files.len() && is_global_impact_spec(#[trigger] files[i]),
    ensures
        decide_plan_spec(sel, files, fallback) is Full,
    decreases files.len(),
{
    let i = choose|i: int| 0 <= i < files.len() && is_global_impact_spec(#[trigger] files[i]);
    if !is_global_impact_spec(files[0]) {
        assert(files.skip(1)[i - 1] == files[i]);
        law_global_impact_runs_full(sel, files.skip(1), fallback);
    }
}

/// A changed file whose last path segment starts with "requirements"
/// (`requirements.txt`, `deps/requirements-dev.in`, ...) is a dependency file:
/// whatever the selection and the fallback policy, the full suite runs, and
/// the reason names the first global-impact file.
pub proof fn law_requirements_file_runs_full(
    sel: SelView,
    files: Seq<Seq<char>>,
    fallback: GateFallback,
    i: int,
    dir: Seq<char>,
    rest: Seq<char>,
)
    requires
        0 <= i < files.len(),
        files[i] == dir + "requirements"@ + rest,
        dir.len() == 0 || dir.last() == '/',
        forall|j: int| 0 <= j < rest.len() ==> rest[j] != '/',
    ensures
        decide_plan_spec(sel, files, fallback) is Full,
        first_global(files) is Some,
        decide_plan_spec(sel, files, fallback) == PlanView::Full(
            "global-impact file changed ("@ + first_global(files)->0 + ")"@,
        ),
{
    reveal_strlit("requirements");
    let req = "requirements"@;
    let p = files[i];
    assert(forall|j: int| 0 <= j < req.len() ==> req[j] != '/');
    assert forall|j: int| dir.len() - 1 < j < p.len() implies p[j] != '/' by {
        if j < dir.len() + req.len() {
            assert(p[j] == req[j - dir.len()]);
        } else {
            assert(p[j] == rest[j - dir.len() - req.len()]);
        }
    }
    if dir.len() > 0 {
        assert(p[dir.len() - 1] == dir.last());
    }
    lemma_last_slash(p, dir.len() - 1);
    assert(base_name(p) =~= req + rest);
    assert((req + rest).take(req.len() as int) =~= req);
    assert(is_global_impact_spec(files[i]));
    law_global_impact_runs_full(sel, files, fallback);
    lemma_first_global_found(files, i);
}

proof fn lemma_first_global_found(files: Seq<Seq<char>>, i: int)
    requires
        0 <= i < files.len(),
        is_global_impact_spec(files[i]),
    ensures
        first_global(files) is Some,
    decreases files.len(),
{
    if i > 0 && !is_global_impact_spec(files[0]) {
        assert(files.skip(1)[i - 1] == files[i]);
        lemma_first_global_found(files.skip(1), i - 1);
    }
}

/// A change to a build, dependency or test-configuration file — a path whose
/// last segment is `Cargo.toml`, `Cargo.lock`, `build.rs`, `package.json`,
/// `package-lock.json`, `bun.lockb`, `tsconfig.json`, `conftest.py`,
/// `pyproject.toml`, `setup.py`, `setup.cfg`, `tox.ini` or `pytest.ini` —
/// forces the full suite, whatever the selection and the fallback policy.
pub proof fn law_build_file_runs_full(
    sel: SelView,
    files: Seq<Seq<char>>,
    fallback: GateFallback,
    i: int,
    dir: Seq<char>,
    name: Seq<char>,
)
    requires
        0 <= i < files.len(),
        files[i] == dir + name,
        dir.len() == 0 || dir.last() == '/',
        seq![
            "Cargo.toml"@,
            "Cargo.lock"@,
            "build.rs"@,
            "package.json"@,
            "package-lock.json"@,
            "bun.lockb"@,
            "tsconfig.json"@,
            "conftest.py"@,
            "pyproject.toml"@,
            "setup.py"@,
            "setup.cfg"@,
            "tox.ini"@,
            "pytest.ini"@,
        ].contains(name),
    ensures
        decide_plan_spec(sel, files, fallback) is Full,
{
    reveal_strlit("Cargo.toml");
    reveal_strlit("Cargo.lock");
    reveal_strlit("build.rs");
    reveal_strlit("package.json");
    reveal_strlit("package-lock.json");
    reveal_strlit("bun.lockb");
    reveal_strlit("tsconfig.json");
    reveal_strlit("conftest.py");
    reveal_strlit("pyproject.toml");
    reveal_strlit("setup.py");
    reveal_strlit("setup.cfg");
    reveal_strlit("tox.ini");
    reveal_strlit("pytest.ini");
    let p = files[i];
    assert(forall|j: int| 0 <= j < name.len() ==> name[j] != '/');
    assert forall|j: int| dir.len() - 1 < j < p.len() implies p[j] != '/' by {
        assert(p[j] == name[j - dir.len()]);
    }
    if dir.len() > 0 {
        assert(p[dir.len() - 1] == dir.last());
    }
    lemma_last_slash(p, dir.len() - 1);
    assert(base_name(p) =~= name);
    assert(global_names().contains(name));
    assert(is_global_impact_spec(files[i]));
    law_global_impact_runs_full(sel, files, fallback);
}

/// A change under the CI configuration directory (`.github/` at the root of
/// the repository or below any directory) forces the full suite, whatever the
/// selection and the fallback policy.
pub proof fn law_ci_config_runs_full(
    sel: SelView,
    files: Seq<Seq<char>>,
    fallback: GateFallback,
    i: int,
    dir: Seq<char>,
    rest: Seq<char>,
)
    requires
        0 <= i < files.len(),
        files[i] == dir + ".github/"@ + rest,
        dir.len() == 0 || dir.last() == '/',
    ensures
        decide_plan_spec(sel, files, fallback) is Full,
{
    reveal_strlit(".github/");
    reveal_strlit("/.github/");
    let g = ".github/"@;
    let p = files[i];
    if dir.len() == 0 {
        assert(p =~= g + rest);
        assert(p.take(g.len() as int) =~= g);
    } else {
        assert(p.subrange(dir.len() - 1, dir.len() - 1 + 9) =~= "/.github/"@);
        assert(crate::text::occurs_at(p, "/.github/"@, dir.len() - 1));
    }
    assert(is_global_impact_spec(files[i]));
    law_global_impact_runs_full(sel, files, fallback);
}

/// Fail-closed: with no test command configured, a gate that must run tests
/// does not pass and runs nothing.
pub proof fn law_gate_fails_closed(plan: PlanView, before: Seq<Call>, after: Seq<Call>, v: VerdictV)
    requires
        execute_spec(None, plan, before, after, v),
        !(plan is WarnPass),
    ensures
        !v.passed,
        after == before,
{
}

/// A gate that ran tests passes only when the test command, run through
/// `sh -c`, exited 0 — never on the selector's exit code.
pub proof fn law_pass_needs_clean_exit(
    cmd: Seq<char>,
    plan: PlanView,
    before: Seq<Call>,
    after: Seq<Call>,
    v: VerdictV,
)
    requires
        execute_spec(Some(cmd), plan, before, after, v),
        v.passed,
        !(plan is WarnPass),
    ensures
        after.len() == before.len() + 1,
        after.last().argv.take(2) == seq!["sh"@, "-c"@],
        after.last().out matches Ok(o) && o.code == Some(0i32),
{
    assert(after.last().argv.take(2) =~= seq!["sh"@, "-c"@]);
}

/// A failing gate never advances the issue: applying the verdict makes one
/// call, the failure comment on the issue, and reports nothing advanced.
pub proof fn law_failed_gate_never_advances(
    before: Seq<Call>,
    after: Seq<Call>,
    l0: Ledger,
    l1: Ledger,
    issue: Seq<char>,
    tier: Seq<char>,
    target: Seq<char>,
    v: VerdictV,
    r: Result<OutcomeV, Seq<char>>,
)
    requires
        apply_spec(before, after, l0, l1, issue, tier, target, v, r),
        !v.passed,
    ensures
        after.len() == before.len() + 1,
        after.last().argv == comment_argv(issue, fail_body(tier, v.plan, v.reason, v.detail)),
        after.last().argv != update_argv(issue, target),
        r matches Ok(o) && !o.passed && o.advanced_to is None,
{
    crate::run::lemma_words();
    assert(comment_argv(issue, fail_body(tier, v.plan, v.reason, v.detail))[3] != update_argv(issue, target)[3]);
}

} // verus!
