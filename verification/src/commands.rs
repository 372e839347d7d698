//! The decisions behind the `sirius` subcommands: worker names, fleet size,
//! exit codes, link targets, the Console address, and the per-worker loop's
//! next step. The binary performs the I/O around them.
use vstd::prelude::*;
use crate::bridge::LinkKind;
use crate::config::{backoff_delay, Config, GateConfig, GateFallback};
use crate::gitrange::{add_new, add_new_exec};
use crate::json::{insert_member, Json};
use crate::ledger::{events_added, log_event, Ledger};
use crate::run::IterationOutcome;
use crate::text::{dec, push_str, str_of, string_views, strip_all_prefix, u64_str};

verus! {

// ── worker names ────────────────────────────────────────────────────────────

/// The named roster of worker trees.
pub open spec fn roster() -> Seq<Seq<char>> {
    seq!["oak"@, "rowan"@, "birch"@, "ash"@, "elm"@, "cedar"@, "maple"@, "pine"@]
}

/// Worker `i`'s name: `sirius/<tree>` from the roster, and past it
/// `sirius/tree<i+1>` — still unique.
pub open spec fn tree_name(i: nat) -> Seq<char> {
    if i < 8 {
        "sirius/"@ + roster()[i as int]
    } else {
        "sirius/"@ + "tree"@ + dec(i + 1)
    }
}

fn roster_name(i: usize) -> (s: &'static str)
    requires
        i < 8,
    ensures
        s@ == roster()[i as int],
{
    if i == 0 {
        "oak"
    } else if i == 1 {
        "rowan"
    } else if i == 2 {
        "birch"
    } else if i == 3 {
        "ash"
    } else if i == 4 {
        "elm"
    } else if i == 5 {
        "cedar"
    } else if i == 6 {
        "maple"
    } else {
        "pine"
    }
}

/// Worker tree names, deterministic and stable.
pub fn tree_names(n: u32) -> (names: Vec<String>)
    ensures
        names@.len() == n,
        forall|i: int| 0 <= i < n ==> (#[trigger] names@[i])@ == tree_name(i as nat),
{
    let mut names: Vec<String> = Vec::new();
    let mut i: u32 = 0;
    while i < n
        invariant
            i <= n,
            names@.len() == i,
            forall|k: int| 0 <= k < i ==> (#[trigger] names@[k])@ == tree_name(k as nat),
        decreases n - i,
    {
        let mut s = str_of("sirius/");
        if i < 8 {
            push_str(&mut s, roster_name(i as usize));
        } else {
            push_str(&mut s, "tree");
            let d = u64_str(i as u64 + 1);
            push_str(&mut s, d.as_str());
        }
        names.push(s);
        i = i + 1;
    }
    names
}

/// Whether a worker may start another iteration, having reserved the slot
/// numbered `taken` (from 0) of the run's shared budget of `max_iterations`
/// (0 means unlimited).
pub fn within_budget(max_iterations: u32, taken: u32) -> (ok: bool)
    ensures
        ok == (max_iterations == 0 || taken < max_iterations),
{
    max_iterations == 0 || taken < max_iterations
}

/// How many workers a run starts: the requested count and the configured
/// concurrency, each at least one, whichever is smaller.
pub fn fleet_size(workers: u32, concurrency: u32) -> (n: u32)
    ensures
        n >= 1,
        n == vstd::math::min(
            vstd::math::max(workers as int, 1),
            vstd::math::max(concurrency as int, 1),
        ),
{
    let w = if workers > 1 {
        workers
    } else {
        1
    };
    let c = if concurrency > 1 {
        concurrency
    } else {
        1
    };
    if w < c {
        w
    } else {
        c
    }
}

/// Whether the test gate can ever advance an issue: an unconfigured gate fails
/// every iteration closed, unless the fallback opts into passing ungated.
pub fn gate_can_advance(gate: &GateConfig) -> (b: bool)
    ensures
        b == (gate.test_cmd is Some || gate.fallback == GateFallback::PassWithWarning),
{
    gate.test_cmd.is_some() || gate.fallback == GateFallback::PassWithWarning
}

// ── exit codes ──────────────────────────────────────────────────────────────

/// Under `--json` an unhealthy-but-speaking tool still exits 0 (its health
/// is in the envelope); in human mode doctor is a gate.
pub fn doctor_exit_code(json: bool, ok: bool) -> (code: u8)
    ensures
        code == if json || ok {
            0u8
        } else {
            1u8
        },
{
    if json || ok {
        0
    } else {
        1
    }
}

/// `sirius gate` exits 0 on a pass and 3 (soft "blocked") on a fail.
pub fn gate_exit_code(passed: bool) -> (code: u8)
    ensures
        code == if passed {
            0u8
        } else {
            3u8
        },
{
    if passed {
        0
    } else {
        3
    }
}

// ── link and why ────────────────────────────────────────────────────────────

/// What `sirius link` stamps: exactly one of an issue or a decision.
pub fn link_target(issue: Option<String>, decision: Option<String>) -> (t: Option<(LinkKind, String)>)
    ensures
        match (issue, decision) {
            (Some(i), None) => t matches Some(p) && p.0 == LinkKind::Issue && p.1@ == i@,
            (None, Some(d)) => t matches Some(p) && p.0 == LinkKind::Decision && p.1@ == d@,
            _ => t is None,
        },
{
    match (issue, decision) {
        (Some(i), None) => Some((LinkKind::Issue, i)),
        (None, Some(d)) => Some((LinkKind::Decision, d)),
        _ => None,
    }
}

/// The symbols to link: the given ones, then those resolved from changes,
/// each once, first occurrence first.
pub fn merge_symbols(symbols: Vec<String>, resolved: Vec<String>) -> (r: Vec<String>)
    ensures
        string_views(r@) == add_new(seq![], string_views(symbols@) + string_views(resolved@)),
{
    let mut all = symbols;
    let ghost s0 = string_views(all@);
    let mut resolved = resolved;
    let ghost r0 = string_views(resolved@);
    all.append(&mut resolved);
    assert(string_views(all@) =~= s0 + r0);
    let mut r: Vec<String> = Vec::new();
    assert(string_views(r@) =~= Seq::<Seq<char>>::empty());
    add_new_exec(&mut r, all);
    r
}

/// `amt:decision/<n>` for a decision ref `D-<n>`.
pub fn decision_uri(reference: &str) -> (r: String)
    ensures
        r@ == "amt:decision/"@ + strip_all_prefix(reference@, "D-"@),
{
    let cs = crate::text::chars_of(reference);
    let p = crate::text::chars_of("D-");
    let rest = crate::text::strip_all_prefix_chars(cs.as_slice(), p.as_slice());
    let mut r = str_of("amt:decision/");
    let t = crate::text::string_of(rest.as_slice());
    push_str(&mut r, t.as_str());
    r
}

/// What `Regex::new(pattern)` then `is_match(text)` says: whether the
/// pattern matches anywhere in the text, or `None` when it does not compile.
pub uninterp spec fn regex_match(pattern: Seq<char>, text: Seq<char>) -> Option<bool>;

/// `regex::Regex::new(pattern)` and `is_match(text)`; the result is the
/// named one.
#[verifier::external_body]
fn is_match(pattern: &str, text: &str) -> (r: Option<bool>)
    ensures
        r == regex_match(pattern@, text@),
{
    match regex::Regex::new(pattern) {
        Ok(re) => Some(re.is_match(text)),
        Err(_) => None,
    }
}

/// An issue key, the whole target: `AMT-<digits>`.
pub open spec fn issue_key_pattern() -> Seq<char> {
    "^AMT-\\d+$"@
}

/// Whether `sirius why <target>` names an issue (else a symbol).
pub fn regex_is_issue(target: &str) -> (b: bool)
    ensures
        b == (regex_match(issue_key_pattern(), target@) == Some(true)),
{
    match is_match("^AMT-\\d+$", target) {
        Some(b) => b,
        None => false,
    }
}

// ── the Console address ─────────────────────────────────────────────────────

pub open spec fn is_digit(c: char) -> bool {
    '0' <= c <= '9'
}

/// The value of a run of decimal digits.
pub open spec fn digits_value(s: Seq<char>) -> nat
    decreases s.len(),
{
    if s.len() == 0 {
        0
    } else {
        digits_value(s.drop_last()) * 10 + (s.last() as nat - '0' as nat) as nat
    }
}

/// The digits after an optional leading `+`.
pub open spec fn unsigned_digits(s: Seq<char>) -> Seq<char> {
    if s.len() > 0 && s[0] == '+' {
        s.skip(1)
    } else {
        s
    }
}

pub open spec fn all_digits(ds: Seq<char>) -> bool {
    forall|i: int| 0 <= i < ds.len() ==> is_digit(#[trigger] ds[i])
}

/// `str::parse::<u16>`: an optional `+`, then one or more ASCII digits whose
/// value fits in 16 bits.
pub open spec fn parse_u16(s: Seq<char>) -> Option<u16> {
    let ds = unsigned_digits(s);
    if ds.len() > 0 && all_digits(ds) && digits_value(ds) <= u16::MAX {
        Some(digits_value(ds) as u16)
    } else {
        None
    }
}

proof fn lemma_digits_grow(s: Seq<char>, i: int)
    requires
        0 <= i <= s.len(),
        forall|k: int| 0 <= k < s.len() ==> is_digit(#[trigger] s[k]),
    ensures
        digits_value(s.take(i)) <= digits_value(s),
    decreases s.len() - i,
{
    if i < s.len() {
        lemma_digits_grow(s, i + 1);
        assert(s.take(i + 1).drop_last() =~= s.take(i));
    } else {
        assert(s.take(i) =~= s);
    }
}

fn parse_u16_exec(s: &[char]) -> (r: Option<u16>)
    ensures
        r == parse_u16(s@),
{
    let start: usize = if s.len() > 0 && s[0] == '+' {
        1
    } else {
        0
    };
    let ghost ds = unsigned_digits(s@);
    assert(ds =~= s@.skip(start as int));
    if start >= s.len() {
        return None;
    }
    let mut v: u32 = 0;
    let mut i: usize = start;
    while i < s.len()
        invariant
            start <= i <= s@.len(),
            ds == s@.skip(start as int),
            ds == unsigned_digits(s@),
            forall|k: int| 0 <= k < i - start ==> is_digit(#[trigger] ds[k]),
            v == digits_value(ds.take(i - start)),
            v <= u16::MAX,
        decreases s@.len() - i,
    {
        let c = s[i];
        if !('0' <= c && c <= '9') {
            assert(!is_digit(ds[i - start]));
            assert(!all_digits(ds));
            return None;
        }
        proof {
            assert(ds.take(i - start + 1).drop_last() =~= ds.take(i - start));
        }
        v = v * 10 + (c as u32 - '0' as u32);
        i = i + 1;
        if v > 65535 {
            proof {
                if all_digits(ds) {
                    lemma_digits_grow(ds, i - start);
                }
            }
            return None;
        }
    }
    assert(ds.take(ds.len() as int) =~= ds);
    Some(v as u16)
}

/// The Console's port: `SIRIUS_CONSOLE_PORT` when it parses (trimmed) to a
/// non-zero port, else 1777.
pub open spec fn console_port(var: Option<Seq<char>>) -> u16 {
    match var {
        Some(v) => match parse_u16(crate::text::trim(v)) {
            Some(p) => if p != 0 {
                p
            } else {
                1777
            },
            None => 1777,
        },
        None => 1777,
    }
}

/// The Console's URL, honoring its own port override (and not the bare
/// `PORT` a parent process may export for itself).
pub fn console_ui_url(port_var: Option<String>) -> (url: String)
    ensures
        url@ == "http://localhost:"@ + dec(console_port(
            match port_var {
                Some(v) => Some(v@),
                None => None,
            },
        ) as nat),
{
    let port: u16 = match port_var {
        Some(v) => {
            let cs = crate::text::chars_of(v.as_str());
            let t = crate::text::trim_chars(cs.as_slice());
            match parse_u16_exec(t.as_slice()) {
                Some(p) => if p != 0 {
                    p
                } else {
                    1777
                },
                None => 1777,
            }
        },
        None => 1777,
    };
    let mut url = str_of("http://localhost:");
    let d = u64_str(port as u64);
    push_str(&mut url, d.as_str());
    url
}


// ── the per-worker loop ─────────────────────────────────────────────────────

/// Consecutive errors a worker tolerates before it stops.
pub const ERROR_BUDGET: u32 = 5;

/// How many "board momentarily empty" probes (issues exist but are leased)
/// a worker waits through before giving up.
pub const NOWORK_PROBES: u32 = 3;

/// The longest such wait, in seconds.
pub const NOWORK_WAIT_CAP_SECS: u64 = 30;

/// A worker's loop counters.
#[derive(Debug, Clone, Copy, PartialEq, Eq, Structural)]
pub struct WorkerState {
    pub consecutive_overlaps: u32,
    pub consecutive_errors: u32,
    pub nowork_probes: u32,
}

impl WorkerState {
    pub fn new() -> (s: WorkerState)
        ensures
            s == (WorkerState { consecutive_overlaps: 0, consecutive_errors: 0, nowork_probes: 0 }),
    {
        WorkerState { consecutive_overlaps: 0, consecutive_errors: 0, nowork_probes: 0 }
    }
}

/// What a worker does after an iteration.
#[derive(Debug, Clone, Copy, PartialEq, Eq, Structural)]
pub enum WorkerAction {
    /// Claim the next issue at once.
    Continue,
    /// Sleep this long, then claim again.
    Wait { ms: u64 },
    /// Leave the loop; `failed` marks the run as failed.
    Stop { failed: bool },
}

pub open spec fn sat_inc(n: u32) -> u32 {
    if n == u32::MAX {
        n
    } else {
        (n + 1) as u32
    }
}

/// The worker's next state and action after an outcome.
pub open spec fn worker_step(st: WorkerState, outcome: IterationOutcome, cfg: Config) -> (
    WorkerState,
    WorkerAction,
) {
    match outcome {
        IterationOutcome::NoWork { retry_after } => match retry_after {
            Some(secs) => if st.nowork_probes < NOWORK_PROBES {
                (
                    WorkerState { nowork_probes: (st.nowork_probes + 1) as u32, ..st },
                    WorkerAction::Wait {
                        ms: (vstd::math::min(secs as int, NOWORK_WAIT_CAP_SECS as int) * 1000) as u64,
                    },
                )
            } else {
                (st, WorkerAction::Stop { failed: false })
            },
            None => (st, WorkerAction::Stop { failed: false }),
        },
        IterationOutcome::ReleasedOverlap => (
            WorkerState {
                consecutive_overlaps: sat_inc(st.consecutive_overlaps),
                consecutive_errors: 0,
                nowork_probes: 0,
            },
            WorkerAction::Wait {
                ms: backoff_delay(
                    cfg.backoff_409.base_ms,
                    cfg.backoff_409.max_ms,
                    st.consecutive_overlaps,
                ),
            },
        ),
        IterationOutcome::Error(_) => {
            let errors = sat_inc(st.consecutive_errors);
            (
                WorkerState { consecutive_errors: errors, nowork_probes: 0, ..st },
                if errors >= ERROR_BUDGET {
                    WorkerAction::Stop { failed: true }
                } else {
                    WorkerAction::Wait {
                        ms: backoff_delay(cfg.backoff_409.base_ms, cfg.backoff_409.max_ms, errors),
                    }
                },
            )
        },
        _ => (
            WorkerState { consecutive_overlaps: 0, consecutive_errors: 0, nowork_probes: 0 },
            WorkerAction::Continue,
        ),
    }
}

/// Decide what a worker does after an iteration: wait and re-probe a board
/// whose issues are all leased (a bounded number of times), stop on a dry
/// board, back off (exponential, clamped) on contention — recording the
/// backoff in the ledger — and on errors, stopping after [`ERROR_BUDGET`] in
/// a row.
pub fn next_action(
    st: &mut WorkerState,
    outcome: &IterationOutcome,
    cfg: &Config,
    ledger: &mut Ledger,
    worker: &str,
) -> (a: WorkerAction)
    requires
        old(ledger).wf(),
    ensures
        (*final(st), a) == worker_step(*old(st), *outcome, *cfg),
        outcome is Error ==> final(st).consecutive_errors == sat_inc(old(st).consecutive_errors)
            && final(st).nowork_probes == 0,
        outcome is Error && final(st).consecutive_errors >= ERROR_BUDGET ==> a == (WorkerAction::Stop {
            failed: true,
        }),
        outcome is Error && final(st).consecutive_errors < ERROR_BUDGET ==> a == (WorkerAction::Wait {
            ms: backoff_delay(cfg.backoff_409.base_ms, cfg.backoff_409.max_ms, final(st).consecutive_errors),
        }),
        outcome matches IterationOutcome::NoWork { retry_after } ==> match retry_after {
            Some(secs) => if old(st).nowork_probes < NOWORK_PROBES {
                a == (WorkerAction::Wait {
                    ms: ((if *secs < NOWORK_WAIT_CAP_SECS { *secs } else { NOWORK_WAIT_CAP_SECS }) * 1000) as u64,
                })
                    && final(st).nowork_probes == old(st).nowork_probes + 1
            } else {
                a == (WorkerAction::Stop { failed: false })
            },
            None => a == (WorkerAction::Stop { failed: false }),
        },
        (outcome is Completed || outcome is Deadend) ==> a == WorkerAction::Continue && final(st).consecutive_errors
            == 0 && final(st).consecutive_overlaps == 0 && final(st).nowork_probes == 0,
        outcome is ReleasedOverlap ==> final(st).consecutive_errors == 0 && final(st).consecutive_overlaps
            == sat_inc(old(st).consecutive_overlaps),
        outcome is ReleasedOverlap ==> a == (WorkerAction::Wait {
            ms: backoff_delay(cfg.backoff_409.base_ms, cfg.backoff_409.max_ms, old(st).consecutive_overlaps),
        }),
        outcome is ReleasedOverlap ==> events_added(*old(ledger), *final(ledger), seq!["retry_budget"@]),
        !(outcome is ReleasedOverlap) ==> *final(ledger) == *old(ledger),
{
    match outcome {
        IterationOutcome::NoWork { retry_after } => match retry_after {
            Some(secs) => {
                if st.nowork_probes < NOWORK_PROBES {
                    st.nowork_probes = st.nowork_probes + 1;
                    let capped: u64 = if *secs < NOWORK_WAIT_CAP_SECS {
                        *secs
                    } else {
                        NOWORK_WAIT_CAP_SECS
                    };
                    WorkerAction::Wait { ms: capped * 1000 }
                } else {
                    WorkerAction::Stop { failed: false }
                }
            },
            None => WorkerAction::Stop { failed: false },
        },
        IterationOutcome::ReleasedOverlap => {
            let delay = cfg.backoff_delay_ms(st.consecutive_overlaps);
            st.consecutive_overlaps = st.consecutive_overlaps.saturating_add(1);
            st.consecutive_errors = 0;
            st.nowork_probes = 0;
            let mut m: Vec<(String, Json)> = Vec::new();
            insert_member(&mut m, str_of("backoff_ms"), Json::uint(delay));
            insert_member(&mut m, str_of("worker"), Json::string(worker));
            log_event(ledger, "retry_budget", Json::Object(m));
            WorkerAction::Wait { ms: delay }
        },
        IterationOutcome::Error(_) => {
            st.consecutive_errors = st.consecutive_errors.saturating_add(1);
            st.nowork_probes = 0;
            if st.consecutive_errors >= ERROR_BUDGET {
                WorkerAction::Stop { failed: true }
            } else {
                WorkerAction::Wait { ms: cfg.backoff_delay_ms(st.consecutive_errors) }
            }
        },
        _ => {
            st.consecutive_overlaps = 0;
            st.consecutive_errors = 0;
            st.nowork_probes = 0;
            WorkerAction::Continue
        },
    }
}


// ── laws ────────────────────────────────────────────────────────────────────

proof fn lemma_dec_len(n: nat)
    ensures
        dec(n).len() >= 1,
        n >= 10 ==> dec(n).len() >= 2,
    decreases n,
{
    if n >= 10 {
        lemma_dec_len(n / 10);
    }
}

proof fn lemma_dec_injective(a: nat, b: nat)
    requires
        dec(a) == dec(b),
    ensures
        a == b,
    decreases a,
{
    lemma_dec_len(a);
    lemma_dec_len(b);
    if a < 10 && b < 10 {
        assert(dec(a)[0] == dec(b)[0]);
        assert(crate::text::digit_char(a) as u32 == 48 + a);
        assert(crate::text::digit_char(b) as u32 == 48 + b);
        assert(dec(a) == seq![crate::text::digit_char(a)]);
        assert(dec(b) == seq![crate::text::digit_char(b)]);
        assert(dec(a)[0] == crate::text::digit_char(a));
        assert(dec(b)[0] == crate::text::digit_char(b));
        assert(crate::text::digit_char(a) == crate::text::digit_char(b));
        assert(a == b);
    } else if a >= 10 && b >= 10 {
        assert(dec(a).last() == dec(b).last());
        assert(dec(a) == dec(a / 10).push(crate::text::digit_char(a % 10)));
        assert(dec(b) == dec(b / 10).push(crate::text::digit_char(b % 10)));
        assert(dec(a).last() == crate::text::digit_char(a % 10));
        assert(dec(b).last() == crate::text::digit_char(b % 10));
        assert(crate::text::digit_char(a % 10) as u32 == 48 + a % 10);
        assert(crate::text::digit_char(b % 10) as u32 == 48 + b % 10);
        assert(dec(a).drop_last() == dec(b).drop_last());
        assert(dec(a / 10) =~= dec(a).drop_last());
        assert(dec(b / 10) =~= dec(b).drop_last());
        lemma_dec_injective(a / 10, b / 10);
        assert(a % 10 == b % 10);
        assert(a == 10 * (a / 10) + a % 10);
        assert(b == 10 * (b / 10) + b % 10);
    } else {
        assert(dec(a).len() != dec(b).len());
    }
}

/// Worker names are unique, past the named roster too: no two workers
/// share an agent identity in claims, heartbeats and releases.
pub proof fn law_tree_names_unique(i: nat, j: nat)
    requires
        i != j,
    ensures
        tree_name(i) != tree_name(j),
{
    reveal_strlit("sirius/");
    reveal_strlit("tree");
    reveal_strlit("oak");
    reveal_strlit("rowan");
    reveal_strlit("birch");
    reveal_strlit("ash");
    reveal_strlit("elm");
    reveal_strlit("cedar");
    reveal_strlit("maple");
    reveal_strlit("pine");
    let r = roster();
    if i < 8 && j < 8 {
        assert(tree_name(i)[7] != tree_name(j)[7] || tree_name(i).len() != tree_name(j).len()
            || tree_name(i)[8] != tree_name(j)[8]);
    } else if i < 8 || j < 8 {
        let k = if i < 8 { i } else { j };
        assert(tree_name(k)[7] != 't');
        if i < 8 {
            assert(tree_name(j)[7] == 't');
        } else {
            assert(tree_name(i)[7] == 't');
        }
    } else {
        if tree_name(i) == tree_name(j) {
            assert(tree_name(i).skip(11) =~= dec(i + 1));
            assert(tree_name(j).skip(11) =~= dec(j + 1));
            lemma_dec_injective(i + 1, j + 1);
        }
    }
}

/// Consecutive errors count up; the worker stops — marked failed — exactly
/// at the [`ERROR_BUDGET`]th, and backs off before that.
pub proof fn law_errors_stop_at_budget(st: WorkerState, cfg: Config, e: String)
    requires
        st.consecutive_errors < ERROR_BUDGET,
    ensures
        ({
            let (s2, a) = worker_step(st, IterationOutcome::Error(e), cfg);
            &&& s2.consecutive_errors == st.consecutive_errors + 1
            &&& (a is Stop <==> s2.consecutive_errors == ERROR_BUDGET)
            &&& a is Stop ==> a->failed
            &&& !(a is Stop) ==> a is Wait
        }),
{
}

/// After an error below the budget the worker waits the clamped exponential
/// backoff for its new error count: at least the smaller of the base and the
/// cap, never more than the cap, and never less than after the error before
/// it; a persistent error never spins the loop hot.
pub proof fn law_error_backs_off(st: WorkerState, cfg: Config, e: String, e2: String)
    requires
        st.consecutive_errors + 2 < ERROR_BUDGET,
    ensures
        ({
            let (s2, a) = worker_step(st, IterationOutcome::Error(e), cfg);
            let (s3, a2) = worker_step(s2, IterationOutcome::Error(e2), cfg);
            let base = cfg.backoff_409.base_ms;
            let max = cfg.backoff_409.max_ms;
            &&& a == (WorkerAction::Wait { ms: backoff_delay(base, max, (st.consecutive_errors + 1) as u32) })
            &&& a->ms >= vstd::math::min(base as int, max as int)
            &&& a->ms <= max
            &&& a2 is Wait
            &&& a->ms <= a2->ms
        }),
{
    let base = cfg.backoff_409.base_ms;
    let max = cfg.backoff_409.max_ms;
    let n1 = (st.consecutive_errors + 1) as u32;
    let n2 = (st.consecutive_errors + 2) as u32;
    crate::config::law_backoff_floor(base, max, n1);
    crate::config::law_backoff_clamped(base, max, n1);
    crate::config::law_backoff_monotone(base, max, n1, n2);
}

/// Progress (a completed or deadended iteration) resets every counter.
pub proof fn law_progress_resets(st: WorkerState, cfg: Config)
    ensures
        worker_step(st, IterationOutcome::Completed, cfg) == (
            WorkerState { consecutive_overlaps: 0, consecutive_errors: 0, nowork_probes: 0 },
            WorkerAction::Continue,
        ),
        worker_step(st, IterationOutcome::Deadend, cfg) == (
            WorkerState { consecutive_overlaps: 0, consecutive_errors: 0, nowork_probes: 0 },
            WorkerAction::Continue,
        ),
{
}

/// A dry board stops the worker (not as a failure); a leased board is
/// re-probed at most [`NOWORK_PROBES`] times in a row, each wait capped at
/// [`NOWORK_WAIT_CAP_SECS`].
pub proof fn law_no_work_is_bounded(st: WorkerState, cfg: Config, retry_after: Option<u64>)
    ensures
        ({
            let (s2, a) = worker_step(st, IterationOutcome::NoWork { retry_after }, cfg);
            &&& (retry_after is None || st.nowork_probes >= NOWORK_PROBES) ==> a == WorkerAction::Stop {
                failed: false,
            }
            &&& a matches WorkerAction::Wait { ms } ==> ms <= NOWORK_WAIT_CAP_SECS * 1000
                && s2.nowork_probes == st.nowork_probes + 1 && s2.nowork_probes <= NOWORK_PROBES
        }),
{
}

} // verus!
