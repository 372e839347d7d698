//! The Loop — `sirius run`, with adaptive claiming.
//!
//! Claim order is LAW: Ametrite issue first, Hayvenhurst entities second;
//! release in reverse. On an entity-claim 409, release the issue back with a
//! comment naming the blocker — never hold an issue while spinning on a lock.
//!
//! Emits iteration events (one JSON object each, printed as NDJSON by the
//! binary). Writes one ledger `iterations` row per pass.
use vstd::prelude::*;
use crate::amt::{amt_unit, opt_str, release_argv, Amt};
use crate::config::{ClaimMode, Config, Oracle202};
use crate::hayven::{claim_argv, hv_unit, hv_verdict, ClaimVerdict, Hayven, VerdictView};
use crate::json::{as_str, get, get_str, insert_member, lookup, Json};
use crate::ledger::{
    capped_count, count_kind, events_added, iter_retries, lemma_events_added_none,
    lemma_events_added_kept, lemma_events_added_trans, lemma_plain_kept, lemma_retries_kept_trans, lemma_plain_same, lemma_plain_trans, lemma_retries_kept,
    log_event, plain_appended, IterationRow, Ledger,
};
use crate::shell::{all_run, one_call, Call, OutView, Runner};
use crate::text::{dec, push_str, str_of, string_views};

verus! {

// ── events ──────────────────────────────────────────────────────────────────

/// The phases of an iteration, as used in event `phase` fields.
pub open spec fn phases() -> Seq<Seq<char>> {
    seq!["claim"@, "map"@, "lock"@, "brief"@, "work"@, "gate"@, "receipt"@, "release"@]
}

/// The keys every iteration event carries itself.
pub open spec fn base_key(k: Seq<char>) -> bool {
    k == "event"@ || k == "worker"@ || k == "phase"@ || k == "issue"@
}

/// An iteration event: `{"event":"iteration","worker":..,"phase":..}` plus
/// `"issue"` when there is one, with the members of `extra` set over them.
pub open spec fn event_is(
    j: Json,
    worker: Seq<char>,
    issue: Option<Seq<char>>,
    phase: Seq<char>,
    extra: Seq<(String, Json)>,
) -> bool {
    &&& j is Object
    &&& forall|k: Seq<char>| #[trigger] lookup(extra, k) is Some ==> get(j, k) == lookup(extra, k)
    &&& lookup(extra, "event"@) is None ==> get_str(j, "event"@) == Some("iteration"@)
    &&& lookup(extra, "worker"@) is None ==> get_str(j, "worker"@) == Some(worker)
    &&& lookup(extra, "phase"@) is None ==> get_str(j, "phase"@) == Some(phase)
    &&& lookup(extra, "issue"@) is None ==> get_str(j, "issue"@) == issue && (issue is None ==> get(
        j,
        "issue"@,
    ) is None)
    &&& forall|k: Seq<char>|
        !base_key(k) && (#[trigger] lookup(extra, k)) is None ==> get(j, k) is None
}

/// None of the members of `extra` sets a key an event carries itself.
pub open spec fn plain_extra(extra: Seq<(String, Json)>) -> bool {
    forall|i: int| 0 <= i < extra.len() ==> !base_key(#[trigger] extra[i].0@)
}

/// The phase an event names.
pub open spec fn phase_of(e: Json) -> Option<Seq<char>> {
    get_str(e, "phase"@)
}

/// An iteration event of `worker` about `issue` (if any): `"event":"iteration"`,
/// the worker, the issue, and a phase of an iteration.
pub open spec fn iteration_event(e: Json, worker: Seq<char>, issue: Option<Seq<char>>) -> bool {
    &&& get_str(e, "event"@) == Some("iteration"@)
    &&& get_str(e, "worker"@) == Some(worker)
    &&& get_str(e, "issue"@) == issue
    &&& phase_of(e) matches Some(p) && phases().contains(p)
}

/// `after` is `before` with iteration events of `worker` about `issue`
/// appended.
#[verifier::opaque]
pub open spec fn phased(
    before: Seq<Json>,
    after: Seq<Json>,
    worker: Seq<char>,
    issue: Option<Seq<char>>,
) -> bool {
    &&& after.len() >= before.len()
    &&& after.take(before.len() as int) == before
    &&& forall|i: int|
        before.len() <= i < after.len() ==> iteration_event(#[trigger] after[i], worker, issue)
}

proof fn lemma_plain_lookup(extra: Seq<(String, Json)>, k: Seq<char>)
    requires
        plain_extra(extra),
        base_key(k),
    ensures
        lookup(extra, k) is None,
    decreases extra.len(),
{
    if extra.len() > 0 {
        assert(!base_key(extra[0].0@));
        assert forall|i: int| 0 <= i < extra.skip(1).len() implies !base_key(
            #[trigger] extra.skip(1)[i].0@,
        ) by {
            assert(extra.skip(1)[i] == extra[i + 1]);
        }
        lemma_plain_lookup(extra.skip(1), k);
    }
}

proof fn lemma_phased_same(out: Seq<Json>, worker: Seq<char>, issue: Option<Seq<char>>)
    ensures
        phased(out, out, worker, issue),
{
    reveal(phased);
    assert(out.take(out.len() as int) =~= out);
}

proof fn lemma_phased_trans(
    a: Seq<Json>,
    b: Seq<Json>,
    c: Seq<Json>,
    worker: Seq<char>,
    issue: Option<Seq<char>>,
)
    requires
        phased(a, b, worker, issue),
        phased(b, c, worker, issue),
    ensures
        phased(a, c, worker, issue),
{
    reveal(phased);
    assert(c.take(a.len() as int) =~= c.take(b.len() as int).take(a.len() as int));
    assert forall|i: int| a.len() <= i < c.len() implies iteration_event(#[trigger] c[i], worker, issue) by {
        if i < b.len() {
            assert(c[i] == c.take(b.len() as int)[i]);
        }
    }
}

/// A release event: phase `release`, saying whether the issue advanced.
pub open spec fn release_event(e: Json, advanced: bool) -> bool {
    &&& phase_of(e) == Some("release"@)
    &&& get(e, "advanced"@) == Some(Json::Bool(advanced))
}

/// The event at `at` is the claim event, saying whether an issue was claimed.
pub open spec fn claim_event(out: Seq<Json>, at: int, claimed: bool) -> bool {
    &&& 0 <= at < out.len()
    &&& phase_of(out[at]) == Some("claim"@)
    &&& get(out[at], "claimed"@) == Some(Json::Bool(claimed))
}

/// The second of two members, under another key than the first.
proof fn lemma_lookup_second(extra: Seq<(String, Json)>, k: Seq<char>)
    requires
        extra.len() >= 2,
        extra[0].0@ != k,
        extra[1].0@ == k,
    ensures
        lookup(extra, k) == Some(extra[1].1),
{
    reveal_with_fuel(lookup, 2);
    assert(extra.skip(1)[0] == extra[1]);
    assert(extra.skip(1).len() >= 1);
}

/// The payload keys of the release events are distinct.
proof fn lemma_payload_words()
    ensures
        "reason"@ != "blocker"@,
        "reason"@ != "detail"@,
        "status"@ != "advanced"@,
        "reason"@ != "advanced"@,
        "agent_ok"@ != "timed_out"@,
{
    reveal_strlit("status");
    reveal_strlit("reason");
    reveal_strlit("advanced");
    reveal_strlit("agent_ok");
    reveal_strlit("timed_out");
    reveal_strlit("blocker");
    reveal_strlit("detail");
    assert("reason"@[0] != "blocker"@[0]);
    assert("reason"@[0] != "detail"@[0]);
    assert("status"@[0] != "advanced"@[0]);
    assert("reason"@[0] != "advanced"@[0]);
    assert("agent_ok"@[0] != "timed_out"@[0]);
}

/// Some event from index `from` on carries the member `key` with `val`.
pub open spec fn has_event(out: Seq<Json>, from: int, key: Seq<char>, val: Json) -> bool {
    exists|i: int| 0 <= i && from <= i < out.len() && #[trigger] get(out[i], key) == Some(val)
}

/// An event stays seen when more events follow it, and from an earlier index.
proof fn lemma_has_event_extend(
    o1: Seq<Json>,
    o2: Seq<Json>,
    from1: int,
    from0: int,
    key: Seq<char>,
    val: Json,
)
    requires
        has_event(o1, from1, key, val),
        from0 <= from1,
        o2.len() >= o1.len(),
        o2.take(o1.len() as int) == o1,
    ensures
        has_event(o2, from0, key, val),
{
    let i = choose|i: int| 0 <= i && from1 <= i < o1.len() && #[trigger] get(o1[i], key) == Some(val);
    assert(o2[i] == o2.take(o1.len() as int)[i]);
    assert(get(o2[i], key) == Some(val));
}

/// The same, across events of an iteration.
proof fn lemma_has_event_phased(
    o1: Seq<Json>,
    o2: Seq<Json>,
    from1: int,
    from0: int,
    key: Seq<char>,
    val: Json,
    worker: Seq<char>,
    issue: Option<Seq<char>>,
)
    requires
        has_event(o1, from1, key, val),
        from0 <= from1,
        phased(o1, o2, worker, issue),
    ensures
        has_event(o2, from0, key, val),
{
    reveal(phased);
    lemma_has_event_extend(o1, o2, from1, from0, key, val);
}

/// Emit an event of a phase of an iteration, its extra members plain.
fn emit(out: &mut Vec<Json>, worker: &str, issue: Option<&str>, phase: &str, extra: Vec<(String, Json)>)
    requires
        plain_extra(extra@),
        phases().contains(phase@),
    ensures
        phased(old(out)@, final(out)@, worker@, opt_str(issue)),
        final(out)@.len() == old(out)@.len() + 1,
        final(out)@.drop_last() == old(out)@,
        phase_of(final(out)@.last()) == Some(phase@),
        forall|k: Seq<char>| #[trigger] lookup(extra@, k) is Some ==> get(final(out)@.last(), k) == lookup(extra@, k),
{
    let ghost o0 = out@;
    emit_event(out, worker, issue, phase, extra);
    proof {
        reveal(phased);
        assert(out@.take(o0.len() as int) =~= o0);
        assert forall|i: int| o0.len() <= i < out@.len() implies iteration_event(
            #[trigger] out@[i],
            worker@,
            opt_str(issue),
        ) by {
            assert(i == o0.len());
        }
    }
}

/// The phase words are phases, and the event keys used here are plain.
proof fn lemma_event_words()
    ensures
        phases().contains("claim"@),
        phases().contains("map"@),
        phases().contains("lock"@),
        phases().contains("brief"@),
        phases().contains("work"@),
        phases().contains("gate"@),
        phases().contains("receipt"@),
        phases().contains("release"@),
        !base_key("advanced"@),
        !base_key("agent_ok"@),
        !base_key("attempt"@),
        !base_key("blast_radius"@),
        !base_key("blocker"@),
        !base_key("claimed"@),
        !base_key("context_packs"@),
        !base_key("detail"@),
        !base_key("entities"@),
        !base_key("error"@),
        !base_key("exit"@),
        !base_key("locked"@),
        !base_key("max_attempts"@),
        !base_key("plan"@),
        !base_key("reason"@),
        !base_key("receipt_id"@),
        !base_key("result"@),
        !base_key("retry_after"@),
        !base_key("retrying"@),
        !base_key("status"@),
        !base_key("tests_run"@),
        !base_key("timed_out"@),
        !base_key("title"@),
{
    assert(phases()[0] == "claim"@);
    assert(phases()[1] == "map"@);
    assert(phases()[2] == "lock"@);
    assert(phases()[3] == "brief"@);
    assert(phases()[4] == "work"@);
    assert(phases()[5] == "gate"@);
    assert(phases()[6] == "receipt"@);
    assert(phases()[7] == "release"@);
    reveal_strlit("event");
    reveal_strlit("worker");
    reveal_strlit("phase");
    reveal_strlit("issue");
    reveal_strlit("advanced");
    reveal_strlit("agent_ok");
    reveal_strlit("attempt");
    reveal_strlit("blast_radius");
    reveal_strlit("blocker");
    reveal_strlit("claimed");
    reveal_strlit("context_packs");
    reveal_strlit("detail");
    reveal_strlit("entities");
    reveal_strlit("error");
    reveal_strlit("exit");
    reveal_strlit("locked");
    reveal_strlit("max_attempts");
    reveal_strlit("plan");
    reveal_strlit("reason");
    reveal_strlit("receipt_id");
    reveal_strlit("result");
    reveal_strlit("retry_after");
    reveal_strlit("retrying");
    reveal_strlit("status");
    reveal_strlit("tests_run");
    reveal_strlit("timed_out");
    reveal_strlit("title");
    assert("plan"@.len() == 4 && "exit"@.len() == 4);
    assert("error"@[1] != "event"@[1]);
    assert("detail"@[0] != "worker"@[0]);
    assert("locked"@[0] != "worker"@[0]);
    assert("reason"@[0] != "worker"@[0]);
    assert("result"@[0] != "worker"@[0]);
    assert("status"@[0] != "worker"@[0]);
    assert("title"@[0] != "event"@[0] && "title"@[0] != "phase"@[0] && "title"@[0] != "issue"@[0]);
    assert("error"@[0] != "phase"@[0] && "error"@[0] != "issue"@[0]);
}

/// Emit one iteration event to `out`.
pub fn emit_event(
    out: &mut Vec<Json>,
    worker: &str,
    issue: Option<&str>,
    phase: &str,
    extra: Vec<(String, Json)>,
)
    ensures
        final(out)@.len() == old(out)@.len() + 1,
        final(out)@.drop_last() == old(out)@,
        event_is(final(out)@.last(), worker@, opt_str(issue), phase@, extra@),
        plain_extra(extra@) ==> phase_of(final(out)@.last()) == Some(phase@),
        plain_extra(extra@) ==> get_str(final(out)@.last(), "event"@) == Some("iteration"@),
        plain_extra(extra@) ==> get_str(final(out)@.last(), "worker"@) == Some(worker@),
        plain_extra(extra@) ==> get_str(final(out)@.last(), "issue"@) == opt_str(issue),
{
    proof {
        reveal_strlit("event");
        reveal_strlit("worker");
        reveal_strlit("phase");
        reveal_strlit("issue");
        reveal_strlit("iteration");
        assert("event"@.len() == 5 && "worker"@.len() == 6 && "phase"@.len() == 5);
        assert("issue"@.len() == 5 && "event"@[0] != "phase"@[0] && "event"@[0] != "issue"@[0]);
        assert("phase"@[0] != "issue"@[0]);
    }
    let ghost ex = extra@;
    let mut m: Vec<(String, Json)> = Vec::new();
    let j1 = Json::string("iteration");
    let ghost g1 = j1;
    insert_member(&mut m, str_of("event"), j1);
    let j2 = Json::string(worker);
    let ghost g2 = j2;
    insert_member(&mut m, str_of("worker"), j2);
    let j3 = Json::string(phase);
    let ghost g3 = j3;
    insert_member(&mut m, str_of("phase"), j3);
    assert(lookup(m@, "event"@) == Some(g1));
    assert(lookup(m@, "worker"@) == Some(g2));
    let ghost mut g4: Option<Json> = None;
    match issue {
        Some(i) => {
            let j4 = Json::string(i);
            proof {
                g4 = Some(j4);
            }
            insert_member(&mut m, str_of("issue"), j4);
        },
        None => {},
    }
    let ghost base = m@;
    assert(lookup(base, "event"@) == Some(g1));
    assert(lookup(base, "worker"@) == Some(g2));
    assert(lookup(base, "phase"@) == Some(g3));
    assert(lookup(base, "issue"@) == g4);
    assert forall|k: Seq<char>| !base_key(k) implies lookup(base, k) is None by {
        assert(lookup(Seq::<(String, Json)>::empty(), k) is None);
    }
    let mut extra = extra;
    let mut i: usize = extra.len();
    assert(ex.skip(ex.len() as int) =~= Seq::<(String, Json)>::empty());
    assert(extra@ =~= ex.take(i as int));
    while i > 0
        invariant
            i <= ex.len(),
            extra@ == ex.take(i as int),
            forall|k: Seq<char>|
                #[trigger] lookup(m@, k) == if lookup(ex.skip(i as int), k) is Some {
                    lookup(ex.skip(i as int), k)
                } else {
                    lookup(base, k)
                },
        decreases i,
    {
        let ghost m0 = m@;
        let (k, v) = match extra.pop() {
            Some(kv) => kv,
            None => {
                return;
            },
        };
        insert_member(&mut m, k, v);
        i = i - 1;
        proof {
            assert(ex.skip(i as int).skip(1) =~= ex.skip(i + 1));
            assert(ex.skip(i as int)[0] == ex[i as int]);
            assert(extra@ =~= ex.take(i as int));
            assert forall|kk: Seq<char>| #[trigger] lookup(m@, kk) == if lookup(ex.skip(i as int), kk) is Some {
                lookup(ex.skip(i as int), kk)
            } else {
                lookup(base, kk)
            } by {
                if kk != ex[i as int].0@ {
                    assert(lookup(m@, kk) == lookup(m0, kk));
                }
            }
        }
    }
    assert(ex.skip(0) =~= ex);
    let ev = Json::Object(m);
    out.push(ev);
    proof {
        if plain_extra(ex) {
            lemma_plain_lookup(ex, "phase"@);
            lemma_plain_lookup(ex, "event"@);
            lemma_plain_lookup(ex, "worker"@);
            lemma_plain_lookup(ex, "issue"@);
        }
    }
}


// ── adaptive claiming ───────────────────────────────────────────────────────

/// The decision an adaptive claimer makes for an iteration.
#[derive(Debug, Clone, Copy, PartialEq, Eq, Structural)]
pub enum ClaimDecision {
    /// Pre-emptively claim entities before work.
    PreClaim,
    /// Skip pre-claiming; rely on the test gate.
    RelyOnGate,
}

impl ClaimDecision {
    /// The `{:?}` rendering of the decision.
    pub fn debug_name(&self) -> (s: &'static str)
        ensures
            s@ == (match *self {
                ClaimDecision::PreClaim => "PreClaim"@,
                ClaimDecision::RelyOnGate => "RelyOnGate"@,
            }),
    {
        match self {
            ClaimDecision::PreClaim => "PreClaim",
            ClaimDecision::RelyOnGate => "RelyOnGate",
        }
    }
}

/// Contention threshold: this many recent 409s in the sampled window flips
/// adaptive mode from RelyOnGate to PreClaim.
pub const ADAPTIVE_409_THRESHOLD: i64 = 2;

pub const ADAPTIVE_WINDOW: i64 = 20;

/// The recent 409s an adaptive claimer reads: `backoff_409` events, capped at
/// the window.
pub open spec fn recent_409(l: Ledger) -> int {
    capped_count(count_kind(l.policy_events@, "backoff_409"@), ADAPTIVE_WINDOW)
}

pub open spec fn decision_spec(mode: ClaimMode, l: Ledger) -> ClaimDecision {
    match mode {
        ClaimMode::Always => ClaimDecision::PreClaim,
        ClaimMode::Never => ClaimDecision::RelyOnGate,
        ClaimMode::Adaptive => if recent_409(l) >= ADAPTIVE_409_THRESHOLD {
            ClaimDecision::PreClaim
        } else {
            ClaimDecision::RelyOnGate
        },
    }
}

/// The entities an iteration holds while its agent runs (and renews in each
/// heartbeat round): the mapped entities when it pre-claims them, else none.
pub open spec fn held_spec(config: Config, l: Ledger, ents: Seq<Seq<char>>) -> Seq<Seq<char>> {
    if config.claim_order_enforced && decision_spec(config.claim_mode, l) == ClaimDecision::PreClaim
        && ents.len() > 0 {
        ents
    } else {
        seq![]
    }
}

/// The `{:?}` name of a claim mode.
pub open spec fn mode_name(m: ClaimMode) -> Seq<char> {
    match m {
        ClaimMode::Always => "Always"@,
        ClaimMode::Never => "Never"@,
        ClaimMode::Adaptive => "Adaptive"@,
    }
}

/// The `{:?}` name of a claim decision.
pub open spec fn decision_name(d: ClaimDecision) -> Seq<char> {
    match d {
        ClaimDecision::PreClaim => "PreClaim"@,
        ClaimDecision::RelyOnGate => "RelyOnGate"@,
    }
}

/// Past the events `l0` held, the ledger `l1` holds the concurrency event of
/// iteration `iter_id`, naming the claim mode and the decision taken — when
/// that iteration is a row of `l1` and the event log never ran out of ids.
pub open spec fn concurrency_logged(
    l0: Ledger,
    l1: Ledger,
    iter_id: i64,
    mode: Seq<char>,
    decision: Seq<char>,
) -> bool {
    (1 <= iter_id <= l1.iterations@.len() && l1.policy_events@.len() < i64::MAX) ==> exists|j: int|
        l0.policy_events@.len() <= j < l1.policy_events@.len() && (#[trigger] l1.policy_events@[j]).kind@
            == "concurrency"@ && l1.policy_events@[j].iteration_id == Some(iter_id) && get_str(
            l1.policy_events@[j].detail,
            "claim_mode"@,
        ) == Some(mode) && get_str(l1.policy_events@[j].detail, "decision"@) == Some(decision)
}

/// Decide whether to pre-claim entities for this iteration.
pub fn claim_decision(mode: ClaimMode, ledger: &Ledger) -> (d: ClaimDecision)
    ensures
        d == decision_spec(mode, *ledger),
{
    match mode {
        ClaimMode::Always => ClaimDecision::PreClaim,
        ClaimMode::Never => ClaimDecision::RelyOnGate,
        ClaimMode::Adaptive => {
            let recent: i64 = match ledger.count_policy_events("backoff_409", ADAPTIVE_WINDOW) {
                Ok(n) => n,
                Err(_) => 0,
            };
            if recent >= ADAPTIVE_409_THRESHOLD {
                ClaimDecision::PreClaim
            } else {
                ClaimDecision::RelyOnGate
            }
        },
    }
}

/// Extract the issue id from an `amt claim` success object.
pub fn issue_id(v: &Json) -> (r: Option<String>)
    ensures
        match r {
            Some(s) => get_str(*v, "id"@) == Some(s@),
            None => get_str(*v, "id"@) is None,
        },
{
    v.get_string("id")
}

/// The issue title, or empty.
pub open spec fn title_spec(v: Json) -> Seq<char> {
    match get_str(v, "title"@) {
        Some(t) => t,
        None => seq![],
    }
}

/// Extract the issue title.
pub fn issue_title(v: &Json) -> (r: String)
    ensures
        r@ == title_spec(*v),
{
    match v.get_string("title") {
        Some(t) => t,
        None => String::new(),
    }
}

// ── locking entities ────────────────────────────────────────────────────────

/// Result of trying to lock a set of entities in claim order.
#[derive(Debug)]
pub enum LockResult {
    /// All entities claimed; carry the claim ids to release in reverse, plus
    /// the true per-entity oracle verdict parallel to `claim_ids`: each is
    /// `"registered"` (claimed clean) or `"forced"` (oracle-conflicted, then
    /// forced under [`Oracle202::ForceWithBudget`]).
    Locked { claim_ids: Vec<String>, verdicts: Vec<String> },
    /// Hard overlap on an entity — the issue must be released. Names blocker.
    Overlap {
        blocker: String,
        /// Already-acquired claim ids that must be released (reverse order).
        acquired: Vec<String>,
    },
    /// Soft oracle conflict handled per policy.
    OracleBackoff { detail: String, acquired: Vec<String> },
}

pub enum LockView {
    Locked(Seq<Seq<char>>, Seq<Seq<char>>),
    Overlap(Seq<char>, Seq<Seq<char>>),
    OracleBackoff(Seq<char>, Seq<Seq<char>>),
}

impl View for LockResult {
    type V = LockView;

    open spec fn view(&self) -> LockView {
        match *self {
            LockResult::Locked { claim_ids, verdicts } => LockView::Locked(
                string_views(claim_ids@),
                string_views(verdicts@),
            ),
            LockResult::Overlap { blocker, acquired } => LockView::Overlap(
                blocker@,
                string_views(acquired@),
            ),
            LockResult::OracleBackoff { detail, acquired } => LockView::OracleBackoff(
                detail@,
                string_views(acquired@),
            ),
        }
    }
}

/// What `format!("{:?}", s)` gives for a string: it quoted, with Rust's
/// escapes.
pub uninterp spec fn debug_str(s: Seq<char>) -> Seq<char>;

/// `format!("{:?}", s)` on a `&str`.
#[verifier::external_body]
fn debug_quoted(s: &str) -> (r: String)
    ensures
        r@ == debug_str(s@),
{
    format!("{:?}", s)
}

/// The `{:?}` rendering of a claim verdict.
pub open spec fn verdict_debug(v: VerdictView) -> Seq<char> {
    match v {
        VerdictView::Registered(Some(id)) => "Registered { claim_id: Some("@ + debug_str(id) + ") }"@,
        VerdictView::Registered(None) => "Registered { claim_id: None }"@,
        VerdictView::Overlap(d) => "Overlap { detail: "@ + debug_str(d) + " }"@,
        VerdictView::OracleConflict(d) => "OracleConflict { detail: "@ + debug_str(d) + " }"@,
        VerdictView::Error(d) => "Error { detail: "@ + debug_str(d) + " }"@,
    }
}

fn verdict_debug_exec(v: &ClaimVerdict) -> (r: String)
    ensures
        r@ == verdict_debug(v@),
{
    match v {
        ClaimVerdict::Registered { claim_id } => match claim_id {
            Some(id) => {
                let mut r = str_of("Registered { claim_id: Some(");
                let q = debug_quoted(id.as_str());
                push_str(&mut r, q.as_str());
                push_str(&mut r, ") }");
                r
            },
            None => str_of("Registered { claim_id: None }"),
        },
        ClaimVerdict::Overlap { detail } => {
            let mut r = str_of("Overlap { detail: ");
            let q = debug_quoted(detail.as_str());
            push_str(&mut r, q.as_str());
            push_str(&mut r, " }");
            r
        },
        ClaimVerdict::OracleConflict { detail } => {
            let mut r = str_of("OracleConflict { detail: ");
            let q = debug_quoted(detail.as_str());
            push_str(&mut r, q.as_str());
            push_str(&mut r, " }");
            r
        },
        ClaimVerdict::Error { detail } => {
            let mut r = str_of("Error { detail: ");
            let q = debug_quoted(detail.as_str());
            push_str(&mut r, q.as_str());
            push_str(&mut r, " }");
            r
        },
    }
}

/// What claiming one entity came to: a claim id held (with how it was
/// obtained), a blocker, or a back-off detail.
pub enum StepView {
    Got(Seq<char>, Seq<char>),
    Blocked(Seq<char>),
    Backoff(Seq<char>),
}

/// The step for one entity from its claim calls `seg` (`None` when `seg` is
/// not the calls that step makes), with the policy-event kinds it logs.
pub open spec fn claim_step(
    seg: Seq<Call>,
    ent: Seq<char>,
    intent: Seq<char>,
    policy: Oracle202,
) -> Option<(StepView, Seq<Seq<char>>)> {
    if seg.len() == 0 || seg[0].argv != claim_argv(seq![ent], intent, false) {
        None
    } else {
        match hv_verdict(seg[0].out) {
            VerdictView::Registered(Some(id)) => if seg.len() == 1 {
                Some((StepView::Got(id, "registered"@), seq![]))
            } else {
                None
            },
            VerdictView::Registered(None) => if seg.len() == 1 {
                Some(
                    (
                        StepView::Blocked(ent + ": claim registered without a claim id"@),
                        seq!["backoff_409"@],
                    ),
                )
            } else {
                None
            },
            VerdictView::Overlap(d) => if seg.len() == 1 {
                Some((StepView::Blocked(ent + ": "@ + d), seq!["backoff_409"@]))
            } else {
                None
            },
            VerdictView::OracleConflict(d) => match policy {
                Oracle202::BackOff => if seg.len() == 1 {
                    Some((StepView::Backoff(d), seq!["oracle_202"@]))
                } else {
                    None
                },
                Oracle202::ForceWithBudget => if seg.len() == 2 && seg[1].argv == claim_argv(
                    seq![ent],
                    intent,
                    true,
                ) {
                    match hv_verdict(seg[1].out) {
                        VerdictView::Registered(Some(id)) => Some(
                            (StepView::Got(id, "forced"@), seq!["oracle_202"@]),
                        ),
                        VerdictView::Registered(None) => Some(
                            (
                                StepView::Blocked(
                                    ent + ": forced claim registered without a claim id"@,
                                ),
                                seq!["oracle_202"@, "backoff_409"@],
                            ),
                        ),
                        other => Some(
                            (
                                StepView::Backoff("force failed: "@ + verdict_debug(other)),
                                seq!["oracle_202"@],
                            ),
                        ),
                    }
                } else {
                    None
                },
            },
            VerdictView::Error(d) => if seg.len() == 1 {
                Some((StepView::Backoff(d), seq![]))
            } else {
                None
            },
        }
    }
}

pub enum Step {
    Got(String, String),
    Blocked(String),
    Backoff(String),
}

impl View for Step {
    type V = StepView;

    open spec fn view(&self) -> StepView {
        match *self {
            Step::Got(id, v) => StepView::Got(id@, v@),
            Step::Blocked(b) => StepView::Blocked(b@),
            Step::Backoff(d) => StepView::Backoff(d@),
        }
    }
}

/// `j` is the string `v` where `v` is some, and absent where it is none.
pub open spec fn str_member(j: Option<Json>, v: Option<Seq<char>>) -> bool {
    match v {
        Some(s) => j matches Some(Json::Str(t)) && t@ == s,
        None => j is None,
    }
}

/// The members of an entity claim's policy-event detail: `issue`, `entity`,
/// and `key` set over them.
pub open spec fn claim_detail_member(
    issue: Seq<char>,
    ent: Seq<char>,
    key: Seq<char>,
    value: Seq<char>,
    k: Seq<char>,
) -> Option<Seq<char>> {
    if k == key {
        Some(value)
    } else if k == "entity"@ {
        Some(ent)
    } else if k == "issue"@ {
        Some(issue)
    } else {
        None
    }
}

/// The detail of an entity claim's policy event: `{"issue", "entity", key}`.
fn claim_detail(issue: &str, ent: &str, key: &str, value: &str) -> (r: Json)
    ensures
        r is Object,
        forall|k: Seq<char>| str_member(#[trigger] get(r, k), claim_detail_member(issue@, ent@, key@, value@, k)),
{
    let mut m: Vec<(String, Json)> = Vec::new();
    let ghost m0 = m@;
    insert_member(&mut m, str_of("issue"), Json::string(issue));
    let ghost m1 = m@;
    insert_member(&mut m, str_of("entity"), Json::string(ent));
    let ghost m2 = m@;
    insert_member(&mut m, str_of(key), Json::string(value));
    let r = Json::Object(m);
    proof {
        assert forall|k: Seq<char>| str_member(#[trigger] get(r, k), claim_detail_member(issue@, ent@, key@, value@, k)) by {
            assert(lookup(m0, k) is None);
        }
    }
    r
}

/// Claim one entity, honoring the oracle-202 policy, and log the policy
/// events the step calls for.
fn claim_one<R: Runner>(
    hv: &Hayven,
    ledger: &mut Ledger,
    runner: &mut R,
    policy: Oracle202,
    issue: &str,
    ent: &String,
    intent: &str,
) -> (st: Step)
    requires
        old(ledger).wf(),
    ensures
        final(runner).calls().len() > old(runner).calls().len(),
        final(runner).calls().take(old(runner).calls().len() as int) == old(runner).calls(),
        all_run(final(runner).calls(), old(runner).calls().len() as int, "hayven"@),
        ({
            let c = claim_step(
                final(runner).calls().skip(old(runner).calls().len() as int),
                ent@,
                intent@,
                policy,
            );
            &&& c is Some
            &&& c.unwrap().0 == st@
            &&& events_added(*old(ledger), *final(ledger), c.unwrap().1)
        }),
{
    let ghost c0 = runner.calls();
    let ghost l0 = *ledger;
    let one = vec![ent.clone()];
    assert(string_views(one@) =~= seq![ent@]) by {
        assert(one@[0]@ == ent@);
    }
    let v = hv.claim(runner, one.as_slice(), intent, false);
    let ghost c1 = runner.calls();
    proof {
        assert(c1.take(c0.len() as int) =~= c0);
        assert(c1.skip(c0.len() as int) =~= seq![c1.last()]);
        lemma_events_added_none(*ledger);
    }
    match v {
        ClaimVerdict::Registered { claim_id } => match claim_id {
            Some(id) => Step::Got(id, str_of("registered")),
            None => {
                log_event(ledger, "backoff_409", claim_detail(issue, ent.as_str(), "detail", "claim registered without a claim id — cannot manage lease"));
                let mut b = str_of(ent.as_str());
                push_str(&mut b, ": claim registered without a claim id");
                Step::Blocked(b)
            },
        },
        ClaimVerdict::Overlap { detail } => {
            log_event(ledger, "backoff_409", claim_detail(issue, ent.as_str(), "detail", detail.as_str()));
            let mut b = str_of(ent.as_str());
            push_str(&mut b, ": ");
            push_str(&mut b, detail.as_str());
            Step::Blocked(b)
        },
        ClaimVerdict::OracleConflict { detail } => {
            log_event(ledger, "oracle_202", claim_detail(issue, ent.as_str(), "policy", policy.debug_name()));
            match policy {
                Oracle202::BackOff => Step::Backoff(detail),
                Oracle202::ForceWithBudget => {
                    let ghost l1 = *ledger;
                    let forced = hv.claim(runner, one.as_slice(), intent, true);
                    proof {
                        let c2 = runner.calls();
                        assert(c2.take(c0.len() as int) =~= c0) by {
                            assert(c2.drop_last() == c1);
                            assert(c2.take(c0.len() as int) =~= c1.take(c0.len() as int));
                        }
                        assert(c2.skip(c0.len() as int) =~= seq![c1.last(), c2.last()]);
                        assert forall|k: int| c0.len() <= k < c2.len() implies (#[trigger] c2[k]).argv.len() > 0
                            && c2[k].argv[0] == "hayven"@ by {
                            if k < c1.len() {
                                assert(c2[k] == c2.drop_last()[k]);
                            }
                        }
                    }
                    match forced {
                        ClaimVerdict::Registered { claim_id: Some(id) } => Step::Got(id, str_of("forced")),
                        ClaimVerdict::Registered { claim_id: None } => {
                            log_event(ledger, "backoff_409", claim_detail(issue, ent.as_str(), "detail", "forced claim registered without a claim id — cannot manage lease"));
                            proof {
                                lemma_events_added_trans(l0, l1, *ledger, seq!["oracle_202"@], seq!["backoff_409"@]);
                                assert(seq!["oracle_202"@] + seq!["backoff_409"@] =~= seq!["oracle_202"@, "backoff_409"@]);
                            }
                            let mut b = str_of(ent.as_str());
                            push_str(&mut b, ": forced claim registered without a claim id");
                            Step::Blocked(b)
                        },
                        other => {
                            let mut d = str_of("force failed: ");
                            let t = verdict_debug_exec(&other);
                            push_str(&mut d, t.as_str());
                            Step::Backoff(d)
                        },
                    }
                },
            }
        },
        ClaimVerdict::Error { detail } => Step::Backoff(detail),
    }
}


/// The step of the `i`th entity under the split `b`.
pub open spec fn step_at(
    seg: Seq<Call>,
    b: Seq<int>,
    ents: Seq<Seq<char>>,
    intent: Seq<char>,
    policy: Oracle202,
    i: int,
) -> (StepView, Seq<Seq<char>>) {
    claim_step(seg.subrange(b[i], b[i + 1]), ents[i], intent, policy).unwrap()
}

pub open spec fn got_id(s: StepView) -> Seq<char> {
    match s {
        StepView::Got(id, _) => id,
        _ => seq![],
    }
}

pub open spec fn got_verdict(s: StepView) -> Seq<char> {
    match s {
        StepView::Got(_, v) => v,
        _ => seq![],
    }
}

/// The claim ids of the first `n` steps.
pub open spec fn ids_upto(
    seg: Seq<Call>,
    b: Seq<int>,
    ents: Seq<Seq<char>>,
    intent: Seq<char>,
    policy: Oracle202,
    n: int,
) -> Seq<Seq<char>> {
    Seq::new(n as nat, |i: int| got_id(step_at(seg, b, ents, intent, policy, i).0))
}

/// How each of the first `n` claims was obtained.
pub open spec fn verdicts_upto(
    seg: Seq<Call>,
    b: Seq<int>,
    ents: Seq<Seq<char>>,
    intent: Seq<char>,
    policy: Oracle202,
    n: int,
) -> Seq<Seq<char>> {
    Seq::new(n as nat, |i: int| got_verdict(step_at(seg, b, ents, intent, policy, i).0))
}

/// The policy-event kinds the first `n` steps log, in order.
pub open spec fn kinds_upto(
    seg: Seq<Call>,
    b: Seq<int>,
    ents: Seq<Seq<char>>,
    intent: Seq<char>,
    policy: Oracle202,
    n: int,
) -> Seq<Seq<char>>
    decreases n,
{
    if n <= 0 {
        seq![]
    } else {
        kinds_upto(seg, b, ents, intent, policy, n - 1) + step_at(seg, b, ents, intent, policy, n - 1).1
    }
}

/// The split `b` cuts `seg` into the claim calls of the first `b.len() - 1`
/// entities, in order; every step but the last got its claim; and `r` is
/// what locking came to: every entity claimed, or the last step's blocker or
/// back-off with the claims acquired before it.
pub open spec fn lock_split(
    seg: Seq<Call>,
    b: Seq<int>,
    ents: Seq<Seq<char>>,
    intent: Seq<char>,
    policy: Oracle202,
    r: LockView,
    kinds: Seq<Seq<char>>,
) -> bool {
    let k = b.len() - 1;
    &&& 1 <= b.len()
    &&& k <= ents.len()
    &&& ents.len() > 0 ==> k >= 1
    &&& k < ents.len() ==> !(step_at(seg, b, ents, intent, policy, k - 1).0 is Got)
    &&& b[0] == 0
    &&& b.last() == seg.len()
    &&& forall|i: int| 0 <= i < k ==> 0 <= #[trigger] b[i] < b[i + 1] <= seg.len()
    &&& forall|i: int|
        0 <= i < k ==> (#[trigger] claim_step(seg.subrange(b[i], b[i + 1]), ents[i], intent, policy))
            is Some
    &&& forall|i: int| 0 <= i < k - 1 ==> (#[trigger] step_at(seg, b, ents, intent, policy, i)).0 is Got
    &&& kinds == kinds_upto(seg, b, ents, intent, policy, k)
    &&& r == if k == ents.len() && (k == 0 || step_at(seg, b, ents, intent, policy, k - 1).0 is Got) {
        LockView::Locked(
            ids_upto(seg, b, ents, intent, policy, k),
            verdicts_upto(seg, b, ents, intent, policy, k),
        )
    } else {
        match step_at(seg, b, ents, intent, policy, k - 1).0 {
            StepView::Blocked(x) => LockView::Overlap(x, ids_upto(seg, b, ents, intent, policy, k - 1)),
            StepView::Backoff(d) => LockView::OracleBackoff(
                d,
                ids_upto(seg, b, ents, intent, policy, k - 1),
            ),
            StepView::Got(..) => LockView::Locked(seq![], seq![]),
        }
    }
}

/// A claim held from one entity's claim calls: the entity was claimed, and
/// hayven answered with the claim id — registered at once, or, where the
/// policy allows forcing, registered by a forced claim after an oracle
/// conflict.
pub open spec fn claim_held_from(
    s: Seq<Call>,
    ent: Seq<char>,
    intent: Seq<char>,
    policy: Oracle202,
    id: Seq<char>,
    verdict: Seq<char>,
) -> bool {
    &&& s.len() >= 1
    &&& s[0].argv == claim_argv(seq![ent], intent, false)
    &&& {
        ||| verdict == "registered"@ && s.len() == 1 && hv_verdict(s[0].out) == VerdictView::Registered(Some(id))
        ||| verdict == "forced"@ && policy == Oracle202::ForceWithBudget && s.len() == 2
            && hv_verdict(s[0].out) is OracleConflict && s[1].argv == claim_argv(seq![ent], intent, true)
            && hv_verdict(s[1].out) == VerdictView::Registered(Some(id))
    }
}

/// The claims held, one per entity in order: the `j`-th from the calls
/// between `b[j]` and `b[j + 1]`.
pub open spec fn claims_held(
    seg: Seq<Call>,
    b: Seq<int>,
    ents: Seq<Seq<char>>,
    intent: Seq<char>,
    policy: Oracle202,
    ids: Seq<Seq<char>>,
    vs: Seq<Seq<char>>,
) -> bool {
    forall|j: int|
        0 <= j < ents.len() ==> 0 <= b[j] < b[j + 1] <= seg.len() && #[trigger] claim_held_from(
            seg.subrange(b[j], b[j + 1]),
            ents[j],
            intent,
            policy,
            ids[j],
            vs[j],
        )
}

/// From call `from` on, the claims held were taken one per entity, in
/// order (see [`claims_held`]).
pub open spec fn locked_claims(
    calls: Seq<Call>,
    from: int,
    ents: Seq<Seq<char>>,
    intent: Seq<char>,
    policy: Oracle202,
    ids: Seq<Seq<char>>,
    vs: Seq<Seq<char>>,
) -> bool {
    exists|b: Seq<int>| #[trigger] claims_held(calls.skip(from), b, ents, intent, policy, ids, vs)
}

/// Locking holds one claim per entity, taken in the entities' order: the
/// `j`-th held claim id and verdict come from the calls that claimed exactly
/// the `j`-th entity, and each is a claim id hayven answered — never an
/// entity name standing in for one.
pub proof fn law_lock_claims_in_order(
    seg: Seq<Call>,
    b: Seq<int>,
    ents: Seq<Seq<char>>,
    intent: Seq<char>,
    policy: Oracle202,
    ids: Seq<Seq<char>>,
    vs: Seq<Seq<char>>,
    kinds: Seq<Seq<char>>,
)
    requires
        lock_split(seg, b, ents, intent, policy, LockView::Locked(ids, vs), kinds),
    ensures
        ids.len() == ents.len(),
        vs.len() == ents.len(),
        b.len() == ents.len() + 1,
        claims_held(seg, b, ents, intent, policy, ids, vs),
{
    let k = b.len() - 1;
    assert(k == ents.len());
    assert forall|j: int| 0 <= j < ents.len() implies 0 <= b[j] < b[j + 1] <= seg.len() && #[trigger] claim_held_from(
        seg.subrange(b[j], b[j + 1]),
        ents[j],
        intent,
        policy,
        ids[j],
        vs[j],
    ) by {
        assert(0 <= b[j] < b[j + 1] <= seg.len());
        assert(claim_step(seg.subrange(b[j], b[j + 1]), ents[j], intent, policy) is Some);
        assert(step_at(seg, b, ents, intent, policy, j).0 is Got);
        assert(ids[j] == got_id(step_at(seg, b, ents, intent, policy, j).0));
        assert(vs[j] == got_verdict(step_at(seg, b, ents, intent, policy, j).0));
    }
}

proof fn lemma_kinds_same(
    seg0: Seq<Call>,
    b0: Seq<int>,
    seg: Seq<Call>,
    b: Seq<int>,
    ents: Seq<Seq<char>>,
    intent: Seq<char>,
    policy: Oracle202,
    n: int,
)
    requires
        0 <= n,
        forall|j: int|
            0 <= j < n ==> #[trigger] step_at(seg, b, ents, intent, policy, j) == step_at(
                seg0,
                b0,
                ents,
                intent,
                policy,
                j,
            ),
    ensures
        kinds_upto(seg, b, ents, intent, policy, n) == kinds_upto(seg0, b0, ents, intent, policy, n),
    decreases n,
{
    if n > 0 {
        lemma_kinds_same(seg0, b0, seg, b, ents, intent, policy, n - 1);
        assert(step_at(seg, b, ents, intent, policy, n - 1) == step_at(seg0, b0, ents, intent, policy, n - 1));
    }
}

/// The split `b` cuts `seg` into the claim calls of the first `n` entities,
/// each of which got its claim.
#[verifier::opaque]
pub open spec fn got_prefix(
    seg: Seq<Call>,
    b: Seq<int>,
    ents: Seq<Seq<char>>,
    intent: Seq<char>,
    policy: Oracle202,
    n: int,
) -> bool {
    &&& 0 <= n <= ents.len()
    &&& b.len() == n + 1
    &&& b[0] == 0
    &&& b.last() == seg.len()
    &&& forall|j: int| 0 <= j < n ==> 0 <= #[trigger] b[j] < b[j + 1] <= seg.len()
    &&& forall|j: int|
        0 <= j < n ==> (#[trigger] claim_step(seg.subrange(b[j], b[j + 1]), ents[j], intent, policy))
            is Some
    &&& forall|j: int| 0 <= j < n ==> (#[trigger] step_at(seg, b, ents, intent, policy, j)).0 is Got
}

/// What locking stops with when a step does not get its claim.
pub open spec fn stop_result(s: StepView, acquired: Seq<Seq<char>>) -> LockView {
    match s {
        StepView::Blocked(x) => LockView::Overlap(x, acquired),
        StepView::Backoff(d) => LockView::OracleBackoff(d, acquired),
        StepView::Got(..) => LockView::Locked(seq![], seq![]),
    }
}

/// A claim step that happened and came back as `s`.
pub open spec fn came_back_as(o: Option<(StepView, Seq<Seq<char>>)>, s: StepView) -> bool {
    match o {
        Some(st) => st.0 == s,
        None => false,
    }
}

/// Some entity claim made by the calls `a..z`, from index `from` on, came
/// back as step `s`.
pub open spec fn claim_came_back(calls: Seq<Call>, from: int, policy: Oracle202, s: StepView) -> bool {
    exists|a: int, z: int, ent: Seq<char>, intent: Seq<char>|
        from <= a < z <= calls.len() && came_back_as(
            #[trigger] claim_step(calls.subrange(a, z), ent, intent, policy),
            s,
        )
}

proof fn lemma_came_back_extend(
    c1: Seq<Call>,
    c2: Seq<Call>,
    from1: int,
    from: int,
    policy: Oracle202,
    s: StepView,
)
    requires
        0 <= from <= from1,
        c1.len() <= c2.len(),
        c2.take(c1.len() as int) == c1,
        claim_came_back(c1, from1, policy, s),
    ensures
        claim_came_back(c2, from, policy, s),
{
    assert forall|a: int, z: int, ent: Seq<char>, intent: Seq<char>|
        from1 <= a < z <= c1.len() && came_back_as(
            #[trigger] claim_step(c1.subrange(a, z), ent, intent, policy),
            s,
        ) implies from <= a < z <= c2.len() && came_back_as(
            claim_step(c2.subrange(a, z), ent, intent, policy),
            s,
        ) by {
        assert(c2.subrange(a, z) =~= c1.subrange(a, z)) by {
            assert forall|i: int| 0 <= i < z - a implies c2.subrange(a, z)[i] == c1.subrange(a, z)[i] by {
                assert(c2[a + i] == c2.take(c1.len() as int)[a + i]);
            }
        }
    }
}

proof fn lemma_prefix_start(ents: Seq<Seq<char>>, intent: Seq<char>, policy: Oracle202)
    ensures
        got_prefix(Seq::<Call>::empty(), seq![0int], ents, intent, policy, 0),
        ids_upto(Seq::<Call>::empty(), seq![0int], ents, intent, policy, 0) == Seq::<Seq<char>>::empty(),
        verdicts_upto(Seq::<Call>::empty(), seq![0int], ents, intent, policy, 0) == Seq::<Seq<char>>::empty(),
        kinds_upto(Seq::<Call>::empty(), seq![0int], ents, intent, policy, 0) == Seq::<Seq<char>>::empty(),
{
    reveal(got_prefix);
    assert(ids_upto(Seq::<Call>::empty(), seq![0int], ents, intent, policy, 0) =~= Seq::<Seq<char>>::empty());
    assert(verdicts_upto(Seq::<Call>::empty(), seq![0int], ents, intent, policy, 0) =~= Seq::<Seq<char>>::empty());
}

proof fn lemma_prefix_done(
    seg: Seq<Call>,
    b: Seq<int>,
    ents: Seq<Seq<char>>,
    intent: Seq<char>,
    policy: Oracle202,
)
    requires
        got_prefix(seg, b, ents, intent, policy, ents.len() as int),
    ensures
        lock_split(
            seg,
            b,
            ents,
            intent,
            policy,
            LockView::Locked(
                ids_upto(seg, b, ents, intent, policy, ents.len() as int),
                verdicts_upto(seg, b, ents, intent, policy, ents.len() as int),
            ),
            kinds_upto(seg, b, ents, intent, policy, ents.len() as int),
        ),
{
    reveal(got_prefix);
    let n = ents.len() as int;
    if n > 0 {
        assert(step_at(seg, b, ents, intent, policy, n - 1).0 is Got);
    }
}

/// Appending the calls of entity `i`'s step extends the split: the prefix
/// grows when the step got its claim, and locking stops otherwise.
#[verifier::spinoff_prover]
proof fn lemma_prefix_step(
    seg0: Seq<Call>,
    b0: Seq<int>,
    seg: Seq<Call>,
    ents: Seq<Seq<char>>,
    intent: Seq<char>,
    policy: Oracle202,
    i: int,
)
    requires
        got_prefix(seg0, b0, ents, intent, policy, i),
        i < ents.len(),
        seg.len() > seg0.len(),
        seg.take(seg0.len() as int) == seg0,
        claim_step(seg.skip(seg0.len() as int), ents[i], intent, policy) is Some,
    ensures
        ({
            let b = b0.push(seg.len() as int);
            let st = claim_step(seg.skip(seg0.len() as int), ents[i], intent, policy).unwrap();
            &&& kinds_upto(seg, b, ents, intent, policy, i + 1) == kinds_upto(
                seg0,
                b0,
                ents,
                intent,
                policy,
                i,
            ) + st.1
            &&& st.0 is Got ==> got_prefix(seg, b, ents, intent, policy, i + 1)
            &&& st.0 is Got ==> ids_upto(seg, b, ents, intent, policy, i + 1) == ids_upto(
                seg0,
                b0,
                ents,
                intent,
                policy,
                i,
            ).push(got_id(st.0))
            &&& st.0 is Got ==> verdicts_upto(seg, b, ents, intent, policy, i + 1) == verdicts_upto(
                seg0,
                b0,
                ents,
                intent,
                policy,
                i,
            ).push(got_verdict(st.0))
            &&& !(st.0 is Got) ==> lock_split(
                seg,
                b,
                ents,
                intent,
                policy,
                stop_result(st.0, ids_upto(seg0, b0, ents, intent, policy, i)),
                kinds_upto(seg, b, ents, intent, policy, i + 1),
            )
        }),
{
    reveal(got_prefix);
    let b = b0.push(seg.len() as int);
    assert forall|j: int| 0 <= j < i + 1 implies 0 <= #[trigger] b[j] < b[j + 1] <= seg.len() by {
        if j < i {
            assert(b[j] == b0[j] && b[j + 1] == b0[j + 1]);
        }
    }
    assert forall|j: int| 0 <= j < i implies #[trigger] seg.subrange(b[j], b[j + 1]) == seg0.subrange(
        b0[j],
        b0[j + 1],
    ) by {
        assert(b[j] == b0[j] && b[j + 1] == b0[j + 1]);
        assert(0 <= b0[j] < b0[j + 1] <= seg0.len());
        assert(seg.subrange(b[j], b[j + 1]) =~= seg0.subrange(b0[j], b0[j + 1]));
    }
    assert(seg.subrange(b[i], b[i + 1]) =~= seg.skip(seg0.len() as int));
    assert forall|j: int|
        0 <= j < i + 1 implies (#[trigger] claim_step(seg.subrange(b[j], b[j + 1]), ents[j], intent, policy))
            is Some by {
        if j < i {
            assert(seg.subrange(b[j], b[j + 1]) == seg0.subrange(b0[j], b0[j + 1]));
        }
    }
    assert forall|j: int| 0 <= j < i implies #[trigger] step_at(seg, b, ents, intent, policy, j)
        == step_at(seg0, b0, ents, intent, policy, j) by {
        assert(seg.subrange(b[j], b[j + 1]) == seg0.subrange(b0[j], b0[j + 1]));
    }
    lemma_kinds_same(seg0, b0, seg, b, ents, intent, policy, i);
    assert(ids_upto(seg, b, ents, intent, policy, i) =~= ids_upto(seg0, b0, ents, intent, policy, i));
    let st = claim_step(seg.skip(seg0.len() as int), ents[i], intent, policy).unwrap();
    assert(step_at(seg, b, ents, intent, policy, i) == st);
    if st.0 is Got {
        assert forall|j: int| 0 <= j < i + 1 implies (#[trigger] step_at(seg, b, ents, intent, policy, j)).0
            is Got by {
            if j < i {
                assert(step_at(seg, b, ents, intent, policy, j) == step_at(seg0, b0, ents, intent, policy, j));
            }
        }
        assert(ids_upto(seg, b, ents, intent, policy, i + 1) =~= ids_upto(seg0, b0, ents, intent, policy, i).push(got_id(st.0)));
        assert(verdicts_upto(seg, b, ents, intent, policy, i + 1) =~= verdicts_upto(seg0, b0, ents, intent, policy, i).push(got_verdict(st.0)));
    } else {
        assert forall|j: int| 0 <= j < i implies (#[trigger] step_at(seg, b, ents, intent, policy, j)).0
            is Got by {
            assert(step_at(seg, b, ents, intent, policy, j) == step_at(seg0, b0, ents, intent, policy, j));
        }
    }
}

/// `<issue>: <title>`, the intent every entity claim carries.
pub open spec fn intent_of(issue: Seq<char>, title: Seq<char>) -> Seq<char> {
    issue + ": "@ + title
}

/// Attempt to claim every entity for an issue, in order, honoring the
/// oracle-202 policy. Releases nothing here — the caller unwinds `acquired`
/// on failure.
#[verifier::spinoff_prover]
pub fn lock_entities<R: Runner>(
    hv: &Hayven,
    ledger: &mut Ledger,
    runner: &mut R,
    config: &Config,
    issue: &str,
    title: &str,
    entities: &[String],
) -> (r: LockResult)
    requires
        old(ledger).wf(),
    ensures
        final(runner).calls().len() >= old(runner).calls().len(),
        final(runner).calls().take(old(runner).calls().len() as int) == old(runner).calls(),
        all_run(final(runner).calls(), old(runner).calls().len() as int, "hayven"@),
        exists|b: Seq<int>, kinds: Seq<Seq<char>>|
            {
                &&& #[trigger] lock_split(
                    final(runner).calls().skip(old(runner).calls().len() as int),
                    b,
                    string_views(entities@),
                    intent_of(issue@, title@),
                    config.oracle_202,
                    r@,
                    kinds,
                )
                &&& events_added(*old(ledger), *final(ledger), kinds)
            },
        match r@ {
            LockView::Overlap(x, _) => claim_came_back(
                final(runner).calls(),
                old(runner).calls().len() as int,
                config.oracle_202,
                StepView::Blocked(x),
            ),
            LockView::OracleBackoff(x, _) => claim_came_back(
                final(runner).calls(),
                old(runner).calls().len() as int,
                config.oracle_202,
                StepView::Backoff(x),
            ),
            LockView::Locked(..) => true,
        },
        r@ matches LockView::Locked(ids, vs) ==> ids.len() == entities@.len() && vs.len() == entities@.len(),
        r@ matches LockView::Overlap(_, acq) ==> acq.len() < entities@.len(),
        r@ matches LockView::OracleBackoff(_, acq) ==> acq.len() < entities@.len(),
        r@ matches LockView::Locked(ids, vs) ==> locked_claims(
            final(runner).calls(),
            old(runner).calls().len() as int,
            string_views(entities@),
            intent_of(issue@, title@),
            config.oracle_202,
            ids,
            vs,
        ),
{
    let ghost c0 = runner.calls();
    let ghost l0 = *ledger;
    let ghost ents = string_views(entities@);
    let policy = config.oracle_202;
    let mut intent = str_of(issue);
    push_str(&mut intent, ": ");
    push_str(&mut intent, title);
    let mut acquired: Vec<String> = Vec::new();
    let mut verdicts: Vec<String> = Vec::new();
    let ghost mut b: Seq<int> = seq![0];
    proof {
        lemma_events_added_none(*ledger);
        lemma_prefix_start(ents, intent@, policy);
        assert(runner.calls().take(c0.len() as int) =~= c0);
        assert(runner.calls().skip(c0.len() as int) =~= Seq::<Call>::empty());
        assert(string_views(acquired@) =~= Seq::<Seq<char>>::empty());
        assert(string_views(verdicts@) =~= Seq::<Seq<char>>::empty());
    }
    let mut i: usize = 0;
    while i < entities.len()
        invariant
            i <= entities@.len(),
            c0 == old(runner).calls(),
            l0 == *old(ledger),
            ents == string_views(entities@),
            policy == config.oracle_202,
            intent@ == intent_of(issue@, title@),
            ledger.wf(),
            runner.calls().len() >= c0.len(),
            runner.calls().take(c0.len() as int) == c0,
            all_run(runner.calls(), c0.len() as int, "hayven"@),
            got_prefix(runner.calls().skip(c0.len() as int), b, ents, intent@, policy, i as int),
            string_views(acquired@) == ids_upto(runner.calls().skip(c0.len() as int), b, ents, intent@, policy, i as int),
            acquired@.len() == i,
            verdicts@.len() == i,
            string_views(verdicts@) == verdicts_upto(runner.calls().skip(c0.len() as int), b, ents, intent@, policy, i as int),
            events_added(l0, *ledger, kinds_upto(runner.calls().skip(c0.len() as int), b, ents, intent@, policy, i as int)),
        decreases entities@.len() - i,
    {
        let ghost cb = runner.calls();
        let ghost seg0 = cb.skip(c0.len() as int);
        let ghost b0 = b;
        let ghost lb = *ledger;
        let ghost a0 = string_views(acquired@);
        let ghost v0 = string_views(verdicts@);
        let st = claim_one(hv, ledger, runner, policy, issue, &entities[i], intent.as_str());
        let ghost seg = runner.calls().skip(c0.len() as int);
        proof {
            let c = runner.calls();
            assert(c.take(c0.len() as int) =~= c0) by {
                assert(c.take(c0.len() as int) =~= cb.take(c0.len() as int));
            }
            assert(seg.take(seg0.len() as int) =~= seg0);
            assert(seg.skip(seg0.len() as int) =~= c.skip(cb.len() as int));
            assert(ents[i as int] == entities@[i as int]@);
            lemma_prefix_step(seg0, b0, seg, ents, intent@, policy, i as int);
            assert forall|k: int| c0.len() <= k < c.len() implies (#[trigger] c[k]).argv.len() > 0
                && c[k].argv[0] == "hayven"@ by {
                if k < cb.len() {
                    assert(c[k] == c.take(cb.len() as int)[k]);
                }
            }
            b = b0.push(seg.len() as int);
            let k0 = kinds_upto(seg0, b0, ents, intent@, policy, i as int);
            let sk = claim_step(seg.skip(seg0.len() as int), ents[i as int], intent@, policy).unwrap().1;
            lemma_events_added_trans(l0, lb, *ledger, k0, sk);
            assert(c.subrange(cb.len() as int, c.len() as int) =~= seg.skip(seg0.len() as int));
            assert(came_back_as(
                claim_step(c.subrange(cb.len() as int, c.len() as int), ents[i as int], intent@, policy),
                st@,
            ));
        }
        match st {
            Step::Got(id, how) => {
                acquired.push(id);
                verdicts.push(how);
                proof {
                    assert(string_views(acquired@) =~= a0.push(got_id(st@)));
                    assert(string_views(verdicts@) =~= v0.push(got_verdict(st@)));
                }
            },
            Step::Blocked(blocker) => {
                let r = LockResult::Overlap { blocker, acquired };
                assert(r@ == stop_result(st@, ids_upto(seg0, b0, ents, intent@, policy, i as int)));
                assert(lock_split(seg, b, ents, intent@, policy, r@, kinds_upto(seg, b, ents, intent@, policy, i + 1)));
                return r;
            },
            Step::Backoff(detail) => {
                let r = LockResult::OracleBackoff { detail, acquired };
                assert(r@ == stop_result(st@, ids_upto(seg0, b0, ents, intent@, policy, i as int)));
                assert(lock_split(seg, b, ents, intent@, policy, r@, kinds_upto(seg, b, ents, intent@, policy, i + 1)));
                return r;
            },
        }
        i = i + 1;
    }
    let r = LockResult::Locked { claim_ids: acquired, verdicts };
    proof {
        let seg = runner.calls().skip(c0.len() as int);
        lemma_prefix_done(seg, b, ents, intent@, policy);
        assert(lock_split(seg, b, ents, intent@, policy, r@, kinds_upto(seg, b, ents, intent@, policy, i as int)));
        law_lock_claims_in_order(
            seg,
            b,
            ents,
            intent@,
            policy,
            string_views(acquired@),
            string_views(verdicts@),
            kinds_upto(seg, b, ents, intent@, policy, i as int),
        );
        assert(claims_held(
            runner.calls().skip(c0.len() as int),
            b,
            string_views(entities@),
            intent_of(issue@, title@),
            config.oracle_202,
            string_views(acquired@),
            string_views(verdicts@),
        ));
        assert(r@ == LockView::Locked(string_views(acquired@), string_views(verdicts@)));
        assert(locked_claims(
            runner.calls(),
            c0.len() as int,
            string_views(entities@),
            intent_of(issue@, title@),
            config.oracle_202,
            string_views(acquired@),
            string_views(verdicts@),
        ));
    }
    r
}


// ── releasing ───────────────────────────────────────────────────────────────

/// How many times a release is attempted before it is given up as leaked.
pub const RELEASE_ATTEMPTS: u64 = 2;

/// The backoff before the retry.
pub const RELEASE_BASE_MS: u64 = 250;

/// A `hayven release` answer that released.
pub open spec fn hv_released(o: Result<OutView, Seq<char>>) -> bool {
    hv_unit(o) is Ok
}

/// An `amt release` answer that released.
pub open spec fn amt_released(o: Result<OutView, Seq<char>>) -> bool {
    amt_unit(o) is Ok
}

/// `seg` is one release's tries: the same command each time, every try but
/// the last failed, and it stops at the first success or after
/// [`RELEASE_ATTEMPTS`] tries; `released` is whether the last one succeeded.
pub open spec fn release_tries(
    seg: Seq<Call>,
    argv: Seq<Seq<char>>,
    ok: spec_fn(Result<OutView, Seq<char>>) -> bool,
    released: bool,
) -> bool {
    &&& 1 <= seg.len() <= RELEASE_ATTEMPTS
    &&& forall|i: int| 0 <= i < seg.len() ==> (#[trigger] seg[i]).argv == argv
    &&& forall|i: int| 0 <= i < seg.len() - 1 ==> !ok((#[trigger] seg[i]).out)
    &&& released == ok(seg.last().out)
    &&& !released ==> seg.len() == RELEASE_ATTEMPTS
}

/// The policy events a release logs: one `release_failure` when it never
/// landed.
pub open spec fn failure_kinds(released: bool) -> Seq<Seq<char>> {
    if released {
        seq![]
    } else {
        seq!["release_failure"@]
    }
}

/// The members of a release failure's policy-event detail: `issue`,
/// `claim_id`, `worker` when there is one, and `error`.
pub open spec fn failure_detail_member(
    issue: Seq<char>,
    claim_id: Seq<char>,
    worker: Option<Seq<char>>,
    error: Seq<char>,
    k: Seq<char>,
) -> Option<Seq<char>> {
    if k == "error"@ {
        Some(error)
    } else if k == "worker"@ {
        worker
    } else if k == "claim_id"@ {
        Some(claim_id)
    } else if k == "issue"@ {
        Some(issue)
    } else {
        None
    }
}

/// The detail of a release failure's policy event.
fn failure_detail(issue: &str, claim_id: &str, worker: Option<&str>, error: &str) -> (r: Json)
    ensures
        r is Object,
        forall|k: Seq<char>|
            str_member(#[trigger] get(r, k), failure_detail_member(issue@, claim_id@, opt_str(worker), error@, k)),
{
    let mut m: Vec<(String, Json)> = Vec::new();
    let ghost m0 = m@;
    insert_member(&mut m, str_of("issue"), Json::string(issue));
    insert_member(&mut m, str_of("claim_id"), Json::string(claim_id));
    let ghost m2 = m@;
    match worker {
        Some(w) => insert_member(&mut m, str_of("worker"), Json::string(w)),
        None => {},
    }
    let ghost m3 = m@;
    insert_member(&mut m, str_of("error"), Json::string(error));
    let r = Json::Object(m);
    proof {
        lemma_detail_words();
        assert forall|k: Seq<char>|
            str_member(#[trigger] get(r, k), failure_detail_member(issue@, claim_id@, opt_str(worker), error@, k)) by {
            assert(lookup(m0, k) is None);
            if worker is None {
                assert(lookup(m3, k) == lookup(m2, k));
            }
        }
    }
    r
}

proof fn lemma_detail_words()
    ensures
        "worker"@ != "issue"@,
        "worker"@ != "claim_id"@,
{
    reveal_strlit("worker");
    reveal_strlit("issue");
    reveal_strlit("claim_id");
    assert("worker"@[0] != "issue"@[0]);
    assert("worker"@[0] != "claim_id"@[0]);
}

/// Release one Hayvenhurst entity claim, retrying once on a transient
/// failure and recording a ledger `release_failure` event if it never lands,
/// so a leaked lock is never silent. Returns true once released.
pub fn release_entity_checked<R: Runner>(
    hv: &Hayven,
    ledger: &mut Ledger,
    runner: &mut R,
    issue: &str,
    claim_id: &str,
) -> (released: bool)
    requires
        old(ledger).wf(),
    ensures
        final(runner).calls().len() > old(runner).calls().len(),
        final(runner).calls().take(old(runner).calls().len() as int) == old(runner).calls(),
        all_run(final(runner).calls(), old(runner).calls().len() as int, "hayven"@),
        release_tries(
            final(runner).calls().skip(old(runner).calls().len() as int),
            seq!["hayven"@, "release"@, claim_id@],
            |o: Result<OutView, Seq<char>>| hv_released(o),
            released,
        ),
        events_added(*old(ledger), *final(ledger), failure_kinds(released)),
{
    let ghost c0 = runner.calls();
    let ghost argv = seq!["hayven"@, "release"@, claim_id@];
    let ghost ok = |o: Result<OutView, Seq<char>>| hv_released(o);
    proof {
        lemma_events_added_none(*ledger);
    }
    let mut attempt: u64 = 0;
    loop
        invariant
            attempt < RELEASE_ATTEMPTS,
            c0 == old(runner).calls(),
            *ledger == *old(ledger),
            ledger.wf(),
            argv == seq!["hayven"@, "release"@, claim_id@],
            ok == |o: Result<OutView, Seq<char>>| hv_released(o),
            runner.calls().len() == c0.len() + attempt,
            runner.calls().take(c0.len() as int) == c0,
            all_run(runner.calls(), c0.len() as int, "hayven"@),
            forall|i: int|
                0 <= i < attempt ==> (#[trigger] runner.calls().skip(c0.len() as int)[i]).argv
                    == argv && !ok(runner.calls().skip(c0.len() as int)[i].out),
        decreases RELEASE_ATTEMPTS - attempt,
    {
        let ghost c1 = runner.calls();
        let res = hv.release(runner, claim_id);
        proof {
            let c = runner.calls();
            assert forall|k: int| c0.len() <= k < c.len() implies (#[trigger] c[k]).argv.len() > 0
                && c[k].argv[0] == "hayven"@ by {
                if k < c1.len() {
                    assert(c[k] == c.drop_last()[k]);
                }
            }
        }
        proof {
            let seg = runner.calls().skip(c0.len() as int);
            assert(runner.calls().drop_last() == c1);
            assert(runner.calls().take(c0.len() as int) =~= c1.take(c0.len() as int));
            assert forall|i: int| 0 <= i < attempt implies (#[trigger] seg[i]).argv == argv && !ok(
                seg[i].out,
            ) by {
                assert(seg[i] == c1.skip(c0.len() as int)[i]);
            }
            assert(seg[attempt as int] == runner.calls().last());
            assert(seg.len() == attempt + 1);
        }
        match res {
            Ok(()) => {
                proof {
                    lemma_events_added_none(*ledger);
                }
                return true;
            },
            Err(e) => {
                if attempt + 1 < RELEASE_ATTEMPTS {
                    runner.sleep_ms(RELEASE_BASE_MS);
                    attempt = attempt + 1;
                } else {
                    log_event(ledger, "release_failure", failure_detail(issue, claim_id, None, e.as_str()));
                    return false;
                }
            },
        }
    }
}

/// Release an Ametrite issue with the same retry-once, record-on-failure
/// policy as [`release_entity_checked`], so an issue is never left silently
/// locked to a dead worker.
pub fn release_issue_checked<R: Runner>(
    amt: &Amt,
    ledger: &mut Ledger,
    runner: &mut R,
    issue: &str,
    worker: &str,
    status: Option<&str>,
    comment: Option<&str>,
) -> (released: bool)
    requires
        old(ledger).wf(),
    ensures
        final(runner).calls().len() > old(runner).calls().len(),
        final(runner).calls().take(old(runner).calls().len() as int) == old(runner).calls(),
        release_tries(
            final(runner).calls().skip(old(runner).calls().len() as int),
            release_argv(issue@, worker@, opt_str(status), opt_str(comment)),
            |o: Result<OutView, Seq<char>>| amt_released(o),
            released,
        ),
        events_added(*old(ledger), *final(ledger), failure_kinds(released)),
{
    let ghost c0 = runner.calls();
    let ghost argv = release_argv(issue@, worker@, opt_str(status), opt_str(comment));
    let ghost ok = |o: Result<OutView, Seq<char>>| amt_released(o);
    let mut attempt: u64 = 0;
    loop
        invariant
            attempt < RELEASE_ATTEMPTS,
            c0 == old(runner).calls(),
            *ledger == *old(ledger),
            ledger.wf(),
            argv == release_argv(issue@, worker@, opt_str(status), opt_str(comment)),
            ok == |o: Result<OutView, Seq<char>>| amt_released(o),
            runner.calls().len() == c0.len() + attempt,
            runner.calls().take(c0.len() as int) == c0,
            forall|i: int|
                0 <= i < attempt ==> (#[trigger] runner.calls().skip(c0.len() as int)[i]).argv
                    == argv && !ok(runner.calls().skip(c0.len() as int)[i].out),
        decreases RELEASE_ATTEMPTS - attempt,
    {
        let ghost c1 = runner.calls();
        let res = amt.release(runner, issue, worker, status, comment);
        proof {
            let seg = runner.calls().skip(c0.len() as int);
            assert(runner.calls().drop_last() == c1);
            assert(runner.calls().take(c0.len() as int) =~= c1.take(c0.len() as int));
            assert forall|i: int| 0 <= i < attempt implies (#[trigger] seg[i]).argv == argv && !ok(
                seg[i].out,
            ) by {
                assert(seg[i] == c1.skip(c0.len() as int)[i]);
            }
            assert(seg[attempt as int] == runner.calls().last());
            assert(seg.len() == attempt + 1);
        }
        match res {
            Ok(()) => {
                proof {
                    lemma_events_added_none(*ledger);
                }
                return true;
            },
            Err(e) => {
                if attempt + 1 < RELEASE_ATTEMPTS {
                    runner.sleep_ms(RELEASE_BASE_MS);
                    attempt = attempt + 1;
                } else {
                    log_event(ledger, "release_failure", failure_detail(issue, issue, Some(worker), e.as_str()));
                    return false;
                }
            },
        }
    }
}


/// Whether the `j`th release under the split `b` landed.
pub open spec fn released_in(seg: Seq<Call>, b: Seq<int>, j: int) -> bool {
    hv_released(seg[b[j + 1] - 1].out)
}

/// The failure events of the first `m` releases, in order.
pub open spec fn failures_upto(seg: Seq<Call>, b: Seq<int>, m: int) -> Seq<Seq<char>>
    decreases m,
{
    if m <= 0 {
        seq![]
    } else {
        failures_upto(seg, b, m - 1) + failure_kinds(released_in(seg, b, m - 1))
    }
}

/// The split `b` cuts `seg` into the tries of the first `m` releases, which
/// take the claim ids last first.
pub open spec fn release_upto(seg: Seq<Call>, b: Seq<int>, ids: Seq<Seq<char>>, m: int) -> bool {
    let n = ids.len();
    &&& 0 <= m <= n
    &&& b.len() == m + 1
    &&& b[0] == 0
    &&& b.last() == seg.len()
    &&& forall|j: int| 0 <= j < m ==> 0 <= #[trigger] b[j] < b[j + 1] <= seg.len()
    &&& forall|j: int|
        0 <= j < m ==> release_tries(
            seg.subrange(b[j], b[j + 1]),
            seq!["hayven"@, "release"@, ids[n - 1 - j]],
            |o: Result<OutView, Seq<char>>| hv_released(o),
            #[trigger] released_in(seg, b, j),
        )
}

proof fn lemma_failures_same(seg0: Seq<Call>, b0: Seq<int>, seg: Seq<Call>, b: Seq<int>, m: int)
    requires
        0 <= m,
        forall|j: int| 0 <= j < m ==> #[trigger] released_in(seg, b, j) == released_in(seg0, b0, j),
    ensures
        failures_upto(seg, b, m) == failures_upto(seg0, b0, m),
    decreases m,
{
    if m > 0 {
        lemma_failures_same(seg0, b0, seg, b, m - 1);
        assert(released_in(seg, b, m - 1) == released_in(seg0, b0, m - 1));
    }
}

#[verifier::spinoff_prover]
#[verifier::rlimit(40)]
proof fn lemma_release_step(
    seg0: Seq<Call>,
    b0: Seq<int>,
    seg: Seq<Call>,
    ids: Seq<Seq<char>>,
    m: int,
    released: bool,
)
    requires
        release_upto(seg0, b0, ids, m),
        m < ids.len(),
        seg.len() > seg0.len(),
        seg.take(seg0.len() as int) == seg0,
        release_tries(
            seg.skip(seg0.len() as int),
            seq!["hayven"@, "release"@, ids[ids.len() - 1 - m]],
            |o: Result<OutView, Seq<char>>| hv_released(o),
            released,
        ),
    ensures
        release_upto(seg, b0.push(seg.len() as int), ids, m + 1),
        failures_upto(seg, b0.push(seg.len() as int), m + 1) == failures_upto(seg0, b0, m)
            + failure_kinds(released),
{
    let b = b0.push(seg.len() as int);
    let n = ids.len();
    assert forall|j: int| 0 <= j < m + 1 implies 0 <= #[trigger] b[j] < b[j + 1] <= seg.len() by {
        if j < m {
            assert(b[j] == b0[j] && b[j + 1] == b0[j + 1]);
        }
    }
    assert forall|j: int| 0 <= j < m implies #[trigger] released_in(seg, b, j) == released_in(seg0, b0, j) by {
        assert(b[j + 1] == b0[j + 1]);
        assert(0 <= b0[j] < b0[j + 1] <= seg0.len());
        assert(seg[b[j + 1] - 1] == seg.take(seg0.len() as int)[b0[j + 1] - 1]);
    }
    assert(released_in(seg, b, m) == released) by {
        assert(seg[seg.len() - 1] == seg.skip(seg0.len() as int).last());
    }
    assert forall|j: int| 0 <= j < m + 1 implies release_tries(
        seg.subrange(b[j], b[j + 1]),
        seq!["hayven"@, "release"@, ids[n - 1 - j]],
        |o: Result<OutView, Seq<char>>| hv_released(o),
        #[trigger] released_in(seg, b, j),
    ) by {
        if j < m {
            assert(b[j] == b0[j] && b[j + 1] == b0[j + 1]);
            assert(0 <= b0[j] < b0[j + 1] <= seg0.len());
            assert(seg.subrange(b[j], b[j + 1]) =~= seg0.subrange(b0[j], b0[j + 1]));
        } else {
            assert(seg.subrange(b[j], b[j + 1]) =~= seg.skip(seg0.len() as int));
        }
    }
    lemma_failures_same(seg0, b0, seg, b, m);
}

/// Release entity claims in reverse order (claim-order law: release in
/// reverse), each retried and recorded on failure.
#[verifier::spinoff_prover]
#[verifier::rlimit(40)]
pub fn release_entities<R: Runner>(
    hv: &Hayven,
    ledger: &mut Ledger,
    runner: &mut R,
    issue: &str,
    claim_ids: &[String],
)
    requires
        old(ledger).wf(),
    ensures
        final(runner).calls().len() >= old(runner).calls().len(),
        final(runner).calls().take(old(runner).calls().len() as int) == old(runner).calls(),
        all_run(final(runner).calls(), old(runner).calls().len() as int, "hayven"@),
        forall|j: int|
            old(runner).calls().len() <= j < final(runner).calls().len() ==> is_entity_release(
                (#[trigger] final(runner).calls()[j]).argv,
            ),
        exists|b: Seq<int>|
            #[trigger] release_upto(
                final(runner).calls().skip(old(runner).calls().len() as int),
                b,
                string_views(claim_ids@),
                claim_ids@.len() as int,
            ) && events_added(
                *old(ledger),
                *final(ledger),
                failures_upto(
                    final(runner).calls().skip(old(runner).calls().len() as int),
                    b,
                    claim_ids@.len() as int,
                ),
            ),
{
    let ghost c0 = runner.calls();
    let ghost l0 = *ledger;
    let ghost ids = string_views(claim_ids@);
    let ghost mut b: Seq<int> = seq![0];
    proof {
        lemma_events_added_none(*ledger);
        assert(runner.calls().take(c0.len() as int) =~= c0);
        assert(runner.calls().skip(c0.len() as int) =~= Seq::<Call>::empty());
    }
    let mut k: usize = claim_ids.len();
    while k > 0
        invariant
            k <= claim_ids@.len(),
            c0 == old(runner).calls(),
            l0 == *old(ledger),
            ids == string_views(claim_ids@),
            ledger.wf(),
            runner.calls().len() >= c0.len(),
            runner.calls().take(c0.len() as int) == c0,
            all_run(runner.calls(), c0.len() as int, "hayven"@),
            forall|j: int| c0.len() <= j < runner.calls().len() ==> is_entity_release((#[trigger] runner.calls()[j]).argv),
            release_upto(runner.calls().skip(c0.len() as int), b, ids, claim_ids@.len() - k),
            events_added(l0, *ledger, failures_upto(runner.calls().skip(c0.len() as int), b, claim_ids@.len() - k)),
        decreases k,
    {
        let ghost cb = runner.calls();
        let ghost seg0 = cb.skip(c0.len() as int);
        let ghost b0 = b;
        let ghost lb = *ledger;
        k = k - 1;
        let released = release_entity_checked(hv, ledger, runner, issue, claim_ids[k].as_str());
        proof {
            let c = runner.calls();
            let seg = c.skip(c0.len() as int);
            let m = claim_ids@.len() - k - 1;
            assert(c.take(c0.len() as int) =~= c0) by {
                assert(c.take(c0.len() as int) =~= cb.take(c0.len() as int));
            }
            assert(seg.take(seg0.len() as int) =~= seg0);
            assert(seg.skip(seg0.len() as int) =~= c.skip(cb.len() as int));
            assert(ids[ids.len() - 1 - m] == claim_ids@[k as int]@);
            lemma_release_step(seg0, b0, seg, ids, m, released);
            assert forall|j: int| c0.len() <= j < c.len() implies (#[trigger] c[j]).argv.len() > 0
                && c[j].argv[0] == "hayven"@ && is_entity_release(c[j].argv) by {
                if j < cb.len() {
                    assert(c[j] == c.take(cb.len() as int)[j]);
                } else {
                    assert(c[j] == c.skip(cb.len() as int)[j - cb.len()]);
                }
            }
            b = b0.push(seg.len() as int);
            lemma_events_added_trans(l0, lb, *ledger, failures_upto(seg0, b0, m), failure_kinds(released));
        }
    }
}


// ── iteration support ───────────────────────────────────────────────────────

/// An `amt issue update` — the only command that advances an issue's status.
pub open spec fn is_advance(argv: Seq<Seq<char>>) -> bool {
    argv.len() == 7 && argv[0] == "amt"@ && argv[2] == "issue"@ && argv[3] == "update"@
}

/// No call from index `from` on advances an issue.
pub open spec fn no_advance(calls: Seq<Call>, from: int) -> bool {
    forall|i: int| from <= i < calls.len() ==> !is_advance((#[trigger] calls[i]).argv)
}

/// A claim: of an issue (`amt --json claim …`) or of an entity
/// (`hayven claim …`).
pub open spec fn is_claim(argv: Seq<Seq<char>>) -> bool {
    ||| argv.len() >= 3 && argv[0] == "amt"@ && argv[2] == "claim"@
    ||| argv.len() >= 2 && argv[0] == "hayven"@ && argv[1] == "claim"@
}

/// No call from index `from` on claims anything.
pub open spec fn no_claim(calls: Seq<Call>, from: int) -> bool {
    forall|i: int| from <= i < calls.len() ==> !is_claim((#[trigger] calls[i]).argv)
}

/// An issue release: `amt --json release …`.
pub open spec fn is_issue_release(argv: Seq<Seq<char>>) -> bool {
    argv.len() >= 3 && argv[0] == "amt"@ && argv[2] == "release"@
}

/// An entity release: `hayven release …`.
pub open spec fn is_entity_release(argv: Seq<Seq<char>>) -> bool {
    argv.len() >= 2 && argv[0] == "hayven"@ && argv[1] == "release"@
}

/// No call from index `from` on releases an issue.
pub open spec fn no_issue_release(calls: Seq<Call>, from: int) -> bool {
    forall|i: int| from <= i < calls.len() ==> !is_issue_release((#[trigger] calls[i]).argv)
}

/// A decision filed: `amt --json decide …`.
pub open spec fn is_decide(argv: Seq<Seq<char>>) -> bool {
    argv.len() >= 3 && argv[0] == "amt"@ && argv[2] == "decide"@
}

/// No call from index `from` on files a decision.
#[verifier::opaque]
pub open spec fn no_decide(calls: Seq<Call>, from: int) -> bool {
    forall|i: int| from <= i < calls.len() ==> !is_decide((#[trigger] calls[i]).argv)
}

/// No call from index `from` on releases an entity.
pub open spec fn no_entity_release(calls: Seq<Call>, from: int) -> bool {
    forall|i: int| from <= i < calls.len() ==> !is_entity_release((#[trigger] calls[i]).argv)
}

/// From index `from` on, no entity is released once an issue has been: the
/// entities go back first, then the issue — claim order, reversed.
pub open spec fn entities_first(calls: Seq<Call>, from: int) -> bool {
    forall|i: int, j: int|
        from <= i < j < calls.len() && is_issue_release((#[trigger] calls[i]).argv) ==> !is_entity_release(
            (#[trigger] calls[j]).argv,
        )
}

proof fn lemma_run_no_issue_release(calls: Seq<Call>, from: int, prog: Seq<char>)
    requires
        all_run(calls, from, prog),
        prog != "amt"@,
    ensures
        no_issue_release(calls, from),
{
    assert forall|i: int| from <= i < calls.len() implies !is_issue_release((#[trigger] calls[i]).argv) by {
        assert(calls[i].argv[0] == prog);
    }
}

proof fn lemma_no_issue_release_join(c1: Seq<Call>, c2: Seq<Call>, n: int)
    requires
        0 <= n <= c1.len() <= c2.len(),
        c2.take(c1.len() as int) == c1,
        no_issue_release(c1, n),
        no_issue_release(c2, c1.len() as int),
    ensures
        no_issue_release(c2, n),
{
    assert forall|i: int| n <= i < c2.len() implies !is_issue_release((#[trigger] c2[i]).argv) by {
        if i < c1.len() {
            assert(c2[i] == c2.take(c1.len() as int)[i]);
        }
    }
}

proof fn lemma_run_no_decide(calls: Seq<Call>, from: int, prog: Seq<char>)
    requires
        all_run(calls, from, prog),
        prog != "amt"@,
    ensures
        no_decide(calls, from),
{
    reveal(no_decide);
    assert forall|i: int| from <= i < calls.len() implies !is_decide((#[trigger] calls[i]).argv) by {
        assert(calls[i].argv[0] == prog);
    }
}

/// One more `hayven` call decides nothing.
proof fn lemma_no_decide_last(c1: Seq<Call>, c2: Seq<Call>, n: int)
    requires
        0 <= n <= c1.len(),
        c2.len() == c1.len() + 1,
        c2.drop_last() == c1,
        c2.last().argv.len() > 0,
        c2.last().argv[0] == "hayven"@,
        no_decide(c1, n),
    ensures
        no_decide(c2, n),
{
    reveal(no_decide);
    lemma_words();
    assert forall|i: int| n <= i < c2.len() implies !is_decide((#[trigger] c2[i]).argv) by {
        if i < c1.len() {
            assert(c2[i] == c2.drop_last()[i]);
        }
    }
}

proof fn lemma_no_decide_join(c1: Seq<Call>, c2: Seq<Call>, n: int)
    requires
        0 <= n <= c1.len() <= c2.len(),
        c2.take(c1.len() as int) == c1,
        no_decide(c1, n),
        no_decide(c2, c1.len() as int),
    ensures
        no_decide(c2, n),
{
    reveal(no_decide);
    assert forall|i: int| n <= i < c2.len() implies !is_decide((#[trigger] c2[i]).argv) by {
        if i < c1.len() {
            assert(c2[i] == c2.take(c1.len() as int)[i]);
        }
    }
}

/// Calls with no issue release, then a segment releasing entities first,
/// then calls with no entity release: entities first throughout.
proof fn lemma_entities_first_join(c1: Seq<Call>, c2: Seq<Call>, c3: Seq<Call>, n: int)
    requires
        0 <= n <= c1.len() <= c2.len() <= c3.len(),
        c2.take(c1.len() as int) == c1,
        c3.take(c2.len() as int) == c2,
        no_issue_release(c1, n),
        entities_first(c2, c1.len() as int),
        no_entity_release(c3, c2.len() as int),
    ensures
        entities_first(c3, n),
{
    assert forall|i: int, j: int|
        n <= i < j < c3.len() && is_issue_release((#[trigger] c3[i]).argv) implies !is_entity_release(
            (#[trigger] c3[j]).argv,
        ) by {
        if j < c2.len() {
            assert(c3[i] == c3.take(c2.len() as int)[i]);
            assert(c3[j] == c3.take(c2.len() as int)[j]);
            if i < c1.len() {
                assert(c2[i] == c2.take(c1.len() as int)[i]);
            }
        }
    }
}

/// Entities first, then one more fleet-memory note: still entities first.
proof fn lemma_entities_first_note(
    c1: Seq<Call>,
    c2: Seq<Call>,
    c3: Seq<Call>,
    n: int,
    note: Seq<char>,
    node: Option<Seq<char>>,
    kind: Seq<char>,
    scope: Seq<Seq<char>>,
)
    requires
        0 <= n <= c1.len() <= c2.len(),
        c2.take(c1.len() as int) == c1,
        one_call(c2, c3, crate::hayven::remember_argv(note, node, kind, scope)),
        no_issue_release(c1, n),
        entities_first(c2, c1.len() as int),
    ensures
        entities_first(c3, n),
{
    lemma_words();
    let argv = crate::hayven::remember_argv(note, node, kind, scope);
    assert(argv[1] == "remember"@);
    assert(c3.take(c2.len() as int) =~= c2);
    assert forall|i: int| c2.len() <= i < c3.len() implies !is_entity_release((#[trigger] c3[i]).argv) by {
        assert(c3[i] == c3.last());
    }
    lemma_entities_first_join(c1, c2, c3, n);
}

/// The command words that tell the loop's calls apart.
pub proof fn lemma_words()
    ensures
        "release"@ != "claim"@,
        "release"@ != "issue"@,
        "release"@ != "decide"@,
        "release"@ != "decision"@,
        "release"@ != "remember"@,
        "hayven"@ != "amt"@,
        "git"@ != "amt"@,
        "sh"@ != "amt"@,
        "claim"@ != "issue"@,
        "release"@ != "issue"@,
        "decide"@ != "issue"@,
        "decision"@ != "issue"@,
        "comment"@ != "update"@,
        "issue"@ != "update"@,
        "decide"@ != "claim"@,
        "decision"@ != "claim"@,
        "issue"@ != "claim"@,
        "remember"@ != "claim"@,
{
    reveal_strlit("hayven");
    reveal_strlit("amt");
    reveal_strlit("git");
    reveal_strlit("sh");
    reveal_strlit("claim");
    reveal_strlit("issue");
    reveal_strlit("release");
    reveal_strlit("decide");
    reveal_strlit("decision");
    reveal_strlit("comment");
    reveal_strlit("update");
    assert("hayven"@.len() != "amt"@.len());
    assert("git"@[0] != "amt"@[0]);
    assert("sh"@.len() != "amt"@.len());
    assert("claim"@[0] != "issue"@[0]);
    assert("release"@.len() != "issue"@.len());
    assert("decide"@.len() != "issue"@.len());
    assert("decision"@.len() != "issue"@.len());
    assert("comment"@.len() != "update"@.len());
    assert("issue"@[0] != "update"@[0]);
    reveal_strlit("remember");
    assert("release"@[2] != "claim"@[2]);
    assert("release"@[0] != "issue"@[0]);
    assert("release"@.len() != "decide"@.len());
    assert("release"@.len() != "decision"@.len());
    assert("release"@.len() != "remember"@.len());
    assert("decide"@[0] != "claim"@[0]);
    assert("decision"@[0] != "claim"@[0]);
    assert("issue"@[0] != "claim"@[0]);
    assert("remember"@[0] != "claim"@[0]);
}

/// The recorded outcomes are distinct words.
proof fn lemma_outcome_words()
    ensures
        "completed"@ != "released"@,
        "completed"@ != "agent_timeout"@,
        "completed"@ != "gate_failed"@,
        "completed"@ != "error"@,
        "error"@ != "released"@,
        "error"@ != "agent_timeout"@,
        "error"@ != "gate_failed"@,
        "agent_timeout"@ != "gate_failed"@,
        "released"@ != "agent_timeout"@,
        "released"@ != "gate_failed"@,
{
    reveal_strlit("completed");
    reveal_strlit("released");
    reveal_strlit("agent_timeout");
    reveal_strlit("gate_failed");
    reveal_strlit("error");
    assert("completed"@.len() == 9);
    assert("released"@.len() == 8);
    assert("agent_timeout"@.len() == 13);
    assert("gate_failed"@.len() == 11);
    assert("error"@.len() == 5);
}

/// Every call from index `from` on goes to one of the two parent CLIs,
/// `amt` or `hayven`: no agent ran, and no test command.
#[verifier::opaque]
pub open spec fn parents_only(calls: Seq<Call>, from: int) -> bool {
    forall|i: int|
        from <= i < calls.len() ==> (#[trigger] calls[i]).argv.len() > 0 && (calls[i].argv[0] == "amt"@
            || calls[i].argv[0] == "hayven"@)
}

proof fn lemma_run_parents(calls: Seq<Call>, from: int, prog: Seq<char>)
    requires
        all_run(calls, from, prog),
        prog == "amt"@ || prog == "hayven"@,
    ensures
        parents_only(calls, from),
{
    reveal(parents_only);
    assert forall|i: int| from <= i < calls.len() implies (#[trigger] calls[i]).argv.len() > 0 && (
    calls[i].argv[0] == "amt"@ || calls[i].argv[0] == "hayven"@) by {
        assert(calls[i].argv[0] == prog);
    }
}

/// One more `hayven` call is a parent's.
proof fn lemma_parents_last(c1: Seq<Call>, c2: Seq<Call>, n: int)
    requires
        0 <= n <= c1.len(),
        c2.len() == c1.len() + 1,
        c2.drop_last() == c1,
        c2.last().argv.len() > 0,
        c2.last().argv[0] == "hayven"@,
        parents_only(c1, n),
    ensures
        parents_only(c2, n),
{
    reveal(parents_only);
    assert forall|i: int| n <= i < c2.len() implies (#[trigger] c2[i]).argv.len() > 0 && (c2[i].argv[0]
        == "amt"@ || c2[i].argv[0] == "hayven"@) by {
        if i < c1.len() {
            assert(c2[i] == c2.drop_last()[i]);
        }
    }
}

proof fn lemma_parents_join(c1: Seq<Call>, c2: Seq<Call>, n: int)
    requires
        0 <= n <= c1.len() <= c2.len(),
        c2.take(c1.len() as int) == c1,
        parents_only(c1, n),
        parents_only(c2, c1.len() as int),
    ensures
        parents_only(c2, n),
{
    reveal(parents_only);
    assert forall|i: int| n <= i < c2.len() implies (#[trigger] c2[i]).argv.len() > 0 && (c2[i].argv[0]
        == "amt"@ || c2[i].argv[0] == "hayven"@) by {
        if i < c1.len() {
            assert(c2[i] == c2.take(c1.len() as int)[i]);
        }
    }
}

proof fn lemma_run_no_advance(calls: Seq<Call>, from: int, prog: Seq<char>)
    requires
        all_run(calls, from, prog),
        prog != "amt"@,
    ensures
        no_advance(calls, from),
{
    assert forall|i: int| from <= i < calls.len() implies !is_advance((#[trigger] calls[i]).argv) by {
        assert(calls[i].argv[0] == prog);
    }
}

proof fn lemma_no_advance_join(c1: Seq<Call>, c2: Seq<Call>, n: int)
    requires
        0 <= n <= c1.len() <= c2.len(),
        c2.take(c1.len() as int) == c1,
        no_advance(c1, n),
        no_advance(c2, c1.len() as int),
    ensures
        no_advance(c2, n),
{
    assert forall|i: int| n <= i < c2.len() implies !is_advance((#[trigger] c2[i]).argv) by {
        if i < c1.len() {
            assert(c2[i] == c2.take(c1.len() as int)[i]);
        }
    }
}

proof fn lemma_no_claim_join(c1: Seq<Call>, c2: Seq<Call>, n: int)
    requires
        0 <= n <= c1.len() <= c2.len(),
        c2.take(c1.len() as int) == c1,
        no_claim(c1, n),
        no_claim(c2, c1.len() as int),
    ensures
        no_claim(c2, n),
{
    assert forall|i: int| n <= i < c2.len() implies !is_claim((#[trigger] c2[i]).argv) by {
        if i < c1.len() {
            assert(c2[i] == c2.take(c1.len() as int)[i]);
        }
    }
}

/// The issue mapped to symbols: the ids in a `hayven query` answer.
pub open spec fn mapped(out: Result<OutView, Seq<char>>) -> Seq<Seq<char>> {
    match crate::hayven::hv_json(out) {
        Ok(q) => crate::gitrange::extract_ids_spec(q),
        Err(_) => seq![],
    }
}

/// The blast radius: the ids the `hayven impact` answers name, summed
/// (saturating).
pub open spec fn blast_of(seg: Seq<Call>) -> int
    decreases seg.len(),
{
    if seg.len() == 0 {
        0
    } else {
        let a = blast_of(seg.drop_last());
        let n = match crate::hayven::hv_json(seg.last().out) {
            Ok(v) => crate::gitrange::extract_ids_spec(v).len() as int,
            Err(_) => 0,
        };
        if a + n > usize::MAX {
            usize::MAX as int
        } else {
            a + n
        }
    }
}

/// Map the issue title to symbols with `hayven query`, then take each
/// symbol's blast radius with `hayven impact`.
fn map_phase<R: Runner>(hv: &Hayven, runner: &mut R, title: &str) -> (r: (Vec<String>, usize))
    ensures
        ({
            let c = final(runner).calls();
            let n = old(runner).calls().len();
            &&& c.len() == n + 1 + r.0@.len()
            &&& c.take(n as int) == old(runner).calls()
            &&& all_run(c, n as int, "hayven"@)
            &&& c[n as int].argv == seq!["hayven"@, "query"@, title@, "--json"@]
            &&& string_views(r.0@) == mapped(c[n as int].out)
            &&& forall|i: int|
                0 <= i < r.0@.len() ==> (#[trigger] c[n + 1 + i]).argv == seq![
                    "hayven"@,
                    "impact"@,
                    r.0@[i]@,
                    "--json"@,
                ]
            &&& r.1 == blast_of(c.skip(n + 1int))
        }),
{
    let ghost c0 = runner.calls();
    let q = hv.query(runner, title);
    let ghost c1 = runner.calls();
    let entities = match q {
        Ok(v) => crate::gitrange::extract_ids(&v),
        Err(_) => Vec::new(),
    };
    proof {
        assert(string_views(entities@) == mapped(c1.last().out));
        assert(c1.take(c0.len() as int) =~= c0);
        assert(c1.skip(c1.len() as int) =~= Seq::<Call>::empty());
    }
    let mut blast: usize = 0;
    let mut i: usize = 0;
    while i < entities.len()
        invariant
            i <= entities@.len(),
            c0 == old(runner).calls(),
            c1.len() == c0.len() + 1,
            c1.take(c0.len() as int) == c0,
            c1[c0.len() as int].argv == seq!["hayven"@, "query"@, title@, "--json"@],
            string_views(entities@) == mapped(c1[c0.len() as int].out),
            runner.calls().len() == c1.len() + i,
            runner.calls().take(c1.len() as int) == c1,
            forall|k: int|
                0 <= k < i ==> (#[trigger] runner.calls()[c1.len() + k]).argv == seq![
                    "hayven"@,
                    "impact"@,
                    entities@[k]@,
                    "--json"@,
                ],
            blast == blast_of(runner.calls().skip(c1.len() as int)),
        decreases entities@.len() - i,
    {
        let ghost cb = runner.calls();
        let imp = hv.impact(runner, entities[i].as_str());
        let n: usize = match imp {
            Ok(v) => crate::gitrange::extract_ids(&v).len(),
            Err(_) => 0,
        };
        blast = blast.saturating_add(n);
        proof {
            let c = runner.calls();
            assert(c.drop_last() == cb);
            assert(c.take(c1.len() as int) =~= cb.take(c1.len() as int));
            assert(c.skip(c1.len() as int).drop_last() =~= cb.skip(c1.len() as int));
            assert forall|k: int| 0 <= k < i + 1 implies (#[trigger] c[c1.len() + k]).argv == seq![
                "hayven"@,
                "impact"@,
                entities@[k]@,
                "--json"@,
            ] by {
                if k < i {
                    assert(c[c1.len() + k] == cb[c1.len() + k]);
                }
            }
        }
        i = i + 1;
    }
    proof {
        let c = runner.calls();
        assert(c[c0.len() as int] == c1[c0.len() as int]) by {
            assert(c[c0.len() as int] == c.take(c1.len() as int)[c0.len() as int]);
        }
        assert(c.take(c0.len() as int) =~= c1.take(c0.len() as int));
        assert forall|k: int| c0.len() <= k < c.len() implies (#[trigger] c[k]).argv.len() > 0
            && c[k].argv[0] == "hayven"@ by {
            if k >= c1.len() {
                assert(c[c1.len() + (k - c1.len())].argv[0] == "hayven"@);
            }
        }
    }
    (entities, blast)
}

/// How many `hayven context` reads succeeded among the brief's calls.
pub open spec fn packs_of(seg: Seq<Call>) -> int
    decreases seg.len(),
{
    if seg.len() < 2 {
        0
    } else {
        packs_of(seg.take(seg.len() - 2)) + if crate::hayven::hv_json(seg[seg.len() - 2].out) is Ok {
            1int
        } else {
            0int
        }
    }
}

/// Assemble context and recall for each entity (best-effort); returns how
/// many context packs were assembled.
fn brief_phase<R: Runner>(hv: &Hayven, runner: &mut R, entities: &Vec<String>) -> (packs: usize)
    ensures
        ({
            let c = final(runner).calls();
            let n = old(runner).calls().len();
            &&& c.len() == n + 2 * entities@.len()
            &&& c.take(n as int) == old(runner).calls()
            &&& all_run(c, n as int, "hayven"@)
            &&& forall|i: int|
                0 <= i < entities@.len() ==> (#[trigger] c[n + 2 * i]).argv == seq![
                    "hayven"@,
                    "context"@,
                    entities@[i]@,
                    "--json"@,
                ] && c[n + 2 * i + 1].argv == seq![
                    "hayven"@,
                    "recall"@,
                    "--node"@,
                    entities@[i]@,
                    "--json"@,
                ]
            &&& packs == packs_of(c.skip(n as int))
        }),
{
    let ghost c0 = runner.calls();
    let mut packs: usize = 0;
    let mut i: usize = 0;
    proof {
        assert(runner.calls().take(c0.len() as int) =~= c0);
        assert(runner.calls().skip(c0.len() as int) =~= Seq::<Call>::empty());
    }
    while i < entities.len()
        invariant
            i <= entities@.len(),
            c0 == old(runner).calls(),
            packs <= i,
            runner.calls().len() == c0.len() + 2 * i,
            runner.calls().take(c0.len() as int) == c0,
            all_run(runner.calls(), c0.len() as int, "hayven"@),
            forall|k: int|
                0 <= k < i ==> (#[trigger] runner.calls()[c0.len() + 2 * k]).argv == seq![
                    "hayven"@,
                    "context"@,
                    entities@[k]@,
                    "--json"@,
                ] && runner.calls()[c0.len() + 2 * k + 1].argv == seq![
                    "hayven"@,
                    "recall"@,
                    "--node"@,
                    entities@[k]@,
                    "--json"@,
                ],
            packs == packs_of(runner.calls().skip(c0.len() as int)),
        decreases entities@.len() - i,
    {
        let ghost cb = runner.calls();
        let ok = hv.context(runner, entities[i].as_str()).is_ok();
        let ghost cm = runner.calls();
        if ok {
            packs = packs + 1;
        }
        let _ = hv.recall_node(runner, entities[i].as_str());
        proof {
            let c = runner.calls();
            assert(c.drop_last() == cm);
            assert(cm.drop_last() == cb);
            assert(c.take(cb.len() as int) =~= cb);
            assert(c.take(c0.len() as int) =~= cb.take(c0.len() as int));
            let sg = c.skip(c0.len() as int);
            assert(sg.take(sg.len() - 2) =~= cb.skip(c0.len() as int));
            assert(sg[sg.len() - 2] == cm.last());
            assert forall|k: int| 0 <= k < i + 1 implies (#[trigger] c[c0.len() + 2 * k]).argv == seq![
                "hayven"@,
                "context"@,
                entities@[k]@,
                "--json"@,
            ] && c[c0.len() + 2 * k + 1].argv == seq![
                "hayven"@,
                "recall"@,
                "--node"@,
                entities@[k]@,
                "--json"@,
            ] by {
                if k < i {
                    assert(c[c0.len() + 2 * k] == cb[c0.len() + 2 * k]);
                    assert(c[c0.len() + 2 * k + 1] == cb[c0.len() + 2 * k + 1]);
                } else {
                    assert(c[c0.len() + 2 * k] == cm.last());
                }
            }
            assert forall|k: int| c0.len() <= k < c.len() implies (#[trigger] c[k]).argv.len() > 0
                && c[k].argv[0] == "hayven"@ by {
                if k < cb.len() {
                    assert(c[k] == cb[k]);
                } else if k == cb.len() {
                    assert(c[k] == cm.last());
                }
            }
        }
        i = i + 1;
    }
    packs
}

/// The deadend note: `deadend: <issue> exhausted retries — <reason>`.
pub open spec fn deadend_note(issue: Seq<char>, reason: Seq<char>) -> Seq<char> {
    "deadend: "@ + issue + " exhausted retries — "@ + reason
}

/// The last call files the deadend note for `issue` with `reason`: on the
/// first of `entities`, scoped to all of them.
pub open spec fn deadend_filed(
    calls: Seq<Call>,
    issue: Seq<char>,
    entities: Seq<Seq<char>>,
    reason: Seq<char>,
) -> bool {
    calls.len() > 0 && calls.last().argv == crate::hayven::remember_argv(
        deadend_note(issue, reason),
        if entities.len() > 0 {
            Some(entities[0])
        } else {
            None
        },
        "deadend"@,
        entities,
    )
}

/// File a deadend fleet-memory note when a retry budget is exhausted: on
/// the first entity, scoped to all of them.
pub fn file_deadend<R: Runner>(hv: &Hayven, runner: &mut R, entities: &[String], issue: &str, reason: &str)
    ensures
        one_call(
            old(runner).calls(),
            final(runner).calls(),
            crate::hayven::remember_argv(
                deadend_note(issue@, reason@),
                if entities@.len() > 0 {
                    Some(entities@[0]@)
                } else {
                    None
                },
                "deadend"@,
                string_views(entities@),
            ),
        ),
{
    let mut note = str_of("deadend: ");
    push_str(&mut note, issue);
    push_str(&mut note, " exhausted retries — ");
    push_str(&mut note, reason);
    let primary: Option<&str> = if entities.len() > 0 {
        Some(entities[0].as_str())
    } else {
        None
    };
    let _ = hv.remember(runner, note.as_str(), primary, "deadend", entities);
}

/// What `char::is_alphanumeric` says of a character (Unicode alphabetic or
/// numeric).
pub uninterp spec fn alphanumeric(c: char) -> bool;

/// `char::is_alphanumeric`; ASCII letters and digits are alphanumeric.
#[verifier::external_body]
fn is_alphanumeric(c: char) -> (r: bool)
    ensures
        r == alphanumeric(c),
        ('a' <= c <= 'z' || 'A' <= c <= 'Z' || '0' <= c <= '9') ==> r,
{
    c.is_alphanumeric()
}

/// An issue ref made safe for a file name: alphanumerics and `-` kept, every
/// other character `_`.
pub open spec fn safe_name(s: Seq<char>) -> Seq<char> {
    s.map_values(|c: char| if alphanumeric(c) || c == '-' { c } else { '_' })
}

/// The agent log for an issue at a time: `.sirius/logs/<issue>-<secs>.log`.
pub open spec fn log_path_spec(issue: Seq<char>, secs: nat) -> Seq<char> {
    ".sirius/logs/"@ + safe_name(issue) + "-"@ + dec(secs) + ".log"@
}

/// The durable log path for an agent run started at `secs`.
pub fn log_path_for(issue: &str, secs: u64) -> (p: String)
    ensures
        p@ == log_path_spec(issue@, secs as nat),
{
    let cs = crate::text::chars_of(issue);
    let mut safe: Vec<char> = Vec::new();
    let mut i: usize = 0;
    while i < cs.len()
        invariant
            i <= cs@.len(),
            cs@ == issue@,
            safe@ == safe_name(cs@.take(i as int)),
        decreases cs@.len() - i,
    {
        let c = cs[i];
        let k = if is_alphanumeric(c) || c == '-' {
            c
        } else {
            '_'
        };
        safe.push(k);
        assert(safe_name(cs@.take(i + 1)) =~= safe_name(cs@.take(i as int)).push(k));
        i = i + 1;
    }
    assert(cs@.take(cs@.len() as int) =~= cs@);
    let mut p = str_of(".sirius/logs/");
    let sn = crate::text::string_of(safe.as_slice());
    push_str(&mut p, sn.as_str());
    push_str(&mut p, "-");
    let t = crate::text::u64_str(secs);
    push_str(&mut p, t.as_str());
    push_str(&mut p, ".log");
    p
}

/// The durable log path for one agent run: `.sirius/logs/<issue>-<ts>.log`
/// at the current time; `None` only if the clock reads before the epoch.
pub fn agent_log_path(issue: &str) -> (p: Option<String>)
    ensures
        p matches Some(s) ==> exists|secs: nat| s@ == log_path_spec(issue@, secs),
{
    match crate::ledger::clock() {
        Some((secs, _)) => Some(log_path_for(issue, secs)),
        None => None,
    }
}


// ── one attempt at the work and its gate ────────────────────────────────────

/// What the test gate came to in one attempt.
#[derive(Debug, Clone, Copy, PartialEq, Eq, Structural)]
pub enum GateResult {
    Pass,
    Fail,
    /// The agent changed nothing, so there was nothing to gate.
    Skipped,
}

pub open spec fn gate_name(g: GateResult) -> Seq<char> {
    match g {
        GateResult::Pass => "pass"@,
        GateResult::Fail => "fail"@,
        GateResult::Skipped => "skipped"@,
    }
}

impl GateResult {
    pub fn name(&self) -> (s: &'static str)
        ensures
            s@ == gate_name(*self),
    {
        match self {
            GateResult::Pass => "pass",
            GateResult::Fail => "fail",
            GateResult::Skipped => "skipped",
        }
    }
}

/// How one WORK+GATE attempt ended.
#[derive(Debug, Clone, Copy, PartialEq, Eq, Structural)]
pub enum Attempt {
    /// The agent was killed at its timeout; nothing was gated.
    TimedOut,
    Gated { result: GateResult, work_ok: bool },
}

/// The heartbeat commands: renew the issue lease, and re-claim the held
/// entities with the same intent (same agent and id = refresh).
pub open spec fn hb_spec(
    issue: Seq<char>,
    worker: Seq<char>,
    held: Seq<Seq<char>>,
    intent: Seq<char>,
) -> Seq<Seq<Seq<char>>> {
    seq![crate::amt::heartbeat_argv(issue, worker)] + if held.len() > 0 {
        seq![claim_argv(held, intent, false)]
    } else {
        seq![]
    }
}

/// The comment a failing gate files in the loop.
pub open spec fn gate_fail_note(plan: Seq<char>, reason: Seq<char>) -> Seq<char> {
    "sirius: gate failed ["@ + plan + "]: "@ + reason
}

/// After the verdict `v`, the last call: advance on a pass, comment on a fail.
pub open spec fn gate_tail(
    mid: Seq<Call>,
    after: Seq<Call>,
    v: crate::gate::VerdictV,
    issue: Seq<char>,
    target: Seq<char>,
    result: GateResult,
) -> bool {
    if v.passed {
        result == GateResult::Pass && one_call(mid, after, crate::amt::update_argv(issue, target))
    } else {
        result == GateResult::Fail && one_call(
            mid,
            after,
            crate::amt::comment_argv(issue, gate_fail_note(v.plan, v.reason)),
        )
    }
}

/// The test gate of an attempt, from its `git diff` at index `g`: no changed files
/// (or a failed diff) skips it; otherwise the changed files are evaluated and
/// the verdict applied.
pub open spec fn gate_from(
    after: Seq<Call>,
    g: int,
    config: Config,
    issue: Seq<char>,
    result: GateResult,
) -> bool {
    &&& after[g].argv == crate::gitrange::diff_argv(None)
    &&& match crate::gitrange::git_list(after[g].out, "git diff failed"@) {
        Ok(files) => if files.len() > 0 {
            exists|mid: Seq<Call>, v: crate::gate::VerdictV|
                crate::gate::evaluate_spec(
                    crate::gate::cmd_of(config.gate.test_cmd),
                    config.gate.fallback,
                    files,
                    after.take(g + 1),
                    mid,
                    v,
                ) && #[trigger] gate_tail(mid, after, v, issue, config.target_status@, result)
        } else {
            result == GateResult::Skipped && after.len() == g + 1
        },
        Err(_) => result == GateResult::Skipped && after.len() == g + 1,
    }
}

/// One attempt: a heartbeat, the agent run under supervision (with whole
/// rounds of heartbeats while it runs), then — unless it was killed — the
/// gate over its changes.
pub open spec fn attempt_spec(
    before: Seq<Call>,
    after: Seq<Call>,
    config: Config,
    worker: Seq<char>,
    issue: Seq<char>,
    agent_cmd: Seq<char>,
    held: Seq<Seq<char>>,
    intent: Seq<char>,
    a: Attempt,
) -> bool {
    let n = before.len() as int;
    let hb = hb_spec(issue, worker, held, intent);
    &&& after.len() >= n + 2
    &&& after.take(n) == before
    &&& after[n].argv == crate::amt::heartbeat_argv(issue, worker)
    &&& after[n + 1].argv == seq!["sh"@, "-c"@, agent_cmd]
    &&& (a is TimedOut) == after[n + 1].killed
    &&& match a {
        Attempt::TimedOut => crate::shell::heartbeat_rounds(after.skip(n + 2), hb),
        Attempt::Gated { result, work_ok } => {
            &&& work_ok == (after[n + 1].out matches Ok(o) && o.code == Some(0i32))
            &&& exists|g: int|
                n + 2 <= g < after.len() && crate::shell::heartbeat_rounds(after.subrange(n + 2, g), hb)
                    && #[trigger] gate_from(after, g, config, issue, result)
        },
    }
}

/// `log` from index `from` on is `k` attempts in a row, each of which ended
/// in a failed gate.
pub open spec fn failed_attempts(
    log: Seq<Call>,
    from: int,
    k: nat,
    config: Config,
    worker: Seq<char>,
    issue: Seq<char>,
    agent_cmd: Seq<char>,
    held: Seq<Seq<char>>,
    intent: Seq<char>,
) -> bool
    decreases k,
{
    if k == 0 {
        log.len() == from
    } else {
        exists|mid: int, w: bool|
            from <= mid < log.len() && failed_attempts(
                log.take(mid),
                from,
                (k - 1) as nat,
                config,
                worker,
                issue,
                agent_cmd,
                held,
                intent,
            ) && #[trigger] attempt_spec(
                log.take(mid),
                log,
                config,
                worker,
                issue,
                agent_cmd,
                held,
                intent,
                Attempt::Gated { result: GateResult::Fail, work_ok: w },
            )
    }
}

/// `log` from index `from` on is `k` attempts in a row: the last ended in
/// `a`, and every one before it in a failed gate.
pub open spec fn attempts(
    log: Seq<Call>,
    from: int,
    k: nat,
    config: Config,
    worker: Seq<char>,
    issue: Seq<char>,
    agent_cmd: Seq<char>,
    held: Seq<Seq<char>>,
    intent: Seq<char>,
    a: Attempt,
) -> bool {
    &&& k >= 1
    &&& exists|mid: int|
        from <= mid < log.len() && failed_attempts(
            log.take(mid),
            from,
            (k - 1) as nat,
            config,
            worker,
            issue,
            agent_cmd,
            held,
            intent,
        ) && #[trigger] attempt_spec(log.take(mid), log, config, worker, issue, agent_cmd, held, intent, a)
}

/// How many WORK+GATE attempts an iteration may make: the retry budget, and
/// at least one.
pub open spec fn attempt_budget(budget: u32) -> nat {
    if budget > 1 {
        budget as nat
    } else {
        1
    }
}

/// The error an iteration ends in when its agent failed and left nothing to
/// gate.
pub open spec fn nothing_gated() -> Seq<char> {
    "agent failed and left nothing to gate"@
}

/// The last attempt advances the issue: its gate passed, or it was skipped
/// (nothing changed) over an agent run that succeeded.
pub open spec fn advances(a: Attempt) -> bool {
    match a {
        Attempt::TimedOut => false,
        Attempt::Gated { result, work_ok } => result == GateResult::Pass || (result == GateResult::Skipped
            && work_ok),
    }
}

/// How the last attempt `a` of an iteration relates to its outcome `r`: a
/// deadend is a killed agent or a failed gate; a completion an attempt that
/// advances; an error a failed agent run that left nothing to gate.
pub open spec fn ended_by(r: IterationOutcome, a: Attempt) -> bool {
    match r {
        IterationOutcome::Deadend => a is TimedOut || (a matches Attempt::Gated { result, .. } && result
            == GateResult::Fail),
        IterationOutcome::Completed => advances(a),
        IterationOutcome::Error(e) => e@ == nothing_gated() && a == (Attempt::Gated {
            result: GateResult::Skipped,
            work_ok: false,
        }),
        _ => false,
    }
}

/// The ledger outcome and gate result an iteration whose last attempt was
/// `a` is recorded with.
pub open spec fn attempt_record(a: Attempt) -> (Seq<char>, Option<Seq<char>>) {
    match a {
        Attempt::TimedOut => ("agent_timeout"@, None),
        Attempt::Gated { result, work_ok } => (
            if result == GateResult::Fail {
                "gate_failed"@
            } else if advances(a) {
                "completed"@
            } else {
                "error"@
            },
            Some(gate_name(result)),
        ),
    }
}

/// The outcome and gate result a ledger row holds.
pub open spec fn row_record(row: IterationRow) -> (Seq<char>, Option<Seq<char>>) {
    (
        match row.outcome {
            Some(o) => o@,
            None => seq![],
        },
        crate::hayven::opt_view(row.gate_result),
    )
}

/// The iteration worked as [`worked`] says, ending in `r`, and `row` (when
/// there is one) records its last attempt.
#[verifier::opaque]
pub open spec fn worked_as(
    calls: Seq<Call>,
    from: int,
    config: Config,
    worker: Seq<char>,
    issue: Seq<char>,
    agent_cmd: Seq<char>,
    held: Seq<Seq<char>>,
    intent: Seq<char>,
    retries: Option<int>,
    r: IterationOutcome,
    row: Option<IterationRow>,
) -> bool {
    exists|rec: (Seq<char>, Option<Seq<char>>)|
        #[trigger] worked(calls, from, config, worker, issue, agent_cmd, held, intent, retries, r, rec) && (row matches Some(
            w,
        ) ==> rec == row_record(w))
}

/// The calls of an iteration hold its WORK+GATE attempts: `k` of them, at
/// most the budget, each running the agent command while heartbeats renew
/// the issue and the `held` entities (with `intent`); all but the last failed
/// their gate, the last ended the iteration as `r` and is recorded as `rec`,
/// and a failed gate ended it only once the budget was spent. After the last
/// attempt only the parents are called (receipt, releases, deadend note),
/// and none of those calls advances the issue or claims anything; nor does
/// any call from `from` up to the first attempt advance the issue; with
/// `retries` known, the attempts were one more than the retries.
pub open spec fn worked(
    calls: Seq<Call>,
    from: int,
    config: Config,
    worker: Seq<char>,
    issue: Seq<char>,
    agent_cmd: Seq<char>,
    held: Seq<Seq<char>>,
    intent: Seq<char>,
    retries: Option<int>,
    r: IterationOutcome,
    rec: (Seq<char>, Option<Seq<char>>),
) -> bool {
    exists|w0: int, w1: int, k: nat, a: Attempt|
        from <= w0 < w1 <= calls.len() && 1 <= k <= attempt_budget(config.retry_budget)
            && #[trigger] attempts(calls.take(w1), w0, k, config, worker, issue, agent_cmd, held, intent, a)
            && ended_by(r, a) && attempt_record(a) == rec && ((a matches Attempt::Gated { result, .. }
            && result == GateResult::Fail) ==> k == attempt_budget(config.retry_budget)) && parents_only(
            calls,
            w1,
        ) && no_advance(calls, w1) && no_claim(calls, w1) && no_advance(calls.take(w0), from) && (retries matches Some(x) ==> k == x + 1)
}

proof fn lemma_worked(
    c: Seq<Call>,
    cw: Seq<Call>,
    cw2: Seq<Call>,
    from: int,
    config: Config,
    worker: Seq<char>,
    issue: Seq<char>,
    agent_cmd: Seq<char>,
    held: Seq<Seq<char>>,
    intent: Seq<char>,
    retries: Option<int>,
    a: Attempt,
    r: IterationOutcome,
    row: Option<IterationRow>,
)
    requires
        from <= cw.len() <= cw2.len() <= c.len(),
        c.take(cw2.len() as int) == cw2,
        exists|k: nat|
            1 <= k <= attempt_budget(config.retry_budget) && #[trigger] attempts(
                cw2,
                cw.len() as int,
                k,
                config,
                worker,
                issue,
                agent_cmd,
                held,
                intent,
                a,
            ) && ((a matches Attempt::Gated { result, .. } && result == GateResult::Fail) ==> k
                == attempt_budget(config.retry_budget)) && (retries matches Some(x) ==> k == x + 1),
        ended_by(r, a),
        row matches Some(w) ==> attempt_record(a) == row_record(w),
        parents_only(c, cw2.len() as int),
        no_advance(c, cw2.len() as int),
        no_claim(c, cw2.len() as int),
        no_advance(cw, from),
        cw2.take(cw.len() as int) == cw,
    ensures
        worked(c, from, config, worker, issue, agent_cmd, held, intent, retries, r, attempt_record(a)),
        worked_as(c, from, config, worker, issue, agent_cmd, held, intent, retries, r, row),
{
    let k = choose|k: nat|
        1 <= k <= attempt_budget(config.retry_budget) && #[trigger] attempts(
            cw2,
            cw.len() as int,
            k,
            config,
            worker,
            issue,
            agent_cmd,
            held,
            intent,
            a,
        ) && ((a matches Attempt::Gated { result, .. } && result == GateResult::Fail) ==> k
            == attempt_budget(config.retry_budget)) && (retries matches Some(x) ==> k == x + 1);
    assert(attempts(
        c.take(cw2.len() as int),
        cw.len() as int,
        k,
        config,
        worker,
        issue,
        agent_cmd,
        held,
        intent,
        a,
    ));
    reveal(worked_as);
    assert(c.take(cw.len() as int) =~= cw) by {
        assert(c.take(cw.len() as int) =~= c.take(cw2.len() as int).take(cw.len() as int));
    }
    assert(worked(c, from, config, worker, issue, agent_cmd, held, intent, retries, r, attempt_record(a)));
}

proof fn lemma_worked_from(
    c: Seq<Call>,
    from1: int,
    from0: int,
    config: Config,
    worker: Seq<char>,
    issue: Seq<char>,
    agent_cmd: Seq<char>,
    held: Seq<Seq<char>>,
    intent: Seq<char>,
    retries: Option<int>,
    r: IterationOutcome,
    row: Option<IterationRow>,
)
    requires
        worked_as(c, from1, config, worker, issue, agent_cmd, held, intent, retries, r, row),
        0 <= from0 <= from1,
        forall|i: int| from0 <= i < from1 ==> !is_advance((#[trigger] c[i]).argv),
    ensures
        worked_as(c, from0, config, worker, issue, agent_cmd, held, intent, retries, r, row),
{
    reveal(worked_as);
    let rec = choose|rec: (Seq<char>, Option<Seq<char>>)|
        #[trigger] worked(c, from1, config, worker, issue, agent_cmd, held, intent, retries, r, rec) && (row matches Some(w) ==> rec
            == row_record(w));
    let (w0, w1, k, a) = choose|w0: int, w1: int, k: nat, a: Attempt|
        from1 <= w0 < w1 <= c.len() && 1 <= k <= attempt_budget(config.retry_budget)
            && #[trigger] attempts(c.take(w1), w0, k, config, worker, issue, agent_cmd, held, intent, a)
            && ended_by(r, a) && attempt_record(a) == rec && ((a matches Attempt::Gated { result, .. }
            && result == GateResult::Fail) ==> k == attempt_budget(config.retry_budget)) && parents_only(c, w1)
            && no_advance(c, w1) && no_claim(c, w1) && no_advance(c.take(w0), from1) && (retries matches Some(
            x,
        ) ==> k == x + 1);
    assert(attempts(c.take(w1), w0, k, config, worker, issue, agent_cmd, held, intent, a));
    assert(no_advance(c.take(w0), from0)) by {
        assert forall|i: int| from0 <= i < c.take(w0).len() implies !is_advance((#[trigger] c.take(w0)[i]).argv) by {
            if i < from1 {
                assert(c.take(w0)[i] == c[i]);
            }
        }
    }
    assert(worked(c, from0, config, worker, issue, agent_cmd, held, intent, retries, r, rec));
}

proof fn lemma_worked_as_none(
    c: Seq<Call>,
    from: int,
    config: Config,
    worker: Seq<char>,
    issue: Seq<char>,
    agent_cmd: Seq<char>,
    held: Seq<Seq<char>>,
    intent: Seq<char>,
    retries: Option<int>,
    r: IterationOutcome,
    row: Option<IterationRow>,
)
    requires
        worked_as(c, from, config, worker, issue, agent_cmd, held, intent, retries, r, row),
    ensures
        worked_as(c, from, config, worker, issue, agent_cmd, held, intent, None, r, None),
{
    reveal(worked_as);
    let rec = choose|rec: (Seq<char>, Option<Seq<char>>)|
        #[trigger] worked(c, from, config, worker, issue, agent_cmd, held, intent, retries, r, rec) && (row matches Some(w) ==> rec
            == row_record(w));
    let (w0, w1, k, a) = choose|w0: int, w1: int, k: nat, a: Attempt|
        from <= w0 < w1 <= c.len() && 1 <= k <= attempt_budget(config.retry_budget)
            && #[trigger] attempts(c.take(w1), w0, k, config, worker, issue, agent_cmd, held, intent, a)
            && ended_by(r, a) && attempt_record(a) == rec && ((a matches Attempt::Gated { result, .. }
            && result == GateResult::Fail) ==> k == attempt_budget(config.retry_budget)) && parents_only(c, w1)
            && no_advance(c, w1) && no_claim(c, w1) && no_advance(c.take(w0), from) && (retries matches Some(
            x,
        ) ==> k == x + 1);
    assert(attempts(c.take(w1), w0, k, config, worker, issue, agent_cmd, held, intent, a));
    assert(worked(c, from, config, worker, issue, agent_cmd, held, intent, None, r, rec));
}

proof fn lemma_repeat_no_advance(hb: Seq<Seq<Seq<char>>>, k: nat)
    requires
        forall|j: int| 0 <= j < hb.len() ==> !is_advance(#[trigger] hb[j]),
    ensures
        forall|i: int|
            0 <= i < crate::shell::repeat(hb, k).len() ==> !is_advance(
                #[trigger] crate::shell::repeat(hb, k)[i],
            ),
    decreases k,
{
    if k > 0 {
        lemma_repeat_no_advance(hb, (k - 1) as nat);
        let p = crate::shell::repeat(hb, (k - 1) as nat);
        assert forall|i: int| 0 <= i < crate::shell::repeat(hb, k).len() implies !is_advance(
            #[trigger] crate::shell::repeat(hb, k)[i],
        ) by {
            if i < p.len() {
                assert(crate::shell::repeat(hb, k)[i] == p[i]);
            } else {
                assert(crate::shell::repeat(hb, k)[i] == hb[i - p.len()]);
            }
        }
    }
}

proof fn lemma_rounds_no_advance(rest: Seq<Call>, hb: Seq<Seq<Seq<char>>>)
    requires
        crate::shell::heartbeat_rounds(rest, hb),
        forall|j: int| 0 <= j < hb.len() ==> !is_advance(#[trigger] hb[j]),
    ensures
        no_advance(rest, 0),
{
    let k = choose|k: nat| crate::shell::argvs(rest) == crate::shell::repeat(hb, k);
    lemma_repeat_no_advance(hb, k);
    assert forall|i: int| 0 <= i < rest.len() implies !is_advance((#[trigger] rest[i]).argv) by {
        assert(crate::shell::argvs(rest)[i] == rest[i].argv);
    }
}

proof fn lemma_repeat_no_issue_release(hb: Seq<Seq<Seq<char>>>, k: nat)
    requires
        forall|j: int| 0 <= j < hb.len() ==> !is_issue_release(#[trigger] hb[j]),
    ensures
        forall|i: int|
            0 <= i < crate::shell::repeat(hb, k).len() ==> !is_issue_release(
                #[trigger] crate::shell::repeat(hb, k)[i],
            ),
    decreases k,
{
    if k > 0 {
        lemma_repeat_no_issue_release(hb, (k - 1) as nat);
        let p = crate::shell::repeat(hb, (k - 1) as nat);
        assert forall|i: int| 0 <= i < crate::shell::repeat(hb, k).len() implies !is_issue_release(
            #[trigger] crate::shell::repeat(hb, k)[i],
        ) by {
            if i < p.len() {
                assert(crate::shell::repeat(hb, k)[i] == p[i]);
            } else {
                assert(crate::shell::repeat(hb, k)[i] == hb[i - p.len()]);
            }
        }
    }
}

proof fn lemma_rounds_no_issue_release(rest: Seq<Call>, hb: Seq<Seq<Seq<char>>>)
    requires
        crate::shell::heartbeat_rounds(rest, hb),
        forall|j: int| 0 <= j < hb.len() ==> !is_issue_release(#[trigger] hb[j]),
    ensures
        no_issue_release(rest, 0),
{
    let k = choose|k: nat| crate::shell::argvs(rest) == crate::shell::repeat(hb, k);
    lemma_repeat_no_issue_release(hb, k);
    assert forall|i: int| 0 <= i < rest.len() implies !is_issue_release((#[trigger] rest[i]).argv) by {
        assert(crate::shell::argvs(rest)[i] == rest[i].argv);
    }
}

proof fn lemma_hb_no_issue_release(issue: Seq<char>, worker: Seq<char>, held: Seq<Seq<char>>, intent: Seq<char>)
    ensures
        forall|j: int|
            0 <= j < hb_spec(issue, worker, held, intent).len() ==> !is_issue_release(
                #[trigger] hb_spec(issue, worker, held, intent)[j],
            ),
{
    lemma_words();
    let hb = hb_spec(issue, worker, held, intent);
    assert forall|j: int| 0 <= j < hb.len() implies !is_issue_release(#[trigger] hb[j]) by {
        if j == 0 {
            assert(hb[0] == crate::amt::heartbeat_argv(issue, worker));
        } else {
            assert(hb[1] == claim_argv(held, intent, false));
            assert(hb[1][0] == "hayven"@);
        }
    }
}

proof fn lemma_repeat_no_decide(hb: Seq<Seq<Seq<char>>>, k: nat)
    requires
        forall|j: int| 0 <= j < hb.len() ==> !is_decide(#[trigger] hb[j]),
    ensures
        forall|i: int|
            0 <= i < crate::shell::repeat(hb, k).len() ==> !is_decide(
                #[trigger] crate::shell::repeat(hb, k)[i],
            ),
    decreases k,
{
    if k > 0 {
        lemma_repeat_no_decide(hb, (k - 1) as nat);
        let p = crate::shell::repeat(hb, (k - 1) as nat);
        assert forall|i: int| 0 <= i < crate::shell::repeat(hb, k).len() implies !is_decide(
            #[trigger] crate::shell::repeat(hb, k)[i],
        ) by {
            if i < p.len() {
                assert(crate::shell::repeat(hb, k)[i] == p[i]);
            } else {
                assert(crate::shell::repeat(hb, k)[i] == hb[i - p.len()]);
            }
        }
    }
}

proof fn lemma_rounds_no_decide(rest: Seq<Call>, hb: Seq<Seq<Seq<char>>>)
    requires
        crate::shell::heartbeat_rounds(rest, hb),
        forall|j: int| 0 <= j < hb.len() ==> !is_decide(#[trigger] hb[j]),
    ensures
        no_decide(rest, 0),
{
    reveal(no_decide);
    let k = choose|k: nat| crate::shell::argvs(rest) == crate::shell::repeat(hb, k);
    lemma_repeat_no_decide(hb, k);
    assert forall|i: int| 0 <= i < rest.len() implies !is_decide((#[trigger] rest[i]).argv) by {
        assert(crate::shell::argvs(rest)[i] == rest[i].argv);
    }
}

proof fn lemma_hb_no_decide(issue: Seq<char>, worker: Seq<char>, held: Seq<Seq<char>>, intent: Seq<char>)
    ensures
        forall|j: int|
            0 <= j < hb_spec(issue, worker, held, intent).len() ==> !is_decide(
                #[trigger] hb_spec(issue, worker, held, intent)[j],
            ),
{
    lemma_words();
    let hb = hb_spec(issue, worker, held, intent);
    assert forall|j: int| 0 <= j < hb.len() implies !is_decide(#[trigger] hb[j]) by {
        if j == 0 {
            assert(hb[0] == crate::amt::heartbeat_argv(issue, worker));
        } else {
            assert(hb[1] == claim_argv(held, intent, false));
            assert(hb[1][0] == "hayven"@);
        }
    }
}

/// Linking a decision releases nothing: its calls are the decision's show,
/// a comment on the issue it resolves, and `hayven` notes.
proof fn lemma_link_no_issue_release(
    reference: Seq<char>,
    symbols: Seq<Seq<char>>,
    worker: Option<Seq<char>>,
    before: Seq<Call>,
    mid: Seq<Call>,
    after: Seq<Call>,
    fwd: bool,
    rev: bool,
    l0: Ledger,
    l1: Ledger,
    r: Result<crate::bridge::LinkV, Seq<char>>,
)
    requires
        crate::bridge::link_steps(
            crate::bridge::LinkKind::Decision,
            reference,
            symbols,
            worker,
            before,
            mid,
            after,
            fwd,
            rev,
            l0,
            l1,
            r,
        ),
    ensures
        no_issue_release(after, before.len() as int),
        no_advance(after, before.len() as int),
        no_claim(after, before.len() as int),
{
    lemma_words();
    let n = before.len() as int;
    let m1 = before.push(mid[n]);
    assert forall|i: int| n <= i < after.len() implies !is_issue_release((#[trigger] after[i]).argv) by {
        if i < mid.len() {
            assert(after[i] == after.take(mid.len() as int)[i]);
            if i == n {
                assert(mid[n] == m1.last());
            } else {
                assert(mid.drop_last() == m1);
                assert(i == mid.len() - 1);
            }
        } else {
            assert(after[i].argv[0] == "hayven"@);
        }
    }
    assert forall|i: int| n <= i < after.len() implies !is_advance((#[trigger] after[i]).argv) && !is_claim(
        after[i].argv,
    ) by {
        if i < mid.len() {
            assert(after[i] == after.take(mid.len() as int)[i]);
            if i == n {
                assert(mid[n] == m1.last());
            } else {
                assert(mid.drop_last() == m1);
                assert(i == mid.len() - 1);
            }
        } else {
            assert(after[i].argv[0] == "hayven"@);
            assert(after[i].argv[1] == "remember"@);
        }
    }
}

/// Linking a decision calls only the parents: the decision's show and a
/// comment on the issue it resolves (`amt`), and `hayven` notes.
proof fn lemma_link_parents(
    reference: Seq<char>,
    symbols: Seq<Seq<char>>,
    worker: Option<Seq<char>>,
    before: Seq<Call>,
    mid: Seq<Call>,
    after: Seq<Call>,
    fwd: bool,
    rev: bool,
    l0: Ledger,
    l1: Ledger,
    r: Result<crate::bridge::LinkV, Seq<char>>,
)
    requires
        crate::bridge::link_steps(
            crate::bridge::LinkKind::Decision,
            reference,
            symbols,
            worker,
            before,
            mid,
            after,
            fwd,
            rev,
            l0,
            l1,
            r,
        ),
    ensures
        parents_only(after, before.len() as int),
{
    lemma_words();
    let n = before.len() as int;
    let m1 = before.push(mid[n]);
    reveal(parents_only);
    assert forall|i: int| n <= i < after.len() implies (#[trigger] after[i]).argv.len() > 0 && (after[i].argv[0]
        == "amt"@ || after[i].argv[0] == "hayven"@) by {
        if i < mid.len() {
            assert(after[i] == after.take(mid.len() as int)[i]);
            if i == n {
                assert(mid[n] == m1.last());
            } else {
                assert(mid.drop_last() == m1);
                assert(i == mid.len() - 1);
            }
        } else {
            assert(after[i].argv[0] == "hayven"@);
        }
    }
}

proof fn lemma_hb_no_advance(issue: Seq<char>, worker: Seq<char>, held: Seq<Seq<char>>, intent: Seq<char>)
    ensures
        forall|j: int|
            0 <= j < hb_spec(issue, worker, held, intent).len() ==> !is_advance(
                #[trigger] hb_spec(issue, worker, held, intent)[j],
            ),
{
    lemma_words();
    let hb = hb_spec(issue, worker, held, intent);
    assert forall|j: int| 0 <= j < hb.len() implies !is_advance(#[trigger] hb[j]) by {
        if j == 0 {
            assert(hb[0] == crate::amt::heartbeat_argv(issue, worker));
        } else {
            assert(hb[1] == claim_argv(held, intent, false));
            assert(hb[1][0] == "hayven"@);
        }
    }
}

fn member(key: &str, v: Json) -> (r: (String, Json))
    ensures
        r.0@ == key@,
        r.1 == v,
{
    (str_of(key), v)
}

fn secs_to_ms(secs: u64) -> (ms: u64)
    ensures
        ms == if secs > u64::MAX / 1000 {
            u64::MAX as int
        } else {
            secs * 1000
        },
{
    if secs > u64::MAX / 1000 {
        u64::MAX
    } else {
        secs * 1000
    }
}

/// The heartbeat commands as the runner takes them.
fn heartbeat_cmds(issue: &str, worker: &str, held: &Vec<String>, intent: &str) -> (hb: Vec<(String, Vec<String>)>)
    ensures
        crate::shell::hb_argvs(hb@) == hb_spec(issue@, worker@, string_views(held@), intent@),
{
    let mut hb: Vec<(String, Vec<String>)> = Vec::new();
    let a = vec![str_of("--json"), str_of("claim"), str_of("--issue"), str_of(issue), str_of("--agent"), str_of(worker)];
    hb.push((str_of("amt"), a));
    proof {
        assert(crate::shell::hb_argv(hb@[0]) =~= crate::amt::heartbeat_argv(issue@, worker@));
    }
    if held.len() > 0 {
        let mut args: Vec<String> = vec![str_of("claim")];
        let mut i: usize = 0;
        while i < held.len()
            invariant
                i <= held@.len(),
                string_views(args@) == seq!["claim"@] + string_views(held@).take(i as int),
            decreases held@.len() - i,
        {
            let ghost a0 = string_views(args@);
            args.push(str_of(held[i].as_str()));
            assert(string_views(args@) =~= a0.push(held@[i as int]@));
            assert(string_views(held@).take(i + 1) =~= string_views(held@).take(i as int).push(held@[i as int]@));
            i = i + 1;
        }
        let ghost a1 = string_views(args@);
        args.push(str_of("--intent"));
        args.push(str_of(intent));
        proof {
            assert(string_views(held@).take(held@.len() as int) =~= string_views(held@));
            assert(string_views(args@) =~= a1 + seq!["--intent"@, intent@]);
        }
        let ghost h0 = hb@;
        hb.push((str_of("hayven"), args));
        proof {
            assert(crate::shell::hb_argv(hb@[1]) =~= claim_argv(string_views(held@), intent@, false));
            assert(crate::shell::hb_argvs(hb@) =~= hb_spec(issue@, worker@, string_views(held@), intent@));
        }
    } else {
        assert(crate::shell::hb_argvs(hb@) =~= hb_spec(issue@, worker@, string_views(held@), intent@));
    }
    hb
}

/// Run the agent once under supervision, then gate what it changed.
#[verifier::spinoff_prover]
#[verifier::rlimit(60)]
fn attempt_once<R: Runner>(
    amt: &Amt,
    hv: &Hayven,
    runner: &mut R,
    out: &mut Vec<Json>,
    config: &Config,
    worker: &str,
    issue: &str,
    agent_cmd: &str,
    held: &Vec<String>,
    lock_intent: &str,
    attempt_no: u64,
) -> (a: Attempt)
    ensures
        phased(old(out)@, final(out)@, worker@, Some(issue@)),
        attempt_spec(
            old(runner).calls(),
            final(runner).calls(),
            *config,
            worker@,
            issue@,
            agent_cmd@,
            string_views(held@),
            lock_intent@,
            a,
        ),
        !(a matches Attempt::Gated { result, .. } && result == GateResult::Pass) ==> no_advance(
            final(runner).calls(),
            old(runner).calls().len() as int,
        ),
        no_issue_release(final(runner).calls(), old(runner).calls().len() as int),
        no_decide(final(runner).calls(), old(runner).calls().len() as int),
        final(out)@.len() >= old(out)@.len(),
        a is TimedOut ==> has_event(final(out)@, old(out)@.len() as int, "timed_out"@, Json::Bool(true)),
{
    let ghost o0 = out@;
    proof {
        lemma_phased_same(o0, worker@, Some(issue@));
    }
    let ghost c0 = runner.calls();
    let ghost n = c0.len() as int;
    let ghost hbv = hb_spec(issue@, worker@, string_views(held@), lock_intent@);
    let _ = amt.heartbeat(runner, issue, worker);
    let ghost c1 = runner.calls();
    let hb = heartbeat_cmds(issue, worker, held, lock_intent);
    let opts = crate::shell::AgentRunOpts {
        timeout_ms: secs_to_ms(config.agent_timeout_secs),
        heartbeat_interval_ms: secs_to_ms(config.heartbeat_interval_secs()),
        log_path: agent_log_path(issue),
    };
    let args = ["-c", agent_cmd];
    assert(crate::shell::argv_of("sh"@, args@) =~= seq!["sh"@, "-c"@, agent_cmd@]);
    let work = runner.run_agent("sh", &args, &opts, hb.as_slice());
    let ghost c2 = runner.calls();
    let timed_out = match &work {
        Ok(w) => w.timed_out(),
        Err(_) => false,
    };
    let work_ok = match &work {
        Ok(w) => w.success(),
        Err(_) => false,
    };
    let code: Option<i32> = match &work {
        Ok(w) => w.output().code,
        Err(_) => None,
    };
    let mut extra: Vec<(String, Json)> = Vec::new();
    extra.push(member("agent_ok", Json::Bool(work_ok)));
    extra.push(member("timed_out", Json::Bool(timed_out)));
    extra.push(
        member(
            "exit",
            match code {
                Some(c) => Json::signed(c as i64),
                None => Json::Null,
            },
        ),
    );
    extra.push(member("attempt", Json::uint(attempt_no)));
    let ghost ob = out@;
    proof {
        lemma_event_words();
    }
    let ghost ex = extra@;
    emit(out, worker, Some(issue), "work", extra);
    proof {
        lemma_phased_trans(o0, ob, out@, worker@, Some(issue@));
        lemma_payload_words();
        lemma_lookup_second(ex, "timed_out"@);
        assert(get(out@[out@.len() - 1], "timed_out"@) == Some(Json::Bool(timed_out)));
        assert(has_event(out@, o0.len() as int, "timed_out"@, Json::Bool(timed_out)));
    }
    proof {
        lemma_words();
        lemma_hb_no_advance(issue@, worker@, string_views(held@), lock_intent@);
        assert(c1.drop_last() == c0);
        assert(c2.take(c1.len() + 1int) == c1.push(crate::shell::agent_call("sh"@, args@, work)));
        assert(c2[n + 1] == c2.take(c1.len() + 1int)[n + 1]);
        assert(c2[n + 1].argv =~= seq!["sh"@, "-c"@, agent_cmd@]);
        assert(crate::shell::heartbeat_rounds(c2.skip(n + 2), hbv));
        assert(c2.take(n) =~= c0) by {
            assert(c2.take(n) =~= c2.take(c1.len() + 1int).take(n));
        }
        assert(c2[n] == c1.last()) by {
            assert(c2[n] == c2.take(c1.len() + 1int)[n]);
        }
        lemma_rounds_no_advance(c2.skip(n + 2), hbv);
        assert(no_advance(c2, n)) by {
            assert forall|i: int| n <= i < c2.len() implies !is_advance((#[trigger] c2[i]).argv) by {
                if i >= n + 2 {
                    assert(c2[i] == c2.skip(n + 2)[i - (n + 2)]);
                }
            }
        }
        lemma_hb_no_issue_release(issue@, worker@, string_views(held@), lock_intent@);
        lemma_rounds_no_issue_release(c2.skip(n + 2), hbv);
        assert(no_issue_release(c2, n)) by {
            assert forall|i: int| n <= i < c2.len() implies !is_issue_release((#[trigger] c2[i]).argv) by {
                if i >= n + 2 {
                    assert(c2[i] == c2.skip(n + 2)[i - (n + 2)]);
                }
            }
        }
        lemma_hb_no_decide(issue@, worker@, string_views(held@), lock_intent@);
        lemma_rounds_no_decide(c2.skip(n + 2), hbv);
        assert(no_decide(c2, n)) by {
            reveal(no_decide);
            assert forall|i: int| n <= i < c2.len() implies !is_decide((#[trigger] c2[i]).argv) by {
                if i >= n + 2 {
                    assert(c2[i] == c2.skip(n + 2)[i - (n + 2)]);
                }
            }
        }
        assert(!timed_out ==> (work is Err || work->Ok_0 is Exited));
    }
    if timed_out {
        return Attempt::TimedOut;
    }
    let changed = match crate::gitrange::changed_files(runner, None) {
        Ok(c) => c,
        Err(_) => Vec::new(),
    };
    let ghost c3 = runner.calls();
    let ghost g = c2.len() as int;
    proof {
        assert(c3.drop_last() == c2);
        assert(c3.take(n) =~= c2.take(n));
        assert(c3[n] == c2[n] && c3[n + 1] == c2[n + 1]);
        assert(c3.subrange(n + 2, g) =~= c2.skip(n + 2));
        assert(c3[g] == c3.last());
        assert(c3[g].argv[0] == "git"@);
        assert(no_advance(c3, n)) by {
            assert forall|i: int| n <= i < c3.len() implies !is_advance((#[trigger] c3[i]).argv) by {
                if i < g {
                    assert(c3[i] == c2[i]);
                }
            }
        }
        assert(no_issue_release(c3, n)) by {
            assert forall|i: int| n <= i < c3.len() implies !is_issue_release((#[trigger] c3[i]).argv) by {
                if i < g {
                    assert(c3[i] == c2[i]);
                }
            }
        }
        assert(no_decide(c3, n)) by {
            reveal(no_decide);
            assert forall|i: int| n <= i < c3.len() implies !is_decide((#[trigger] c3[i]).argv) by {
                if i < g {
                    assert(c3[i] == c2[i]);
                }
            }
        }
        assert(c3.take(g + 1) =~= c3);
    }
    if changed.len() == 0 {
        let mut extra: Vec<(String, Json)> = Vec::new();
        extra.push(member("result", Json::string("skipped")));
        extra.push(member("plan", Json::Null));
        extra.push(member("tests_run", Json::Null));
        extra.push(member("attempt", Json::uint(attempt_no)));
        let ghost ob = out@;
        proof {
            lemma_event_words();
        }
        emit(out, worker, Some(issue), "gate", extra);
        proof {
            lemma_phased_trans(o0, ob, out@, worker@, Some(issue@));
        }
        let a = Attempt::Gated { result: GateResult::Skipped, work_ok };
        assert(gate_from(c3, g, *config, issue@, GateResult::Skipped));
        assert(crate::shell::heartbeat_rounds(c3.subrange(n + 2, g), hbv));
        assert(work_ok == (c3[n + 1].out matches Ok(o) && o.code == Some(0i32)));
        return a;
    }
    let v = crate::gate::evaluate(hv, runner, &config.gate, changed.as_slice());
    let ghost c4 = runner.calls();
    let result = if v.passed {
        let _ = amt.update_status(runner, issue, config.target_status.as_str());
        GateResult::Pass
    } else {
        let mut note = str_of("sirius: gate failed [");
        push_str(&mut note, v.plan.as_str());
        push_str(&mut note, "]: ");
        push_str(&mut note, v.reason.as_str());
        let _ = amt.comment(runner, issue, note.as_str());
        GateResult::Fail
    };
    let mut extra: Vec<(String, Json)> = Vec::new();
    extra.push(member("result", Json::string(result.name())));
    extra.push(member("plan", Json::string(v.plan.as_str())));
    extra.push(member("tests_run", Json::uint(v.tests_run as u64)));
    extra.push(member("attempt", Json::uint(attempt_no)));
    let ghost ob = out@;
    proof {
        lemma_event_words();
    }
    emit(out, worker, Some(issue), "gate", extra);
    proof {
        lemma_phased_trans(o0, ob, out@, worker@, Some(issue@));
    }
    proof {
        let c5 = runner.calls();
        assert(c5.drop_last() == c4);
        assert(c5.take(c4.len() as int) =~= c4);
        assert(c5.take(c3.len() as int) =~= c3) by {
            assert(c5.take(c3.len() as int) =~= c4.take(c3.len() as int));
        }
        assert(c5.take(n) =~= c3.take(n));
        assert(c5[n] == c3[n] && c5[n + 1] == c3[n + 1] && c5[g] == c3[g]);
        assert(c5.subrange(n + 2, g) =~= c3.subrange(n + 2, g));
        assert(c5.take(g + 1) =~= c3);
        assert(gate_tail(c4, c5, v@, issue@, config.target_status@, result));
        assert(gate_from(c5, g, *config, issue@, result));
        assert(crate::shell::heartbeat_rounds(c5.subrange(n + 2, g), hbv));
        assert(work_ok == (c5[n + 1].out matches Ok(o) && o.code == Some(0i32)));
        if result == GateResult::Fail {
            assert(no_advance(c5, n)) by {
                assert forall|i: int| n <= i < c5.len() implies !is_advance((#[trigger] c5[i]).argv) by {
                    if i < c3.len() {
                        assert(c5[i] == c3[i]);
                    } else if i < c4.len() {
                        assert(c5[i] == c4[i]);
                    } else {
                        assert(c5[i] == c5.last());
                    }
                }
            }
        }
        assert(no_issue_release(c5, n)) by {
            assert forall|i: int| n <= i < c5.len() implies !is_issue_release((#[trigger] c5[i]).argv) by {
                if i < c3.len() {
                    assert(c5[i] == c3[i]);
                } else if i < c4.len() {
                    assert(c5[i] == c4[i]);
                } else {
                    assert(c5[i] == c5.last());
                }
            }
        }
        assert(no_decide(c5, n)) by {
            reveal(no_decide);
            assert forall|i: int| n <= i < c5.len() implies !is_decide((#[trigger] c5[i]).argv) by {
                if i < c3.len() {
                    assert(c5[i] == c3[i]);
                } else if i < c4.len() {
                    assert(c5[i] == c4[i]);
                } else {
                    assert(c5[i] == c5.last());
                }
            }
        }
    }
    Attempt::Gated { result, work_ok }
}


// ── the iteration ───────────────────────────────────────────────────────────

/// A single worker's outcome for one iteration.
#[derive(Debug, Clone, PartialEq)]
pub enum IterationOutcome {
    /// No work; the caller should honor `retry_after` / stop.
    NoWork { retry_after: Option<u64> },
    /// Completed and gated.
    Completed,
    /// Released back due to entity overlap (409) or oracle back-off.
    ReleasedOverlap,
    /// Released due to a timed-out agent or an exhausted retry budget
    /// (deadend note filed).
    Deadend,
    /// An operational error.
    Error(String),
}

/// What the ledger row of a claimed iteration records for its outcome: an
/// overlap or back-off release as `released`, a deadend as an agent timeout
/// (ungated) or a failed gate, a completion as `completed` past a passing or
/// skipped gate, or as `error` when gating was skipped and the agent failed.
pub open spec fn recorded_as(r: IterationOutcome, row: IterationRow) -> bool {
    let gate = crate::hayven::opt_view(row.gate_result);
    row.outcome matches Some(o) && match r {
        IterationOutcome::ReleasedOverlap => o@ == "released"@ && gate is None,
        IterationOutcome::Deadend => (o@ == "agent_timeout"@ && gate is None) || (o@ == "gate_failed"@
            && gate == Some("fail"@)),
        IterationOutcome::Completed => o@ == "completed"@ && (gate == Some("pass"@) || gate == Some(
            "skipped"@,
        )),
        IterationOutcome::Error(_) => o@ == "error"@ && gate == Some("skipped"@),
        _ => false,
    }
}

/// Some call from index `from` on files the decision that resolves `issue`:
/// the first step of its receipt.
pub open spec fn decided(calls: Seq<Call>, from: int, issue: Seq<char>) -> bool {
    exists|i: int|
        from <= i < calls.len() && (#[trigger] calls[i]).argv == crate::amt::decide_argv(
            issue,
            "Resolved "@ + issue + " via sirius"@,
            "See linked entities."@,
        )
}

/// The receipt step, from the call at `from` to the one before `to`: the
/// decision filed on the issue; when that gave a decision id and there are
/// entities, the two-way link of the decision to the entities for `worker`,
/// taking the ledger from `l0` to `l1`, and `rid` is the id of the receipt
/// the link wrote (none when the link failed); with no decision id or no
/// entity, no other call, no ledger change and no receipt.
pub open spec fn receipt_made(
    calls: Seq<Call>,
    from: int,
    to: int,
    issue: Seq<char>,
    worker: Seq<char>,
    ents: Seq<Seq<char>>,
    l0: Ledger,
    l1: Ledger,
    rid: Option<i64>,
) -> bool {
    &&& 0 <= from < to <= calls.len()
    &&& calls[from].argv == crate::amt::decide_argv(
        issue,
        "Resolved "@ + issue + " via sirius"@,
        "See linked entities."@,
    )
    &&& if crate::amt::amt_decision_id(calls[from].out) is Ok && ents.len() > 0 {
        exists|d: Seq<char>, mid: Seq<Call>, fwd: bool, rev: bool, r: Result<crate::bridge::LinkV, Seq<char>>|
            crate::amt::amt_decision_id(calls[from].out) == Ok::<Seq<char>, Seq<char>>(d)
                && #[trigger] crate::bridge::link_steps(
                crate::bridge::LinkKind::Decision,
                d,
                ents,
                Some(worker),
                calls.take(from + 1),
                mid,
                calls.take(to),
                fwd,
                rev,
                l0,
                l1,
                r,
            ) && rid == (match r {
                Ok(v) => Some(v.receipt_id),
                Err(_) => None::<i64>,
            })
    } else {
        to == from + 1 && rid is None && l1 == l0
    }
}

/// From call `from` on, the receipt step of a completed iteration was taken,
/// and the receipt it wrote (if any, with id `rid`) stands in `receipts` as
/// the link wrote it.
pub open spec fn receipt_recorded(
    calls: Seq<Call>,
    from: int,
    issue: Seq<char>,
    worker: Seq<char>,
    ents: Seq<Seq<char>>,
    rid: Option<i64>,
    receipts: Seq<crate::ledger::ReceiptRow>,
) -> bool {
    exists|a: int, z: int, l0: Ledger, l1: Ledger|
        from <= a && #[trigger] receipt_made(calls, a, z, issue, worker, ents, l0, l1, rid) && (rid matches Some(
            id,
        ) ==> 1 <= id <= l1.receipts@.len() && id <= receipts.len() && receipts[id - 1] == l1.receipts@[id - 1])
}

/// A decision filed with id `d`, then linked: the receipt step.
proof fn lemma_receipt_linked(
    calls: Seq<Call>,
    from: int,
    to: int,
    issue: Seq<char>,
    worker: Seq<char>,
    ents: Seq<Seq<char>>,
    l0: Ledger,
    l1: Ledger,
    rid: Option<i64>,
    d: Seq<char>,
    mid: Seq<Call>,
    fwd: bool,
    rev: bool,
    r: Result<crate::bridge::LinkV, Seq<char>>,
)
    requires
        0 <= from < to <= calls.len(),
        calls[from].argv == crate::amt::decide_argv(
            issue,
            "Resolved "@ + issue + " via sirius"@,
            "See linked entities."@,
        ),
        crate::amt::amt_decision_id(calls[from].out) == Ok::<Seq<char>, Seq<char>>(d),
        ents.len() > 0,
        crate::bridge::link_steps(
            crate::bridge::LinkKind::Decision,
            d,
            ents,
            Some(worker),
            calls.take(from + 1),
            mid,
            calls.take(to),
            fwd,
            rev,
            l0,
            l1,
            r,
        ),
        rid == (match r {
            Ok(v) => Some(v.receipt_id),
            Err(_) => None::<i64>,
        }),
    ensures
        receipt_made(calls, from, to, issue, worker, ents, l0, l1, rid),
{
}

/// A receipt recorded from some call on is recorded from any earlier one.
proof fn lemma_receipt_from(
    c: Seq<Call>,
    from1: int,
    from0: int,
    issue: Seq<char>,
    worker: Seq<char>,
    ents: Seq<Seq<char>>,
    rid: Option<i64>,
    receipts: Seq<crate::ledger::ReceiptRow>,
)
    requires
        receipt_recorded(c, from1, issue, worker, ents, rid, receipts),
        from0 <= from1,
    ensures
        receipt_recorded(c, from0, issue, worker, ents, rid, receipts),
{
    let (a, z, l0, l1) = choose|a: int, z: int, l0: Ledger, l1: Ledger|
        from1 <= a && #[trigger] receipt_made(c, a, z, issue, worker, ents, l0, l1, rid) && (rid matches Some(
            id,
        ) ==> 1 <= id <= l1.receipts@.len() && id <= receipts.len() && receipts[id - 1] == l1.receipts@[id - 1]);
    assert(receipt_made(c, a, z, issue, worker, ents, l0, l1, rid));
}

/// A receipt step stays taken as calls follow it.
proof fn lemma_receipt_extend(
    c1: Seq<Call>,
    c2: Seq<Call>,
    from: int,
    to: int,
    issue: Seq<char>,
    worker: Seq<char>,
    ents: Seq<Seq<char>>,
    l0: Ledger,
    l1: Ledger,
    rid: Option<i64>,
)
    requires
        receipt_made(c1, from, to, issue, worker, ents, l0, l1, rid),
        c2.len() >= c1.len(),
        c2.take(c1.len() as int) == c1,
    ensures
        receipt_made(c2, from, to, issue, worker, ents, l0, l1, rid),
{
    assert(c2[from] == c2.take(c1.len() as int)[from]);
    assert(c2.take(from + 1) =~= c1.take(from + 1));
    assert(c2.take(to) =~= c1.take(to));
}

proof fn lemma_decided_extend(c1: Seq<Call>, c2: Seq<Call>, n: int, issue: Seq<char>)
    requires
        0 <= n,
        c1.len() <= c2.len(),
        c2.take(c1.len() as int) == c1,
        decided(c1, n, issue),
    ensures
        decided(c2, n, issue),
{
    let i = choose|i: int| n <= i < c1.len() && (#[trigger] c1[i]).argv == crate::amt::decide_argv(
        issue,
        "Resolved "@ + issue + " via sirius"@,
        "See linked entities."@,
    );
    assert(c2[i] == c2.take(c1.len() as int)[i]);
}

/// The comment on an issue released because an entity claim was blocked.
pub open spec fn blocked_note(blocker: Seq<char>) -> Seq<char> {
    "sirius: released — entity claim blocked by "@ + blocker
}

/// The comment on an issue released because an entity claim backed off.
pub open spec fn backoff_note(detail: Seq<char>) -> Seq<char> {
    "sirius: released — oracle/claim backoff: "@ + detail
}

/// An entity claim from `from` on came back blocked (or backed off) with
/// `x`, and the issue went back to `todo` with a comment naming `x`.
pub open spec fn blocker_noted(
    calls: Seq<Call>,
    from: int,
    policy: Oracle202,
    issue: Seq<char>,
    worker: Seq<char>,
    x: Seq<char>,
) -> bool {
    ||| claim_came_back(calls, from, policy, StepView::Blocked(x)) && released_noting(
        calls,
        from,
        issue,
        worker,
        "todo"@,
        blocked_note(x),
    )
    ||| claim_came_back(calls, from, policy, StepView::Backoff(x)) && released_noting(
        calls,
        from,
        issue,
        worker,
        "todo"@,
        backoff_note(x),
    )
}

/// Released on a blocked lock, and the release event `ev` says why: the
/// claim that came back blocked (or backed off) on `x`, the issue went back
/// to `todo` with a note naming `x`, and the event gives the reason and `x`.
pub open spec fn overlap_released(
    calls: Seq<Call>,
    from: int,
    policy: Oracle202,
    issue: Seq<char>,
    worker: Seq<char>,
    ev: Json,
) -> bool {
    exists|x: Seq<char>|
        #![trigger claim_came_back(calls, from, policy, StepView::Blocked(x))]
        #![trigger claim_came_back(calls, from, policy, StepView::Backoff(x))]
        {
            ||| claim_came_back(calls, from, policy, StepView::Blocked(x)) && released_noting(
                calls,
                from,
                issue,
                worker,
                "todo"@,
                blocked_note(x),
            ) && get_str(ev, "reason"@) == Some("entity_overlap"@) && get_str(ev, "blocker"@) == Some(x)
            ||| claim_came_back(calls, from, policy, StepView::Backoff(x)) && released_noting(
                calls,
                from,
                issue,
                worker,
                "todo"@,
                backoff_note(x),
            ) && get_str(ev, "reason"@) == Some("oracle_backoff"@) && get_str(ev, "detail"@) == Some(x)
        }
}

/// The issue went back to `todo` naming what blocked an entity claim from
/// `from` on.
pub open spec fn released_naming_blocker(
    calls: Seq<Call>,
    from: int,
    policy: Oracle202,
    issue: Seq<char>,
    worker: Seq<char>,
) -> bool {
    exists|x: Seq<char>| #[trigger] blocker_noted(calls, from, policy, issue, worker, x)
}

/// Some call from index `from` on releases the issue to `status` with the
/// comment `note`.
pub open spec fn released_noting(
    calls: Seq<Call>,
    from: int,
    issue: Seq<char>,
    worker: Seq<char>,
    status: Seq<char>,
    note: Seq<char>,
) -> bool {
    exists|i: int|
        from <= i < calls.len() && (#[trigger] calls[i]).argv == release_argv(
            issue,
            worker,
            Some(status),
            Some(note),
        )
}

/// Every issue release from index `from` on releases `issue`, for `worker`,
/// to `status`: with [`released_to`], the issue's last release is to
/// `status`.
#[verifier::opaque]
pub open spec fn releases_only_to(
    calls: Seq<Call>,
    from: int,
    issue: Seq<char>,
    worker: Seq<char>,
    status: Seq<char>,
) -> bool {
    forall|i: int|
        from <= i < calls.len() && is_issue_release((#[trigger] calls[i]).argv) ==> calls[i].argv.len() >= 8
            && calls[i].argv.take(8) == seq![
            "amt"@,
            "--json"@,
            "release"@,
            issue,
            "--agent"@,
            worker,
            "--status"@,
            status,
        ]
}

/// No issue release, then releases only to `status`, then no issue release:
/// releases only to `status` throughout.
proof fn lemma_only_to_join(
    c1: Seq<Call>,
    c2: Seq<Call>,
    c3: Seq<Call>,
    n: int,
    issue: Seq<char>,
    worker: Seq<char>,
    status: Seq<char>,
)
    requires
        0 <= n <= c1.len() <= c2.len() <= c3.len(),
        c2.take(c1.len() as int) == c1,
        c3.take(c2.len() as int) == c2,
        no_issue_release(c1, n),
        releases_only_to(c2, c1.len() as int, issue, worker, status),
        no_issue_release(c3, c2.len() as int),
    ensures
        releases_only_to(c3, n, issue, worker, status),
{
    reveal(releases_only_to);
    assert forall|i: int| n <= i < c3.len() && is_issue_release((#[trigger] c3[i]).argv) implies c3[i].argv.len()
        >= 8 && c3[i].argv.take(8) == seq![
        "amt"@,
        "--json"@,
        "release"@,
        issue,
        "--agent"@,
        worker,
        "--status"@,
        status,
    ] by {
        if i < c2.len() {
            assert(c3[i] == c3.take(c2.len() as int)[i]);
            if i < c1.len() {
                assert(c2[i] == c2.take(c1.len() as int)[i]);
            }
        }
    }
}

/// Some call from index `from` on releases the issue to `status`.
pub open spec fn released_to(
    calls: Seq<Call>,
    from: int,
    issue: Seq<char>,
    worker: Seq<char>,
    status: Seq<char>,
) -> bool {
    exists|i: int|
        from <= i < calls.len() && (#[trigger] calls[i]).argv.len() >= 8 && calls[i].argv.take(8)
            == seq!["amt"@, "--json"@, "release"@, issue, "--agent"@, worker, "--status"@, status]
}

#[verifier::external_type_specification]
#[verifier::external_body]
pub struct ExInstant(std::time::Instant);

/// `Instant::now()`.
#[verifier::external_body]
fn instant_now() -> std::time::Instant {
    std::time::Instant::now()
}

/// `start.elapsed().as_millis() as i64`. Nothing is claimed of the value.
#[verifier::external_body]
fn elapsed_ms(start: &std::time::Instant) -> i64 {
    start.elapsed().as_millis() as i64
}

proof fn lemma_release_calls(
    c: Seq<Call>,
    from: int,
    issue: Seq<char>,
    worker: Seq<char>,
    status: Seq<char>,
    comment: Option<Seq<char>>,
    released: bool,
)
    requires
        0 <= from <= c.len(),
        release_tries(
            c.skip(from),
            release_argv(issue, worker, Some(status), comment),
            |o: Result<OutView, Seq<char>>| amt_released(o),
            released,
        ),
    ensures
        no_advance(c, from),
        no_claim(c, from),
        released_to(c, from, issue, worker, status),
        comment matches Some(m) ==> released_noting(c, from, issue, worker, status, m),
{
    lemma_words();
    let seg = c.skip(from);
    assert forall|i: int| from <= i < c.len() implies !is_advance((#[trigger] c[i]).argv) by {
        assert(c[i] == seg[i - from]);
        assert(seg[i - from].argv == release_argv(issue, worker, Some(status), comment));
        assert(c[i].argv[2] == "release"@);
    }
    assert forall|i: int| from <= i < c.len() implies !is_claim((#[trigger] c[i]).argv) by {
        assert(c[i] == seg[i - from]);
        assert(seg[i - from].argv == release_argv(issue, worker, Some(status), comment));
        assert(c[i].argv[2] == "release"@);
    }
    assert(c[from] == seg[0]);
    assert(c[from].argv.take(8) =~= seq!["amt"@, "--json"@, "release"@, issue, "--agent"@, worker, "--status"@, status]);
    assert(c[from].argv == release_argv(issue, worker, Some(status), comment));
}

/// The claim ids `ids` were released one by one, last acquired first, by
/// calls from index `from` on.
pub open spec fn released_in_reverse(calls: Seq<Call>, from: int, ids: Seq<Seq<char>>) -> bool {
    exists|r0: int, r1: int, b: Seq<int>|
        from <= r0 <= r1 <= calls.len() && #[trigger] release_upto(
            calls.subrange(r0, r1),
            b,
            ids,
            ids.len() as int,
        )
}

/// The entities `ents` were claimed one by one, in order — each claim
/// naming one entity — by calls from index `from` on, and all were held,
/// with the claim ids `ids`.
pub open spec fn locked_in_order(
    calls: Seq<Call>,
    from: int,
    ents: Seq<Seq<char>>,
    intent: Seq<char>,
    policy: Oracle202,
    ids: Seq<Seq<char>>,
) -> bool {
    exists|a: int, z: int, b: Seq<int>, kinds: Seq<Seq<char>>, vs: Seq<Seq<char>>|
        from <= a <= z <= calls.len() && #[trigger] lock_split(
            calls.subrange(a, z),
            b,
            ents,
            intent,
            policy,
            LockView::Locked(ids, vs),
            kinds,
        )
}

/// The entities were claimed one by one, in order, all held, and their
/// claim ids later released last acquired first.
pub open spec fn claimed_then_released(
    calls: Seq<Call>,
    from: int,
    ents: Seq<Seq<char>>,
    intent: Seq<char>,
    policy: Oracle202,
) -> bool {
    exists|ids: Seq<Seq<char>>|
        #[trigger] locked_in_order(calls, from, ents, intent, policy, ids) && released_in_reverse(
            calls,
            from,
            ids,
        )
}

proof fn lemma_subrange_extend(c1: Seq<Call>, c2: Seq<Call>, a: int, z: int)
    requires
        0 <= a <= z <= c1.len() <= c2.len(),
        c2.take(c1.len() as int) == c1,
    ensures
        c2.subrange(a, z) == c1.subrange(a, z),
{
    assert forall|i: int| 0 <= i < z - a implies c2.subrange(a, z)[i] == c1.subrange(a, z)[i] by {
        assert(c2[a + i] == c2.take(c1.len() as int)[a + i]);
    }
    assert(c2.subrange(a, z) =~= c1.subrange(a, z));
}

proof fn lemma_reverse_extend(c1: Seq<Call>, c2: Seq<Call>, from1: int, from: int, ids: Seq<Seq<char>>)
    requires
        0 <= from <= from1,
        c1.len() <= c2.len(),
        c2.take(c1.len() as int) == c1,
        released_in_reverse(c1, from1, ids),
    ensures
        released_in_reverse(c2, from, ids),
{
    let (r0, r1, b) = choose|r0: int, r1: int, b: Seq<int>|
        from1 <= r0 <= r1 <= c1.len() && #[trigger] release_upto(
            c1.subrange(r0, r1),
            b,
            ids,
            ids.len() as int,
        );
    lemma_subrange_extend(c1, c2, r0, r1);
    assert(release_upto(c2.subrange(r0, r1), b, ids, ids.len() as int));
}

proof fn lemma_locked_extend(
    c1: Seq<Call>,
    c2: Seq<Call>,
    from1: int,
    from: int,
    ents: Seq<Seq<char>>,
    intent: Seq<char>,
    policy: Oracle202,
    ids: Seq<Seq<char>>,
)
    requires
        0 <= from <= from1,
        c1.len() <= c2.len(),
        c2.take(c1.len() as int) == c1,
        locked_in_order(c1, from1, ents, intent, policy, ids),
    ensures
        locked_in_order(c2, from, ents, intent, policy, ids),
{
    let (a, z, b, kinds, vs) = choose|a: int, z: int, b: Seq<int>, kinds: Seq<Seq<char>>, vs: Seq<Seq<char>>|
        from1 <= a <= z <= c1.len() && #[trigger] lock_split(
            c1.subrange(a, z),
            b,
            ents,
            intent,
            policy,
            LockView::Locked(ids, vs),
            kinds,
        );
    lemma_subrange_extend(c1, c2, a, z);
    assert(lock_split(c2.subrange(a, z), b, ents, intent, policy, LockView::Locked(ids, vs), kinds));
}

/// Release the held entity claims (reverse) and then the issue, to `status`.
#[verifier::spinoff_prover]
#[verifier::rlimit(60)]
fn release_back<R: Runner>(
    amt: &Amt,
    hv: &Hayven,
    ledger: &mut Ledger,
    runner: &mut R,
    issue: &str,
    worker: &str,
    claim_ids: &Vec<String>,
    status: &str,
    comment: Option<&str>,
)
    requires
        old(ledger).wf(),
    ensures
        final(ledger).wf(),
        final(ledger).iterations == old(ledger).iterations,
        final(ledger).workers == old(ledger).workers,
        final(ledger).receipts == old(ledger).receipts,
        final(runner).calls().len() > old(runner).calls().len(),
        final(runner).calls().take(old(runner).calls().len() as int) == old(runner).calls(),
        no_advance(final(runner).calls(), old(runner).calls().len() as int),
        released_to(final(runner).calls(), old(runner).calls().len() as int, issue@, worker@, status@),
        entities_first(final(runner).calls(), old(runner).calls().len() as int),
        comment matches Some(m) ==> released_noting(
            final(runner).calls(),
            old(runner).calls().len() as int,
            issue@,
            worker@,
            status@,
            m@,
        ),
        parents_only(final(runner).calls(), old(runner).calls().len() as int),
        releases_only_to(final(runner).calls(), old(runner).calls().len() as int, issue@, worker@, status@),
        no_decide(final(runner).calls(), old(runner).calls().len() as int),
        released_in_reverse(final(runner).calls(), old(runner).calls().len() as int, string_views(claim_ids@)),
        plain_appended(old(ledger).policy_events@, final(ledger).policy_events@),
        no_claim(final(runner).calls(), old(runner).calls().len() as int),
{
    let ghost c0 = runner.calls();
    let ghost l0 = *ledger;
    release_entities(hv, ledger, runner, issue, claim_ids.as_slice());
    let ghost c1 = runner.calls();
    let ghost l1 = *ledger;
    proof {
        assert(plain_appended(l0.policy_events@, l1.policy_events@)) by {
            let b2 = choose|b: Seq<int>|
                #[trigger] release_upto(c1.skip(c0.len() as int), b, string_views(claim_ids@), claim_ids@.len() as int)
                    && events_added(l0, l1, failures_upto(c1.skip(c0.len() as int), b, claim_ids@.len() as int));
        }
        assert(exists|b: Seq<int>|
            #[trigger] release_upto(
                c1.skip(c0.len() as int),
                b,
                string_views(claim_ids@),
                claim_ids@.len() as int,
            ));
    }
    let ghost b1 = choose|b: Seq<int>|
        #[trigger] release_upto(c1.skip(c0.len() as int), b, string_views(claim_ids@), claim_ids@.len() as int);
    proof {
        lemma_words();
        lemma_run_no_advance(c1, c0.len() as int, "hayven"@);
    }
    let rel = release_issue_checked(amt, ledger, runner, issue, worker, Some(status), comment);
    proof {
        assert(plain_appended(l0.policy_events@, ledger.policy_events@)) by {
            assert(plain_appended(l1.policy_events@, ledger.policy_events@));
            lemma_plain_trans(l0.policy_events@, l1.policy_events@, ledger.policy_events@);
        }
    }
    proof {
        let c = runner.calls();
        lemma_release_calls(c, c1.len() as int, issue@, worker@, status@, opt_str(comment), rel);
        lemma_no_advance_join(c1, c, c0.len() as int);
        assert(no_claim(c, c0.len() as int)) by {
            assert forall|i: int| c0.len() <= i < c.len() implies !is_claim((#[trigger] c[i]).argv) by {
                if i < c1.len() {
                    assert(c[i] == c.take(c1.len() as int)[i]);
                    assert(is_entity_release(c1[i].argv));
                }
            }
        }
        assert(c.take(c0.len() as int) =~= c1.take(c0.len() as int));
        let i = choose|i: int| c1.len() <= i < c.len() && (#[trigger] c[i]).argv.len() >= 8 && c[i].argv.take(8)
            == seq!["amt"@, "--json"@, "release"@, issue@, "--agent"@, worker@, "--status"@, status@];
        assert(c0.len() <= i);
        let seg = c.skip(c1.len() as int);
        let rargv = crate::amt::release_argv(issue@, worker@, opt_str(Some(status)), opt_str(comment));
        assert forall|a: int, b: int|
            c0.len() <= a < b < c.len() && is_issue_release((#[trigger] c[a]).argv) implies !is_entity_release(
                (#[trigger] c[b]).argv,
            ) by {
            if a < c1.len() {
                assert(c[a] == c1[a]) by {
                    assert(c[a] == c.take(c1.len() as int)[a]);
                }
                assert(c1[a].argv[0] == "hayven"@);
            }
            assert(c[b] == seg[b - c1.len()]);
            assert(seg[b - c1.len()].argv == rargv);
        }
        reveal(no_decide);
        assert forall|j: int| c0.len() <= j < c.len() implies !is_decide((#[trigger] c[j]).argv) by {
            if j < c1.len() {
                assert(c[j] == c.take(c1.len() as int)[j]);
                assert(c1[j].argv[0] == "hayven"@);
            } else {
                assert(c[j] == seg[j - c1.len()]);
                assert(seg[j - c1.len()].argv == rargv);
            }
        }
        reveal(releases_only_to);
        assert forall|j: int| c0.len() <= j < c.len() && is_issue_release((#[trigger] c[j]).argv) implies c[j].argv.len()
            >= 8 && c[j].argv.take(8) == seq![
            "amt"@,
            "--json"@,
            "release"@,
            issue@,
            "--agent"@,
            worker@,
            "--status"@,
            status@,
        ] by {
            if j < c1.len() {
                assert(c[j] == c.take(c1.len() as int)[j]);
                assert(c1[j].argv[0] == "hayven"@);
            } else {
                assert(c[j] == seg[j - c1.len()]);
                assert(seg[j - c1.len()].argv == rargv);
                assert(c[j].argv.take(8) =~= seq![
                    "amt"@,
                    "--json"@,
                    "release"@,
                    issue@,
                    "--agent"@,
                    worker@,
                    "--status"@,
                    status@,
                ]);
            }
        }
        reveal(parents_only);
        assert forall|j: int| c0.len() <= j < c.len() implies (#[trigger] c[j]).argv.len() > 0 && (
        c[j].argv[0] == "amt"@ || c[j].argv[0] == "hayven"@) by {
            if j < c1.len() {
                assert(c[j] == c.take(c1.len() as int)[j]);
            } else {
                assert(c[j] == seg[j - c1.len()]);
                assert(seg[j - c1.len()].argv == rargv);
            }
        }
        assert(c.subrange(c0.len() as int, c1.len() as int) =~= c1.skip(c0.len() as int)) by {
            assert forall|t: int| 0 <= t < c1.len() - c0.len() implies c.subrange(c0.len() as int, c1.len() as int)[t]
                == c1.skip(c0.len() as int)[t] by {
                assert(c[c0.len() + t] == c.take(c1.len() as int)[c0.len() + t]);
            }
        }
        assert(release_upto(
            c.subrange(c0.len() as int, c1.len() as int),
            b1,
            string_views(claim_ids@),
            string_views(claim_ids@).len() as int,
        ));
    }
}


/// How many `retry_budget` events the ledger `l1` holds for iteration
/// `iter_id` beyond those `l0` held, when that iteration is a row of `l1` and
/// the event log never ran out of ids (else nothing is said).
pub open spec fn retries_seen(l0: Ledger, l1: Ledger, iter_id: i64) -> Option<int> {
    if 1 <= iter_id <= l1.iterations@.len() && l1.policy_events@.len() < i64::MAX {
        Some(iter_retries(l1.policy_events@, iter_id) - iter_retries(l0.policy_events@, iter_id))
    } else {
        None
    }
}

/// Later events that are no retries of `iter_id` leave the count seen.
proof fn lemma_retries_seen_after(l0: Ledger, l1: Ledger, l2: Ledger, iter_id: i64)
    requires
        crate::ledger::retries_kept(l1.policy_events@, l2.policy_events@, iter_id),
        l1.iterations@.len() == l2.iterations@.len(),
        l1.policy_events@.len() >= l0.policy_events@.len(),
        l1.policy_events@.take(l0.policy_events@.len() as int) == l0.policy_events@,
    ensures
        retries_seen(l0, l2, iter_id) is Some ==> retries_seen(l0, l1, iter_id) == retries_seen(l0, l2, iter_id),
{
    lemma_retries_kept(l1.policy_events@, l2.policy_events@, iter_id);
}

/// Earlier events that are no retries of `iter_id` leave the count seen.
proof fn lemma_retries_seen_before(l0: Ledger, l1: Ledger, l2: Ledger, iter_id: i64)
    requires
        crate::ledger::retries_kept(l0.policy_events@, l1.policy_events@, iter_id),
    ensures
        retries_seen(l0, l2, iter_id) == retries_seen(l1, l2, iter_id),
{
    lemma_retries_kept(l0.policy_events@, l1.policy_events@, iter_id);
}

/// WORK then GATE, retried as a unit up to `retry_budget` times (at least
/// once): only a failing gate is retried, and a killed agent ends the loop at
/// once without consuming retries. Held leases stay claimed across attempts.
#[verifier::spinoff_prover]
#[verifier::rlimit(40)]
fn work_loop<R: Runner>(
    amt: &Amt,
    hv: &Hayven,
    ledger: &mut Ledger,
    runner: &mut R,
    out: &mut Vec<Json>,
    config: &Config,
    worker: &str,
    issue: &str,
    agent_cmd: &str,
    held: &Vec<String>,
    lock_intent: &str,
    iter_id: i64,
) -> (a: Attempt)
    requires
        old(ledger).wf(),
    ensures
        phased(old(out)@, final(out)@, worker@, Some(issue@)),
        final(ledger).wf(),
        final(ledger).iterations == old(ledger).iterations,
        final(ledger).workers == old(ledger).workers,
        final(ledger).receipts == old(ledger).receipts,
        final(runner).calls().len() > old(runner).calls().len(),
        final(runner).calls().take(old(runner).calls().len() as int) == old(runner).calls(),
        !(a matches Attempt::Gated { result, .. } && result == GateResult::Pass) ==> no_advance(
            final(runner).calls(),
            old(runner).calls().len() as int,
        ),
        no_issue_release(final(runner).calls(), old(runner).calls().len() as int),
        no_decide(final(runner).calls(), old(runner).calls().len() as int),
        exists|k: nat|
            1 <= k <= attempt_budget(config.retry_budget) && #[trigger] attempts(
                final(runner).calls(),
                old(runner).calls().len() as int,
                k,
                *config,
                worker@,
                issue@,
                agent_cmd@,
                string_views(held@),
                lock_intent@,
                a,
            ) && ((a matches Attempt::Gated { result, .. } && result == GateResult::Fail) ==> k
                == attempt_budget(config.retry_budget)) && (retries_seen(*old(ledger), *final(ledger), iter_id) matches Some(
                x,
            ) ==> k == x + 1) && (k > 1 ==> has_event(
                final(out)@,
                old(out)@.len() as int,
                "retrying"@,
                Json::Bool(true),
            )),
        a is TimedOut ==> has_event(final(out)@, old(out)@.len() as int, "timed_out"@, Json::Bool(true)),
        final(ledger).policy_events@.len() >= old(ledger).policy_events@.len(),
        final(ledger).policy_events@.take(old(ledger).policy_events@.len() as int) == old(ledger).policy_events@,
{
    let ghost o0 = out@;
    proof {
        lemma_phased_same(o0, worker@, Some(issue@));
    }
    let ghost c0 = runner.calls();
    let ghost l0 = *ledger;
    let max_attempts: u32 = if config.retry_budget > 1 {
        config.retry_budget
    } else {
        1
    };
    let mut attempt: u32 = 0;
    proof {
        assert(runner.calls().take(c0.len() as int) =~= c0);
        reveal(no_decide);
        lemma_plain_same(l0.policy_events@);
    }
    loop
        invariant
            c0 == old(runner).calls(),
            l0 == *old(ledger),
            ledger.wf(),
            ledger.iterations == l0.iterations,
            ledger.workers == l0.workers,
            ledger.receipts == l0.receipts,
            ledger.policy_events@.len() >= l0.policy_events@.len(),
            ledger.policy_events@.take(l0.policy_events@.len() as int) == l0.policy_events@,
            retries_seen(l0, *ledger, iter_id) matches Some(x) ==> x == attempt,
            attempt > 0 ==> has_event(out@, o0.len() as int, "retrying"@, Json::Bool(true)),
            max_attempts >= 1,
            attempt < max_attempts,
            runner.calls().len() >= c0.len(),
            runner.calls().take(c0.len() as int) == c0,
            no_advance(runner.calls(), c0.len() as int),
            o0 == old(out)@,
            phased(o0, out@, worker@, Some(issue@)),
            max_attempts == attempt_budget(config.retry_budget),
            no_issue_release(runner.calls(), c0.len() as int),
            no_decide(runner.calls(), c0.len() as int),
            failed_attempts(
                runner.calls(),
                c0.len() as int,
                attempt as nat,
                *config,
                worker@,
                issue@,
                agent_cmd@,
                string_views(held@),
                lock_intent@,
            ),
        decreases max_attempts - attempt,
    {
        let ghost cb = runner.calls();
        let ghost ob = out@;
        let a = attempt_once(
            amt,
            hv,
            runner,
            out,
            config,
            worker,
            issue,
            agent_cmd,
            held,
            lock_intent,
            attempt as u64 + 1,
        );
        proof {
            assert(ob.len() >= o0.len()) by {
                reveal(phased);
            }
            if attempt > 0 {
                lemma_has_event_phased(ob, out@, o0.len() as int, o0.len() as int, "retrying"@, Json::Bool(true), worker@, Some(issue@));
            }
            if a is TimedOut {
                assert(out@.take(out@.len() as int) =~= out@);
                lemma_has_event_extend(out@, out@, ob.len() as int, o0.len() as int, "timed_out"@, Json::Bool(true));
            }
        }
        proof {
            lemma_phased_trans(o0, ob, out@, worker@, Some(issue@));
            let c = runner.calls();
            assert(c.take(c0.len() as int) =~= c0) by {
                assert(c.take(c0.len() as int) =~= cb.take(c0.len() as int));
            }
            let mid = cb.len() as int;
            assert(c.take(mid) =~= cb);
            assert(attempt_spec(
                c.take(mid),
                c,
                *config,
                worker@,
                issue@,
                agent_cmd@,
                string_views(held@),
                lock_intent@,
                a,
            ));
            assert(attempts(
                c,
                c0.len() as int,
                (attempt + 1) as nat,
                *config,
                worker@,
                issue@,
                agent_cmd@,
                string_views(held@),
                lock_intent@,
                a,
            ));
            if a matches Attempt::Gated { result: GateResult::Fail, work_ok } {
                assert(failed_attempts(
                    c,
                    c0.len() as int,
                    (attempt + 1) as nat,
                    *config,
                    worker@,
                    issue@,
                    agent_cmd@,
                    string_views(held@),
                    lock_intent@,
                ));
            }
            if !(a matches Attempt::Gated { result, .. } && result == GateResult::Pass) {
                lemma_no_advance_join(cb, c, c0.len() as int);
            }
            lemma_no_issue_release_join(cb, c, c0.len() as int);
            lemma_no_decide_join(cb, c, c0.len() as int);
        }
        match a {
            Attempt::Gated { result: GateResult::Fail, .. } => {
                if attempt + 1 < max_attempts {
                    let mut m: Vec<(String, Json)> = Vec::new();
                    insert_member(&mut m, str_of("issue"), Json::string(issue));
                    insert_member(&mut m, str_of("attempt"), Json::uint(attempt as u64 + 1));
                    insert_member(&mut m, str_of("max_attempts"), Json::uint(max_attempts as u64));
                    let ghost lb = *ledger;
                    let _ = ledger.log_policy_event(Some(iter_id), "retry_budget", Json::Object(m));
                    proof {
                        let e0 = lb.policy_events@;
                        let e1 = ledger.policy_events@;
                        if e1.len() > e0.len() {
                            assert(e1.drop_last() =~= e0);
                            assert(crate::ledger::is_retry_of(e1.last(), iter_id));
                            assert(iter_retries(e1, iter_id) == iter_retries(e0, iter_id) + 1);
                            assert(e1.take(l0.policy_events@.len() as int) =~= e0.take(
                                l0.policy_events@.len() as int,
                            ));
                        } else {
                            assert(e1 =~= e0);
                        }
                    }
                    let mut extra: Vec<(String, Json)> = Vec::new();
                    extra.push(member("retrying", Json::Bool(true)));
                    extra.push(member("attempt", Json::uint(attempt as u64 + 1)));
                    extra.push(member("max_attempts", Json::uint(max_attempts as u64)));
                    let ghost ob = out@;
                    proof {
                        lemma_event_words();
                        assert(ob.len() >= o0.len()) by {
                            reveal(phased);
                        }
                    }
                    let ghost ex = extra@;
                    emit(out, worker, Some(issue), "work", extra);
                    proof {
                        lemma_phased_trans(o0, ob, out@, worker@, Some(issue@));
                        assert(lookup(ex, "retrying"@) == Some(ex[0].1));
                        assert(get(out@[out@.len() - 1], "retrying"@) == Some(Json::Bool(true)));
                        assert(has_event(out@, o0.len() as int, "retrying"@, Json::Bool(true)));
                    }
                    attempt = attempt + 1;
                } else {
                    return a;
                }
            },
            _ => {
                return a;
            },
        }
    }
}

/// The receipt of a complete iteration: a decision on the issue, then a
/// two-way link of the decision to the entities. Returns the receipt id.
#[verifier::spinoff_prover]
#[verifier::rlimit(40)]
fn receipt_phase<R: Runner>(
    amt: &Amt,
    hv: &Hayven,
    ledger: &mut Ledger,
    runner: &mut R,
    out: &mut Vec<Json>,
    worker: &str,
    issue: &str,
    entities: &Vec<String>,
) -> (receipt_id: Option<i64>)
    requires
        old(ledger).wf(),
    ensures
        phased(old(out)@, final(out)@, worker@, Some(issue@)),
        final(ledger).wf(),
        final(ledger).iterations == old(ledger).iterations,
        final(ledger).workers == old(ledger).workers,
        final(ledger).policy_events == old(ledger).policy_events,
        receipt_id matches Some(id) ==> 1 <= id <= final(ledger).receipts@.len(),
        final(runner).calls().len() > old(runner).calls().len(),
        final(runner).calls().take(old(runner).calls().len() as int) == old(runner).calls(),
        final(runner).calls()[old(runner).calls().len() as int].argv == crate::amt::decide_argv(
            issue@,
            "Resolved "@ + issue@ + " via sirius"@,
            "See linked entities."@,
        ),
        no_issue_release(final(runner).calls(), old(runner).calls().len() as int),
        parents_only(final(runner).calls(), old(runner).calls().len() as int),
        no_advance(final(runner).calls(), old(runner).calls().len() as int),
        no_claim(final(runner).calls(), old(runner).calls().len() as int),
        receipt_made(
            final(runner).calls(),
            old(runner).calls().len() as int,
            final(runner).calls().len() as int,
            issue@,
            worker@,
            string_views(entities@),
            *old(ledger),
            *final(ledger),
            receipt_id,
        ),
{
    let ghost o0 = out@;
    proof {
        lemma_phased_same(o0, worker@, Some(issue@));
    }
    let ghost c0 = runner.calls();
    let mut title = str_of("Resolved ");
    push_str(&mut title, issue);
    push_str(&mut title, " via sirius");
    let mut receipt_id: Option<i64> = None;
    let d = amt.decide(runner, issue, title.as_str(), "See linked entities.");
    proof {
        assert(runner.calls().take(c0.len() as int) =~= c0);
    }
    match d {
        Ok(decision_ref) => {
            let ghost c1 = runner.calls();
            let ghost l1 = *ledger;
            let link_r = crate::bridge::link(
                amt,
                hv,
                ledger,
                runner,
                crate::bridge::LinkKind::Decision,
                decision_ref.as_str(),
                entities.as_slice(),
                Some(worker),
            );
            match &link_r {
                Ok(rec) => {
                    receipt_id = Some(rec.receipt_id);
                },
                Err(_) => {},
            }
            proof {
                let c = runner.calls();
                assert(c.take(c0.len() as int) =~= c1.take(c0.len() as int));
                assert(c[c0.len() as int] == c1[c0.len() as int]) by {
                    assert(c[c0.len() as int] == c.take(c1.len() as int)[c0.len() as int]);
                }
                lemma_words();
                assert(c1.len() == c0.len() + 1);
                assert(c1.last() == c[c0.len() as int]);
                assert(c.take(c0.len() + 1int) =~= c1);
                assert(c.take(c.len() as int) =~= c);
                if entities@.len() > 0 {
                    let (mid, fwd, rev) = choose|mid: Seq<Call>, fwd: bool, rev: bool|
                        #[trigger] crate::bridge::link_steps(
                            crate::bridge::LinkKind::Decision,
                            decision_ref@,
                            string_views(entities@),
                            opt_str(Some(worker)),
                            c1,
                            mid,
                            c,
                            fwd,
                            rev,
                            l1,
                            *ledger,
                            crate::bridge::link_view(link_r),
                        );
                    lemma_link_no_issue_release(
                        decision_ref@,
                        string_views(entities@),
                        opt_str(Some(worker)),
                        c1,
                        mid,
                        c,
                        fwd,
                        rev,
                        l1,
                        *ledger,
                        crate::bridge::link_view(link_r),
                    );
                    lemma_link_parents(
                        decision_ref@,
                        string_views(entities@),
                        opt_str(Some(worker)),
                        c1,
                        mid,
                        c,
                        fwd,
                        rev,
                        l1,
                        *ledger,
                        crate::bridge::link_view(link_r),
                    );
                    assert(receipt_id == (match crate::bridge::link_view(link_r) {
                        Ok(v) => Some(v.receipt_id),
                        Err(_) => None::<i64>,
                    }));
                } else {
                    assert(c == c1);
                    assert(link_r is Err);
                    assert(receipt_id is None);
                    assert(l1 == *ledger);
                }
                assert(opt_str(Some(worker)) == Some(worker@));
                assert(crate::amt::amt_decision_id(c[c0.len() as int].out) == Ok::<Seq<char>, Seq<char>>(decision_ref@));
                assert(c0.len() < c.len());
                assert(c[c0.len() as int].argv == crate::amt::decide_argv(
                    issue@,
                    "Resolved "@ + issue@ + " via sirius"@,
                    "See linked entities."@,
                ));
                if entities@.len() > 0 {
                    let (mid, fwd, rev) = choose|mid: Seq<Call>, fwd: bool, rev: bool|
                        #[trigger] crate::bridge::link_steps(
                            crate::bridge::LinkKind::Decision,
                            decision_ref@,
                            string_views(entities@),
                            opt_str(Some(worker)),
                            c1,
                            mid,
                            c,
                            fwd,
                            rev,
                            l1,
                            *ledger,
                            crate::bridge::link_view(link_r),
                        );
                    lemma_receipt_linked(
                        c,
                        c0.len() as int,
                        c.len() as int,
                        issue@,
                        worker@,
                        string_views(entities@),
                        l1,
                        *ledger,
                        receipt_id,
                        decision_ref@,
                        mid,
                        fwd,
                        rev,
                        crate::bridge::link_view(link_r),
                    );
                }
                assert(receipt_made(c, c0.len() as int, c.len() as int, issue@, worker@, string_views(entities@), l1, *ledger, receipt_id));
                assert(c1[c0.len() as int].argv[0] == "amt"@);
                assert(parents_only(c1, c0.len() as int)) by {
                    reveal(parents_only);
                }
                if entities@.len() > 0 {
                    lemma_parents_join(c1, c, c0.len() as int);
                } else {
                    assert(c == c1);
                }
                assert(no_issue_release(c, c0.len() as int)) by {
                    assert forall|i: int| c0.len() <= i < c.len() implies !is_issue_release((#[trigger] c[i]).argv) by {
                        if i < c1.len() {
                            assert(c[i] == c.take(c1.len() as int)[i]);
                        }
                    }
                }
                assert(no_advance(c, c0.len() as int) && no_claim(c, c0.len() as int)) by {
                    assert forall|i: int| c0.len() <= i < c.len() implies !is_advance((#[trigger] c[i]).argv)
                        && !is_claim(c[i].argv) by {
                        if i < c1.len() {
                            assert(c[i] == c.take(c1.len() as int)[i]);
                            assert(i == c0.len());
                        }
                    }
                }
            }
        },
        Err(_) => {
            proof {
                lemma_words();
                let c = runner.calls();
                assert(c.len() == c0.len() + 1);
                assert(c.last() == c[c0.len() as int]);
                assert(crate::amt::amt_decision_id(c[c0.len() as int].out) is Err);
                assert(no_issue_release(c, c0.len() as int)) by {
                    assert forall|i: int| c0.len() <= i < c.len() implies !is_issue_release((#[trigger] c[i]).argv) by {
                        assert(i == c0.len());
                    }
                }
                assert(no_advance(c, c0.len() as int) && no_claim(c, c0.len() as int)) by {
                    assert forall|i: int| c0.len() <= i < c.len() implies !is_advance((#[trigger] c[i]).argv)
                        && !is_claim(c[i].argv) by {
                        assert(i == c0.len());
                    }
                }
                assert(parents_only(c, c0.len() as int)) by {
                    reveal(parents_only);
                    assert forall|i: int| c0.len() <= i < c.len() implies (#[trigger] c[i]).argv.len() > 0 && (
                    c[i].argv[0] == "amt"@ || c[i].argv[0] == "hayven"@) by {
                        assert(i == c0.len());
                    }
                }
            }
        },
    }
    let mut extra: Vec<(String, Json)> = Vec::new();
    extra.push(
        member(
            "receipt_id",
            match receipt_id {
                Some(id) => Json::signed(id),
                None => Json::Null,
            },
        ),
    );
    let ghost ob = out@;
    proof {
        lemma_event_words();
    }
    emit(out, worker, Some(issue), "receipt", extra);
    proof {
        lemma_phased_trans(o0, ob, out@, worker@, Some(issue@));
    }
    receipt_id
}


proof fn lemma_released_extend(
    c1: Seq<Call>,
    c2: Seq<Call>,
    from1: int,
    from0: int,
    issue: Seq<char>,
    worker: Seq<char>,
    status: Seq<char>,
)
    requires
        released_to(c1, from1, issue, worker, status),
        0 <= from0 <= from1,
        c1.len() <= c2.len(),
        c2.take(c1.len() as int) == c1,
    ensures
        released_to(c2, from0, issue, worker, status),
{
    let i = choose|i: int|
        from1 <= i < c1.len() && (#[trigger] c1[i]).argv.len() >= 8 && c1[i].argv.take(8) == seq![
            "amt"@,
            "--json"@,
            "release"@,
            issue,
            "--agent"@,
            worker,
            "--status"@,
            status,
        ];
    assert(c2[i] == c2.take(c1.len() as int)[i]);
}

/// Mark the iteration's row finished and the worker idle.
fn close_out(
    ledger: &mut Ledger,
    worker: &str,
    iter_id: i64,
    entities: &Vec<String>,
    outcome: &str,
    gate_result: Option<&str>,
    verdicts: &Vec<String>,
    start: &std::time::Instant,
    receipt_id: Option<i64>,
)
    requires
        old(ledger).wf(),
        receipt_id matches Some(rid) ==> 1 <= rid <= old(ledger).receipts@.len(),
    ensures
        final(ledger).wf(),
        final(ledger).policy_events == old(ledger).policy_events,
        final(ledger).receipts == old(ledger).receipts,
        final(ledger).iterations@.len() == old(ledger).iterations@.len(),
        forall|k: int|
            0 <= k < old(ledger).iterations@.len() && k != iter_id - 1 ==> final(ledger).iterations@[k]
                == old(ledger).iterations@[k],
        1 <= iter_id <= old(ledger).iterations@.len() ==> ({
            let row = final(ledger).iterations@[iter_id - 1];
            let was = old(ledger).iterations@[iter_id - 1];
            &&& row.id == was.id && row.worker_id == was.worker_id && row.issue_ref == was.issue_ref
            &&& row.outcome matches Some(o) && o@ == outcome@
            &&& crate::hayven::opt_view(row.gate_result) == opt_str(gate_result)
            &&& row.receipt_id == receipt_id
        }),
{
    let _ = ledger.finish_iteration(
        iter_id,
        entities.as_slice(),
        outcome,
        gate_result,
        verdicts.as_slice(),
        None,
        Some(elapsed_ms(start)),
        receipt_id,
    );
    let _ = ledger.upsert_worker(worker, "idle");
}

/// The calls of a give-back, after calls that advanced nothing, released
/// nothing and went to the parents alone.
proof fn lemma_gave_back(cl: Seq<Call>, cr: Seq<Call>, c: Seq<Call>, n: int, issue: Seq<char>, worker: Seq<char>)
    requires
        0 <= n <= cl.len() <= cr.len() < c.len(),
        c.take(cr.len() as int) == cr,
        no_advance(cr, n),
        no_issue_release(cr, n),
        parents_only(cr, n),
        no_advance(c, cr.len() as int),
        released_to(c, cr.len() as int, issue, worker, "todo"@),
        entities_first(c, cr.len() as int),
        parents_only(c, cr.len() as int),
        releases_only_to(c, cr.len() as int, issue, worker, "todo"@),
    ensures
        releases_only_to(c, n, issue, worker, "todo"@),
        c.take(n) == cr.take(n),
        no_advance(c, n),
        released_to(c, n, issue, worker, "todo"@),
        entities_first(c, n),
        parents_only(c, n),
{
    lemma_no_advance_join(cr, c, n);
    assert(c.take(c.len() as int) =~= c);
    lemma_released_extend(c, c, cr.len() as int, n, issue, worker, "todo"@);
    assert(c.take(n) =~= cr.take(n));
    lemma_entities_first_join(cr, c, c, n);
    lemma_parents_join(cr, c, n);
    lemma_only_to_join(cr, c, c, n, issue, worker, "todo"@);
}

/// Give the issue back after an entity claim came back blocked (or backed
/// off): release the claims held (reverse) and the issue to `todo` with
/// `note`, emit the release event, and close the iteration out as
/// `released` with `verdict` as its oracle verdict.
fn give_back<R: Runner>(
    amt: &Amt,
    hv: &Hayven,
    ledger: &mut Ledger,
    runner: &mut R,
    out: &mut Vec<Json>,
    worker: &str,
    issue: &str,
    entities: &Vec<String>,
    acquired: &Vec<String>,
    note: &str,
    extra: Vec<(String, Json)>,
    verdict: &str,
    iter_id: i64,
    start: &std::time::Instant,
)
    requires
        old(ledger).wf(),
        plain_extra(extra@),
    ensures
        phased(old(out)@, final(out)@, worker@, Some(issue@)),
        final(out)@.len() == old(out)@.len() + 1,
        phase_of(final(out)@.last()) == Some("release"@),
        forall|k: Seq<char>| #[trigger] lookup(extra@, k) is Some ==> get(final(out)@.last(), k) == lookup(extra@, k),
        final(ledger).wf(),
        plain_appended(old(ledger).policy_events@, final(ledger).policy_events@),
        final(ledger).iterations@.len() == old(ledger).iterations@.len(),
        forall|k: int|
            0 <= k < old(ledger).iterations@.len() && k != iter_id - 1 ==> final(ledger).iterations@[k]
                == old(ledger).iterations@[k],
        1 <= iter_id <= old(ledger).iterations@.len() ==> ({
            let row = final(ledger).iterations@[iter_id - 1];
            let was = old(ledger).iterations@[iter_id - 1];
            &&& row.id == was.id && row.worker_id == was.worker_id && row.issue_ref == was.issue_ref
            &&& row.outcome matches Some(o) && o@ == "released"@
            &&& row.gate_result is None
            &&& row.receipt_id is None
        }),
        final(runner).calls().len() > old(runner).calls().len(),
        final(runner).calls().take(old(runner).calls().len() as int) == old(runner).calls(),
        no_advance(final(runner).calls(), old(runner).calls().len() as int),
        released_to(final(runner).calls(), old(runner).calls().len() as int, issue@, worker@, "todo"@),
        released_noting(
            final(runner).calls(),
            old(runner).calls().len() as int,
            issue@,
            worker@,
            "todo"@,
            note@,
        ),
        entities_first(final(runner).calls(), old(runner).calls().len() as int),
        parents_only(final(runner).calls(), old(runner).calls().len() as int),
        releases_only_to(final(runner).calls(), old(runner).calls().len() as int, issue@, worker@, "todo"@),
        no_decide(final(runner).calls(), old(runner).calls().len() as int),
{
    release_back(amt, hv, ledger, runner, issue, worker, acquired, "todo", Some(note));
    proof {
        lemma_event_words();
    }
    emit(out, worker, Some(issue), "release", extra);
    let verdicts = vec![str_of(verdict)];
    close_out(ledger, worker, iter_id, entities, "released", None, &verdicts, start, None);
}

/// Finish an iteration whose last attempt was gated: file the receipt if it
/// advances, release the entities (reverse) and the issue — to the target
/// status if it advances, else to `todo` — close the iteration out, and file
/// a deadend note after a failed gate. `n` is where the iteration's own calls
/// began.
#[verifier::spinoff_prover]
#[verifier::rlimit(100)]
fn finish_gated<R: Runner>(
    amt: &Amt,
    hv: &Hayven,
    ledger: &mut Ledger,
    config: &Config,
    runner: &mut R,
    worker: &str,
    out: &mut Vec<Json>,
    issue: &str,
    iter_id: i64,
    start: &std::time::Instant,
    entities: &Vec<String>,
    claim_ids: &Vec<String>,
    oracle_verdicts: &Vec<String>,
    result: GateResult,
    work_ok: bool,
    Ghost(n): Ghost<int>,
) -> (r: IterationOutcome)
    requires
        old(ledger).wf(),
        0 <= n <= old(runner).calls().len(),
        no_issue_release(old(runner).calls(), n),
        no_decide(old(runner).calls(), n),
        result != GateResult::Pass ==> no_advance(old(runner).calls(), n),
    ensures
        phased(old(out)@, final(out)@, worker@, Some(issue@)),
        final(out)@.len() > old(out)@.len(),
        release_event(final(out)@.last(), r is Completed),
        get_str(final(out)@.last(), "status"@) == Some(
            if r is Completed {
                config.target_status@
            } else {
                "todo"@
            },
        ),
        final(ledger).wf(),
        plain_appended(old(ledger).policy_events@, final(ledger).policy_events@),
        final(runner).calls().len() > old(runner).calls().len(),
        final(runner).calls().take(old(runner).calls().len() as int) == old(runner).calls(),
        ended_by(r, Attempt::Gated { result, work_ok }),
        !(r is Completed) ==> no_advance(final(runner).calls(), n),
        !(r is Completed) ==> no_decide(final(runner).calls(), n),
        !(r is Completed) ==> released_to(final(runner).calls(), n, issue@, worker@, "todo"@),
        !(r is Completed) ==> releases_only_to(final(runner).calls(), n, issue@, worker@, "todo"@),
        r is Completed ==> released_to(final(runner).calls(), n, issue@, worker@, config.target_status@),
        r is Completed ==> releases_only_to(
            final(runner).calls(),
            n,
            issue@,
            worker@,
            config.target_status@,
        ),
        r is Completed ==> decided(final(runner).calls(), n, issue@),
        r is Completed ==> exists|rid: Option<i64>|
            #[trigger] receipt_recorded(
                final(runner).calls(),
                old(runner).calls().len() as int,
                issue@,
                worker@,
                string_views(entities@),
                rid,
                final(ledger).receipts@,
            ),
        r is Deadend ==> deadend_filed(
            final(runner).calls(),
            issue@,
            string_views(entities@),
            "gate failed (affected-tests)"@,
        ),
        parents_only(final(runner).calls(), old(runner).calls().len() as int),
        no_advance(final(runner).calls(), old(runner).calls().len() as int),
        no_claim(final(runner).calls(), old(runner).calls().len() as int),
        released_in_reverse(final(runner).calls(), old(runner).calls().len() as int, string_views(claim_ids@)),
        final(ledger).iterations@.len() == old(ledger).iterations@.len(),
        forall|k: int|
            0 <= k < old(ledger).iterations@.len() && k != iter_id - 1 ==> final(ledger).iterations@[k]
                == old(ledger).iterations@[k],
        1 <= iter_id <= old(ledger).iterations@.len() ==> ({
            let row = final(ledger).iterations@[iter_id - 1];
            let was = old(ledger).iterations@[iter_id - 1];
            let c = final(runner).calls();
            &&& row.id == was.id && row.worker_id == was.worker_id && row.issue_ref == was.issue_ref
            &&& recorded_as(r, row)
            &&& row_record(row) == attempt_record(Attempt::Gated { result, work_ok })
            &&& (row.outcome matches Some(o) && o@ == "completed"@) ==> released_to(
                c,
                n,
                issue@,
                worker@,
                config.target_status@,
            )
            &&& (row.outcome matches Some(o) && o@ == "error"@) ==> released_to(c, n, issue@, worker@, "todo"@)
            &&& (row.outcome matches Some(o) && o@ == "completed"@) ==> decided(c, n, issue@)
            &&& row.receipt_id is Some ==> (row.outcome matches Some(o) && o@ == "completed"@)
            &&& (row.outcome matches Some(o) && o@ == "completed"@) ==> receipt_recorded(
                c,
                old(runner).calls().len() as int,
                issue@,
                worker@,
                string_views(entities@),
                row.receipt_id,
                final(ledger).receipts@,
            )
            &&& (row.outcome matches Some(o) && o@ == "gate_failed"@) ==> deadend_filed(
                c,
                issue@,
                string_views(entities@),
                "gate failed (affected-tests)"@,
            )
            &&& !(row.outcome matches Some(o) && o@ == "agent_timeout"@)
        }),
        entities_first(final(runner).calls(), n),
{
    let ghost o0 = out@;
    proof {
        lemma_phased_same(o0, worker@, Some(issue@));
        lemma_words();
        lemma_outcome_words();
    }
    let advanced = result == GateResult::Pass || (result == GateResult::Skipped && work_ok);
    // RECEIPT: decide + two-way link, only for a complete iteration.
    let ghost crc = runner.calls();
    let ghost lr0 = *ledger;
    let receipt_id = if advanced {
        let ghost ob = out@;
        let rid = receipt_phase(amt, hv, ledger, runner, out, worker, issue, entities);
        proof {
            lemma_phased_trans(o0, ob, out@, worker@, Some(issue@));
        }
        rid
    } else {
        None
    };
    let ghost crc2 = runner.calls();
    let ghost lr1 = *ledger;
    proof {
        assert(crc2.take(n) =~= crc.take(n));
        if advanced {
            lemma_no_issue_release_join(crc, crc2, n);
        }
        if advanced {
            assert(decided(crc2, n, issue@)) by {
                assert(crc2[crc.len() as int].argv == crate::amt::decide_argv(
                    issue@,
                    "Resolved "@ + issue@ + " via sirius"@,
                    "See linked entities."@,
                ));
            }
        }
    }
    // RELEASE: entities first (reverse), then the issue — advanced
    // only past a passing (or skipped, successful) gate.
    let status: &str = if advanced {
        config.target_status.as_str()
    } else {
        "todo"
    };
    let comment: Option<&str> = if advanced {
        None
    } else {
        Some("sirius: released without advancing — gate did not pass")
    };
    release_back(amt, hv, ledger, runner, issue, worker, claim_ids, status, comment);
    let ghost cr2 = runner.calls();
    proof {
        assert(cr2.take(cr2.len() as int) =~= cr2);
        lemma_reverse_extend(cr2, cr2, crc2.len() as int, crc.len() as int, string_views(claim_ids@));
    }
    let mut extra: Vec<(String, Json)> = Vec::new();
    extra.push(member("status", Json::string(status)));
    extra.push(member("advanced", Json::Bool(advanced)));
    let ghost ob = out@;
    proof {
        lemma_event_words();
    }
    let ghost ex = extra@;
    emit(out, worker, Some(issue), "release", extra);
    proof {
        lemma_phased_trans(o0, ob, out@, worker@, Some(issue@));
        lemma_payload_words();
        lemma_lookup_second(ex, "advanced"@);
        assert(release_event(out@.last(), advanced));
        assert(lookup(ex, "status"@) == Some(ex[0].1));
        assert(get_str(out@.last(), "status"@) == Some(status@));
        assert(out@.len() > o0.len()) by {
            reveal(phased);
        }
    }
    let outcome: &str = if result == GateResult::Fail {
        "gate_failed"
    } else if advanced {
        "completed"
    } else {
        "error"
    };
    close_out(ledger, worker, iter_id, entities, outcome, Some(result.name()), oracle_verdicts, start, receipt_id);
    proof {
        if advanced {
            lemma_parents_join(crc2, cr2, crc.len() as int);
        }
        assert(cr2.take(n) =~= crc2.take(n));
        assert(cr2.take(cr2.len() as int) =~= cr2);
        lemma_released_extend(cr2, cr2, crc2.len() as int, n, issue@, worker@, status@);
    }
    if result == GateResult::Fail {
        file_deadend(hv, runner, entities.as_slice(), issue, "gate failed (affected-tests)");
        proof {
            let c = runner.calls();
            assert(crc2 == crc);
            lemma_no_advance_join(crc, cr2, n);
            assert(c.drop_last() == cr2);
            assert(c.take(cr2.len() as int) =~= cr2);
            assert(!is_advance(c.last().argv));
            assert(no_advance(c, cr2.len() as int));
            lemma_no_advance_join(cr2, c, n);
            assert(!is_claim(c.last().argv));
            assert(no_claim(c, cr2.len() as int));
            lemma_no_claim_join(cr2, c, crc.len() as int);
            lemma_released_extend(cr2, c, n, n, issue@, worker@, "todo"@);
            assert(c.take(n) =~= cr2.take(n));
            lemma_entities_first_note(
                crc2,
                cr2,
                c,
                n,
                deadend_note(issue@, "gate failed (affected-tests)"@),
                if entities@.len() > 0 {
                    Some(entities@[0]@)
                } else {
                    None
                },
                "deadend"@,
                string_views(entities@),
            );
            assert(no_issue_release(c, cr2.len() as int)) by {
                assert forall|i: int| cr2.len() <= i < c.len() implies !is_issue_release(
                    (#[trigger] c[i]).argv,
                ) by {
                    assert(c[i] == c.last());
                }
            }
            lemma_only_to_join(crc2, cr2, c, n, issue@, worker@, "todo"@);
            lemma_no_decide_join(crc, cr2, n);
            lemma_no_decide_last(cr2, c, n);
            lemma_parents_last(cr2, c, crc.len() as int);
        }
        proof {
            let c = runner.calls();
            assert(c.take(cr2.len() as int) =~= cr2);
            lemma_reverse_extend(cr2, c, crc.len() as int, crc.len() as int, string_views(claim_ids@));
        }
        IterationOutcome::Deadend
    } else if advanced {
        proof {
            lemma_entities_first_join(crc2, cr2, cr2, n);
            lemma_only_to_join(crc2, cr2, cr2, n, issue@, worker@, status@);
            lemma_decided_extend(crc2, cr2, n, issue@);
            assert(cr2.take(crc2.len() as int) =~= crc2);
            lemma_receipt_extend(
                crc2,
                cr2,
                crc.len() as int,
                crc2.len() as int,
                issue@,
                worker@,
                string_views(entities@),
                lr0,
                lr1,
                receipt_id,
            );
            assert(ledger.receipts == lr1.receipts);
            assert(receipt_recorded(
                cr2,
                crc.len() as int,
                issue@,
                worker@,
                string_views(entities@),
                receipt_id,
                ledger.receipts@,
            ));
        }
        IterationOutcome::Completed
    } else {
        let e = str_of("agent failed and left nothing to gate");
        proof {
            assert(crc2 == crc);
            lemma_no_advance_join(crc, cr2, n);
            lemma_entities_first_join(crc2, cr2, cr2, n);
            lemma_only_to_join(crc2, cr2, cr2, n, issue@, worker@, status@);
            lemma_no_decide_join(crc, cr2, n);
        }
        IterationOutcome::Error(e)
    }
}

/// With the entities mapped (and held, when `claim_ids` is not empty):
/// brief, work and gate, receipt, release. `n` is where the iteration's own
/// calls began.
#[verifier::spinoff_prover]
#[verifier::rlimit(100)]
fn work_held<R: Runner>(
    amt: &Amt,
    hv: &Hayven,
    ledger: &mut Ledger,
    config: &Config,
    runner: &mut R,
    worker: &str,
    agent_cmd: &str,
    out: &mut Vec<Json>,
    issue: &str,
    title: &str,
    iter_id: i64,
    start: &std::time::Instant,
    entities: Vec<String>,
    claim_ids: Vec<String>,
    oracle_verdicts: Vec<String>,
    Ghost(n): Ghost<int>,
) -> (r: IterationOutcome)
    requires
        old(ledger).wf(),
        0 <= n <= old(runner).calls().len(),
        no_advance(old(runner).calls(), n),
        no_issue_release(old(runner).calls(), n),
        no_decide(old(runner).calls(), n),
    ensures
        phased(old(out)@, final(out)@, worker@, Some(issue@)),
        final(out)@.len() > old(out)@.len(),
        release_event(final(out)@.last(), r is Completed),
        final(ledger).wf(),
        final(ledger).policy_events@.len() >= old(ledger).policy_events@.len(),
        final(ledger).policy_events@.take(old(ledger).policy_events@.len() as int) == old(ledger).policy_events@,
        final(runner).calls().len() > old(runner).calls().len(),
        final(runner).calls().take(old(runner).calls().len() as int) == old(runner).calls(),
        r is Completed || r is Deadend || r is Error,
        r matches IterationOutcome::Error(x) ==> x@ == nothing_gated(),
        !(r is Completed) ==> no_advance(final(runner).calls(), n),
        !(r is Completed) ==> no_decide(final(runner).calls(), n),
        r is Deadend ==> deadend_filed(
            final(runner).calls(),
            issue@,
            string_views(entities@),
            "agent timed out"@,
        ) || deadend_filed(
            final(runner).calls(),
            issue@,
            string_views(entities@),
            "gate failed (affected-tests)"@,
        ),
        !(r is Completed) ==> released_to(final(runner).calls(), n, issue@, worker@, "todo"@),
        !(r is Completed) ==> releases_only_to(final(runner).calls(), n, issue@, worker@, "todo"@),
        r is Completed ==> released_to(final(runner).calls(), n, issue@, worker@, config.target_status@),
        r is Completed ==> releases_only_to(
            final(runner).calls(),
            n,
            issue@,
            worker@,
            config.target_status@,
        ),
        r is Completed ==> decided(final(runner).calls(), n, issue@),
        r is Completed ==> exists|rid: Option<i64>|
            #[trigger] receipt_recorded(
                final(runner).calls(),
                old(runner).calls().len() as int,
                issue@,
                worker@,
                string_views(entities@),
                rid,
                final(ledger).receipts@,
            ),
        final(ledger).iterations@.len() == old(ledger).iterations@.len(),
        forall|k: int|
            0 <= k < old(ledger).iterations@.len() && k != iter_id - 1 ==> final(ledger).iterations@[k]
                == old(ledger).iterations@[k],
        1 <= iter_id <= old(ledger).iterations@.len() ==> ({
            let row = final(ledger).iterations@[iter_id - 1];
            let was = old(ledger).iterations@[iter_id - 1];
            let c = final(runner).calls();
            &&& row.id == was.id && row.worker_id == was.worker_id && row.issue_ref == was.issue_ref
            &&& recorded_as(r, row)
            &&& (row.outcome matches Some(o) && o@ == "completed"@) ==> released_to(
                c,
                n,
                issue@,
                worker@,
                config.target_status@,
            )
            &&& (row.outcome matches Some(o) && o@ == "error"@) ==> released_to(c, n, issue@, worker@, "todo"@)
            &&& (row.outcome matches Some(o) && o@ == "completed"@) ==> decided(c, n, issue@)
            &&& row.receipt_id is Some ==> (row.outcome matches Some(o) && o@ == "completed"@)
            &&& (row.outcome matches Some(o) && o@ == "completed"@) ==> receipt_recorded(
                c,
                old(runner).calls().len() as int,
                issue@,
                worker@,
                string_views(entities@),
                row.receipt_id,
                final(ledger).receipts@,
            )
            &&& (row.outcome matches Some(o) && o@ == "agent_timeout"@) ==> deadend_filed(
                c,
                issue@,
                string_views(entities@),
                "agent timed out"@,
            )
            &&& (row.outcome matches Some(o) && o@ == "agent_timeout"@) ==> get_str(
                final(out)@.last(),
                "reason"@,
            ) == Some("agent_timeout"@)
            &&& (row.outcome matches Some(o) && o@ == "agent_timeout"@) ==> has_event(
                final(out)@,
                old(out)@.len() as int,
                "timed_out"@,
                Json::Bool(true),
            )
            &&& !(row.outcome matches Some(o) && o@ == "agent_timeout"@) ==> get_str(
                final(out)@.last(),
                "status"@,
            ) == Some(
                if r is Completed {
                    config.target_status@
                } else {
                    "todo"@
                },
            )
            &&& (row.outcome matches Some(o) && o@ == "gate_failed"@) ==> deadend_filed(
                c,
                issue@,
                string_views(entities@),
                "gate failed (affected-tests)"@,
            )
        }),
        (retries_seen(*old(ledger), *final(ledger), iter_id) matches Some(x) && x > 0) ==> has_event(
            final(out)@,
            old(out)@.len() as int,
            "retrying"@,
            Json::Bool(true),
        ),
        worked_as(
            final(runner).calls(),
            n,
            *config,
            worker@,
            issue@,
            agent_cmd@,
            if claim_ids@.len() == 0 {
                seq![]
            } else {
                string_views(entities@)
            },
            intent_of(issue@, title@),
            retries_seen(*old(ledger), *final(ledger), iter_id),
            r,
            if 1 <= iter_id <= old(ledger).iterations@.len() {
                Some(final(ledger).iterations@[iter_id - 1])
            } else {
                None
            },
        ),
        entities_first(final(runner).calls(), n),
        released_in_reverse(final(runner).calls(), old(runner).calls().len() as int, string_views(claim_ids@)),
{
    let ghost o0 = out@;
    let ghost lh = *ledger;
    proof {
        lemma_phased_same(o0, worker@, Some(issue@));
        lemma_words();
        lemma_outcome_words();
    }
    // BRIEF: assemble context and recall (best-effort).
    let ghost cbf = runner.calls();
    let packs = brief_phase(hv, runner, &entities);
    proof {
        let c = runner.calls();
        lemma_run_no_advance(c, cbf.len() as int, "hayven"@);
        lemma_no_advance_join(cbf, c, n);
        lemma_run_no_issue_release(c, cbf.len() as int, "hayven"@);
        lemma_no_issue_release_join(cbf, c, n);
        lemma_run_no_decide(c, cbf.len() as int, "hayven"@);
        lemma_no_decide_join(cbf, c, n);
        assert(c.take(n) =~= cbf.take(n));
    }
    let mut extra: Vec<(String, Json)> = Vec::new();
    extra.push(member("context_packs", Json::uint(packs as u64)));
    let ghost ob = out@;
    proof {
        lemma_event_words();
    }
    emit(out, worker, Some(issue), "brief", extra);
    proof {
        lemma_phased_trans(o0, ob, out@, worker@, Some(issue@));
    }
    // WORK + GATE, retried as a unit.
    let held: Vec<String> = if claim_ids.len() == 0 {
        Vec::new()
    } else {
        crate::ledger::copy_strings(entities.as_slice())
    };
    let mut lock_intent = str_of(issue);
    push_str(&mut lock_intent, ": ");
    push_str(&mut lock_intent, title);
    proof {
        if claim_ids@.len() == 0 {
            assert(string_views(held@) =~= Seq::<Seq<char>>::empty());
        }
        assert(lock_intent@ == intent_of(issue@, title@));
    }
    let ghost cw = runner.calls();
    let ghost ob = out@;
    let ghost ow0 = out@;
    let a = work_loop(amt, hv, ledger, runner, out, config, worker, issue, agent_cmd, &held, lock_intent.as_str(), iter_id);
    let ghost lw1 = *ledger;
    let ghost ow1 = out@;
    proof {
        assert(o0.len() <= ow0.len()) by {
            reveal(phased);
        }
    }
    proof {
        lemma_phased_trans(o0, ob, out@, worker@, Some(issue@));
    }
    let ghost cw2 = runner.calls();
    proof {
        assert(cw2.take(n) =~= cw.take(n));
        lemma_no_issue_release_join(cw, cw2, n);
        lemma_no_decide_join(cw, cw2, n);
        if !(a matches Attempt::Gated { result, .. } && result == GateResult::Pass) {
            lemma_no_advance_join(cw, cw2, n);
        }
    }
    match a {
        Attempt::TimedOut => {
            let mut note = str_of("sirius: released — agent timed out after ");
            let secs = crate::text::u64_str(config.agent_timeout_secs);
            push_str(&mut note, secs.as_str());
            push_str(&mut note, "s (killed)");
            release_back(amt, hv, ledger, runner, issue, worker, &claim_ids, "todo", Some(note.as_str()));
            let ghost cr2 = runner.calls();
            let ghost lrb = *ledger;
            let mut extra: Vec<(String, Json)> = Vec::new();
            extra.push(member("reason", Json::string("agent_timeout")));
            extra.push(member("advanced", Json::Bool(false)));
            let ghost ob = out@;
            proof {
                lemma_event_words();
            }
            let ghost ex = extra@;
            emit(out, worker, Some(issue), "release", extra);
            proof {
                lemma_phased_trans(o0, ob, out@, worker@, Some(issue@));
                lemma_payload_words();
                lemma_lookup_second(ex, "advanced"@);
                assert(lookup(ex, "reason"@) == Some(ex[0].1));
                assert(release_event(out@.last(), false));
                assert(get_str(out@.last(), "reason"@) == Some("agent_timeout"@));
                assert(out@.len() > o0.len()) by {
                    reveal(phased);
                }
            }
            close_out(ledger, worker, iter_id, &entities, "agent_timeout", None, &oracle_verdicts, start, None);
            file_deadend(hv, runner, entities.as_slice(), issue, "agent timed out");
            proof {
                assert(ledger.policy_events == lrb.policy_events);
                lemma_plain_kept(lw1.policy_events@, ledger.policy_events@, iter_id);
                lemma_retries_seen_after(lh, lw1, *ledger, iter_id);
                lemma_has_event_phased(ow1, out@, ow0.len() as int, o0.len() as int, "timed_out"@, Json::Bool(true), worker@, Some(issue@));
                if retries_seen(lh, *ledger, iter_id) matches Some(x) && x > 0 {
                    lemma_has_event_phased(ow1, out@, ow0.len() as int, o0.len() as int, "retrying"@, Json::Bool(true), worker@, Some(issue@));
                }
                let c = runner.calls();
                assert(c.take(cr2.len() as int) =~= cr2);
                lemma_reverse_extend(cr2, c, cw2.len() as int, cbf.len() as int, string_views(claim_ids@));
                lemma_parents_last(cr2, c, cw2.len() as int);
                lemma_no_advance_join(cw2, cr2, n);
                assert(c.drop_last() == cr2);
                assert(c.take(cr2.len() as int) =~= cr2);
                assert(!is_advance(c.last().argv));
                assert(no_advance(c, cr2.len() as int));
                lemma_no_advance_join(cr2, c, n);
                lemma_released_extend(cr2, c, cw2.len() as int, n, issue@, worker@, "todo"@);
                assert(c.take(n) =~= cr2.take(n));
                lemma_entities_first_note(
                    cw2,
                    cr2,
                    c,
                    n,
                    deadend_note(issue@, "agent timed out"@),
                    if entities@.len() > 0 {
                        Some(entities@[0]@)
                    } else {
                        None
                    },
                    "deadend"@,
                    string_views(entities@),
                );
                assert(c.take(cw2.len() as int) =~= cr2.take(cw2.len() as int));
                assert(!is_claim(c.last().argv));
                assert(no_claim(c, cr2.len() as int));
                lemma_no_claim_join(cr2, c, cw2.len() as int);
                lemma_worked(
                    c,
                    cw,
                    cw2,
                    n,
                    *config,
                    worker@,
                    issue@,
                    agent_cmd@,
                    string_views(held@),
                    lock_intent@,
                    retries_seen(lh, *ledger, iter_id),
                    a,
                    IterationOutcome::Deadend,
                    if 1 <= iter_id <= lh.iterations@.len() {
                        Some(ledger.iterations@[iter_id - 1])
                    } else {
                        None
                    },
                );
                assert(no_issue_release(c, cr2.len() as int)) by {
                    assert forall|i: int| cr2.len() <= i < c.len() implies !is_issue_release(
                        (#[trigger] c[i]).argv,
                    ) by {
                        assert(c[i] == c.last());
                    }
                }
                lemma_only_to_join(cw2, cr2, c, n, issue@, worker@, "todo"@);
                lemma_no_decide_join(cw2, cr2, n);
                lemma_no_decide_last(cr2, c, n);
            }
            IterationOutcome::Deadend
        },
        Attempt::Gated { result, work_ok } => {
            let ghost ob = out@;
            let r = finish_gated(
                amt,
                hv,
                ledger,
                config,
                runner,
                worker,
                out,
                issue,
                iter_id,
                start,
                &entities,
                &claim_ids,
                &oracle_verdicts,
                result,
                work_ok,
                Ghost(n),
            );
            proof {
                let c = runner.calls();
                assert(r is Completed ==> exists|rid: Option<i64>|
                    #[trigger] receipt_recorded(
                        c,
                        cbf.len() as int,
                        issue@,
                        worker@,
                        string_views(entities@),
                        rid,
                        ledger.receipts@,
                    )) by {
                    if r is Completed {
                        let rid = choose|rid: Option<i64>|
                            #[trigger] receipt_recorded(
                                c,
                                cw2.len() as int,
                                issue@,
                                worker@,
                                string_views(entities@),
                                rid,
                                ledger.receipts@,
                            );
                        lemma_receipt_from(
                            c,
                            cw2.len() as int,
                            cbf.len() as int,
                            issue@,
                            worker@,
                            string_views(entities@),
                            rid,
                            ledger.receipts@,
                        );
                    }
                }
                if 1 <= iter_id <= lh.iterations@.len() && (ledger.iterations@[iter_id - 1].outcome matches Some(o)
                    && o@ == "completed"@) {
                    lemma_receipt_from(
                        c,
                        cw2.len() as int,
                        cbf.len() as int,
                        issue@,
                        worker@,
                        string_views(entities@),
                        ledger.iterations@[iter_id - 1].receipt_id,
                        ledger.receipts@,
                    );
                }
            }
            proof {
                lemma_plain_kept(lw1.policy_events@, ledger.policy_events@, iter_id);
                lemma_retries_seen_after(lh, lw1, *ledger, iter_id);
                if retries_seen(lh, *ledger, iter_id) matches Some(x) && x > 0 {
                    lemma_has_event_phased(ow1, out@, ow0.len() as int, o0.len() as int, "retrying"@, Json::Bool(true), worker@, Some(issue@));
                }
                let c = runner.calls();
                lemma_phased_trans(o0, ob, out@, worker@, Some(issue@));
                assert(out@.len() > o0.len()) by {
                    reveal(phased);
                }
                assert(c.take(c.len() as int) =~= c);
                lemma_reverse_extend(c, c, cw2.len() as int, cbf.len() as int, string_views(claim_ids@));
                lemma_worked(
                    c,
                    cw,
                    cw2,
                    n,
                    *config,
                    worker@,
                    issue@,
                    agent_cmd@,
                    string_views(held@),
                    lock_intent@,
                    retries_seen(lh, *ledger, iter_id),
                    a,
                    r,
                    if 1 <= iter_id <= lh.iterations@.len() {
                        Some(ledger.iterations@[iter_id - 1])
                    } else {
                        None
                    },
                );
            }
            r
        },
    }
}

/// Everything after a claimed issue: map, lock, brief, work and gate,
/// receipt, release.
#[verifier::spinoff_prover]
#[verifier::rlimit(100)]
fn work_issue<R: Runner>(
    amt: &Amt,
    hv: &Hayven,
    ledger: &mut Ledger,
    config: &Config,
    runner: &mut R,
    worker: &str,
    agent_cmd: &str,
    out: &mut Vec<Json>,
    issue: &str,
    title: &str,
    iter_id: i64,
    start: &std::time::Instant,
) -> (r: IterationOutcome)
    requires
        old(ledger).wf(),
    ensures
        phased(old(out)@, final(out)@, worker@, Some(issue@)),
        final(out)@.len() > old(out)@.len(),
        !(r is ReleasedOverlap) ==> release_event(final(out)@.last(), r is Completed),
        r is ReleasedOverlap ==> phase_of(final(out)@.last()) == Some("release"@) && (get_str(
            final(out)@.last(),
            "reason"@,
        ) == Some("entity_overlap"@) || get_str(final(out)@.last(), "reason"@) == Some("oracle_backoff"@)),
        final(ledger).wf(),
        final(runner).calls().len() > old(runner).calls().len(),
        final(runner).calls().take(old(runner).calls().len() as int) == old(runner).calls(),
        r is Completed || r is Deadend || r is ReleasedOverlap || r is Error,
        r matches IterationOutcome::Error(x) ==> x@ == nothing_gated(),
        !(r is Completed) ==> no_advance(final(runner).calls(), old(runner).calls().len() as int),
        !(r is Completed) ==> no_decide(final(runner).calls(), old(runner).calls().len() as int),
        !(r is Completed) ==> released_to(
            final(runner).calls(),
            old(runner).calls().len() as int,
            issue@,
            worker@,
            "todo"@,
        ),
        !(r is Completed) ==> releases_only_to(
            final(runner).calls(),
            old(runner).calls().len() as int,
            issue@,
            worker@,
            "todo"@,
        ),
        r is Completed ==> released_to(
            final(runner).calls(),
            old(runner).calls().len() as int,
            issue@,
            worker@,
            config.target_status@,
        ),
        r is Completed ==> releases_only_to(
            final(runner).calls(),
            old(runner).calls().len() as int,
            issue@,
            worker@,
            config.target_status@,
        ),
        r is Completed ==> decided(final(runner).calls(), old(runner).calls().len() as int, issue@),
        r is Completed ==> exists|rid: Option<i64>|
            #[trigger] receipt_recorded(
                final(runner).calls(),
                old(runner).calls().len() as int,
                issue@,
                worker@,
                mapped(final(runner).calls()[old(runner).calls().len() as int].out),
                rid,
                final(ledger).receipts@,
            ),
        final(ledger).iterations@.len() == old(ledger).iterations@.len(),
        forall|k: int|
            0 <= k < old(ledger).iterations@.len() && k != iter_id - 1 ==> final(ledger).iterations@[k]
                == old(ledger).iterations@[k],
        1 <= iter_id <= old(ledger).iterations@.len() ==> ({
            let row = final(ledger).iterations@[iter_id - 1];
            let was = old(ledger).iterations@[iter_id - 1];
            let c = final(runner).calls();
            let n = old(runner).calls().len() as int;
            &&& row.id == was.id && row.worker_id == was.worker_id && row.issue_ref == was.issue_ref
            &&& recorded_as(r, row)
            &&& (row.outcome matches Some(o) && o@ == "completed"@) ==> released_to(
                c,
                n,
                issue@,
                worker@,
                config.target_status@,
            )
            &&& (row.outcome matches Some(o) && o@ == "error"@) ==> released_to(c, n, issue@, worker@, "todo"@)
            &&& (row.outcome matches Some(o) && o@ == "completed"@) ==> decided(c, n, issue@)
            &&& row.receipt_id is Some ==> (row.outcome matches Some(o) && o@ == "completed"@)
            &&& (row.outcome matches Some(o) && o@ == "completed"@) ==> receipt_recorded(
                c,
                n,
                issue@,
                worker@,
                mapped(c[n].out),
                row.receipt_id,
                final(ledger).receipts@,
            )
            &&& (row.outcome matches Some(o) && o@ == "agent_timeout"@) ==> deadend_filed(
                c,
                issue@,
                mapped(c[n].out),
                "agent timed out"@,
            )
            &&& (row.outcome matches Some(o) && o@ == "agent_timeout"@) ==> get_str(
                final(out)@.last(),
                "reason"@,
            ) == Some("agent_timeout"@)
            &&& (row.outcome matches Some(o) && o@ == "agent_timeout"@) ==> has_event(
                final(out)@,
                old(out)@.len() as int,
                "timed_out"@,
                Json::Bool(true),
            )
            &&& !(r is ReleasedOverlap) && !(row.outcome matches Some(o) && o@ == "agent_timeout"@) ==> get_str(
                final(out)@.last(),
                "status"@,
            ) == Some(
                if r is Completed {
                    config.target_status@
                } else {
                    "todo"@
                },
            )
            &&& (row.outcome matches Some(o) && o@ == "gate_failed"@) ==> deadend_filed(
                c,
                issue@,
                mapped(c[n].out),
                "gate failed (affected-tests)"@,
            )
        }),
        r is Deadend ==> deadend_filed(
            final(runner).calls(),
            issue@,
            mapped(final(runner).calls()[old(runner).calls().len() as int].out),
            "agent timed out"@,
        ) || deadend_filed(
            final(runner).calls(),
            issue@,
            mapped(final(runner).calls()[old(runner).calls().len() as int].out),
            "gate failed (affected-tests)"@,
        ),
        !(r is ReleasedOverlap) ==> worked_as(
            final(runner).calls(),
            old(runner).calls().len() as int,
            *config,
            worker@,
            issue@,
            agent_cmd@,
            held_spec(
                *config,
                *old(ledger),
                mapped(final(runner).calls()[old(runner).calls().len() as int].out),
            ),
            intent_of(issue@, title@),
            retries_seen(*old(ledger), *final(ledger), iter_id),
            r,
            if 1 <= iter_id <= old(ledger).iterations@.len() {
                Some(final(ledger).iterations@[iter_id - 1])
            } else {
                None
            },
        ),
        entities_first(final(runner).calls(), old(runner).calls().len() as int),
        r is ReleasedOverlap ==> released_naming_blocker(
            final(runner).calls(),
            old(runner).calls().len() as int,
            config.oracle_202,
            issue@,
            worker@,
        ),
        r is ReleasedOverlap ==> parents_only(final(runner).calls(), old(runner).calls().len() as int),
        r is ReleasedOverlap ==> overlap_released(
            final(runner).calls(),
            old(runner).calls().len() as int,
            config.oracle_202,
            issue@,
            worker@,
            final(out)@.last(),
        ),
        concurrency_logged(
            *old(ledger),
            *final(ledger),
            iter_id,
            mode_name(config.claim_mode),
            decision_name(decision_spec(config.claim_mode, *old(ledger))),
        ),
        !(r is ReleasedOverlap) && (retries_seen(*old(ledger), *final(ledger), iter_id) matches Some(x) && x > 0)
            ==> has_event(final(out)@, old(out)@.len() as int, "retrying"@, Json::Bool(true)),
        !(r is ReleasedOverlap) && held_spec(
            *config,
            *old(ledger),
            mapped(final(runner).calls()[old(runner).calls().len() as int].out),
        ).len() > 0 ==> claimed_then_released(
            final(runner).calls(),
            old(runner).calls().len() as int,
            held_spec(
                *config,
                *old(ledger),
                mapped(final(runner).calls()[old(runner).calls().len() as int].out),
            ),
            intent_of(issue@, title@),
            config.oracle_202,
        ),
{
    let ghost o0 = out@;
    proof {
        lemma_phased_same(o0, worker@, Some(issue@));
    }
    let ghost c0 = runner.calls();
    let ghost n = c0.len() as int;
    let ghost l0 = *ledger;
    proof {
        lemma_words();
        lemma_outcome_words();
    }
    // MAP issue -> symbols, and their blast radius.
    let (entities, blast) = map_phase(hv, runner, title);
    let ghost cm = runner.calls();
    proof {
        lemma_run_no_advance(runner.calls(), n, "hayven"@);
        lemma_run_no_issue_release(runner.calls(), n, "hayven"@);
        lemma_run_parents(runner.calls(), n, "hayven"@);
        lemma_run_no_decide(runner.calls(), n, "hayven"@);
    }
    let mut extra: Vec<(String, Json)> = Vec::new();
    extra.push(member("entities", Json::strings(entities.as_slice())));
    extra.push(member("blast_radius", Json::uint(blast as u64)));
    let ghost ob = out@;
    proof {
        lemma_event_words();
    }
    emit(out, worker, Some(issue), "map", extra);
    proof {
        lemma_phased_trans(o0, ob, out@, worker@, Some(issue@));
    }
    // Adaptive: decide whether to pre-claim.
    let decision = claim_decision(config.claim_mode, ledger);
    let mut m: Vec<(String, Json)> = Vec::new();
    insert_member(&mut m, str_of("claim_mode"), Json::string(config.claim_mode.debug_name()));
    insert_member(&mut m, str_of("decision"), Json::string(decision.debug_name()));
    proof {
        reveal_strlit("claim_mode");
        reveal_strlit("decision");
        assert("claim_mode"@ != "decision"@) by {
            assert("claim_mode"@[0] != "decision"@[0]);
        }
        assert(get_str(Json::Object(m), "claim_mode"@) == Some(mode_name(config.claim_mode)));
        assert(get_str(Json::Object(m), "decision"@) == Some(decision_name(decision)));
    }
    let _ = ledger.log_policy_event(Some(iter_id), "concurrency", Json::Object(m));
    proof {
        let e0 = l0.policy_events@;
        let e1 = ledger.policy_events@;
        if e1.len() > e0.len() {
            assert(e1[e0.len() as int] == e1.last());
        }
        assert(concurrency_logged(
            l0,
            *ledger,
            iter_id,
            mode_name(config.claim_mode),
            decision_name(decision_spec(config.claim_mode, l0)),
        ));
    }
    proof {
        reveal_strlit("concurrency");
        reveal_strlit("retry_budget");
        let e0 = l0.policy_events@;
        let e1 = ledger.policy_events@;
        if e1.len() > e0.len() {
            assert(e1.take(e0.len() as int) =~= e1.drop_last());
            assert(e1.last().kind@ == "concurrency"@);
            assert("concurrency"@.len() == 11);
            assert("retry_budget"@.len() == 12);
            assert("concurrency"@ != "retry_budget"@);
            assert(!crate::ledger::is_retry_of(e1.last(), iter_id));
        } else {
            assert(e1.take(e0.len() as int) =~= e1);
        }
        assert(crate::ledger::retries_kept(e0, e1, iter_id));
    }
    let ghost lc = *ledger;
    // LOCK entities (Hayvenhurst second) — unless policy says rely on the test gate.
    let mut claim_ids: Vec<String> = Vec::new();
    let mut oracle_verdicts: Vec<String> = Vec::new();
    let ghost mut locked_g: bool = false;
    if config.claim_order_enforced && decision == ClaimDecision::PreClaim && entities.len() > 0 {
        let ghost cl = runner.calls();
        let locked = lock_entities(hv, ledger, runner, config, issue, title, entities.as_slice());
        proof {
            let (b, kinds) = choose|b: Seq<int>, kinds: Seq<Seq<char>>|
                #[trigger] lock_split(
                    runner.calls().skip(cl.len() as int),
                    b,
                    string_views(entities@),
                    intent_of(issue@, title@),
                    config.oracle_202,
                    locked@,
                    kinds,
                ) && events_added(lc, *ledger, kinds);
            lemma_events_added_kept(lc, *ledger, kinds, iter_id);
            lemma_retries_kept_trans(l0.policy_events@, lc.policy_events@, ledger.policy_events@, iter_id);
        }
        proof {
            let c = runner.calls();
            lemma_run_no_advance(c, cl.len() as int, "hayven"@);
            lemma_no_advance_join(cl, c, n);
            lemma_run_no_issue_release(c, cl.len() as int, "hayven"@);
            lemma_no_issue_release_join(cl, c, n);
            lemma_run_parents(c, cl.len() as int, "hayven"@);
            lemma_parents_join(cl, c, n);
            lemma_run_no_decide(c, cl.len() as int, "hayven"@);
            lemma_no_decide_join(cl, c, n);
            assert(c.take(n) =~= cl.take(n));
        }
        match locked {
            LockResult::Locked { claim_ids: ids, verdicts } => {
                proof {
                    let c = runner.calls();
                    let (b, kinds) = choose|b: Seq<int>, kinds: Seq<Seq<char>>|
                        #[trigger] lock_split(
                            c.skip(cl.len() as int),
                            b,
                            string_views(entities@),
                            intent_of(issue@, title@),
                            config.oracle_202,
                            LockView::Locked(string_views(ids@), string_views(verdicts@)),
                            kinds,
                        ) && events_added(lc, *ledger, kinds);
                    assert(c.skip(cl.len() as int) =~= c.subrange(cl.len() as int, c.len() as int));
                    assert(locked_in_order(
                        c,
                        n,
                        string_views(entities@),
                        intent_of(issue@, title@),
                        config.oracle_202,
                        string_views(ids@),
                    ));
                    locked_g = true;
                }
                oracle_verdicts = verdicts;
                claim_ids = ids;
                let mut extra: Vec<(String, Json)> = Vec::new();
                extra.push(member("locked", Json::uint(claim_ids.len() as u64)));
                let ghost ob = out@;
                proof {
                    lemma_event_words();
                }
                emit(out, worker, Some(issue), "lock", extra);
                proof {
                    lemma_phased_trans(o0, ob, out@, worker@, Some(issue@));
                }
            },
            LockResult::Overlap { blocker, acquired } => {
                let ghost cr = runner.calls();
                let mut note = str_of("sirius: released — entity claim blocked by ");
                push_str(&mut note, blocker.as_str());
                let mut extra: Vec<(String, Json)> = Vec::new();
                extra.push(member("reason", Json::string("entity_overlap")));
                extra.push(member("blocker", Json::string(blocker.as_str())));
                let ghost ob = out@;
                proof {
                    lemma_event_words();
                }
                let ghost ex = extra@;
                give_back(amt, hv, ledger, runner, out, worker, issue, &entities, &acquired, note.as_str(), extra, "blocked", iter_id, start);
                proof {
                    let c = runner.calls();
                    lemma_phased_trans(o0, ob, out@, worker@, Some(issue@));
                    lemma_gave_back(cl, cr, c, n, issue@, worker@);
                    lemma_no_decide_join(cr, c, n);
                    lemma_came_back_extend(cr, c, cl.len() as int, n, config.oracle_202, StepView::Blocked(blocker@));
                    assert(lookup(ex, "reason"@) == Some(ex[0].1));
                    assert(get_str(out@.last(), "reason"@) == Some("entity_overlap"@));
                    assert(out@.len() > o0.len()) by {
                        reveal(phased);
                    }
                    assert(note@ == blocked_note(blocker@));
                    assert(blocker_noted(c, n, config.oracle_202, issue@, worker@, blocker@));
                    lemma_payload_words();
                    lemma_lookup_second(ex, "blocker"@);
                    assert(get_str(out@.last(), "blocker"@) == Some(blocker@));
                    assert(claim_came_back(c, n, config.oracle_202, StepView::Blocked(blocker@)));
                    assert(released_noting(c, n, issue@, worker@, "todo"@, blocked_note(blocker@)));
                    assert(overlap_released(c, n, config.oracle_202, issue@, worker@, out@.last()));
                }
                return IterationOutcome::ReleasedOverlap;
            },
            LockResult::OracleBackoff { detail, acquired } => {
                let ghost cr = runner.calls();
                let mut note = str_of("sirius: released — oracle/claim backoff: ");
                push_str(&mut note, detail.as_str());
                let mut extra: Vec<(String, Json)> = Vec::new();
                extra.push(member("reason", Json::string("oracle_backoff")));
                extra.push(member("detail", Json::string(detail.as_str())));
                let ghost ob = out@;
                proof {
                    lemma_event_words();
                }
                let ghost ex = extra@;
                give_back(amt, hv, ledger, runner, out, worker, issue, &entities, &acquired, note.as_str(), extra, "backoff", iter_id, start);
                proof {
                    let c = runner.calls();
                    lemma_phased_trans(o0, ob, out@, worker@, Some(issue@));
                    lemma_gave_back(cl, cr, c, n, issue@, worker@);
                    lemma_no_decide_join(cr, c, n);
                    lemma_came_back_extend(cr, c, cl.len() as int, n, config.oracle_202, StepView::Backoff(detail@));
                    assert(lookup(ex, "reason"@) == Some(ex[0].1));
                    assert(get_str(out@.last(), "reason"@) == Some("oracle_backoff"@));
                    assert(out@.len() > o0.len()) by {
                        reveal(phased);
                    }
                    assert(note@ == backoff_note(detail@));
                    assert(blocker_noted(c, n, config.oracle_202, issue@, worker@, detail@));
                    lemma_payload_words();
                    lemma_lookup_second(ex, "detail"@);
                    assert(get_str(out@.last(), "detail"@) == Some(detail@));
                    assert(claim_came_back(c, n, config.oracle_202, StepView::Backoff(detail@)));
                    assert(released_noting(c, n, issue@, worker@, "todo"@, backoff_note(detail@)));
                    assert(overlap_released(c, n, config.oracle_202, issue@, worker@, out@.last()));
                }
                return IterationOutcome::ReleasedOverlap;
            },
        }
    }
    let ghost cbf = runner.calls();
    let ghost ob = out@;
    let ghost lbf = *ledger;
    let ghost idsv = string_views(claim_ids@);
    let ghost entsv = string_views(entities@);
    let r = work_held(
        amt,
        hv,
        ledger,
        config,
        runner,
        worker,
        agent_cmd,
        out,
        issue,
        title,
        iter_id,
        start,
        entities,
        claim_ids,
        oracle_verdicts,
        Ghost(n),
    );
    proof {
        lemma_phased_trans(o0, ob, out@, worker@, Some(issue@));
        assert(out@.len() > o0.len()) by {
            reveal(phased);
        }
        assert(runner.calls().take(n) =~= cbf.take(n));
        assert(runner.calls()[n] == cm[n]) by {
            assert(runner.calls()[n] == runner.calls().take(cbf.len() as int)[n]);
            assert(cbf[n] == cm[n]);
        }
        assert(entsv == mapped(runner.calls()[n].out));
        assert(r is Completed ==> exists|rid: Option<i64>|
            #[trigger] receipt_recorded(
                runner.calls(),
                n,
                issue@,
                worker@,
                entsv,
                rid,
                ledger.receipts@,
            )) by {
            if r is Completed {
                let rid = choose|rid: Option<i64>|
                    #[trigger] receipt_recorded(
                        runner.calls(),
                        cbf.len() as int,
                        issue@,
                        worker@,
                        entsv,
                        rid,
                        ledger.receipts@,
                    );
                lemma_receipt_from(runner.calls(), cbf.len() as int, n, issue@, worker@, entsv, rid, ledger.receipts@);
            }
        }
        if 1 <= iter_id <= l0.iterations@.len() && (ledger.iterations@[iter_id - 1].outcome matches Some(o) && o@
            == "completed"@) {
            lemma_receipt_from(
                runner.calls(),
                cbf.len() as int,
                n,
                issue@,
                worker@,
                entsv,
                ledger.iterations@[iter_id - 1].receipt_id,
                ledger.receipts@,
            );
        }
        crate::ledger::lemma_retries_same(lc.policy_events@, iter_id);
        lemma_retries_seen_before(l0, lbf, *ledger, iter_id);
        assert(o0.len() <= ob.len()) by {
            reveal(phased);
        }
        assert(out@.take(out@.len() as int) =~= out@);
        if retries_seen(lbf, *ledger, iter_id) matches Some(x) && x > 0 {
            lemma_has_event_extend(out@, out@, ob.len() as int, o0.len() as int, "retrying"@, Json::Bool(true));
        }
        if 1 <= iter_id <= l0.iterations@.len() && (ledger.iterations@[iter_id - 1].outcome matches Some(o) && o@
            == "agent_timeout"@) {
            lemma_has_event_extend(out@, out@, ob.len() as int, o0.len() as int, "timed_out"@, Json::Bool(true));
        }
        if locked_g {
            let c = runner.calls();
            lemma_locked_extend(cbf, c, n, n, entsv, intent_of(issue@, title@), config.oracle_202, idsv);
            assert(c.take(c.len() as int) =~= c);
            lemma_reverse_extend(c, c, cbf.len() as int, n, idsv);
        }
    }
    r
}

/// Run ONE iteration for a worker: claim an issue (Ametrite first — the
/// claim-order law), map it to entities, lock them (Hayvenhurst second),
/// brief, work and gate, receipt, and release (entities in reverse, then the
/// issue). Emits iteration events to `out` and writes the ledger.
#[verifier::spinoff_prover]
#[verifier::rlimit(100)]
pub fn run_iteration<R: Runner>(
    amt: &Amt,
    hv: &Hayven,
    ledger: &mut Ledger,
    config: &Config,
    runner: &mut R,
    worker: &str,
    from: Option<&str>,
    agent_cmd: &str,
    out: &mut Vec<Json>,
) -> (r: IterationOutcome)
    requires
        old(ledger).wf(),
    ensures
        final(ledger).wf(),
        ({
            let c = final(runner).calls();
            let n = old(runner).calls().len() as int;
            &&& c.len() > n
            &&& c.take(n) == old(runner).calls()
            &&& c[n].argv == crate::amt::claim_argv(worker@, opt_str(from))
            &&& match crate::amt::amt_claim(c[n].out) {
                crate::amt::ClaimResultView::NoWork(ra, _) => r == IterationOutcome::NoWork {
                    retry_after: ra,
                } && c.len() == n + 1 && final(ledger).iterations == old(ledger).iterations && phased(
                    old(out)@,
                    final(out)@,
                    worker@,
                    None,
                ) && claim_event(final(out)@, old(out)@.len() as int, false),
                crate::amt::ClaimResultView::Error(e) => (r matches IterationOutcome::Error(x) && x@
                    == e) && c.len() == n + 1 && final(ledger).iterations == old(ledger).iterations
                    && phased(old(out)@, final(out)@, worker@, None),
                crate::amt::ClaimResultView::Claimed(v) => match get_str(v, "id"@) {
                    None => (r matches IterationOutcome::Error(x) && x@
                        == "claim returned no issue id"@) && c.len() == n + 1
                        && final(ledger).iterations == old(ledger).iterations
                        && phased(old(out)@, final(out)@, worker@, None),
                    Some(issue) => {
                        &&& phased(old(out)@, final(out)@, worker@, Some(issue))
                        &&& claim_event(final(out)@, old(out)@.len() as int, true)
                        &&& old(ledger).iterations@.len() < i64::MAX ==> {
                            let row = final(ledger).iterations@.last();
                            &&& final(ledger).iterations@.len() == old(ledger).iterations@.len() + 1
                            &&& final(ledger).iterations@.drop_last() == old(ledger).iterations@
                            &&& row.worker_id@ == worker@
                            &&& crate::hayven::opt_view(row.issue_ref) == Some(issue)
                            &&& recorded_as(r, row)
                            &&& (row.outcome matches Some(o) && o@ == "completed"@) ==> released_to(
                                c,
                                n + 1,
                                issue,
                                worker@,
                                config.target_status@,
                            )
                            &&& (row.outcome matches Some(o) && o@ == "error"@) ==> released_to(
                                c,
                                n + 1,
                                issue,
                                worker@,
                                "todo"@,
                            )
                            &&& (row.outcome matches Some(o) && o@ == "completed"@) ==> decided(c, n + 1, issue)
                            &&& row.receipt_id is Some ==> (row.outcome matches Some(o) && o@ == "completed"@)
                            &&& (row.outcome matches Some(o) && o@ == "completed"@) ==> receipt_recorded(
                                c,
                                n + 1,
                                issue,
                                worker@,
                                mapped(c[n + 1].out),
                                row.receipt_id,
                                final(ledger).receipts@,
                            )
                            &&& (row.outcome matches Some(o) && o@ == "agent_timeout"@) ==> deadend_filed(
                                c,
                                issue,
                                mapped(c[n + 1].out),
                                "agent timed out"@,
                            )
                            &&& (row.outcome matches Some(o) && o@ == "agent_timeout"@) ==> get_str(
                                final(out)@.last(),
                                "reason"@,
                            ) == Some("agent_timeout"@)
                            &&& (row.outcome matches Some(o) && o@ == "agent_timeout"@) ==> has_event(
                                final(out)@,
                                old(out)@.len() as int,
                                "timed_out"@,
                                Json::Bool(true),
                            )
                            &&& concurrency_logged(
                                *old(ledger),
                                *final(ledger),
                                row.id,
                                mode_name(config.claim_mode),
                                decision_name(decision_spec(config.claim_mode, *old(ledger))),
                            )
                            &&& !(r is ReleasedOverlap) && !(row.outcome matches Some(o) && o@ == "agent_timeout"@)
                                ==> get_str(final(out)@.last(), "status"@) == Some(
                                if r is Completed {
                                    config.target_status@
                                } else {
                                    "todo"@
                                },
                            )
                            &&& !(r is ReleasedOverlap) && (retries_seen(*old(ledger), *final(ledger), row.id) matches Some(
                                x,
                            ) && x > 0) ==> has_event(final(out)@, old(out)@.len() as int, "retrying"@, Json::Bool(true))
                            &&& (row.outcome matches Some(o) && o@ == "gate_failed"@) ==> deadend_filed(
                                c,
                                issue,
                                mapped(c[n + 1].out),
                                "gate failed (affected-tests)"@,
                            )
                            &&& !(r is ReleasedOverlap) ==> worked_as(
                                c,
                                n + 1,
                                *config,
                                worker@,
                                issue,
                                agent_cmd@,
                                held_spec(*config, *old(ledger), mapped(c[n + 1].out)),
                                intent_of(issue, title_spec(v)),
                                retries_seen(*old(ledger), *final(ledger), row.id),
                                r,
                                Some(row),
                            )
                        }
                        &&& !(r is ReleasedOverlap) ==> worked_as(
                            c,
                            n + 1,
                            *config,
                            worker@,
                            issue,
                            agent_cmd@,
                            held_spec(*config, *old(ledger), mapped(c[n + 1].out)),
                            intent_of(issue, title_spec(v)),
                            None,
                            r,
                            None,
                        )
                        &&& r is Completed || r is Deadend || r is ReleasedOverlap || r is Error
                        &&& r matches IterationOutcome::Error(x) ==> x@ == nothing_gated()
                        &&& entities_first(c, n + 1)
                        &&& !(r is ReleasedOverlap) && held_spec(*config, *old(ledger), mapped(c[n + 1].out)).len()
                            > 0 ==> claimed_then_released(
                            c,
                            n + 1,
                            held_spec(*config, *old(ledger), mapped(c[n + 1].out)),
                            intent_of(issue, title_spec(v)),
                            config.oracle_202,
                        )
                        &&& r is ReleasedOverlap ==> released_naming_blocker(
                            c,
                            n + 1,
                            config.oracle_202,
                            issue,
                            worker@,
                        )
                        &&& r is ReleasedOverlap ==> parents_only(c, n)
                        &&& r is ReleasedOverlap ==> overlap_released(
                            c,
                            n + 1,
                            config.oracle_202,
                            issue,
                            worker@,
                            final(out)@.last(),
                        )
                        &&& !(r is Completed) ==> no_advance(c, n)
                        &&& !(r is Completed) ==> no_decide(c, n)
                        &&& !(r is ReleasedOverlap) ==> release_event(final(out)@.last(), r is Completed)
                        &&& r is ReleasedOverlap ==> phase_of(final(out)@.last()) == Some("release"@) && (
                        get_str(final(out)@.last(), "reason"@) == Some("entity_overlap"@) || get_str(
                            final(out)@.last(),
                            "reason"@,
                        ) == Some("oracle_backoff"@))
                        &&& r is Deadend ==> deadend_filed(
                            c,
                            issue,
                            mapped(c[n + 1].out),
                            "agent timed out"@,
                        ) || deadend_filed(c, issue, mapped(c[n + 1].out), "gate failed (affected-tests)"@)
                        &&& !(r is Completed) ==> released_to(c, n + 1, issue, worker@, "todo"@)
                        &&& !(r is Completed) ==> releases_only_to(c, n, issue, worker@, "todo"@)
                        &&& r is Completed ==> released_to(c, n + 1, issue, worker@, config.target_status@)
                        &&& r is Completed ==> releases_only_to(c, n, issue, worker@, config.target_status@)
                        &&& r is Completed ==> decided(c, n + 1, issue)
                        &&& r is Completed ==> exists|rid: Option<i64>|
                            #[trigger] receipt_recorded(c, n + 1, issue, worker@, mapped(c[n + 1].out), rid, final(ledger).receipts@)
                    },
                },
            }
        }),
{
    let ghost o0 = out@;
    proof {
        lemma_phased_same(o0, worker@, None);
    }
    let ghost c0 = runner.calls();
    let ghost l0 = *ledger;
    let _ = ledger.upsert_worker(worker, "working");
    proof {
        let ids = crate::ledger::worker_ids(ledger.workers@);
        if !crate::ledger::worker_ids(l0.workers@).contains(worker@) {
            assert(ids[ids.len() - 1] == worker@);
        }
        assert(ids.contains(worker@));
    }
    // CLAIM the issue (Ametrite first).
    let claim = amt.claim(runner, worker, from);
    let ghost c1 = runner.calls();
    proof {
        lemma_words();
        assert(c1.take(c0.len() as int) =~= c0);
        assert(c1[c0.len() as int] == c1.last());
    }
    let issue_val = match claim {
        crate::amt::ClaimResult::Claimed(v) => v,
        crate::amt::ClaimResult::NoWork { retry_after, reason } => {
            let mut extra: Vec<(String, Json)> = Vec::new();
            extra.push(member("claimed", Json::Bool(false)));
            extra.push(member("reason", Json::string(reason.as_str())));
            extra.push(
                member(
                    "retry_after",
                    match retry_after {
                        Some(s) => Json::uint(s),
                        None => Json::Null,
                    },
                ),
            );
            let ghost ob = out@;
            proof {
                lemma_event_words();
            }
            let ghost ex = extra@;
            emit(out, worker, None, "claim", extra);
            proof {
                lemma_phased_trans(o0, ob, out@, worker@, None);
                assert(lookup(ex, "claimed"@) == Some(ex[0].1));
                assert(ob == o0);
                assert(out@[o0.len() as int] == out@.last());
            }
            let _ = ledger.upsert_worker(worker, "idle");
            return IterationOutcome::NoWork { retry_after };
        },
        crate::amt::ClaimResult::Error(e) => {
            let mut extra: Vec<(String, Json)> = Vec::new();
            extra.push(member("error", Json::string(e.as_str())));
            let ghost ob = out@;
            proof {
                lemma_event_words();
            }
            emit(out, worker, None, "claim", extra);
            proof {
                lemma_phased_trans(o0, ob, out@, worker@, None);
            }
            return IterationOutcome::Error(e);
        },
    };
    let issue = match issue_id(&issue_val) {
        Some(i) => i,
        None => {
            return IterationOutcome::Error(str_of("claim returned no issue id"));
        },
    };
    let title = issue_title(&issue_val);
    let iter_id: i64 = match ledger.start_iteration(worker, Some(issue.as_str())) {
        Ok(id) => id,
        Err(_) => -1,
    };
    let ghost l2 = *ledger;
    let start = instant_now();
    let mut extra: Vec<(String, Json)> = Vec::new();
    extra.push(member("claimed", Json::Bool(true)));
    extra.push(member("title", Json::string(title.as_str())));
    let ghost ob = out@;
    proof {
        lemma_event_words();
        lemma_phased_same(o0, worker@, Some(issue@));
    }
    let ghost ex = extra@;
    emit(out, worker, Some(issue.as_str()), "claim", extra);
    proof {
        lemma_phased_trans(o0, ob, out@, worker@, Some(issue@));
        assert(lookup(ex, "claimed"@) == Some(ex[0].1));
        assert(ob == o0);
        assert(out@[o0.len() as int] == out@.last());
        assert(claim_event(out@, o0.len() as int, true));
    }
    let ghost ce = out@;
    let ghost cw = runner.calls();
    let ghost ob = out@;
    let r = work_issue(amt, hv, ledger, config, runner, worker, agent_cmd, out, issue.as_str(), title.as_str(), iter_id, &start);
    proof {
        assert(decision_spec(config.claim_mode, l2) == decision_spec(config.claim_mode, l0));
        assert(o0.len() <= ob.len()) by {
            reveal(phased);
        }
        assert(out@[o0.len() as int] == ce[o0.len() as int]) by {
            reveal(phased);
            assert(out@[o0.len() as int] == out@.take(ce.len() as int)[o0.len() as int]);
        }
        assert(out@.take(out@.len() as int) =~= out@);
        if !(r is ReleasedOverlap) && (retries_seen(l2, *ledger, iter_id) matches Some(x) && x > 0) {
            lemma_has_event_extend(out@, out@, ob.len() as int, o0.len() as int, "retrying"@, Json::Bool(true));
        }
        if 1 <= iter_id <= l2.iterations@.len() && (ledger.iterations@[iter_id - 1].outcome matches Some(o) && o@
            == "agent_timeout"@) {
            lemma_has_event_extend(out@, out@, ob.len() as int, o0.len() as int, "timed_out"@, Json::Bool(true));
        }
    }
    proof {
        lemma_phased_trans(o0, ob, out@, worker@, Some(issue@));
        if !(r is ReleasedOverlap) {
            let row = if 1 <= iter_id <= l2.iterations@.len() {
                Some(ledger.iterations@[iter_id - 1])
            } else {
                None
            };
            let held = held_spec(*config, l2, mapped(runner.calls()[cw.len() as int].out));
            let intent = intent_of(issue@, title@);
            assert(decision_spec(config.claim_mode, l2) == decision_spec(config.claim_mode, l0));
            assert(held == held_spec(*config, l0, mapped(runner.calls()[cw.len() as int].out)));
            lemma_worked_from(
                runner.calls(),
                cw.len() as int,
                c0.len() + 1int,
                *config,
                worker@,
                issue@,
                agent_cmd@,
                held,
                intent,
                retries_seen(l2, *ledger, iter_id),
                r,
                row,
            );
            lemma_worked_as_none(
                runner.calls(),
                c0.len() + 1int,
                *config,
                worker@,
                issue@,
                agent_cmd@,
                held,
                intent,
                retries_seen(l2, *ledger, iter_id),
                r,
                row,
            );
        }
    }
    proof {
        let c = runner.calls();
        let n = c0.len() as int;
        if l0.iterations@.len() < i64::MAX {
            let m = l0.iterations@.len() as int;
            assert(iter_id == m + 1);
            assert(ledger.iterations@.drop_last() =~= l0.iterations@) by {
                assert forall|k: int| 0 <= k < m implies ledger.iterations@.drop_last()[k] == l0.iterations@[k] by {
                    assert(ledger.iterations@[k] == l2.iterations@[k]);
                    assert(l2.iterations@[k] == l2.iterations@.drop_last()[k]);
                }
            }
            assert(ledger.iterations@.last() == ledger.iterations@[iter_id - 1]);
            assert(c.take(c.len() as int) =~= c);
            let row = ledger.iterations@.last();
            if row.outcome matches Some(o) && o@ == "completed"@ {
                lemma_released_extend(c, c, cw.len() as int, n + 1, issue@, worker@, config.target_status@);
            }
            if row.outcome matches Some(o) && o@ == "error"@ {
                lemma_released_extend(c, c, cw.len() as int, n + 1, issue@, worker@, "todo"@);
            }
            if row.outcome matches Some(o) && o@ == "completed"@ {
                let i = choose|i: int| cw.len() <= i < c.len() && (#[trigger] c[i]).argv == crate::amt::decide_argv(
                    issue@,
                    "Resolved "@ + issue@ + " via sirius"@,
                    "See linked entities."@,
                );
                assert(decided(c, n + 1, issue@));
            }
        }
        assert(c.take(n) =~= c1.take(n));
        assert(c[n] == c1[n]) by {
            assert(c[n] == c.take(c1.len() as int)[n]);
        }
        assert(!is_advance(c1[n].argv));
        if !(r is Completed) {
            assert(no_advance(c1, n));
            lemma_no_advance_join(c1, c, n);
            assert(no_decide(c1, n)) by {
                reveal(no_decide);
                assert(!is_decide(c1[n].argv));
            }
            lemma_no_decide_join(c1, c, n);
        }
        assert(!is_issue_release(c[n].argv));
        let st = if r is Completed {
            config.target_status@
        } else {
            "todo"@
        };
        assert(releases_only_to(c, n, issue@, worker@, st)) by {
            reveal(releases_only_to);
            assert forall|i: int| n <= i < c.len() && is_issue_release((#[trigger] c[i]).argv) implies c[i].argv.len()
                >= 8 && c[i].argv.take(8) == seq![
                "amt"@,
                "--json"@,
                "release"@,
                issue@,
                "--agent"@,
                worker@,
                "--status"@,
                st,
            ] by {
                assert(i != n);
            }
        }
        if r is ReleasedOverlap {
            assert(c1[n].argv[0] == "amt"@);
            assert(parents_only(c1, n)) by {
                reveal(parents_only);
            }
            lemma_parents_join(c1, c, n);
        }
        assert(cw.len() == n + 1);
    }
    r
}

} // verus!
