//! `.sirius/config.json` — the policy engine.
//!
//! An absent file means the committed defaults below; every enforcement point
//! is opt-out-able. Reading the file is the binary's job; the values and the
//! arithmetic the loop derives from them live here.
use vstd::prelude::*;
use crate::text::str_of;

verus! {

/// The 409 (hard entity overlap) backoff policy.
#[derive(Debug, Clone, PartialEq)]
pub struct Backoff409 {
    /// Currently only "release_and_comment" is honored by the loop.
    pub strategy: String,
    pub base_ms: u64,
    pub max_ms: u64,
}

fn default_strategy() -> (s: String)
    ensures
        s@ == "release_and_comment"@,
{
    str_of("release_and_comment")
}

fn default_base_ms() -> (n: u64)
    ensures
        n == 500,
{
    500
}

fn default_max_ms() -> (n: u64)
    ensures
        n == 8000,
{
    8000
}

impl Default for Backoff409 {
    fn default() -> (b: Backoff409)
        ensures
            b.strategy@ == "release_and_comment"@,
            b.base_ms == 500,
            b.max_ms == 8000,
    {
        Backoff409 {
            strategy: default_strategy(),
            base_ms: default_base_ms(),
            max_ms: default_max_ms(),
        }
    }
}

/// Oracle-202 (soft adjacency conflict) handling.
#[derive(Debug, Clone, Copy, PartialEq, Eq, Structural)]
pub enum Oracle202 {
    /// Back off: release entity, do not force.
    BackOff,
    /// Force the claim, spending from the force budget.
    ForceWithBudget,
}

impl Default for Oracle202 {
    fn default() -> (o: Oracle202)
        ensures
            o == Oracle202::BackOff,
    {
        Oracle202::BackOff
    }
}

impl Oracle202 {
    /// The `{:?}` rendering of the policy.
    pub fn debug_name(&self) -> (s: &'static str)
        ensures
            s@ == (match *self {
                Oracle202::BackOff => "BackOff"@,
                Oracle202::ForceWithBudget => "ForceWithBudget"@,
            }),
    {
        match self {
            Oracle202::BackOff => "BackOff",
            Oracle202::ForceWithBudget => "ForceWithBudget",
        }
    }
}

/// Contention-adaptive claiming mode.
#[derive(Debug, Clone, Copy, PartialEq, Eq, Structural)]
pub enum ClaimMode {
    /// Always pre-emptively claim entities before work.
    Always,
    /// Never pre-claim; rely on the test gate to catch collisions.
    Never,
    /// Decide per-iteration from ledger contention history.
    Adaptive,
}

impl Default for ClaimMode {
    fn default() -> (m: ClaimMode)
        ensures
            m == ClaimMode::Adaptive,
    {
        ClaimMode::Adaptive
    }
}

impl ClaimMode {
    /// The `{:?}` rendering of the mode.
    pub fn debug_name(&self) -> (s: &'static str)
        ensures
            s@ == (match *self {
                ClaimMode::Always => "Always"@,
                ClaimMode::Never => "Never"@,
                ClaimMode::Adaptive => "Adaptive"@,
            }),
    {
        match self {
            ClaimMode::Always => "Always",
            ClaimMode::Never => "Never",
            ClaimMode::Adaptive => "Adaptive",
        }
    }
}

/// What the test gate does when it cannot trust the selector to be complete
/// (empty/stale selection, unparseable output, a hub/config change). The
/// governing rule is "ran too much, never missed a test" — hence the default.
#[derive(Debug, Clone, Copy, PartialEq, Eq, Structural)]
pub enum GateFallback {
    /// Run the entire suite (never miss a test). The default and only safe posture.
    FullSuite,
    /// Block the test gate (fail) rather than run everything.
    Fail,
    /// Advance with a warning comment — explicitly opting into the miss risk.
    PassWithWarning,
}

impl Default for GateFallback {
    fn default() -> (f: GateFallback)
        ensures
            f == GateFallback::FullSuite,
    {
        GateFallback::FullSuite
    }
}

/// The test gate's runner config. `hayven affected-tests` only *selects* tests;
/// Sirius runs them. `test_cmd` is the full-suite command; when a trustworthy
/// narrow selection exists its ids are appended.
#[derive(Debug, Clone, PartialEq)]
pub struct GateConfig {
    /// Full-suite test command, run verbatim via `sh -c`. Unset ⇒ the test gate
    /// cannot run tests and refuses to pass (fail-closed).
    pub test_cmd: Option<String>,
    /// Behavior when the selection cannot be trusted to be complete.
    pub fallback: GateFallback,
}

impl Default for GateConfig {
    fn default() -> (g: GateConfig)
        ensures
            g.test_cmd is None,
            g.fallback == GateFallback::FullSuite,
    {
        GateConfig { test_cmd: None, fallback: GateFallback::default() }
    }
}

#[derive(Debug, Clone, PartialEq)]
pub struct Config {
    pub claim_order_enforced: bool,
    pub backoff_409: Backoff409,
    pub oracle_202: Oracle202,
    pub gate_tier: String,
    pub target_status: String,
    pub retry_budget: u32,
    pub worker_concurrency: u32,
    pub claim_mode: ClaimMode,
    pub gate: GateConfig,
    /// Hard wall-clock cap on a single agent run, in seconds. It may exceed
    /// `lease_ttl_secs`: the heartbeat renews both leases every
    /// `heartbeat_interval_secs` while the agent runs.
    pub agent_timeout_secs: u64,
    /// The amt/hayven lease TTL, in seconds.
    pub lease_ttl_secs: u64,
}

fn default_true() -> (b: bool)
    ensures
        b,
{
    true
}

fn default_gate_tier() -> (s: String)
    ensures
        s@ == "safe"@,
{
    str_of("safe")
}

fn default_target_status() -> (s: String)
    ensures
        s@ == "in_review"@,
{
    str_of("in_review")
}

fn default_retry_budget() -> (n: u32)
    ensures
        n == 3,
{
    3
}

fn default_worker_concurrency() -> (n: u32)
    ensures
        n == 3,
{
    3
}

/// 30 minutes: generous for a real agent run; it bounds a hung agent, while
/// the heartbeat (not this cap) keeps the lease alive.
fn default_agent_timeout_secs() -> (n: u64)
    ensures
        n == 1800,
{
    1800
}

/// amt's claim lease is 900 s by contract.
fn default_lease_ttl_secs() -> (n: u64)
    ensures
        n == 900,
{
    900
}

/// The committed defaults.
pub open spec fn is_default(c: Config) -> bool {
    &&& c.claim_order_enforced
    &&& c.backoff_409.strategy@ == "release_and_comment"@
    &&& c.backoff_409.base_ms == 500
    &&& c.backoff_409.max_ms == 8000
    &&& c.oracle_202 == Oracle202::BackOff
    &&& c.gate_tier@ == "safe"@
    &&& c.target_status@ == "in_review"@
    &&& c.retry_budget == 3
    &&& c.worker_concurrency == 3
    &&& c.claim_mode == ClaimMode::Adaptive
    &&& c.gate.test_cmd is None
    &&& c.gate.fallback == GateFallback::FullSuite
    &&& c.agent_timeout_secs == 1800
    &&& c.lease_ttl_secs == 900
}

impl Default for Config {
    fn default() -> (c: Config)
        ensures
            is_default(c),
    {
        Config {
            claim_order_enforced: default_true(),
            backoff_409: Backoff409::default(),
            oracle_202: Oracle202::default(),
            gate_tier: default_gate_tier(),
            target_status: default_target_status(),
            retry_budget: default_retry_budget(),
            worker_concurrency: default_worker_concurrency(),
            claim_mode: ClaimMode::default(),
            gate: GateConfig::default(),
            agent_timeout_secs: default_agent_timeout_secs(),
            lease_ttl_secs: default_lease_ttl_secs(),
        }
    }
}

/// 2 to the power `k`.
pub open spec fn pow2(k: nat) -> nat
    decreases k,
{
    if k == 0 {
        1
    } else {
        2 * pow2((k - 1) as nat)
    }
}

/// The exponential 409 backoff: `base * 2^min(attempt, 20)`, saturating at
/// `u64::MAX`, then capped at `max`.
pub open spec fn backoff_delay(base: u64, max: u64, attempt: u32) -> u64 {
    let k: nat = if attempt < 20 {
        attempt as nat
    } else {
        20
    };
    let raw = base * pow2(k);
    let sat: u64 = if raw > u64::MAX {
        u64::MAX
    } else {
        raw as u64
    };
    if sat < max {
        sat
    } else {
        max
    }
}

proof fn lemma_pow2_mono(k: nat, n: nat)
    requires
        k <= n,
    ensures
        1 <= pow2(k) <= pow2(n),
    decreases n,
{
    if n > k {
        lemma_pow2_mono(k, (n - 1) as nat);
    } else {
        lemma_pow2_pos(k);
    }
}

proof fn lemma_pow2_pos(k: nat)
    ensures
        1 <= pow2(k),
    decreases k,
{
    if k > 0 {
        lemma_pow2_pos((k - 1) as nat);
    }
}

proof fn lemma_pow2_bound(k: nat)
    requires
        k <= 20,
    ensures
        1 <= pow2(k) <= 1048576,
{
    reveal_with_fuel(pow2, 21);
    assert(pow2(20) == 1048576);
    lemma_pow2_mono(k, 20);
}


/// The 409 backoff is clamped: it never exceeds `max`.
pub proof fn law_backoff_clamped(base: u64, max: u64, attempt: u32)
    ensures
        backoff_delay(base, max, attempt) <= max,
{
}

/// The backoff is never shorter than the smaller of `base` and `max`: a
/// positive base and cap always make the worker wait.
pub proof fn law_backoff_floor(base: u64, max: u64, attempt: u32)
    ensures
        backoff_delay(base, max, attempt) >= vstd::math::min(base as int, max as int),
{
    let k: nat = if attempt < 20 { attempt as nat } else { 20 };
    lemma_pow2_pos(k);
    assert(base * pow2(k) >= base) by (nonlinear_arith)
        requires
            pow2(k) >= 1,
    ;
}

/// The 409 backoff never shrinks as consecutive 409s pile up.
pub proof fn law_backoff_monotone(base: u64, max: u64, a1: u32, a2: u32)
    requires
        a1 <= a2,
    ensures
        backoff_delay(base, max, a1) <= backoff_delay(base, max, a2),
{
    let k1: nat = if a1 < 20 { a1 as nat } else { 20 };
    let k2: nat = if a2 < 20 { a2 as nat } else { 20 };
    lemma_pow2_mono(k1, k2);
    assert(base * pow2(k1) <= base * pow2(k2)) by (nonlinear_arith)
        requires
            pow2(k1) <= pow2(k2),
    ;
}

/// Below the clamp, each further 409 doubles the backoff.
pub proof fn law_backoff_doubles(base: u64, max: u64, attempt: u32)
    requires
        attempt < 20,
        base * pow2((attempt + 1) as nat) <= max,
    ensures
        backoff_delay(base, max, (attempt + 1) as u32) == 2 * backoff_delay(base, max, attempt),
{
    let k = attempt as nat;
    assert(pow2(k + 1) == 2 * pow2(k));
    assert(base * pow2(k + 1) == 2 * (base * pow2(k))) by (nonlinear_arith)
        requires
            pow2(k + 1) == 2 * pow2(k),
    ;
    lemma_pow2_pos(k);
    assert(base * pow2(k) <= base * pow2(k + 1)) by (nonlinear_arith)
        requires
            pow2(k + 1) == 2 * pow2(k),
            pow2(k) >= 1,
    ;
}

impl Config {
    /// The interval at which the loop renews both leases while the agent
    /// runs — `lease_ttl_secs / 3`, floored at 1s so it is never zero.
    pub fn heartbeat_interval_secs(&self) -> (n: u64)
        ensures
            n == (if self.lease_ttl_secs / 3 > 1 {
                self.lease_ttl_secs / 3
            } else {
                1
            }),
    {
        let t = self.lease_ttl_secs / 3;
        if t > 1 {
            t
        } else {
            1
        }
    }

    /// Exponential backoff for the Nth consecutive 409, clamped to `max_ms`.
    pub fn backoff_delay_ms(&self, attempt: u32) -> (d: u64)
        ensures
            d == backoff_delay(self.backoff_409.base_ms, self.backoff_409.max_ms, attempt),
    {
        let base = self.backoff_409.base_ms;
        let k: u32 = if attempt < 20 {
            attempt
        } else {
            20
        };
        let mut factor: u64 = 1;
        let mut i: u32 = 0;
        while i < k
            invariant
                i <= k <= 20,
                factor == pow2(i as nat),
            decreases k - i,
        {
            proof {
                lemma_pow2_bound(i as nat);
            }
            factor = factor * 2;
            i = i + 1;
        }
        let sat: u64 = match base.checked_mul(factor) {
            Some(v) => v,
            None => u64::MAX,
        };
        if sat < self.backoff_409.max_ms {
            sat
        } else {
            self.backoff_409.max_ms
        }
    }
}

} // verus!
