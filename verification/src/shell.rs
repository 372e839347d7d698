//! The shell boundary.
//!
//! Every call Sirius makes into `amt`, `hayven`, `git` or `sh` goes through a
//! [`Runner`]. The [`ProcessRunner`] runs real processes through a
//! [`Process`] the binary supplies, and supervises agents itself; the
//! [`MockRunner`] returns canned output keyed by the argv prefix, so the whole
//! library runs offline. A runner keeps, as ghost state, the log of the
//! calls it was asked to make and what each returned: the contracts of the
//! functions above it speak of that log.
use vstd::prelude::*;
use crate::text::{join, join_strings, push_char, push_str, str_eq, str_of, string_views};

verus! {

/// The captured result of one external command invocation.
#[derive(Debug)]
pub struct CmdOutput {
    /// Process exit code. `None` means the process was killed by a signal.
    pub code: Option<i32>,
    pub stdout: String,
    pub stderr: String,
}

/// The plain content of a [`CmdOutput`].
pub struct OutView {
    pub code: Option<i32>,
    pub stdout: Seq<char>,
    pub stderr: Seq<char>,
}

impl View for CmdOutput {
    type V = OutView;

    open spec fn view(&self) -> OutView {
        OutView { code: self.code, stdout: self.stdout@, stderr: self.stderr@ }
    }
}

impl Clone for CmdOutput {
    fn clone(&self) -> (r: CmdOutput)
        ensures
            r@ == self@,
    {
        CmdOutput { code: self.code, stdout: self.stdout.clone(), stderr: self.stderr.clone() }
    }
}

impl CmdOutput {
    /// Exit code 0.
    pub fn success(&self) -> (r: bool)
        ensures
            r == (self.code == Some(0i32)),
    {
        match self.code {
            Some(c) => c == 0,
            None => false,
        }
    }

    /// The exit code, defaulting to 1 when the process was signal-killed.
    pub fn code_or_err(&self) -> (r: i32)
        ensures
            r == code_or_err(self@),
    {
        match self.code {
            Some(c) => c,
            None => 1,
        }
    }
}

pub open spec fn code_or_err(o: OutView) -> i32 {
    match o.code {
        Some(c) => c,
        None => 1,
    }
}

/// How to supervise a long-running agent command: a wall-clock cap, how often
/// the heartbeat commands run while it is alive, and where its output goes.
#[derive(Debug, Clone)]
pub struct AgentRunOpts {
    /// Hard wall-clock cap on the agent run, in milliseconds. On expiry the
    /// child is killed and the outcome is [`AgentOutcome::TimedOut`].
    pub timeout_ms: u64,
    /// How often the heartbeat commands run while the child runs, in ms.
    pub heartbeat_interval_ms: u64,
    /// Where to persist the agent's output (`None` disables durable capture).
    pub log_path: Option<String>,
}

/// The result of supervising an agent command.
#[derive(Debug)]
pub enum AgentOutcome {
    /// The child exited on its own; carries its captured output.
    Exited(CmdOutput),
    /// The timeout elapsed and the child was killed.
    TimedOut { output: CmdOutput },
}

pub open spec fn outcome_output(o: AgentOutcome) -> CmdOutput {
    match o {
        AgentOutcome::Exited(c) => c,
        AgentOutcome::TimedOut { output } => output,
    }
}

impl AgentOutcome {
    /// True only when the child exited cleanly (exit 0). A timeout is a failure.
    pub fn success(&self) -> (r: bool)
        ensures
            r == (*self matches AgentOutcome::Exited(o) && o.code == Some(0i32)),
    {
        match self {
            AgentOutcome::Exited(o) => o.success(),
            AgentOutcome::TimedOut { .. } => false,
        }
    }

    /// The captured output, whichever arm.
    pub fn output(&self) -> (r: &CmdOutput)
        ensures
            *r == outcome_output(*self),
    {
        match self {
            AgentOutcome::Exited(o) => o,
            AgentOutcome::TimedOut { output } => output,
        }
    }

    pub fn timed_out(&self) -> (r: bool)
        ensures
            r == (*self is TimedOut),
    {
        match self {
            AgentOutcome::TimedOut { .. } => true,
            _ => false,
        }
    }
}

// ── the call log ────────────────────────────────────────────────────────────

/// One command as the runner saw it: its argv (program first), what came
/// back (`Err` when it could not be run at all), and whether it was killed
/// at its timeout (only a supervised agent run can be).
pub struct Call {
    pub argv: Seq<Seq<char>>,
    pub out: Result<OutView, Seq<char>>,
    pub killed: bool,
}

pub open spec fn argv_of(program: Seq<char>, args: Seq<&str>) -> Seq<Seq<char>> {
    seq![program] + args.map_values(|a: &str| a@)
}

pub open spec fn out_of(r: Result<CmdOutput, String>) -> Result<OutView, Seq<char>> {
    match r {
        Ok(o) => Ok(o@),
        Err(e) => Err(e@),
    }
}

pub open spec fn call_of(program: Seq<char>, args: Seq<&str>, r: Result<CmdOutput, String>) -> Call {
    Call { argv: argv_of(program, args), out: out_of(r), killed: false }
}

pub open spec fn agent_call(program: Seq<char>, args: Seq<&str>, r: Result<AgentOutcome, String>) -> Call {
    Call {
        argv: argv_of(program, args),
        out: match r {
            Ok(o) => Ok(outcome_output(o)@),
            Err(e) => Err(e@),
        },
        killed: r matches Ok(AgentOutcome::TimedOut { .. }),
    }
}

/// A heartbeat command: the program and its arguments.
pub open spec fn hb_argv(c: (String, Vec<String>)) -> Seq<Seq<char>> {
    seq![c.0@] + string_views(c.1@)
}

pub open spec fn hb_argvs(hb: Seq<(String, Vec<String>)>) -> Seq<Seq<Seq<char>>> {
    hb.map_values(|c: (String, Vec<String>)| hb_argv(c))
}

pub open spec fn argvs(cs: Seq<Call>) -> Seq<Seq<Seq<char>>> {
    cs.map_values(|c: Call| c.argv)
}

/// `k` rounds of the heartbeat commands, in order.
pub open spec fn repeat(hb: Seq<Seq<Seq<char>>>, k: nat) -> Seq<Seq<Seq<char>>>
    decreases k,
{
    if k == 0 {
        seq![]
    } else {
        repeat(hb, (k - 1) as nat) + hb
    }
}

/// `rest` is some whole number of heartbeat rounds.
pub open spec fn heartbeat_rounds(rest: Seq<Call>, hb: Seq<Seq<Seq<char>>>) -> bool {
    exists|k: nat| argvs(rest) == repeat(hb, k)
}

/// Pushing then dropping the last element gives the sequence back.
pub broadcast proof fn lemma_push_drop_last<A>(s: Seq<A>, a: A)
    ensures
        #[trigger] s.push(a).drop_last() == s,
{
    assert(s.push(a).drop_last() =~= s);
}

/// Every call from index `from` on runs `program`.
pub open spec fn all_run(calls: Seq<Call>, from: int, program: Seq<char>) -> bool {
    forall|i: int|
        from <= i < calls.len() ==> (#[trigger] calls[i]).argv.len() > 0 && calls[i].argv[0]
            == program
}

/// `after` is `before` plus exactly one call, with the given argv.
pub open spec fn one_call(before: Seq<Call>, after: Seq<Call>, argv: Seq<Seq<char>>) -> bool {
    &&& after.len() == before.len() + 1
    &&& after.drop_last() == before
    &&& after.last().argv == argv
}

/// Abstraction over "run this program with these args and give me the output".
pub trait Runner {
    /// Every call made so far, oldest first.
    spec fn calls(&self) -> Seq<Call>;

    fn run(&mut self, program: &str, args: &[&str]) -> (r: Result<CmdOutput, String>)
        ensures
            final(self).calls() == old(self).calls().push(call_of(program@, args@, r)),
    ;

    /// Wait `ms` milliseconds (a retry backoff). Runs no command.
    fn sleep_ms(&mut self, ms: u64)
        ensures
            final(self).calls() == old(self).calls(),
    ;

    /// Supervise a long-running agent command: spawn it, run the `heartbeat`
    /// commands every `opts.heartbeat_interval_ms` while it runs (so leases
    /// stay renewed), kill it once `opts.timeout_ms` elapses, and capture its
    /// output to `opts.log_path`. The log records the agent call, then the
    /// heartbeat calls, in whole rounds.
    fn run_agent(
        &mut self,
        program: &str,
        args: &[&str],
        opts: &AgentRunOpts,
        heartbeat: &[(String, Vec<String>)],
    ) -> (r: Result<AgentOutcome, String>)
        ensures
            final(self).calls().len() > old(self).calls().len(),
            final(self).calls().take(old(self).calls().len() + 1int) == old(self).calls().push(
                agent_call(program@, args@, r),
            ),
            heartbeat_rounds(
                final(self).calls().skip(old(self).calls().len() + 1int),
                hb_argvs(heartbeat@),
            ),
    ;
}

// ── the mock runner ─────────────────────────────────────────────────────────

/// A single programmed response for the mock runner.
#[derive(Debug)]
pub struct MockResponse {
    /// Argv prefix that must match (program + leading args), e.g.
    /// `["amt", "claim"]`. An empty prefix matches anything.
    pub match_prefix: Vec<String>,
    pub output: CmdOutput,
}

/// `prefix` is a prefix of `argv`, word for word.
pub open spec fn prefix_matches(argv: Seq<Seq<char>>, prefix: Seq<Seq<char>>) -> bool {
    prefix.len() <= argv.len() && forall|i: int| 0 <= i < prefix.len() ==> prefix[i] == argv[i]
}

pub open spec fn resp_matches(r: MockResponse, argv: Seq<Seq<char>>) -> bool {
    prefix_matches(argv, string_views(r.match_prefix@))
}

pub open spec fn resp_len(r: MockResponse) -> nat {
    r.match_prefix@.len()
}

/// Response `i` is the one the mock answers with: it matches, no matching
/// response has a longer prefix, and none before it has one as long.
pub open spec fn is_best(rs: Seq<MockResponse>, argv: Seq<Seq<char>>, i: int) -> bool {
    &&& 0 <= i < rs.len()
    &&& resp_matches(rs[i], argv)
    &&& forall|j: int| 0 <= j < rs.len() && resp_matches(rs[j], argv) ==> resp_len(rs[j]) <= resp_len(rs[i])
    &&& forall|j: int| 0 <= j < i && resp_matches(rs[j], argv) ==> resp_len(rs[j]) < resp_len(rs[i])
}

/// The queued response that answers `argv`, if any matches.
pub open spec fn best_match(rs: Seq<MockResponse>, argv: Seq<Seq<char>>) -> Option<int> {
    if exists|i: int| is_best(rs, argv, i) {
        Some(choose|i: int| is_best(rs, argv, i))
    } else {
        None
    }
}

/// The benign empty success an unmatched call gets.
pub open spec fn benign() -> OutView {
    OutView { code: Some(0i32), stdout: Seq::empty(), stderr: Seq::empty() }
}

/// What the mock answers to `argv` given its queue.
pub open spec fn mock_reply(rs: Seq<MockResponse>, argv: Seq<Seq<char>>) -> OutView {
    match best_match(rs, argv) {
        Some(i) => rs[i].output@,
        None => benign(),
    }
}

/// The queue after answering `argv`: the answering response is consumed.
pub open spec fn mock_queue_after(rs: Seq<MockResponse>, argv: Seq<Seq<char>>) -> Seq<MockResponse> {
    match best_match(rs, argv) {
        Some(i) => rs.remove(i),
        None => rs,
    }
}

#[derive(Debug, Clone, Copy)]
struct AgentSim {
    /// How many heartbeat rounds to run before returning.
    beats: u32,
    /// True ⇒ report [`AgentOutcome::TimedOut`]; false ⇒ a normal exit.
    timeout: bool,
}

/// Records calls and returns queued responses. Responses are matched by the
/// most-specific queued prefix; matching responses are consumed in FIFO order.
pub struct MockRunner {
    responses: Vec<MockResponse>,
    rec: CallRecord,
    /// Controls how the next `run_agent` call behaves.
    agent_sim: Option<AgentSim>,
}

/// The argvs the mock was asked to run, and the calls it answered.
struct CallRecord {
    made: Vec<Vec<String>>,
    log: Ghost<Seq<Call>>,
}

impl CallRecord {
    fn empty() -> (r: CallRecord)
        ensures
            r.made@.len() == 0,
            r.log@.len() == 0,
            r.made@.map_values(|c: Vec<String>| string_views(c@)) == argvs(r.log@),
    {
        let r = CallRecord { made: Vec::new(), log: Ghost(Seq::empty()) };
        assert(r.made@.map_values(|c: Vec<String>| string_views(c@)) =~= argvs(r.log@));
        r
    }
}

impl MockResponse {
    pub fn new(prefix: &[&str], code: i32, stdout: &str, stderr: &str) -> (r: MockResponse)
        ensures
            string_views(r.match_prefix@) == prefix@.map_values(|a: &str| a@),
            r.output@ == (OutView { code: Some(code), stdout: stdout@, stderr: stderr@ }),
    {
        let mut p: Vec<String> = Vec::new();
        let mut i: usize = 0;
        while i < prefix.len()
            invariant
                i <= prefix@.len(),
                string_views(p@) == prefix@.take(i as int).map_values(|a: &str| a@),
            decreases prefix@.len() - i,
        {
            let ghost p0 = p@;
            let e = str_of(prefix[i]);
            p.push(e);
            assert(string_views(p@) =~= string_views(p0).push(prefix@[i as int]@));
            assert(prefix@.take(i + 1) =~= prefix@.take(i as int).push(prefix@[i as int]));
            assert(string_views(p@) =~= prefix@.take(i + 1).map_values(|a: &str| a@));
            i = i + 1;
        }
        assert(prefix@.take(prefix@.len() as int) =~= prefix@);
        MockResponse {
            match_prefix: p,
            output: CmdOutput { code: Some(code), stdout: str_of(stdout), stderr: str_of(stderr) },
        }
    }
}

impl MockRunner {
    /// The queued responses, oldest first.
    pub closed spec fn queue(&self) -> Seq<MockResponse> {
        self.responses@
    }

    /// The argvs recorded so far.
    pub closed spec fn made(&self) -> Seq<Seq<Seq<char>>> {
        self.rec.made@.map_values(|c: Vec<String>| string_views(c@))
    }

    /// What was recorded is what was called: the argvs of the calls, in
    /// order.
    #[verifier::type_invariant]
    spec fn records_calls(self) -> bool {
        self.rec.made@.map_values(|c: Vec<String>| string_views(c@)) == argvs(self.rec.log@)
    }

    /// The recorded argvs are those of the calls made, oldest first.
    pub fn made_are_calls(&self)
        ensures
            self.made() == argvs(self.calls()),
    {
        proof {
            use_type_invariant(self);
        }
    }

    /// How the next `run_agent` behaves: `(beats, timeout)`, if armed.
    pub closed spec fn armed(&self) -> Option<(u32, bool)> {
        match self.agent_sim {
            Some(s) => Some((s.beats, s.timeout)),
            None => None,
        }
    }

    pub fn new() -> (m: MockRunner)
        ensures
            m.queue() == Seq::<MockResponse>::empty(),
            m.made() == Seq::<Seq<Seq<char>>>::empty(),
            m.calls() == Seq::<Call>::empty(),
            m.armed() is None,
    {
        let rec = CallRecord::empty();
        proof {
            assert(rec.made@.map_values(|c: Vec<String>| string_views(c@)) =~= argvs(rec.log@));
        }
        let m = MockRunner { responses: Vec::new(), rec, agent_sim: None };
        assert(m.made() =~= Seq::<Seq<Seq<char>>>::empty());
        m
    }

    /// Queue a response for a given argv prefix.
    pub fn push(&mut self, resp: MockResponse)
        ensures
            final(self).queue() == old(self).queue().push(resp),
            final(self).made() == old(self).made(),
            final(self).calls() == old(self).calls(),
            final(self).armed() == old(self).armed(),
    {
        proof {
            use_type_invariant(&*self);
        }
        let mut rs: Vec<MockResponse> = Vec::new();
        std::mem::swap(&mut rs, &mut self.responses);
        rs.push(resp);
        self.responses = rs;
    }

    /// Queue a success/failure with the given stdout for an argv prefix.
    pub fn expect(&mut self, prefix: &[&str], code: i32, stdout: &str)
        ensures
            final(self).queue().len() == old(self).queue().len() + 1,
            final(self).queue().drop_last() == old(self).queue(),
            string_views(final(self).queue().last().match_prefix@) == prefix@.map_values(
                |a: &str| a@,
            ),
            final(self).queue().last().output@ == (OutView {
                code: Some(code),
                stdout: stdout@,
                stderr: Seq::empty(),
            }),
            final(self).made() == old(self).made(),
            final(self).calls() == old(self).calls(),
            final(self).armed() == old(self).armed(),
    {
        let r = MockResponse::new(prefix, code, stdout, "");
        proof {
            reveal_strlit("");
            assert(""@ =~= Seq::<char>::empty());
        }
        self.push(r);
    }

    /// Every recorded call, as a flat `program arg arg ...` string, in order.
    pub fn recorded(&self) -> (r: Vec<String>)
        ensures
            string_views(r@) == self.made().map_values(|c: Seq<Seq<char>>| join(c, seq![' '])),
    {
        let mut r: Vec<String> = Vec::new();
        let mut i: usize = 0;
        while i < self.rec.made.len()
            invariant
                i <= self.rec.made@.len(),
                string_views(r@) == self.made().take(i as int).map_values(
                    |c: Seq<Seq<char>>| join(c, seq![' ']),
                ),
            decreases self.rec.made@.len() - i,
        {
            let line = join_strings(self.rec.made[i].as_slice(), " ");
            proof {
                reveal_strlit(" ");
                assert(" "@ =~= seq![' ']);
            }
            let ghost r0 = r@;
            r.push(line);
            assert(string_views(r@) =~= string_views(r0).push(join(self.made()[i as int], seq![' '])));
            assert(self.made().take(i + 1) =~= self.made().take(i as int).push(self.made()[i as int]));
            assert(string_views(r@) =~= self.made().take(i + 1).map_values(
                |c: Seq<Seq<char>>| join(c, seq![' ']),
            ));
            i = i + 1;
        }
        assert(self.made().take(self.rec.made@.len() as int) =~= self.made());
        r
    }

    pub fn call_count(&self) -> (n: usize)
        ensures
            n == self.made().len(),
    {
        self.rec.made.len()
    }

    /// Arm the next `run_agent` call to simulate a timeout: it runs `beats`
    /// heartbeat rounds and then reports [`AgentOutcome::TimedOut`].
    pub fn arm_agent_timeout(&mut self, beats: u32)
        ensures
            final(self).armed() == Some((beats, true)),
            final(self).queue() == old(self).queue(),
            final(self).made() == old(self).made(),
            final(self).calls() == old(self).calls(),
    {
        proof {
            use_type_invariant(&*self);
        }
        self.agent_sim = Some(AgentSim { beats, timeout: true });
    }

    /// Arm the next `run_agent` call to run `beats` heartbeat rounds on a
    /// normal (non-timeout) return.
    pub fn arm_agent_heartbeats(&mut self, beats: u32)
        ensures
            final(self).armed() == Some((beats, false)),
            final(self).queue() == old(self).queue(),
            final(self).made() == old(self).made(),
            final(self).calls() == old(self).calls(),
    {
        proof {
            use_type_invariant(&*self);
        }
        self.agent_sim = Some(AgentSim { beats, timeout: false });
    }

    /// The answer to one argv: pick, consume, record.
    fn answer(&mut self, argv: &Vec<String>) -> (o: CmdOutput)
        ensures
            o@ == mock_reply(old(self).queue(), string_views(argv@)),
            final(self).queue() == mock_queue_after(old(self).queue(), string_views(argv@)),
            final(self).made() == old(self).made(),
            final(self).calls() == old(self).calls(),
            final(self).armed() == old(self).armed(),
    {
        proof {
            use_type_invariant(&*self);
        }
        let ghost av = string_views(argv@);
        let ghost rs = self.responses@;
        let mut best: Option<usize> = None;
        let mut best_len: usize = 0;
        let mut i: usize = 0;
        while i < self.responses.len()
            invariant
                i <= rs.len(),
                self.responses@ == rs,
                av == string_views(argv@),
                match best {
                    None => forall|j: int| 0 <= j < i ==> !resp_matches(rs[j], av),
                    Some(b) => {
                        &&& b < i
                        &&& best_len == resp_len(rs[b as int])
                        &&& is_best(rs.take(i as int), av, b as int)
                    },
                },
            decreases rs.len() - i,
        {
            let m = prefix_match_exec(argv, &self.responses[i].match_prefix);
            let l = self.responses[i].match_prefix.len();
            let ghost old_best = best;
            if m && (best.is_none() || l > best_len) {
                best = Some(i);
                best_len = l;
            }
            proof {
                let t = rs.take(i + 1);
                assert(t.take(i as int) =~= rs.take(i as int));
                match best {
                    Some(b) => {
                        assert forall|j: int| 0 <= j < t.len() && resp_matches(t[j], av) implies resp_len(t[j]) <= resp_len(t[b as int]) by {
                            if j < i {
                                assert(t[j] == rs.take(i as int)[j]);
                            }
                        }
                        assert forall|j: int| 0 <= j < b && resp_matches(t[j], av) implies resp_len(t[j]) < resp_len(t[b as int]) by {
                            assert(t[j] == rs.take(i as int)[j]);
                        }
                    },
                    None => {},
                }
            }
            i = i + 1;
        }
        assert(rs.take(rs.len() as int) =~= rs);
        proof {
            match best {
                Some(b) => {
                    lemma_best_unique(rs, av, b as int);
                },
                None => {
                    assert(!exists|k: int| is_best(rs, av, k));
                },
            }
        }
        let o = match best {
            Some(b) => {
                let mut rs: Vec<MockResponse> = Vec::new();
                std::mem::swap(&mut rs, &mut self.responses);
                let r = rs.remove(b);
                self.responses = rs;
                r.output
            },
            None => CmdOutput { code: Some(0), stdout: String::new(), stderr: String::new() },
        };
        o
    }
}

proof fn lemma_best_unique(rs: Seq<MockResponse>, av: Seq<Seq<char>>, b: int)
    requires
        is_best(rs, av, b),
    ensures
        best_match(rs, av) == Some(b),
{
    let c = choose|i: int| is_best(rs, av, i);
    assert(is_best(rs, av, c));
    if c < b {
        assert(resp_len(rs[c]) < resp_len(rs[b]));
    } else if b < c {
        assert(resp_len(rs[b]) < resp_len(rs[c]));
    }
}

fn prefix_match_exec(argv: &Vec<String>, prefix: &Vec<String>) -> (r: bool)
    ensures
        r == prefix_matches(string_views(argv@), string_views(prefix@)),
{
    if prefix.len() > argv.len() {
        return false;
    }
    let mut i: usize = 0;
    while i < prefix.len()
        invariant
            i <= prefix@.len(),
            prefix@.len() <= argv@.len(),
            forall|k: int| 0 <= k < i ==> prefix@[k]@ == argv@[k]@,
        decreases prefix@.len() - i,
    {
        if !str_eq(prefix[i].as_str(), argv[i].as_str()) {
            assert(string_views(prefix@)[i as int] != string_views(argv@)[i as int]);
            return false;
        }
        i = i + 1;
    }
    true
}

/// An owned argv: the program, then each argument.
fn owned_argv(program: &str, args: &[&str]) -> (v: Vec<String>)
    ensures
        string_views(v@) == argv_of(program@, args@),
{
    let mut v: Vec<String> = Vec::new();
    v.push(str_of(program));
    let mut i: usize = 0;
    while i < args.len()
        invariant
            i <= args@.len(),
            string_views(v@) == seq![program@] + args@.take(i as int).map_values(|a: &str| a@),
        decreases args@.len() - i,
    {
        let ghost v0 = v@;
        let e = str_of(args[i]);
        v.push(e);
        assert(string_views(v@) =~= string_views(v0).push(args@[i as int]@));
        assert(args@.take(i + 1) =~= args@.take(i as int).push(args@[i as int]));
        assert(string_views(v@) =~= seq![program@] + args@.take(i + 1).map_values(|a: &str| a@));
        i = i + 1;
    }
    assert(args@.take(args@.len() as int) =~= args@);
    v
}

/// Borrowed views of owned arguments.
pub fn borrow_all(v: &Vec<String>) -> (r: Vec<&str>)
    ensures
        r@.map_values(|a: &str| a@) == string_views(v@),
{
    let mut r: Vec<&str> = Vec::new();
    let mut i: usize = 0;
    while i < v.len()
        invariant
            i <= v@.len(),
            r@.map_values(|a: &str| a@) == string_views(v@.take(i as int)),
        decreases v@.len() - i,
    {
        let ghost r0 = r@;
        let e = v[i].as_str();
        r.push(e);
        assert(r@.map_values(|a: &str| a@) =~= r0.map_values(|a: &str| a@).push(v@[i as int]@));
        assert(v@.take(i + 1) =~= v@.take(i as int).push(v@[i as int]));
        assert(r@.map_values(|a: &str| a@) =~= string_views(v@.take(i + 1)));
        i = i + 1;
    }
    assert(v@.take(v@.len() as int) =~= v@);
    r
}

impl Runner for MockRunner {
    closed spec fn calls(&self) -> Seq<Call> {
        self.rec.log@
    }

    /// Answers with the queued response of longest matching prefix (FIFO
    /// among equals), consuming it; an unmatched call gets a benign empty
    /// success. Never fails.
    fn run(&mut self, program: &str, args: &[&str]) -> (r: Result<CmdOutput, String>)
        ensures
            r matches Ok(o) && o@ == mock_reply(old(self).queue(), argv_of(program@, args@)),
            final(self).queue() == mock_queue_after(old(self).queue(), argv_of(program@, args@)),
            final(self).made() == old(self).made().push(argv_of(program@, args@)),
            final(self).armed() == old(self).armed(),
            final(self).made() == argvs(final(self).calls()),
    {
        proof {
            use_type_invariant(&*self);
        }
        let argv = owned_argv(program, args);
        let o = self.answer(&argv);
        let r: Result<CmdOutput, String> = Ok(o);
        proof {
            use_type_invariant(&*self);
        }
        let mut rec = CallRecord::empty();
        std::mem::swap(&mut rec, &mut self.rec);
        let ghost m0 = rec.made@;
        let ghost l0 = rec.log@;
        rec.made.push(argv);
        proof {
            rec.log@ = l0.push(call_of(program@, args@, r));
            assert(argvs(rec.log@) =~= argvs(l0).push(argv_of(program@, args@)));
            assert(rec.made@.map_values(|c: Vec<String>| string_views(c@)) =~= m0.map_values(
                |c: Vec<String>| string_views(c@),
            ).push(argv_of(program@, args@)));
        }
        self.rec = rec;
        r
    }

    /// No real sleeps under the mock: backoffs are instant.
    fn sleep_ms(&mut self, ms: u64)
        ensures
            final(self).queue() == old(self).queue(),
            final(self).made() == old(self).made(),
            final(self).armed() == old(self).armed(),
    {
        proof {
            use_type_invariant(&*self);
        }
    }

    /// Runs the agent command like [`MockRunner::run`]; if a simulation was
    /// armed, runs that many heartbeat rounds and reports a timeout or a
    /// normal exit as armed, then disarms. No clocks are involved.
    fn run_agent(
        &mut self,
        program: &str,
        args: &[&str],
        opts: &AgentRunOpts,
        heartbeat: &[(String, Vec<String>)],
    ) -> (r: Result<AgentOutcome, String>)
        ensures
            final(self).armed() is None,
            old(self).armed() matches Some((b, t)) ==> (r matches Ok(o) && (o is TimedOut) == t),
            old(self).armed() is None ==> r matches Ok(AgentOutcome::Exited(_)),
            final(self).made().len() >= old(self).made().len() + 1,
            final(self).made()[old(self).made().len() as int] == argv_of(program@, args@),
            final(self).made() == argvs(final(self).calls()),
    {
        proof {
            use_type_invariant(&*self);
        }
        let n0: Ghost<nat> = Ghost(self.rec.log@.len());
        let m0: Ghost<nat> = Ghost(self.made().len());
        let out = match self.run(program, args) {
            Ok(o) => o,
            Err(e) => {
                return Err(e);
            },
        };
        let ghost first = self.rec.log@;
        assert(self.made()[m0@ as int] == argv_of(program@, args@));
        let sim = self.agent_sim;
        proof {
            use_type_invariant(&*self);
        }
        self.agent_sim = None;
        let ghost hbv = hb_argvs(heartbeat@);
        let ghost base = n0@ + 1;
        let beats: u32 = match sim {
            Some(s) => s.beats,
            None => 0,
        };
        proof {
            assert(self.rec.log@.skip(base as int) =~= Seq::<Call>::empty());
            assert(argvs(self.rec.log@.skip(base as int)) =~= repeat(hbv, 0));
        }
        let mut b: u32 = 0;
        while b < beats
            invariant
                b <= beats,
                self.rec.log@.len() >= base,
                self.rec.log@.take(base as int) == first,
                first.len() == base,
                argvs(self.rec.log@.skip(base as int)) == repeat(hbv, b as nat),
                hbv == hb_argvs(heartbeat@),
                self.agent_sim is None,
                self.made().len() >= m0@ + 1,
                self.made()[m0@ as int] == argv_of(program@, args@),
                self.made() == argvs(self.rec.log@),
            decreases beats - b,
        {
            let mut k: usize = 0;
            while k < heartbeat.len()
                invariant
                    k <= heartbeat@.len(),
                    self.rec.log@.len() >= base,
                    self.rec.log@.take(base as int) == first,
                    first.len() == base,
                    argvs(self.rec.log@.skip(base as int)) == repeat(hbv, b as nat) + hbv.take(k as int),
                    hbv == hb_argvs(heartbeat@),
                    self.agent_sim is None,
                    self.made().len() >= m0@ + 1,
                    self.made()[m0@ as int] == argv_of(program@, args@),
                    self.made() == argvs(self.rec.log@),
                decreases heartbeat@.len() - k,
            {
                let cmd = &heartbeat[k];
                let hargs = borrow_all(&cmd.1);
                let ghost before = self.rec.log@;
                let ghost mbefore = self.made();
                let _ = self.run(cmd.0.as_str(), hargs.as_slice());
                proof {
                    assert(self.rec.log@.take(base as int) =~= before.take(base as int));
                    assert(self.rec.log@.skip(base as int) =~= before.skip(base as int).push(self.rec.log@.last()));
                    assert(argv_of(cmd.0@, hargs@) =~= hbv[k as int]);
                    assert(argvs(self.rec.log@.skip(base as int)) =~= argvs(before.skip(base as int)).push(hbv[k as int]));
                    assert(hbv.take(k + 1) =~= hbv.take(k as int).push(hbv[k as int]));
                    assert(self.made()[m0@ as int] == mbefore[m0@ as int]);
                }
                k = k + 1;
            }
            proof {
                assert(hbv.take(heartbeat@.len() as int) =~= hbv);
                assert(repeat(hbv, (b + 1) as nat) == repeat(hbv, b as nat) + hbv);
            }
            b = b + 1;
        }
        let timeout = match sim {
            Some(s) => s.timeout,
            None => false,
        };
        let r = if timeout {
            Ok(AgentOutcome::TimedOut { output: out })
        } else {
            Ok(AgentOutcome::Exited(out))
        };
        proof {
            let l = self.rec.log@;
            let ac = agent_call(program@, args@, r);
            assert(l.take(base as int) == first);
            assert(first[n0@ as int].argv == ac.argv);
            use_type_invariant(&*self);
            assert(argvs(l.update(n0@ as int, ac)) =~= argvs(l));
            self.rec.log@ = l.update(n0@ as int, ac);
            assert(self.rec.log@.take(base as int) =~= first.update(n0@ as int, ac));
            assert(first.update(n0@ as int, ac) =~= old(self).calls().push(ac));
            assert(self.rec.log@.skip(base as int) =~= l.skip(base as int));
            assert(l[n0@ as int] == first[n0@ as int]);
            assert(argvs(self.rec.log@) =~= argvs(l));
        }
        r
    }
}


// ── the process runner ──────────────────────────────────────────────────────

/// What the runner asked of its process about an agent, and what came back.
pub enum AgentEvent {
    /// The agent command (its argv) was started, its output going to the
    /// log path.
    Start(Seq<Seq<char>>, Option<Seq<char>>, Result<(), Seq<char>>),
    /// A wait of so many milliseconds: the output if the agent had exited,
    /// none while it still ran.
    Wait(u64, Result<Option<OutView>, Seq<char>>),
    /// The agent was killed; what it left.
    Kill(OutView),
}

/// How a supervised agent run ended.
pub enum Supervised {
    Exited(OutView),
    TimedOut(OutView),
    Failed(Seq<char>),
}

/// How a runner's result reads as a supervision's end.
pub open spec fn supervised_of(r: Result<AgentOutcome, String>) -> Supervised {
    match r {
        Ok(AgentOutcome::Exited(o)) => Supervised::Exited(o@),
        Ok(AgentOutcome::TimedOut { output }) => Supervised::TimedOut(output@),
        Err(e) => Supervised::Failed(e@),
    }
}

/// The heartbeat interval actually used: at least a millisecond.
pub open spec fn wait_interval(ms: u64) -> nat {
    if ms == 0 {
        1
    } else {
        ms as nat
    }
}

/// One wait: an interval, or what is left of the timeout if that is less.
pub open spec fn wait_step(waited: nat, timeout: nat, interval: nat) -> nat {
    if interval < timeout - waited {
        interval
    } else {
        (timeout - waited) as nat
    }
}

/// Supervision from `waited` milliseconds on, over the process events `evs`:
/// while time is left, wait one step; a wait that reports an exit (or an
/// error) ends it there; once the timeout is spent, the agent is killed and
/// the run timed out. Gives how it ended and how many heartbeat rounds ran —
/// one after each wait that left the agent running with time to spare.
pub open spec fn supervise(evs: Seq<AgentEvent>, waited: nat, timeout: nat, interval: nat) -> Option<
    (Supervised, nat),
>
    decreases evs.len(),
{
    if evs.len() == 0 {
        None
    } else if waited >= timeout {
        match evs[0] {
            AgentEvent::Kill(o) => if evs.len() == 1 {
                Some((Supervised::TimedOut(o), 0))
            } else {
                None
            },
            _ => None,
        }
    } else {
        let w = wait_step(waited, timeout, interval);
        match evs[0] {
            AgentEvent::Wait(ms, res) => if ms != w || w == 0 {
                None
            } else {
                match res {
                    Err(e) => if evs.len() == 1 {
                        Some((Supervised::Failed(e), 0))
                    } else {
                        None
                    },
                    Ok(Some(o)) => if evs.len() == 1 {
                        Some((Supervised::Exited(o), 0))
                    } else {
                        None
                    },
                    Ok(None) => match supervise(evs.drop_first(), waited + w, timeout, interval) {
                        Some((e, k)) => Some(
                            (
                                e,
                                if waited + w < timeout {
                                    k + 1
                                } else {
                                    k
                                },
                            ),
                        ),
                        None => None,
                    },
                }
            },
            _ => None,
        }
    }
}

/// An agent run over the process events `evs`: the agent is started with
/// `argv` and `log_path`; if that fails, the run failed; else it is
/// supervised from 0 ms.
pub open spec fn agent_run(
    evs: Seq<AgentEvent>,
    argv: Seq<Seq<char>>,
    log_path: Option<Seq<char>>,
    timeout: nat,
    interval: nat,
) -> Option<(Supervised, nat)> {
    if evs.len() == 0 {
        None
    } else {
        match evs[0] {
            AgentEvent::Start(a, lp, res) => if a == argv && lp == log_path {
                match res {
                    Err(e) => if evs.len() == 1 {
                        Some((Supervised::Failed(e), 0))
                    } else {
                        None
                    },
                    Ok(_) => supervise(evs.drop_first(), 0, timeout, interval),
                }
            } else {
                None
            },
            _ => None,
        }
    }
}

/// Waits that all left the agent running, from `waited` ms on: where they
/// end, and the heartbeat rounds after them.
pub open spec fn waited_through(evs: Seq<AgentEvent>, waited: nat, timeout: nat, interval: nat) -> Option<
    (nat, nat),
>
    decreases evs.len(),
{
    if evs.len() == 0 {
        Some((waited, 0))
    } else if waited >= timeout {
        None
    } else {
        let w = wait_step(waited, timeout, interval);
        match evs[0] {
            AgentEvent::Wait(ms, Ok(None)) => if ms == w && w > 0 {
                match waited_through(evs.drop_first(), waited + w, timeout, interval) {
                    Some((t, k)) => Some(
                        (
                            t,
                            if waited + w < timeout {
                                k + 1
                            } else {
                                k
                            },
                        ),
                    ),
                    None => None,
                }
            } else {
                None
            },
            _ => None,
        }
    }
}

proof fn lemma_waited_then(
    pre: Seq<AgentEvent>,
    tail: Seq<AgentEvent>,
    a: nat,
    b: nat,
    k1: nat,
    timeout: nat,
    interval: nat,
)
    requires
        waited_through(pre, a, timeout, interval) == Some((b, k1)),
        supervise(tail, b, timeout, interval) is Some,
    ensures
        supervise(pre + tail, a, timeout, interval) == Some(
            (
                supervise(tail, b, timeout, interval).unwrap().0,
                supervise(tail, b, timeout, interval).unwrap().1 + k1,
            ),
        ),
    decreases pre.len(),
{
    if pre.len() == 0 {
        assert(pre + tail =~= tail);
    } else {
        let w = wait_step(a, timeout, interval);
        let rest = waited_through(pre.drop_first(), a + w, timeout, interval).unwrap();
        lemma_waited_then(pre.drop_first(), tail, a + w, b, rest.1, timeout, interval);
        assert((pre + tail).drop_first() =~= pre.drop_first() + tail);
        assert((pre + tail)[0] == pre[0]);
    }
}

proof fn lemma_waited_snoc(
    pre: Seq<AgentEvent>,
    a: nat,
    b: nat,
    k: nat,
    timeout: nat,
    interval: nat,
    ms: u64,
)
    requires
        waited_through(pre, a, timeout, interval) == Some((b, k)),
        b < timeout,
        wait_step(b, timeout, interval) > 0,
        ms == wait_step(b, timeout, interval),
    ensures
        waited_through(
            pre.push(AgentEvent::Wait(ms, Ok(None))),
            a,
            timeout,
            interval,
        ) == Some(
            (
                b + wait_step(b, timeout, interval),
                if b + wait_step(b, timeout, interval) < timeout {
                    k + 1
                } else {
                    k
                },
            ),
        ),
    decreases pre.len(),
{
    let ev = AgentEvent::Wait(ms, Ok(None));
    if pre.len() == 0 {
        let one = pre.push(ev);
        assert(one.drop_first() =~= Seq::<AgentEvent>::empty());
        assert(waited_through(Seq::<AgentEvent>::empty(), (b + ms) as nat, timeout, interval) == Some(
            ((b + ms) as nat, 0nat),
        ));
    } else {
        let w = wait_step(a, timeout, interval);
        let rest = waited_through(pre.drop_first(), a + w, timeout, interval).unwrap();
        lemma_waited_snoc(pre.drop_first(), a + w, b, rest.1, timeout, interval, ms);
        assert(pre.push(ev).drop_first() =~= pre.drop_first().push(ev));
        assert(pre.push(ev)[0] == pre[0]);
    }
}

/// What the operating system does for a [`ProcessRunner`]: run a command to
/// completion, sleep, and spawn, wait for and kill one agent child at a
/// time. Nothing is assumed of what these return.
pub trait Process {
    /// Run a command to completion, capturing its output.
    fn run(&mut self, program: &str, args: &[&str]) -> Result<CmdOutput, String>;

    /// Sleep `ms` milliseconds.
    fn sleep_ms(&mut self, ms: u64);

    /// Spawn the agent command, its output going to `log_path` (discarded
    /// when `None`).
    fn start_agent(&mut self, program: &str, args: &[&str], log_path: Option<&str>) -> Result<(), String>;

    /// Wait up to `ms` milliseconds for the agent: what it left if it has
    /// exited, `None` while it still runs.
    fn wait_agent(&mut self, ms: u64) -> Result<Option<CmdOutput>, String>;

    /// Kill the agent and reap it: what it left.
    fn kill_agent(&mut self) -> CmdOutput;
}

/// A [`Runner`] over real processes. It keeps the call log, and supervises an
/// agent itself: it waits on the child one heartbeat interval at a time,
/// runs a heartbeat round after every wait that leaves the child running
/// with time to spare, and kills the child once the timeout has elapsed.
pub struct ProcessRunner<P: Process> {
    pub process: P,
    log: Ghost<Seq<Call>>,
    agent: Ghost<Seq<AgentEvent>>,
}

impl<P: Process> ProcessRunner<P> {
    pub fn new(process: P) -> (r: ProcessRunner<P>)
        ensures
            r.calls() == Seq::<Call>::empty(),
            r.agent_events() == Seq::<AgentEvent>::empty(),
    {
        ProcessRunner { process, log: Ghost(Seq::empty()), agent: Ghost(Seq::empty()) }
    }

    /// Every agent process call made so far, oldest first.
    pub closed spec fn agent_events(&self) -> Seq<AgentEvent> {
        self.agent@
    }

    /// Run each heartbeat command once, in order.
    fn heartbeat_round(&mut self, heartbeat: &[(String, Vec<String>)], Ghost(base): Ghost<nat>, Ghost(rounds): Ghost<nat>)
        requires
            old(self).log@.len() >= base,
            argvs(old(self).log@.skip(base as int)) == repeat(hb_argvs(heartbeat@), rounds),
        ensures
            final(self).log@.len() >= base,
            final(self).log@.take(base as int) == old(self).log@.take(base as int),
            argvs(final(self).log@.skip(base as int)) == repeat(hb_argvs(heartbeat@), rounds + 1),
            final(self).agent@ == old(self).agent@,
    {
        let ghost hbv = hb_argvs(heartbeat@);
        let ghost first = self.log@.take(base as int);
        let mut k: usize = 0;
        while k < heartbeat.len()
            invariant
                k <= heartbeat@.len(),
                self.log@.len() >= base,
                self.log@.take(base as int) == first,
                argvs(self.log@.skip(base as int)) == repeat(hbv, rounds) + hbv.take(k as int),
                hbv == hb_argvs(heartbeat@),
                self.agent@ == old(self).agent@,
            decreases heartbeat@.len() - k,
        {
            let cmd = &heartbeat[k];
            let hargs = borrow_all(&cmd.1);
            let ghost before = self.log@;
            let _ = self.run(cmd.0.as_str(), hargs.as_slice());
            proof {
                assert(self.log@.take(base as int) =~= before.take(base as int));
                assert(self.log@.skip(base as int) =~= before.skip(base as int).push(self.log@.last()));
                assert(argv_of(cmd.0@, hargs@) =~= hbv[k as int]);
                assert(argvs(self.log@.skip(base as int)) =~= argvs(before.skip(base as int)).push(hbv[k as int]));
                assert(hbv.take(k + 1) =~= hbv.take(k as int).push(hbv[k as int]));
            }
            k = k + 1;
        }
        proof {
            assert(hbv.take(heartbeat@.len() as int) =~= hbv);
            assert(repeat(hbv, rounds + 1) == repeat(hbv, rounds) + hbv);
        }
    }
}

impl<P: Process> Runner for ProcessRunner<P> {
    closed spec fn calls(&self) -> Seq<Call> {
        self.log@
    }

    fn run(&mut self, program: &str, args: &[&str]) -> (r: Result<CmdOutput, String>)
        ensures
            final(self).agent_events() == old(self).agent_events(),
    {
        let r = self.process.run(program, args);
        proof {
            self.log@ = self.log@.push(call_of(program@, args@, r));
        }
        r
    }

    fn sleep_ms(&mut self, ms: u64) {
        self.process.sleep_ms(ms);
    }

    /// Beyond the call log: the agent is started with its argv and log path;
    /// then each wait is one heartbeat interval (or what is left of the
    /// timeout); a wait that reports the agent's exit (or an error) ends the
    /// run with it; a heartbeat round follows each wait that leaves the agent
    /// running with time to spare; once the timeout is spent the agent is
    /// killed and the run timed out with what the kill reaped.
    fn run_agent(
        &mut self,
        program: &str,
        args: &[&str],
        opts: &AgentRunOpts,
        heartbeat: &[(String, Vec<String>)],
    ) -> (r: Result<AgentOutcome, String>)
        ensures
            final(self).agent_events().len() > old(self).agent_events().len(),
            final(self).agent_events().take(old(self).agent_events().len() as int) == old(
                self,
            ).agent_events(),
            agent_run(
                final(self).agent_events().skip(old(self).agent_events().len() as int),
                argv_of(program@, args@),
                opt_path(opts.log_path),
                opts.timeout_ms as nat,
                wait_interval(opts.heartbeat_interval_ms),
            ) matches Some((e, k)) && e == supervised_of(r) && argvs(
                final(self).calls().skip(old(self).calls().len() + 1int),
            ) == repeat(hb_argvs(heartbeat@), k),
    {
        let ghost old_log = self.log@;
        let ghost n = old_log.len();
        let ghost ev0 = self.agent@;
        let ghost m = ev0.len();
        let ghost tmo = opts.timeout_ms as nat;
        let ghost ivl = wait_interval(opts.heartbeat_interval_ms);
        let log_path: Option<&str> = match &opts.log_path {
            Some(p) => Some(p.as_str()),
            None => None,
        };
        let started = self.process.start_agent(program, args, log_path);
        proof {
            self.agent@ = self.agent@.push(
                AgentEvent::Start(
                    argv_of(program@, args@),
                    opt_path(opts.log_path),
                    unit_view(started),
                ),
            );
            assert(self.agent@.take(m as int) =~= ev0);
        }
        match started {
            Err(e) => {
                let r: Result<AgentOutcome, String> = Err(e);
                proof {
                    self.log@ = old_log.push(agent_call(program@, args@, r));
                    assert(self.log@.take(n + 1int) =~= old_log.push(agent_call(program@, args@, r)));
                    assert(self.log@.skip(n + 1int) =~= Seq::<Call>::empty());
                    assert(argvs(self.log@.skip(n + 1int)) =~= repeat(hb_argvs(heartbeat@), 0));
                    assert(self.agent@.skip(m as int) =~= seq![self.agent@[m as int]]);
                }
                return r;
            },
            Ok(()) => {},
        }
        let interval: u64 = if opts.heartbeat_interval_ms == 0 {
            1
        } else {
            opts.heartbeat_interval_ms
        };
        let ghost hbv = hb_argvs(heartbeat@);
        let ghost mut rounds: nat = 0;
        proof {
            assert(self.log@.skip(n as int) =~= Seq::<Call>::empty());
            assert(argvs(self.log@.skip(n as int)) =~= repeat(hbv, 0));
            assert(self.agent@.skip(m + 1int) =~= Seq::<AgentEvent>::empty());
        }
        let mut waited: u64 = 0;
        let mut exited: Option<Result<AgentOutcome, String>> = None;
        while waited < opts.timeout_ms
            invariant_except_break
                exited is None,
                waited_through(self.agent@.skip(m + 1int), 0, tmo, ivl) == Some((waited as nat, rounds)),
            invariant
                waited <= opts.timeout_ms,
                interval >= 1,
                interval == ivl,
                tmo == opts.timeout_ms,
                self.log@.len() >= n,
                self.log@.take(n as int) == old_log,
                old_log.len() == n,
                argvs(self.log@.skip(n as int)) == repeat(hbv, rounds),
                hbv == hb_argvs(heartbeat@),
                self.agent@.len() >= m + 1,
                self.agent@.take(m as int) == ev0,
                self.agent@[m as int] == AgentEvent::Start(
                    argv_of(program@, args@),
                    opt_path(opts.log_path),
                    Ok(()),
                ),
            ensures
                exited is None ==> waited >= opts.timeout_ms && waited_through(
                    self.agent@.skip(m + 1int),
                    0,
                    tmo,
                    ivl,
                ) == Some((waited as nat, rounds)),
                exited matches Some(x) ==> supervise(self.agent@.skip(m + 1int), 0, tmo, ivl) == Some(
                    (supervised_of(x), rounds),
                ),
            decreases opts.timeout_ms - waited,
        {
            let left = opts.timeout_ms - waited;
            let w = if interval < left {
                interval
            } else {
                left
            };
            let ghost pre = self.agent@.skip(m + 1int);
            let ghost before = self.agent@;
            let wr = self.process.wait_agent(w);
            let ghost ev = AgentEvent::Wait(w, wait_view(wr));
            proof {
                self.agent@ = self.agent@.push(ev);
                assert(self.agent@.take(m as int) =~= before.take(m as int));
                assert(self.agent@.skip(m + 1int) =~= pre.push(ev));
                assert(self.agent@[m as int] == before[m as int]);
                assert(w as nat == wait_step(waited as nat, tmo, ivl));
            }
            match wr {
                Err(e) => {
                    exited = Some(Err(e));
                    proof {
                        assert(seq![ev].drop_first() =~= Seq::<AgentEvent>::empty());
                        assert(supervise(seq![ev], waited as nat, tmo, ivl) == Some((Supervised::Failed(e@), 0nat)));
                        lemma_waited_then(pre, seq![ev], 0, waited as nat, rounds, tmo, ivl);
                        assert(pre.push(ev) =~= pre + seq![ev]);
                    }
                    break;
                },
                Ok(Some(o)) => {
                    exited = Some(Ok(AgentOutcome::Exited(o)));
                    proof {
                        assert(supervise(seq![ev], waited as nat, tmo, ivl) == Some((Supervised::Exited(o@), 0nat)));
                        lemma_waited_then(pre, seq![ev], 0, waited as nat, rounds, tmo, ivl);
                        assert(pre.push(ev) =~= pre + seq![ev]);
                    }
                    break;
                },
                Ok(None) => {},
            }
            proof {
                lemma_waited_snoc(pre, 0, waited as nat, rounds, tmo, ivl, w);
            }
            waited = waited + w;
            if waited < opts.timeout_ms {
                self.heartbeat_round(heartbeat, Ghost(n), Ghost(rounds));
                proof {
                    rounds = rounds + 1;
                }
            }
        }
        let ghost pre = self.agent@.skip(m + 1int);
        let r: Result<AgentOutcome, String> = match exited {
            Some(x) => x,
            None => {
                let ghost before = self.agent@;
                let o = self.process.kill_agent();
                proof {
                    let ev = AgentEvent::Kill(o@);
                    self.agent@ = self.agent@.push(ev);
                    assert(self.agent@.take(m as int) =~= before.take(m as int));
                    assert(self.agent@[m as int] == before[m as int]);
                    assert(self.agent@.skip(m + 1int) =~= pre + seq![ev]);
                    assert(supervise(seq![ev], waited as nat, tmo, ivl) == Some((Supervised::TimedOut(o@), 0nat)));
                    lemma_waited_then(pre, seq![ev], 0, waited as nat, rounds, tmo, ivl);
                }
                Ok(AgentOutcome::TimedOut { output: o })
            },
        };
        proof {
            let rest = self.log@.skip(n as int);
            self.log@ = old_log.push(agent_call(program@, args@, r)) + rest;
            assert(self.log@.take(n + 1int) =~= old_log.push(agent_call(program@, args@, r)));
            assert(self.log@.skip(n + 1int) =~= rest);
            assert(argvs(self.log@.skip(n + 1int)) == repeat(hbv, rounds));
            assert(self.agent@.skip(m as int).drop_first() =~= self.agent@.skip(m + 1int));
            assert(self.agent@.skip(m as int)[0] == self.agent@[m as int]);
        }
        r
    }
}

/// A log path as text.
pub open spec fn opt_path(p: Option<String>) -> Option<Seq<char>> {
    match p {
        Some(s) => Some(s@),
        None => None,
    }
}

/// What a start came back with.
pub open spec fn unit_view(r: Result<(), String>) -> Result<(), Seq<char>> {
    match r {
        Err(e) => Err(e@),
        Ok(_) => Ok(()),
    }
}

/// What a wait came back with.
pub open spec fn wait_view(r: Result<Option<CmdOutput>, String>) -> Result<Option<OutView>, Seq<char>> {
    match r {
        Err(e) => Err(e@),
        Ok(Some(o)) => Ok(Some(o@)),
        Ok(None) => Ok(None),
    }
}

/// The line appended to an agent's log once it has exited: its exit code,
/// or `killed` when it has none.
pub fn exit_trailer(code: Option<i32>) -> (s: String)
    ensures
        s@ == "\n[sirius] agent exit: "@ + match code {
            Some(c) => crate::text::idec(c as int),
            None => "killed"@,
        } + "\n"@,
{
    let mut s = crate::text::str_of("\n[sirius] agent exit: ");
    match code {
        Some(c) => {
            let t = crate::text::i64_str(c as i64);
            crate::text::push_str(&mut s, t.as_str());
        },
        None => crate::text::push_str(&mut s, "killed"),
    }
    crate::text::push_str(&mut s, "\n");
    s
}

} // verus!
