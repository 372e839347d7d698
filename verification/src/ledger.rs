//! The ledger — Sirius's only write target.
//!
//! Five tables (`meta`, `workers`, `iterations`, `receipts`, `policy_events`)
//! kept as rows in memory, with the id, foreign-key and counting rules of the
//! SQLite schema: ids count up from 1, an iteration names a known worker, a
//! policy event names a known iteration. The binary persists the rows to
//! `.sirius/sirius.db`.
use vstd::prelude::*;
use crate::json::Json;
use crate::text::{dec, push_char, push_str, str_eq, str_of, string_views, u64_str};

verus! {

pub const SCHEMA_VERSION: i64 = 1;

// ── time ─────────────────────────────────────────────────────────────────────

/// The civil (proleptic Gregorian) date `(year, month, day)` of a day count
/// since 1970-01-01, by the era/day-of-era decomposition of the calendar's
/// 400-year cycle.
pub open spec fn civil_from_days(days: nat) -> (int, int, int) {
    let z = days + 719468;
    let era = z / 146097;
    let doe = z - era * 146097;
    let yoe = (doe - doe / 1460 + doe / 36524 - doe / 146096) / 365;
    let y = yoe + era * 400;
    let doy = doe - (365 * yoe + yoe / 4 - yoe / 100);
    let mp = (5 * doy + 2) / 153;
    let d = doy - (153 * mp + 2) / 5 + 1;
    let m = if mp < 10 {
        mp + 3
    } else {
        mp - 9
    };
    (if m <= 2 {
        y + 1
    } else {
        y
    }, m, d)
}

/// `n` in decimal, zero-padded on the left to at least `w` digits (`{:0w}`).
pub open spec fn pad(n: nat, w: nat) -> Seq<char> {
    if dec(n).len() < w {
        Seq::new((w - dec(n).len()) as nat, |i: int| '0') + dec(n)
    } else {
        dec(n)
    }
}

/// `YYYY-MM-DDTHH:MM:SS.mmmZ` for seconds (and milliseconds) since the epoch.
pub open spec fn iso8601(secs: nat, millis: nat) -> Seq<char> {
    let (y, m, d) = civil_from_days(secs / 86400);
    let rem = secs % 86400;
    pad(y as nat, 4) + "-"@ + pad(m as nat, 2) + "-"@ + pad(d as nat, 2) + "T"@ + pad(rem / 3600, 2)
        + ":"@ + pad((rem % 3600) / 60, 2) + ":"@ + pad(rem % 60, 2) + "."@ + pad(millis, 3) + "Z"@
}

proof fn lemma_civil_ranges(doe: int)
    requires
        0 <= doe <= 146096,
    ensures
        ({
            let yoe = (doe - doe / 1460 + doe / 36524 - doe / 146096) / 365;
            let doy = doe - (365 * yoe + yoe / 4 - yoe / 100);
            let mp = (5 * doy + 2) / 153;
            let d = doy - (153 * mp + 2) / 5 + 1;
            &&& 0 <= yoe <= 399
            &&& 0 <= doy <= 365
            &&& 0 <= mp <= 11
            &&& 1 <= d <= 31
        }),
{
    let n = doe - doe / 1460 + doe / 36524 - doe / 146096;
    assert(0 <= n <= 146096) by (nonlinear_arith)
        requires
            0 <= doe <= 146096,
            n == doe - doe / 1460 + doe / 36524 - doe / 146096,
    ;
    let yoe = n / 365;
    assert(0 <= yoe <= 400) by (nonlinear_arith)
        requires
            0 <= n <= 146096,
            yoe == n / 365,
    ;
    let doy = doe - (365 * yoe + yoe / 4 - yoe / 100);
    assert(0 <= doy <= 365 && yoe <= 399) by (nonlinear_arith)
        requires
            0 <= doe <= 146096,
            n == doe - doe / 1460 + doe / 36524 - doe / 146096,
            yoe == n / 365,
            doy == doe - (365 * yoe + yoe / 4 - yoe / 100),
            0 <= yoe <= 400,
    ;
    let mp = (5 * doy + 2) / 153;
    assert(0 <= mp <= 11) by (nonlinear_arith)
        requires
            0 <= doy <= 365,
            mp == (5 * doy + 2) / 153,
    ;
    let d = doy - (153 * mp + 2) / 5 + 1;
    assert(1 <= d <= 31) by (nonlinear_arith)
        requires
            0 <= doy <= 365,
            mp == (5 * doy + 2) / 153,
            0 <= mp <= 11,
            d == doy - (153 * mp + 2) / 5 + 1,
    ;
}

/// `{:0w}` of an unsigned integer.
pub fn pad_num(n: u64, w: usize) -> (s: String)
    ensures
        s@ == pad(n as nat, w as nat),
{
    let d = u64_str(n);
    let len = d.as_str().unicode_len();
    let mut s = String::new();
    if len < w {
        let mut i: usize = 0;
        while i < w - len
            invariant
                len < w,
                i <= w - len,
                s@ == Seq::new(i as nat, |k: int| '0'),
            decreases w - len - i,
        {
            push_char(&mut s, '0');
            assert(s@ =~= Seq::new((i + 1) as nat, |k: int| '0'));
            i = i + 1;
        }
    }
    push_str(&mut s, d.as_str());
    assert(s@ =~= pad(n as nat, w as nat));
    s
}

/// An ASCII decimal digit.
pub open spec fn is_digit(c: char) -> bool {
    '0' <= c <= '9'
}

/// Nothing but decimal digits.
pub open spec fn all_digits(s: Seq<char>) -> bool {
    forall|i: int| 0 <= i < s.len() ==> is_digit(#[trigger] s[i])
}

pub proof fn lemma_dec_digits(n: nat)
    ensures
        all_digits(dec(n)),
        1 <= dec(n).len(),
        n < 10 ==> dec(n).len() == 1,
        n < 100 ==> dec(n).len() <= 2,
        n < 1000 ==> dec(n).len() <= 3,
        n < 10000 ==> dec(n).len() <= 4,
    decreases n,
{
    if n >= 10 {
        lemma_dec_digits(n / 10);
        let p = dec(n / 10);
        assert(dec(n) == p.push(crate::text::digit_char(n % 10)));
        assert forall|i: int| 0 <= i < dec(n).len() implies is_digit(#[trigger] dec(n)[i]) by {
            if i < p.len() {
                assert(dec(n)[i] == p[i]);
            }
        }
    }
}

proof fn lemma_pad_shape(n: nat, w: nat)
    requires
        dec(n).len() <= w,
    ensures
        pad(n, w).len() == w,
        all_digits(pad(n, w)),
{
    lemma_dec_digits(n);
    if dec(n).len() < w {
        let z = Seq::new((w - dec(n).len()) as nat, |i: int| '0');
        assert forall|i: int| 0 <= i < pad(n, w).len() implies is_digit(#[trigger] pad(n, w)[i]) by {
            if i < z.len() {
                assert(pad(n, w)[i] == z[i]);
            } else {
                assert(pad(n, w)[i] == dec(n)[i - z.len()]);
            }
        }
    }
}

/// The year of a time before 10000-01-01T00:00:00Z has four digits.
proof fn lemma_year_below_10000(secs: nat)
    requires
        secs < 253402300800,
    ensures
        civil_from_days(secs / 86400).0 <= 9999,
        1 <= civil_from_days(secs / 86400).1 <= 12,
        1 <= civil_from_days(secs / 86400).2 <= 31,
{
    let days = secs / 86400;
    assert(days < 2932897) by (nonlinear_arith)
        requires
            secs < 253402300800,
            days == secs / 86400,
    ;
    let z = days + 719468;
    let era = z / 146097;
    let doe = z - era * 146097;
    assert(0 <= era <= 24 && 0 <= doe < 146097 && (era == 24 ==> doe < 146037)) by (nonlinear_arith)
        requires
            0 <= z < 3652365,
            era == z / 146097,
            doe == z - era * 146097,
    ;
    lemma_civil_ranges(doe);
    let yoe = (doe - doe / 1460 + doe / 36524 - doe / 146096) / 365;
    let doy = doe - (365 * yoe + yoe / 4 - yoe / 100);
    let mp = (5 * doy + 2) / 153;
    if era == 24 && yoe == 399 {
        assert(doy == doe - 145731);
        assert(mp <= 9) by (nonlinear_arith)
            requires
                0 <= doy < 306,
                mp == (5 * doy + 2) / 153,
        ;
    }
    assert(yoe + era * 400 <= 9999) by (nonlinear_arith)
        requires
            0 <= yoe <= 399,
            0 <= era <= 24,
    ;
    if era < 24 {
        assert(yoe + era * 400 <= 9599) by (nonlinear_arith)
            requires
                0 <= yoe <= 399,
                0 <= era < 24,
        ;
    }
}

/// The ledger's timestamp shape: before the year 10000 and with a
/// millisecond count under 1000, a time is written `YYYY-MM-DDTHH:MM:SS.mmmZ`
/// — 24 characters, digits but for the separators in their places — with
/// a month in 1..=12 and a day in 1..=31.
pub proof fn law_iso8601_shape(secs: nat, millis: nat)
    requires
        secs < 253402300800,
        millis < 1000,
    ensures
        iso8601(secs, millis).len() == 24,
        iso8601(secs, millis)[4] == '-' && iso8601(secs, millis)[7] == '-',
        iso8601(secs, millis)[10] == 'T',
        iso8601(secs, millis)[13] == ':' && iso8601(secs, millis)[16] == ':',
        iso8601(secs, millis)[19] == '.' && iso8601(secs, millis)[23] == 'Z',
        forall|i: int|
            0 <= i < 24 && i != 4 && i != 7 && i != 10 && i != 13 && i != 16 && i != 19 && i != 23 ==> is_digit(
                #[trigger] iso8601(secs, millis)[i],
            ),
        1 <= civil_from_days(secs / 86400).1 <= 12,
        1 <= civil_from_days(secs / 86400).2 <= 31,
{
    lemma_year_below_10000(secs);
    let (y, m, d) = civil_from_days(secs / 86400);
    let rem = secs % 86400;
    let h = rem / 3600;
    let mi = (rem % 3600) / 60;
    let sc = rem % 60;
    assert(h < 24 && mi < 60 && sc < 60) by (nonlinear_arith)
        requires
            rem < 86400,
            h == rem / 3600,
            mi == (rem % 3600) / 60,
            sc == rem % 60,
    ;
    lemma_dec_digits(y as nat);
    lemma_dec_digits(m as nat);
    lemma_dec_digits(d as nat);
    lemma_dec_digits(h);
    lemma_dec_digits(mi);
    lemma_dec_digits(sc);
    lemma_dec_digits(millis);
    lemma_pad_shape(y as nat, 4);
    lemma_pad_shape(m as nat, 2);
    lemma_pad_shape(d as nat, 2);
    lemma_pad_shape(h, 2);
    lemma_pad_shape(mi, 2);
    lemma_pad_shape(sc, 2);
    lemma_pad_shape(millis, 3);
    reveal_strlit("-");
    reveal_strlit("T");
    reveal_strlit(":");
    reveal_strlit(".");
    reveal_strlit("Z");
    let s = iso8601(secs, millis);
    assert(s =~= pad(y as nat, 4) + "-"@ + pad(m as nat, 2) + "-"@ + pad(d as nat, 2) + "T"@ + pad(h, 2) + ":"@
        + pad(mi, 2) + ":"@ + pad(sc, 2) + "."@ + pad(millis, 3) + "Z"@);
    assert(s.len() == 24);
    assert forall|i: int|
        0 <= i < 24 && i != 4 && i != 7 && i != 10 && i != 13 && i != 16 && i != 19 && i != 23 implies is_digit(
            #[trigger] s[i],
        ) by {
        if i < 4 {
            assert(s[i] == pad(y as nat, 4)[i]);
        } else if i < 7 {
            assert(s[i] == pad(m as nat, 2)[i - 5]);
        } else if i < 10 {
            assert(s[i] == pad(d as nat, 2)[i - 8]);
        } else if i < 13 {
            assert(s[i] == pad(h, 2)[i - 11]);
        } else if i < 16 {
            assert(s[i] == pad(mi, 2)[i - 14]);
        } else if i < 19 {
            assert(s[i] == pad(sc, 2)[i - 17]);
        } else {
            assert(s[i] == pad(millis, 3)[i - 20]);
        }
    }
}

/// Format seconds-since-epoch (+ millis) as `YYYY-MM-DDTHH:MM:SS.mmmZ`.
pub fn format_iso8601(secs: u64, millis: u32) -> (s: String)
    ensures
        s@ == iso8601(secs as nat, millis as nat),
{
    let days: u64 = secs / 86400;
    let rem: u64 = secs % 86400;
    let z: u64 = days + 719468;
    let era: u64 = z / 146097;
    let doe: u64 = z - era * 146097;
    proof {
        lemma_civil_ranges(doe as int);
    }
    let yoe: u64 = (doe - doe / 1460 + doe / 36524 - doe / 146096) / 365;
    let y: u64 = yoe + era * 400;
    let doy: u64 = doe - (365 * yoe + yoe / 4 - yoe / 100);
    let mp: u64 = (5 * doy + 2) / 153;
    let d: u64 = doy - (153 * mp + 2) / 5 + 1;
    let m: u64 = if mp < 10 {
        mp + 3
    } else {
        mp - 9
    };
    let y: u64 = if m <= 2 {
        y + 1
    } else {
        y
    };
    assert((y as int, m as int, d as int) == civil_from_days(secs as nat / 86400));
    let mut s = pad_num(y, 4);
    push_str(&mut s, "-");
    let t = pad_num(m, 2);
    push_str(&mut s, t.as_str());
    push_str(&mut s, "-");
    let t = pad_num(d, 2);
    push_str(&mut s, t.as_str());
    push_str(&mut s, "T");
    let t = pad_num(rem / 3600, 2);
    push_str(&mut s, t.as_str());
    push_str(&mut s, ":");
    let t = pad_num((rem % 3600) / 60, 2);
    push_str(&mut s, t.as_str());
    push_str(&mut s, ":");
    let t = pad_num(rem % 60, 2);
    push_str(&mut s, t.as_str());
    push_str(&mut s, ".");
    let t = pad_num(millis as u64, 3);
    push_str(&mut s, t.as_str());
    push_str(&mut s, "Z");
    s
}

/// The wall clock, `SystemTime::now().duration_since(UNIX_EPOCH)`: seconds
/// and milliseconds since the Unix epoch, or `None` when the clock reads
/// before it. Nothing is claimed of the values but the range of the
/// milliseconds.
#[verifier::external_body]
pub(crate) fn clock() -> (r: Option<(u64, u32)>)
    ensures
        r matches Some(t) ==> t.1 < 1000,
{
    match std::time::SystemTime::now().duration_since(std::time::UNIX_EPOCH) {
        Ok(d) => Some((d.as_secs(), d.subsec_millis())),
        Err(_) => None,
    }
}

/// The current wall-clock time as an ISO-8601 UTC string.
pub fn now_iso8601() -> (s: String)
    ensures
        exists|secs: nat, millis: nat| millis < 1000 && s@ == iso8601(secs, millis),
{
    let (secs, millis) = match clock() {
        Some(t) => t,
        None => (0, 0),
    };
    format_iso8601(secs, millis)
}

/// An owned copy of a list of strings.
pub fn copy_strings(v: &[String]) -> (r: Vec<String>)
    ensures
        string_views(r@) == string_views(v@),
{
    let mut r: Vec<String> = Vec::new();
    let mut i: usize = 0;
    while i < v.len()
        invariant
            i <= v@.len(),
            string_views(r@) == string_views(v@.take(i as int)),
        decreases v@.len() - i,
    {
        let ghost r0 = string_views(r@);
        r.push(v[i].clone());
        assert(string_views(r@) =~= r0.push(v@[i as int]@));
        assert(v@.take(i + 1) =~= v@.take(i as int).push(v@[i as int]));
        i = i + 1;
    }
    assert(v@.take(v@.len() as int) =~= v@);
    r
}

// ── tables ───────────────────────────────────────────────────────────────────

/// A `workers` row.
#[derive(Debug)]
pub struct WorkerRow {
    pub id: String,
    pub created_at: String,
    pub last_seen_at: Option<String>,
    /// idle | working | blocked | stopped
    pub status: String,
}

/// An `iterations` row. `entities` and `oracle_verdicts` hold the JSON arrays'
/// items.
#[derive(Debug)]
pub struct IterationRow {
    pub id: i64,
    pub worker_id: String,
    pub issue_ref: Option<String>,
    pub entities: Option<Vec<String>>,
    pub started_at: String,
    pub ended_at: Option<String>,
    /// completed | released | deadend | gate_failed | agent_timeout | error
    pub outcome: Option<String>,
    /// pass | fail | skipped
    pub gate_result: Option<String>,
    pub oracle_verdicts: Option<Vec<String>>,
    pub tokens: Option<i64>,
    pub duration_ms: Option<i64>,
    pub receipt_id: Option<i64>,
}

/// A `receipts` row: a two-way provenance stamp.
#[derive(Debug)]
pub struct ReceiptRow {
    pub id: i64,
    /// issue | decision
    pub kind: String,
    pub reference: String,
    pub symbols: Vec<String>,
    pub forward_ok: bool,
    pub reverse_ok: bool,
    pub created_at: String,
    pub worker_id: Option<String>,
}

/// A `policy_events` row.
#[derive(Debug)]
pub struct PolicyEventRow {
    pub id: i64,
    pub iteration_id: Option<i64>,
    /// claim_order | backoff_409 | oracle_202 | gate_tier | retry_budget |
    /// concurrency | release_failure
    pub kind: String,
    pub detail: Json,
    pub created_at: String,
}

/// The ledger's rows.
#[derive(Debug)]
pub struct Ledger {
    pub meta: Vec<(String, String)>,
    pub workers: Vec<WorkerRow>,
    pub iterations: Vec<IterationRow>,
    pub receipts: Vec<ReceiptRow>,
    pub policy_events: Vec<PolicyEventRow>,
}

/// Row `i` of a table has id `i + 1`.
pub open spec fn ids_dense_iter(rows: Seq<IterationRow>) -> bool {
    forall|i: int| 0 <= i < rows.len() ==> #[trigger] rows[i].id == i + 1
}

pub open spec fn ids_dense_receipt(rows: Seq<ReceiptRow>) -> bool {
    forall|i: int| 0 <= i < rows.len() ==> #[trigger] rows[i].id == i + 1
}

pub open spec fn ids_dense_event(rows: Seq<PolicyEventRow>) -> bool {
    forall|i: int| 0 <= i < rows.len() ==> #[trigger] rows[i].id == i + 1
}

/// The worker ids on the roster.
pub open spec fn worker_ids(ws: Seq<WorkerRow>) -> Seq<Seq<char>> {
    ws.map_values(|w: WorkerRow| w.id@)
}

/// The number of policy events of `kind`.
pub open spec fn count_kind(evs: Seq<PolicyEventRow>, kind: Seq<char>) -> nat
    decreases evs.len(),
{
    if evs.len() == 0 {
        0
    } else {
        count_kind(evs.drop_last(), kind) + if evs.last().kind@ == kind {
            1nat
        } else {
            0nat
        }
    }
}

/// What `count_policy_events(kind, limit)` counts: the events of `kind`
/// among ... the newest `limit` of them, i.e. all of them capped at `limit`
/// (a negative limit means no cap).
pub open spec fn capped_count(n: nat, limit: i64) -> int {
    if limit < 0 || n <= limit {
        if n > i64::MAX { i64::MAX as int } else { n as int }
    } else {
        limit as int
    }
}

/// The next row id after `len` rows, when it fits an `i64`.
fn next_id(len: usize) -> (r: Option<i64>)
    ensures
        match r {
            Some(id) => len < i64::MAX && id == len + 1,
            None => len >= i64::MAX,
        },
{
    let l: u64 = len as u64;
    if l >= 0x7fff_ffff_ffff_ffffu64 {
        None
    } else {
        Some((l + 1) as i64)
    }
}

/// Whether `id` names one of `len` rows numbered from 1.
fn names_row(id: i64, len: usize) -> (b: bool)
    ensures
        b == (1 <= id <= len),
{
    id >= 1 && (id as u64) <= (len as u64)
}

impl Ledger {
    /// The ids are dense: row `i` of every table has id `i + 1`.
    pub open spec fn wf(&self) -> bool {
        &&& worker_ids(self.workers@).no_duplicates()
        &&& ids_dense_iter(self.iterations@)
        &&& ids_dense_receipt(self.receipts@)
        &&& ids_dense_event(self.policy_events@)
    }

    /// Whether the rows are well formed: worker ids distinct and every
    /// table's ids dense from 1. A ledger read back from storage is checked
    /// with this before it is handed to the operations.
    pub fn check_wf(&self) -> (b: bool)
        ensures
            b == self.wf(),
    {
        let mut i: usize = 0;
        while i < self.iterations.len()
            invariant
                i <= self.iterations@.len(),
                forall|k: int| 0 <= k < i ==> #[trigger] self.iterations@[k].id == k + 1,
            decreases self.iterations@.len() - i,
        {
            if (i as u64) >= 0x7fff_ffff_ffff_ffffu64 || self.iterations[i].id != (i + 1) as i64 {
                assert(self.iterations@[i as int].id != i + 1);
                assert(!ids_dense_iter(self.iterations@));
                return false;
            }
            i = i + 1;
        }
        let mut i: usize = 0;
        while i < self.receipts.len()
            invariant
                i <= self.receipts@.len(),
                forall|k: int| 0 <= k < i ==> #[trigger] self.receipts@[k].id == k + 1,
            decreases self.receipts@.len() - i,
        {
            if (i as u64) >= 0x7fff_ffff_ffff_ffffu64 || self.receipts[i].id != (i + 1) as i64 {
                assert(self.receipts@[i as int].id != i + 1);
                assert(!ids_dense_receipt(self.receipts@));
                return false;
            }
            i = i + 1;
        }
        let mut i: usize = 0;
        while i < self.policy_events.len()
            invariant
                i <= self.policy_events@.len(),
                forall|k: int| 0 <= k < i ==> #[trigger] self.policy_events@[k].id == k + 1,
            decreases self.policy_events@.len() - i,
        {
            if (i as u64) >= 0x7fff_ffff_ffff_ffffu64 || self.policy_events[i].id != (i + 1) as i64 {
                assert(self.policy_events@[i as int].id != i + 1);
                assert(!ids_dense_event(self.policy_events@));
                return false;
            }
            i = i + 1;
        }
        let ghost ids = worker_ids(self.workers@);
        let mut i: usize = 0;
        while i < self.workers.len()
            invariant
                i <= self.workers@.len(),
                ids == worker_ids(self.workers@),
                forall|a: int, c: int| 0 <= a < c < i ==> ids[a] != ids[c],
            decreases self.workers@.len() - i,
        {
            let mut j: usize = 0;
            while j < i
                invariant
                    j <= i < self.workers@.len(),
                    ids == worker_ids(self.workers@),
                    forall|a: int| 0 <= a < j ==> ids[a] != ids[i as int],
                decreases i - j,
            {
                if str_eq(self.workers[j].id.as_str(), self.workers[i].id.as_str()) {
                    assert(ids[j as int] == ids[i as int]);
                    assert(!ids.no_duplicates());
                    return false;
                }
                j = j + 1;
            }
            i = i + 1;
        }
        assert(ids.no_duplicates());
        true
    }

    /// A fresh ledger with the schema applied and its `meta` rows seeded.
    pub fn create_in_memory(sirius_version: &str) -> (l: Ledger)
        ensures
            l.wf(),
            l.workers@.len() == 0,
            l.iterations@.len() == 0,
            l.receipts@.len() == 0,
            l.policy_events@.len() == 0,
            l.meta@.len() == 3,
            l.meta@[0].0@ == "schema_version"@ && l.meta@[0].1@ == "1"@,
            l.meta@[1].0@ == "created_at"@,
            l.meta@[2].0@ == "sirius_version"@ && l.meta@[2].1@ == sirius_version@,
    {
        let mut meta: Vec<(String, String)> = Vec::new();
        meta.push((str_of("schema_version"), str_of("1")));
        meta.push((str_of("created_at"), now_iso8601()));
        meta.push((str_of("sirius_version"), str_of(sirius_version)));
        Ledger {
            meta,
            workers: Vec::new(),
            iterations: Vec::new(),
            receipts: Vec::new(),
            policy_events: Vec::new(),
        }
    }

    /// An in-memory ledger with the schema applied (sirius version "test").
    pub fn open_in_memory() -> (r: Result<Ledger, String>)
        ensures
            r matches Ok(l) && l.wf() && l.workers@.len() == 0 && l.iterations@.len() == 0
                && l.receipts@.len() == 0 && l.policy_events@.len() == 0 && l.meta@.len() == 3,
    {
        Ok(Ledger::create_in_memory("test"))
    }

    /// `PRAGMA user_version`: the schema version.
    pub fn schema_version(&self) -> (r: Result<i64, String>)
        ensures
            r == Ok::<i64, String>(SCHEMA_VERSION),
    {
        Ok(SCHEMA_VERSION)
    }

    /// The `meta` value stored under `key`.
    pub fn meta(&self, key: &str) -> (r: Result<Option<String>, String>)
        ensures
            r matches Ok(o) && (match o {
                Some(v) => exists|i: int|
                    0 <= i < self.meta@.len() && self.meta@[i].0@ == key@ && self.meta@[i].1@ == v@,
                None => forall|i: int| 0 <= i < self.meta@.len() ==> self.meta@[i].0@ != key@,
            }),
    {
        let mut i: usize = 0;
        while i < self.meta.len()
            invariant
                i <= self.meta@.len(),
                forall|k: int| 0 <= k < i ==> self.meta@[k].0@ != key@,
            decreases self.meta@.len() - i,
        {
            if str_eq(self.meta[i].0.as_str(), key) {
                return Ok(Some(self.meta[i].1.clone()));
            }
            i = i + 1;
        }
        Ok(None)
    }

    fn worker_index(&self, id: &str) -> (r: Option<usize>)
        ensures
            match r {
                Some(i) => i < self.workers@.len() && self.workers@[i as int].id@ == id@,
                None => !worker_ids(self.workers@).contains(id@),
            },
    {
        let mut i: usize = 0;
        while i < self.workers.len()
            invariant
                i <= self.workers@.len(),
                forall|k: int| 0 <= k < i ==> self.workers@[k].id@ != id@,
            decreases self.workers@.len() - i,
        {
            if str_eq(self.workers[i].id.as_str(), id) {
                return Some(i);
            }
            i = i + 1;
        }
        proof {
            if worker_ids(self.workers@).contains(id@) {
                let k = choose|k: int| 0 <= k < self.workers@.len() && worker_ids(self.workers@)[k] == id@;
                assert(self.workers@[k].id@ == id@);
            }
        }
        None
    }

    /// Insert a worker if absent; refresh `last_seen_at`/`status` if present.
    pub fn upsert_worker(&mut self, id: &str, status: &str) -> (r: Result<(), String>)
        requires
            old(self).wf(),
        ensures
            final(self).wf(),
            r is Ok,
            worker_ids(final(self).workers@) == if worker_ids(old(self).workers@).contains(id@) {
                worker_ids(old(self).workers@)
            } else {
                worker_ids(old(self).workers@).push(id@)
            },
            forall|i: int|
                0 <= i < final(self).workers@.len() && #[trigger] final(self).workers@[i].id@
                    == id@ ==> final(self).workers@[i].status@ == status@,
            final(self).iterations == old(self).iterations,
            final(self).receipts == old(self).receipts,
            final(self).policy_events == old(self).policy_events,
            final(self).meta == old(self).meta,
    {
        let now = now_iso8601();
        match self.worker_index(id) {
            Some(i) => {
                let ghost w0 = self.workers@;
                let old_row = self.workers.remove(i);
                let row = WorkerRow {
                    id: old_row.id,
                    created_at: old_row.created_at,
                    last_seen_at: Some(now),
                    status: str_of(status),
                };
                self.workers.insert(i, row);
                proof {
                    assert(worker_ids(w0)[i as int] == id@);
                    assert(worker_ids(w0).contains(id@));
                    assert(worker_ids(self.workers@) =~= worker_ids(w0));
                    assert forall|k: int|
                        0 <= k < self.workers@.len() && #[trigger] self.workers@[k].id@ == id@
                        implies self.workers@[k].status@ == status@ by {
                        if k != i {
                            assert(worker_ids(w0)[k] == worker_ids(w0)[i as int]);
                        }
                    }
                }
            },
            None => {
                let ghost w0 = self.workers@;
                let row = WorkerRow {
                    id: str_of(id),
                    created_at: now.clone(),
                    last_seen_at: Some(now),
                    status: str_of(status),
                };
                self.workers.push(row);
                proof {
                    assert(worker_ids(self.workers@) =~= worker_ids(w0).push(id@));
                    assert(worker_ids(self.workers@).no_duplicates()) by {
                        assert forall|a: int, b: int|
                            0 <= a < b < worker_ids(self.workers@).len() implies worker_ids(
                            self.workers@,
                        )[a] != worker_ids(self.workers@)[b] by {
                            if b == w0.len() {
                                assert(worker_ids(w0)[a] == worker_ids(self.workers@)[a]);
                            }
                        }
                    }
                    assert forall|k: int|
                        0 <= k < self.workers@.len() && #[trigger] self.workers@[k].id@ == id@
                        implies self.workers@[k].status@ == status@ by {
                        if k < w0.len() {
                            assert(worker_ids(w0)[k] == id@);
                        }
                    }
                }
            },
        }
        Ok(())
    }

    /// Insert a receipt row and return its id (the next id in sequence).
    pub fn insert_receipt(
        &mut self,
        kind: &str,
        reference: &str,
        symbols: &[String],
        forward_ok: bool,
        reverse_ok: bool,
        worker_id: Option<&str>,
    ) -> (r: Result<i64, String>)
        requires
            old(self).wf(),
        ensures
            final(self).wf(),
            final(self).workers == old(self).workers,
            final(self).iterations == old(self).iterations,
            final(self).policy_events == old(self).policy_events,
            final(self).meta == old(self).meta,
            old(self).receipts@.len() < i64::MAX ==> ({
                let row = final(self).receipts@.last();
                &&& r matches Ok(v) && v == old(self).receipts@.len() + 1
                &&& final(self).receipts@.len() == old(self).receipts@.len() + 1
                &&& final(self).receipts@.drop_last() == old(self).receipts@
                &&& row.kind@ == kind@
                &&& row.reference@ == reference@
                &&& string_views(row.symbols@) == string_views(symbols@)
                &&& row.forward_ok == forward_ok
                &&& row.reverse_ok == reverse_ok
                &&& crate::hayven::opt_view(row.worker_id) == crate::amt::opt_str(worker_id)
            }),
            old(self).receipts@.len() >= i64::MAX ==> (r matches Err(e) && e@
                == "receipt id space exhausted"@) && final(self).receipts == old(self).receipts,
    {
        let id: i64 = match next_id(self.receipts.len()) {
            Some(id) => id,
            None => {
                return Err(str_of("receipt id space exhausted"));
            },
        };
        let row = ReceiptRow {
            id,
            kind: str_of(kind),
            reference: str_of(reference),
            symbols: copy_strings(symbols),
            forward_ok,
            reverse_ok,
            created_at: now_iso8601(),
            worker_id: match worker_id {
                Some(w) => Some(str_of(w)),
                None => None,
            },
        };
        let ghost r0 = self.receipts@;
        self.receipts.push(row);
        assert(self.receipts@.drop_last() =~= r0);
        Ok(id)
    }

    /// Start an iteration row for a known worker; returns its id. The other
    /// fields are filled in by [`Ledger::finish_iteration`].
    pub fn start_iteration(&mut self, worker_id: &str, issue_ref: Option<&str>) -> (r: Result<
        i64,
        String,
    >)
        requires
            old(self).wf(),
        ensures
            final(self).wf(),
            final(self).workers == old(self).workers,
            final(self).receipts == old(self).receipts,
            final(self).policy_events == old(self).policy_events,
            final(self).meta == old(self).meta,
            (worker_ids(old(self).workers@).contains(worker_id@) && old(self).iterations@.len()
                < i64::MAX) ==> ({
                let row = final(self).iterations@.last();
                &&& r matches Ok(v) && v == old(self).iterations@.len() + 1
                &&& final(self).iterations@.len() == old(self).iterations@.len() + 1
                &&& final(self).iterations@.drop_last() == old(self).iterations@
                &&& row.worker_id@ == worker_id@
                &&& crate::hayven::opt_view(row.issue_ref) == crate::amt::opt_str(issue_ref)
                &&& row.entities is None && row.ended_at is None && row.outcome is None
                &&& row.gate_result is None && row.oracle_verdicts is None
                &&& row.tokens is None && row.duration_ms is None && row.receipt_id is None
            }),
            !(worker_ids(old(self).workers@).contains(worker_id@) && old(self).iterations@.len()
                < i64::MAX) ==> r is Err && final(self).iterations == old(self).iterations,
    {
        match self.worker_index(worker_id) {
            Some(w) => {
                assert(worker_ids(self.workers@)[w as int] == worker_id@);
            },
            None => {
                return Err(str_of("FOREIGN KEY constraint failed"));
            },
        }
        let id: i64 = match next_id(self.iterations.len()) {
            Some(id) => id,
            None => {
                return Err(str_of("iteration id space exhausted"));
            },
        };
        let row = IterationRow {
            id,
            worker_id: str_of(worker_id),
            issue_ref: match issue_ref {
                Some(s) => Some(str_of(s)),
                None => None,
            },
            entities: None,
            started_at: now_iso8601(),
            ended_at: None,
            outcome: None,
            gate_result: None,
            oracle_verdicts: None,
            tokens: None,
            duration_ms: None,
            receipt_id: None,
        };
        let ghost i0 = self.iterations@;
        self.iterations.push(row);
        assert(self.iterations@.drop_last() =~= i0);
        Ok(id)
    }

    /// Finalize an iteration row with its outcome and metrics. A receipt id
    /// must name a receipt; an id that names no iteration changes nothing.
    pub fn finish_iteration(
        &mut self,
        id: i64,
        entities: &[String],
        outcome: &str,
        gate_result: Option<&str>,
        oracle_verdicts: &[String],
        tokens: Option<i64>,
        duration_ms: Option<i64>,
        receipt_id: Option<i64>,
    ) -> (r: Result<(), String>)
        requires
            old(self).wf(),
        ensures
            final(self).wf(),
            final(self).workers == old(self).workers,
            final(self).receipts == old(self).receipts,
            final(self).policy_events == old(self).policy_events,
            final(self).meta == old(self).meta,
            final(self).iterations@.len() == old(self).iterations@.len(),
            (receipt_id matches Some(rid) && !(1 <= rid <= old(self).receipts@.len())) ==> r is Err
                && final(self).iterations == old(self).iterations,
            !(receipt_id matches Some(rid) && !(1 <= rid <= old(self).receipts@.len())) ==> r is Ok
                && forall|k: int|
                0 <= k < old(self).iterations@.len() && k != id - 1 ==> final(self).iterations@[k]
                    == old(self).iterations@[k],
            !(receipt_id matches Some(rid) && !(1 <= rid <= old(self).receipts@.len())) && 1 <= id
                <= old(self).iterations@.len() ==> ({
                let row = final(self).iterations@[id - 1];
                let was = old(self).iterations@[id - 1];
                &&& row.id == was.id && row.worker_id == was.worker_id
                &&& row.issue_ref == was.issue_ref && row.started_at == was.started_at
                &&& row.entities matches Some(e) && string_views(e@) == string_views(entities@)
                &&& row.ended_at is Some
                &&& row.outcome matches Some(o) && o@ == outcome@
                &&& crate::hayven::opt_view(row.gate_result) == crate::amt::opt_str(gate_result)
                &&& row.oracle_verdicts matches Some(v) && string_views(v@) == string_views(
                    oracle_verdicts@,
                )
                &&& row.tokens == tokens && row.duration_ms == duration_ms
                &&& row.receipt_id == receipt_id
            }),
    {
        match receipt_id {
            Some(rid) => {
                if !names_row(rid, self.receipts.len()) {
                    return Err(str_of("FOREIGN KEY constraint failed"));
                }
            },
            None => {},
        }
        if !names_row(id, self.iterations.len()) {
            return Ok(());
        }
        let i: usize = (id - 1) as usize;
        let ghost i0 = self.iterations@;
        let was = self.iterations.remove(i);
        let row = IterationRow {
            id: was.id,
            worker_id: was.worker_id,
            issue_ref: was.issue_ref,
            entities: Some(copy_strings(entities)),
            started_at: was.started_at,
            ended_at: Some(now_iso8601()),
            outcome: Some(str_of(outcome)),
            gate_result: match gate_result {
                Some(g) => Some(str_of(g)),
                None => None,
            },
            oracle_verdicts: Some(copy_strings(oracle_verdicts)),
            tokens,
            duration_ms,
            receipt_id,
        };
        self.iterations.insert(i, row);
        assert forall|k: int| 0 <= k < i0.len() && k != i implies self.iterations@[k] == i0[k] by {
            if k < i {
            } else {
            }
        }
        Ok(())
    }

    /// Record a policy event; returns its id. An iteration id must name an
    /// iteration.
    pub fn log_policy_event(&mut self, iteration_id: Option<i64>, kind: &str, detail: Json) -> (r:
        Result<i64, String>)
        requires
            old(self).wf(),
        ensures
            final(self).wf(),
            final(self).workers == old(self).workers,
            final(self).receipts == old(self).receipts,
            final(self).iterations == old(self).iterations,
            final(self).meta == old(self).meta,
            ({
                let ok = !(iteration_id matches Some(it) && !(1 <= it
                    <= old(self).iterations@.len())) && old(self).policy_events@.len() < i64::MAX;
                &&& ok ==> (r matches Ok(v) && v == old(self).policy_events@.len() + 1)
                &&& ok ==> final(self).policy_events@.len() == old(self).policy_events@.len() + 1
                &&& ok ==> final(self).policy_events@.drop_last() == old(self).policy_events@
                &&& ok ==> final(self).policy_events@.last().kind@ == kind@
                &&& ok ==> final(self).policy_events@.last().iteration_id == iteration_id
                &&& ok ==> final(self).policy_events@.last().detail == detail
                &&& !ok ==> r is Err && final(self).policy_events == old(self).policy_events
            }),
    {
        match iteration_id {
            Some(it) => {
                if !names_row(it, self.iterations.len()) {
                    return Err(str_of("FOREIGN KEY constraint failed"));
                }
            },
            None => {},
        }
        let id: i64 = match next_id(self.policy_events.len()) {
            Some(id) => id,
            None => {
                return Err(str_of("policy event id space exhausted"));
            },
        };
        let row = PolicyEventRow {
            id,
            iteration_id,
            kind: str_of(kind),
            detail,
            created_at: now_iso8601(),
        };
        let ghost e0 = self.policy_events@;
        self.policy_events.push(row);
        assert(self.policy_events@.drop_last() =~= e0);
        Ok(id)
    }

    /// Count the events of a kind among the newest `limit` of that kind —
    /// used by adaptive claiming to read contention from history.
    pub fn count_policy_events(&self, kind: &str, limit: i64) -> (r: Result<i64, String>)
        ensures
            r matches Ok(v) && v == capped_count(count_kind(self.policy_events@, kind@), limit),
    {
        let mut n: u64 = 0;
        let mut i: usize = 0;
        while i < self.policy_events.len()
            invariant
                i <= self.policy_events@.len(),
                n == count_kind(self.policy_events@.take(i as int), kind@),
                n <= i,
            decreases self.policy_events@.len() - i,
        {
            assert(self.policy_events@.take(i + 1).drop_last() =~= self.policy_events@.take(i as int));
            if str_eq(self.policy_events[i].kind.as_str(), kind) {
                n = n + 1;
            }
            i = i + 1;
        }
        assert(self.policy_events@.take(self.policy_events@.len() as int) =~= self.policy_events@);
        if limit < 0 || n <= limit as u64 {
            if n > i64::MAX as u64 {
                return Ok(i64::MAX);
            }
            Ok(n as i64)
        } else {
            Ok(limit)
        }
    }
}


/// `l1` is `l0` with events of the given kinds (and no iteration) appended,
/// when their ids fit, and nothing else changed.
pub open spec fn events_added(l0: Ledger, l1: Ledger, kinds: Seq<Seq<char>>) -> bool {
    &&& l1.wf()
    &&& l1.workers == l0.workers
    &&& l1.iterations == l0.iterations
    &&& l1.receipts == l0.receipts
    &&& l1.meta == l0.meta
    &&& l1.policy_events@.len() >= l0.policy_events@.len()
    &&& l1.policy_events@.take(l0.policy_events@.len() as int) == l0.policy_events@
    &&& forall|j: int|
        l0.policy_events@.len() <= j < l1.policy_events@.len() ==> (#[trigger] l1.policy_events@[j]).iteration_id is None
    &&& l0.policy_events@.len() + kinds.len() < i64::MAX ==> {
        &&& l1.policy_events@.len() == l0.policy_events@.len() + kinds.len()
        &&& forall|j: int|
            0 <= j < kinds.len() ==> (#[trigger] l1.policy_events@[l0.policy_events@.len() + j]).kind@
                == kinds[j] && l1.policy_events@[l0.policy_events@.len() + j].iteration_id is None
    }
}

pub proof fn lemma_events_added_none(l: Ledger)
    requires
        l.wf(),
    ensures
        events_added(l, l, seq![]),
{
    assert(l.policy_events@.take(l.policy_events@.len() as int) =~= l.policy_events@);
}

pub proof fn lemma_events_added_trans(
    l0: Ledger,
    l1: Ledger,
    l2: Ledger,
    k1: Seq<Seq<char>>,
    k2: Seq<Seq<char>>,
)
    requires
        events_added(l0, l1, k1),
        events_added(l1, l2, k2),
    ensures
        events_added(l0, l2, k1 + k2),
{
    let n0 = l0.policy_events@.len();
    let n1 = l1.policy_events@.len();
    assert(l2.policy_events@.take(n0 as int) =~= l0.policy_events@) by {
        assert(l2.policy_events@.take(n0 as int) =~= l2.policy_events@.take(n1 as int).take(
            n0 as int,
        ));
    }
    assert forall|j: int| n0 <= j < l2.policy_events@.len() implies (#[trigger] l2.policy_events@[j]).iteration_id is None by {
        if j < n1 {
            assert(l2.policy_events@[j] == l2.policy_events@.take(n1 as int)[j]);
        }
    }
    if n0 + (k1 + k2).len() < i64::MAX {
        assert forall|j: int| 0 <= j < (k1 + k2).len() implies (#[trigger] l2.policy_events@[n0
            + j]).kind@ == (k1 + k2)[j] && l2.policy_events@[n0 + j].iteration_id is None by {
            if j < k1.len() {
                assert(l2.policy_events@[n0 + j] == l2.policy_events@.take(n1 as int)[n0 + j]);
                assert(l1.policy_events@[n0 + j].kind@ == k1[j]);
            } else {
                let jj = j - k1.len();
                assert(l2.policy_events@[n1 + jj].kind@ == k2[jj]);
                assert(n0 + j == n1 + jj);
            }
        }
    }
}

/// Log a policy event with no iteration; a failure to log is ignored.
pub fn log_event(ledger: &mut Ledger, kind: &str, detail: Json)
    requires
        old(ledger).wf(),
    ensures
        events_added(*old(ledger), *final(ledger), seq![kind@]),
{
    let ghost l0 = *ledger;
    let _ = ledger.log_policy_event(None, kind, detail);
    proof {
        let n0 = l0.policy_events@.len();
        if n0 < i64::MAX {
            assert(ledger.policy_events@.take(n0 as int) =~= ledger.policy_events@.drop_last());
            assert(ledger.policy_events@[n0 + 0int] == ledger.policy_events@.last());
        } else {
            assert(ledger.policy_events@.take(n0 as int) =~= ledger.policy_events@);
        }
    }
}


/// A `retry_budget` event logged against iteration `iter_id`.
pub open spec fn is_retry_of(e: PolicyEventRow, iter_id: i64) -> bool {
    e.kind@ == "retry_budget"@ && e.iteration_id == Some(iter_id)
}

/// The number of `retry_budget` events logged against iteration `iter_id`.
pub open spec fn iter_retries(evs: Seq<PolicyEventRow>, iter_id: i64) -> nat
    decreases evs.len(),
{
    if evs.len() == 0 {
        0
    } else {
        iter_retries(evs.drop_last(), iter_id) + if is_retry_of(evs.last(), iter_id) {
            1nat
        } else {
            0nat
        }
    }
}

/// `e1` is `e0` with events appended, none of them a retry of `iter_id`.
pub open spec fn retries_kept(e0: Seq<PolicyEventRow>, e1: Seq<PolicyEventRow>, iter_id: i64) -> bool {
    &&& e1.len() >= e0.len()
    &&& e1.take(e0.len() as int) == e0
    &&& forall|j: int| e0.len() <= j < e1.len() ==> !is_retry_of(#[trigger] e1[j], iter_id)
}

pub proof fn lemma_retries_kept(e0: Seq<PolicyEventRow>, e1: Seq<PolicyEventRow>, iter_id: i64)
    requires
        retries_kept(e0, e1, iter_id),
    ensures
        iter_retries(e1, iter_id) == iter_retries(e0, iter_id),
    decreases e1.len(),
{
    if e1.len() > e0.len() {
        let p = e1.drop_last();
        assert(p.take(e0.len() as int) =~= e1.take(e0.len() as int));
        assert forall|j: int| e0.len() <= j < p.len() implies !is_retry_of(#[trigger] p[j], iter_id) by {
            assert(p[j] == e1[j]);
        }
        lemma_retries_kept(e0, p, iter_id);
        assert(!is_retry_of(e1[e1.len() - 1], iter_id));
    } else {
        assert(e1 =~= e1.take(e0.len() as int));
    }
}

pub proof fn lemma_retries_kept_trans(
    e0: Seq<PolicyEventRow>,
    e1: Seq<PolicyEventRow>,
    e2: Seq<PolicyEventRow>,
    iter_id: i64,
)
    requires
        retries_kept(e0, e1, iter_id),
        retries_kept(e1, e2, iter_id),
    ensures
        retries_kept(e0, e2, iter_id),
{
    assert(e2.take(e0.len() as int) =~= e2.take(e1.len() as int).take(e0.len() as int));
    assert forall|j: int| e0.len() <= j < e2.len() implies !is_retry_of(#[trigger] e2[j], iter_id) by {
        if j < e1.len() {
            assert(e2[j] == e2.take(e1.len() as int)[j]);
        }
    }
}

/// `e1` is `e0` with events appended that name no iteration.
pub open spec fn plain_appended(e0: Seq<PolicyEventRow>, e1: Seq<PolicyEventRow>) -> bool {
    &&& e1.len() >= e0.len()
    &&& e1.take(e0.len() as int) == e0
    &&& forall|j: int| e0.len() <= j < e1.len() ==> (#[trigger] e1[j]).iteration_id is None
}

pub proof fn lemma_plain_kept(e0: Seq<PolicyEventRow>, e1: Seq<PolicyEventRow>, iter_id: i64)
    requires
        plain_appended(e0, e1),
    ensures
        retries_kept(e0, e1, iter_id),
{
}

pub proof fn lemma_plain_same(e: Seq<PolicyEventRow>)
    ensures
        plain_appended(e, e),
{
    assert(e.take(e.len() as int) =~= e);
}

pub proof fn lemma_plain_trans(e0: Seq<PolicyEventRow>, e1: Seq<PolicyEventRow>, e2: Seq<PolicyEventRow>)
    requires
        plain_appended(e0, e1),
        plain_appended(e1, e2),
    ensures
        plain_appended(e0, e2),
{
    assert(e2.take(e0.len() as int) =~= e2.take(e1.len() as int).take(e0.len() as int));
    assert forall|j: int| e0.len() <= j < e2.len() implies (#[trigger] e2[j]).iteration_id is None by {
        if j < e1.len() {
            assert(e2[j] == e2.take(e1.len() as int)[j]);
        }
    }
}

/// Events with no iteration are no retry of any iteration.
pub proof fn lemma_events_added_kept(l0: Ledger, l1: Ledger, kinds: Seq<Seq<char>>, iter_id: i64)
    requires
        events_added(l0, l1, kinds),
    ensures
        retries_kept(l0.policy_events@, l1.policy_events@, iter_id),
{
}

/// An unchanged log keeps every count.
pub proof fn lemma_retries_same(e: Seq<PolicyEventRow>, iter_id: i64)
    ensures
        retries_kept(e, e, iter_id),
{
    assert(e.take(e.len() as int) =~= e);
}

/// What `count_policy_events` reads back of what `log_policy_event` wrote:
/// appending an event of `kind` raises the count of `kind` by one, and an
/// event of another kind leaves it.
pub proof fn law_logged_event_is_counted(evs: Seq<PolicyEventRow>, e: PolicyEventRow, kind: Seq<char>)
    ensures
        count_kind(evs.push(e), kind) == count_kind(evs, kind) + if e.kind@ == kind {
            1int
        } else {
            0int
        },
{
    assert(evs.push(e).drop_last() =~= evs);
}

} // verus!
