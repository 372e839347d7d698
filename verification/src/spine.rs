//! The suite event spine.
//!
//! A per-repo, append-only, file-based notification log at
//! `<repo-root>/.suite/events/<UTC-date>.jsonl`. Sirius is one of four tools
//! that append here; the spine is never a source of truth (the ledger is),
//! only a way to tell the others what happened.
//!
//! Two guarantees make it lock-free and multi-writer:
//!   1. one whole line per event, appended with a single `O_APPEND` write;
//!   2. every line < 4 KiB, so the append is atomic (< `PIPE_BUF`) and
//!      concurrent workers never interleave.
//!
//! This module builds the lines, their file names and their ids; the binary
//! does the best-effort append.
use vstd::prelude::*;
use crate::json::{insert_member, json_render, lookup, render, Json};
use crate::text::{dec, idec, i64_str, push_char, push_str, str_of, string_views};

verus! {

/// Max bytes for one line INCLUDING its trailing `\n`; below it, a single
/// append write is atomic.
pub const MAX_LINE_BYTES: usize = 4096;

/// How many bytes UTF-8 takes for a character.
pub open spec fn char_bytes(c: char) -> nat {
    if (c as u32) < 0x80 {
        1
    } else if (c as u32) < 0x800 {
        2
    } else if (c as u32) < 0x10000 {
        3
    } else {
        4
    }
}

/// `str::len`: the UTF-8 length of the text in bytes.
pub open spec fn utf8_len(s: Seq<char>) -> nat
    decreases s.len(),
{
    if s.len() == 0 {
        0
    } else {
        utf8_len(s.drop_last()) + char_bytes(s.last())
    }
}

/// Whether a line of this text, plus its `\n`, stays under the bound.
pub open spec fn fits(s: Seq<char>) -> bool {
    utf8_len(s) + 1 < MAX_LINE_BYTES
}

proof fn lemma_utf8_len_grows(s: Seq<char>, i: int)
    requires
        0 <= i <= s.len(),
    ensures
        utf8_len(s.take(i)) <= utf8_len(s),
    decreases s.len() - i,
{
    if i < s.len() {
        lemma_utf8_len_grows(s, i + 1);
        assert(s.take(i + 1).drop_last() =~= s.take(i));
    } else {
        assert(s.take(i) =~= s);
    }
}

fn char_len(c: char) -> (n: usize)
    ensures
        n == char_bytes(c),
{
    let u = c as u32;
    if u < 0x80 {
        1
    } else if u < 0x800 {
        2
    } else if u < 0x10000 {
        3
    } else {
        4
    }
}

/// Whether `s` and its `\n` stay strictly under [`MAX_LINE_BYTES`].
pub fn fits_line(s: &str) -> (b: bool)
    ensures
        b == fits(s@),
{
    let cs = crate::text::chars_of(s);
    let mut n: usize = 0;
    let mut i: usize = 0;
    while i < cs.len()
        invariant
            i <= cs@.len(),
            cs@ == s@,
            n == utf8_len(cs@.take(i as int)),
            n + 1 < MAX_LINE_BYTES,
        decreases cs@.len() - i,
    {
        assert(cs@.take(i + 1).drop_last() =~= cs@.take(i as int));
        n = n + char_len(cs[i]);
        i = i + 1;
        if n + 1 >= MAX_LINE_BYTES {
            proof {
                lemma_utf8_len_grows(cs@, i as int);
            }
            return false;
        }
    }
    assert(cs@.take(cs@.len() as int) =~= cs@);
    true
}

// ── lines ───────────────────────────────────────────────────────────────────

/// The envelope of one event: `{"v":1,"id":..,"ts":..,"source":"sirius",
/// "type":..,"refs":..,"data":..}`.
pub open spec fn envelope_is(
    e: Json,
    id: Seq<char>,
    ts: Seq<char>,
    event_type: Seq<char>,
    refs: Json,
    data: Json,
) -> bool {
    &&& e matches Json::Object(m) && {
        &&& lookup(m@, "v"@) matches Some(Json::Num(Some(one), _)) && one == 1
        &&& lookup(m@, "id"@) matches Some(Json::Str(x)) && x@ == id
        &&& lookup(m@, "ts"@) matches Some(Json::Str(x)) && x@ == ts
        &&& lookup(m@, "source"@) matches Some(Json::Str(x)) && x@ == "sirius"@
        &&& lookup(m@, "type"@) matches Some(Json::Str(x)) && x@ == event_type
        &&& lookup(m@, "refs"@) == Some(refs)
        &&& lookup(m@, "data"@) == Some(data)
    }
}

fn envelope(id: &str, ts: &str, event_type: &str, refs: Json, data: Json) -> (e: Json)
    ensures
        envelope_is(e, id@, ts@, event_type@, refs, data),
{
    proof {
        reveal_strlit("v");
        reveal_strlit("id");
        reveal_strlit("ts");
        reveal_strlit("source");
        reveal_strlit("type");
        reveal_strlit("refs");
        reveal_strlit("data");
        assert("v"@.len() == 1 && "id"@.len() == 2 && "ts"@.len() == 2 && "source"@.len() == 6);
        assert("type"@.len() == 4 && "refs"@.len() == 4 && "data"@.len() == 4);
        assert("id"@[0] != "ts"@[0] && "type"@[0] != "refs"@[0] && "type"@[0] != "data"@[0]);
        assert("refs"@[0] != "data"@[0]);
    }
    let mut m: Vec<(String, Json)> = Vec::new();
    let j1 = Json::uint(1);
    let ghost g1 = j1;
    insert_member(&mut m, str_of("v"), j1);
    let j2 = Json::string(id);
    let ghost g2 = j2;
    insert_member(&mut m, str_of("id"), j2);
    let j3 = Json::string(ts);
    let ghost g3 = j3;
    insert_member(&mut m, str_of("ts"), j3);
    let j4 = Json::string("sirius");
    let ghost g4 = j4;
    insert_member(&mut m, str_of("source"), j4);
    let j5 = Json::string(event_type);
    let ghost g5 = j5;
    insert_member(&mut m, str_of("type"), j5);
    let ghost r = refs;
    insert_member(&mut m, str_of("refs"), refs);
    let ghost d = data;
    insert_member(&mut m, str_of("data"), data);
    assert(lookup(m@, "v"@) == Some(g1));
    assert(lookup(m@, "id"@) == Some(g2));
    assert(lookup(m@, "ts"@) == Some(g3));
    assert(lookup(m@, "source"@) == Some(g4));
    assert(lookup(m@, "type"@) == Some(g5));
    assert(lookup(m@, "refs"@) == Some(r));
    Json::Object(m)
}

/// `{"truncated": true}`.
pub open spec fn is_truncated_marker(j: Json) -> bool {
    j matches Json::Object(m) && m@.len() == 1 && m@[0].0@ == "truncated"@ && m@[0].1 == Json::Bool(
        true,
    )
}

fn truncated_marker() -> (j: Json)
    ensures
        is_truncated_marker(j),
{
    Json::Object(vec![(str_of("truncated"), Json::Bool(true))])
}

/// What a line carries at each stage: the full event; the event with `data`
/// replaced by the truncation marker; and, as the last resort, no refs either.
pub open spec fn stage_ok(
    e: Json,
    id: Seq<char>,
    ts: Seq<char>,
    event_type: Seq<char>,
    refs: Seq<Seq<char>>,
    data: Json,
    stage: int,
) -> bool {
    exists|rj: Json, dj: Json|
        #[trigger] envelope_is(e, id, ts, event_type, rj, dj) && (rj matches Json::Array(a) && string_views_json(
            a@,
        ) == if stage < 2 {
            refs
        } else {
            seq![]
        }) && if stage == 0 {
            dj == data
        } else {
            is_truncated_marker(dj)
        }
}

/// The string values of an array of JSON strings.
pub open spec fn string_views_json(a: Seq<Json>) -> Seq<Seq<char>> {
    a.map_values(|j: Json| match j {
        Json::Str(s) => s@,
        _ => seq![],
    })
}

fn refs_json(refs: &Vec<String>) -> (j: Json)
    ensures
        j matches Json::Array(a) && string_views_json(a@) == string_views(refs@),
{
    let j = Json::strings(refs.as_slice());
    assert(string_views_json(j->Array_0@) =~= string_views(refs@));
    j
}

/// Serialize one event line, including its trailing `\n`. A full line that
/// would breach the 4 KiB atomicity bound is shrunk in two stages so the
/// event is still recorded without risking a torn write: first `data` is
/// replaced by `{"truncated": true}` while the refs are KEPT (so a truncated
/// `receipt.filed` still says which issue/receipt it was about); then, if
/// the refs themselves are enormous, they are dropped too.
pub fn build_line(id: &str, ts: &str, event_type: &str, refs: Vec<String>, data: Json) -> (line: String)
    ensures
        exists|e: Json, stage: int|
            0 <= stage <= 2 && #[trigger] stage_ok(e, id@, ts@, event_type@, string_views(refs@), data, stage)
                && line@ == json_render(e).push('\n') && (stage >= 1 ==> exists|e0: Json|
                #[trigger] stage_ok(e0, id@, ts@, event_type@, string_views(refs@), data, 0) && !fits(
                json_render(e0),
            )) && (stage == 2 ==> exists|e1: Json|
                #[trigger] stage_ok(e1, id@, ts@, event_type@, string_views(refs@), data, 1) && !fits(
                json_render(e1),
            )) && (stage < 2 ==> fits(json_render(e))),
        line@.len() >= 1,
        line@.last() == '\n',
        !line@.drop_last().contains('\n'),
{
    let ghost d0 = data;
    let e0 = envelope(id, ts, event_type, refs_json(&refs), data);
    let mut line = render(&e0);
    let ghost ge0 = e0;
    assert(stage_ok(e0, id@, ts@, event_type@, string_views(refs@), d0, 0));
    if fits_line(line.as_str()) {
        let ghost l0 = line@;
        push_char(&mut line, '\n');
        assert(line@.drop_last() =~= l0);
        return line;
    }
    let e1 = envelope(id, ts, event_type, refs_json(&refs), truncated_marker());
    let mut line = render(&e1);
    let ghost ge1 = e1;
    assert(stage_ok(e1, id@, ts@, event_type@, string_views(refs@), d0, 1));
    if fits_line(line.as_str()) {
        let ghost l0 = line@;
        push_char(&mut line, '\n');
        assert(line@.drop_last() =~= l0);
        return line;
    }
    let none: Vec<String> = Vec::new();
    let e2 = envelope(id, ts, event_type, refs_json(&none), truncated_marker());
    let mut line = render(&e2);
    proof {
        assert(string_views(none@) =~= Seq::<Seq<char>>::empty());
        assert(stage_ok(e2, id@, ts@, event_type@, string_views(refs@), d0, 2));
    }
    let ghost l0 = line@;
    push_char(&mut line, '\n');
    assert(line@.drop_last() =~= l0);
    line
}

/// The spine's own law: when even the last-resort line fits, every line is
/// strictly under the atomicity bound.
pub proof fn line_stays_under_bound(
    line: Seq<char>,
    id: Seq<char>,
    ts: Seq<char>,
    event_type: Seq<char>,
    refs: Seq<Seq<char>>,
    data: Json,
    e: Json,
    stage: int,
)
    requires
        0 <= stage <= 2,
        stage_ok(e, id, ts, event_type, refs, data, stage),
        line == json_render(e).push('\n'),
        stage < 2 ==> fits(json_render(e)),
        forall|e2: Json|
            #[trigger] stage_ok(e2, id, ts, event_type, refs, data, 2) ==> fits(json_render(e2)),
    ensures
        utf8_len(line) < MAX_LINE_BYTES,
{
    assert(line.drop_last() =~= json_render(e));
    assert(char_bytes('\n') == 1);
}

// ── file names ──────────────────────────────────────────────────────────────

/// An emitter bound to one repo's `.suite/events/` directory.
#[derive(Debug)]
pub struct Spine {
    pub dir: String,
}

/// `root` joined with `.suite/events`.
pub open spec fn events_dir(root: Seq<char>) -> Seq<char> {
    if root.len() == 0 {
        ".suite/events"@
    } else if root.last() == '/' {
        root + ".suite/events"@
    } else {
        root + "/.suite/events"@
    }
}

impl Spine {
    /// Bind to `<root>/.suite/events`. Creates nothing yet; the directory is
    /// made on the first successful emit.
    pub fn new(root: &str) -> (s: Spine)
        ensures
            s.dir@ == events_dir(root@),
    {
        let cs = crate::text::chars_of(root);
        let mut dir = str_of(root);
        if cs.len() == 0 {
            push_str(&mut dir, ".suite/events");
        } else if cs[cs.len() - 1] == '/' {
            push_str(&mut dir, ".suite/events");
        } else {
            push_str(&mut dir, "/.suite/events");
        }
        Spine { dir }
    }

    /// The file an event stamped `ts` goes to: `<dir>/<YYYY-MM-DD>.jsonl`,
    /// the date being the first ten characters of the ISO-8601 stamp.
    pub fn event_file(&self, ts: &str) -> (p: String)
        requires
            ts@.len() >= 10,
        ensures
            p@ == self.dir@ + "/"@ + ts@.take(10) + ".jsonl"@,
    {
        let cs = crate::text::chars_of(ts);
        let date = crate::text::string_of(crate::text::slice_chars(cs.as_slice(), 0, 10).as_slice());
        let mut p = str_of(self.dir.as_str());
        push_str(&mut p, "/");
        push_str(&mut p, date.as_str());
        push_str(&mut p, ".jsonl");
        assert(ts@.take(10) =~= cs@.subrange(0, 10));
        p
    }
}

// ── suite-URI refs ──────────────────────────────────────────────────────────

/// `amt:issue/<key>`.
pub fn issue_ref(issue: &str) -> (r: String)
    ensures
        r@ == "amt:issue/"@ + issue@,
{
    let mut r = str_of("amt:issue/");
    push_str(&mut r, issue);
    r
}

/// `sirius:worker/<name>`, e.g. `sirius:worker/sirius/oak`.
pub fn worker_ref(worker: &str) -> (r: String)
    ensures
        r@ == "sirius:worker/"@ + worker@,
{
    let mut r = str_of("sirius:worker/");
    push_str(&mut r, worker);
    r
}

/// `sirius:receipt/<rowid>`.
pub fn receipt_ref(id: i64) -> (r: String)
    ensures
        r@ == "sirius:receipt/"@ + idec(id as int),
{
    let mut r = str_of("sirius:receipt/");
    let n = i64_str(id);
    push_str(&mut r, n.as_str());
    r
}

// ── ids ─────────────────────────────────────────────────────────────────────

pub open spec fn rotl(x: u64, k: u64) -> u64
    recommends
        0 < k < 64,
{
    (x << k) | (x >> (64 - k) as u64)
}

fn rotate_left(x: u64, k: u64) -> (r: u64)
    requires
        0 < k < 64,
    ensures
        r == rotl(x, k),
{
    (x << k) | (x >> (64 - k))
}

/// The splitmix64 finalizer.
pub open spec fn splitmix(x: u64) -> u64 {
    let z = vstd::wrapping::u64_specs::wrapping_add(x, 0x9E37_79B9_7F4A_7C15);
    let z = vstd::wrapping::u64_specs::wrapping_mul(z ^ (z >> 30u64), 0xBF58_476D_1CE4_E5B9);
    let z = vstd::wrapping::u64_specs::wrapping_mul(z ^ (z >> 27u64), 0x94D0_49BB_1331_11EB);
    z ^ (z >> 31u64)
}

pub fn splitmix64(x: u64) -> (r: u64)
    ensures
        r == splitmix(x),
{
    let mut z = x.wrapping_add(0x9E37_79B9_7F4A_7C15);
    z = (z ^ (z >> 30)).wrapping_mul(0xBF58_476D_1CE4_E5B9);
    z = (z ^ (z >> 27)).wrapping_mul(0x94D0_49BB_1331_11EB);
    z ^ (z >> 31)
}

/// Byte `i` (0 = most significant) of `x`.
pub open spec fn be_byte(x: u64, i: int) -> u8 {
    ((x >> (56 - 8 * i) as u64) & 0xff) as u8
}

/// The sixteen id bytes from two words, with the version-4 and
/// variant-10 bits set.
pub open spec fn uuid_bytes(hi: u64, lo: u64) -> Seq<u8> {
    Seq::new(
        16,
        |i: int|
            if i < 8 {
                if i == 6 {
                    (be_byte(hi, 6) & 0x0f) | 0x40
                } else {
                    be_byte(hi, i)
                }
            } else {
                if i == 8 {
                    (be_byte(lo, 0) & 0x3f) | 0x80
                } else {
                    be_byte(lo, i - 8)
                }
            },
    )
}

pub open spec fn hex_digit(d: u8) -> char {
    if d < 10 {
        ('0' as u8 + d) as char
    } else {
        ('a' as u8 + (d - 10)) as char
    }
}

/// `{:02x}`.
pub open spec fn hex2(b: u8) -> Seq<char> {
    seq![hex_digit(b / 16), hex_digit(b % 16)]
}

/// The hex of bytes `from..to`.
pub open spec fn hex_run(bs: Seq<u8>, from: int, to: int) -> Seq<char>
    decreases to - from,
{
    if to <= from {
        seq![]
    } else {
        hex_run(bs, from, to - 1) + hex2(bs[to - 1])
    }
}

/// The 8-4-4-4-12 text of sixteen bytes.
pub open spec fn uuid_text(bs: Seq<u8>) -> Seq<char> {
    hex_run(bs, 0, 4) + "-"@ + hex_run(bs, 4, 6) + "-"@ + hex_run(bs, 6, 8) + "-"@ + hex_run(bs, 8, 10)
        + "-"@ + hex_run(bs, 10, 16)
}


proof fn lemma_hex_run(bs: Seq<u8>, from: int, to: int)
    requires
        0 <= from <= to <= bs.len(),
    ensures
        hex_run(bs, from, to).len() == 2 * (to - from),
        forall|j: int|
            from <= j < to ==> hex_run(bs, from, to)[2 * (j - from)] == hex_digit(#[trigger] bs[j] / 16)
                && hex_run(bs, from, to)[2 * (j - from) + 1] == hex_digit(bs[j] % 16),
    decreases to - from,
{
    if to > from {
        lemma_hex_run(bs, from, to - 1);
        let p = hex_run(bs, from, to - 1);
        assert forall|j: int| from <= j < to implies hex_run(bs, from, to)[2 * (j - from)] == hex_digit(
            #[trigger] bs[j] / 16,
        ) && hex_run(bs, from, to)[2 * (j - from) + 1] == hex_digit(bs[j] % 16) by {
            if j < to - 1 {
                assert(hex_run(bs, from, to)[2 * (j - from)] == p[2 * (j - from)]);
                assert(hex_run(bs, from, to)[2 * (j - from) + 1] == p[2 * (j - from) + 1]);
            }
        }
    }
}

/// Every id is UUIDv4-shaped: 36 characters in 8-4-4-4-12 groups, version
/// nibble `4`, and variant nibble one of `8`, `9`, `a`, `b`.
pub proof fn law_ids_are_uuid_v4(seed: u64)
    ensures
        uuid_of(seed).len() == 36,
        uuid_of(seed)[8] == '-' && uuid_of(seed)[13] == '-' && uuid_of(seed)[18] == '-'
            && uuid_of(seed)[23] == '-',
        uuid_of(seed)[14] == '4',
        uuid_of(seed)[19] == '8' || uuid_of(seed)[19] == '9' || uuid_of(seed)[19] == 'a'
            || uuid_of(seed)[19] == 'b',
{
    let hi = splitmix(seed);
    let lo = splitmix(seed ^ 0x9E37_79B9_7F4A_7C15);
    let bs = uuid_bytes(hi, lo);
    lemma_hex_run(bs, 0, 4);
    lemma_hex_run(bs, 4, 6);
    lemma_hex_run(bs, 6, 8);
    lemma_hex_run(bs, 8, 10);
    lemma_hex_run(bs, 10, 16);
    reveal_strlit("-");
    let x6 = be_byte(hi, 6);
    let x8 = be_byte(lo, 0);
    assert(((x6 & 0x0f) | 0x40) / 16 == 4) by (bit_vector);
    assert(8 <= ((x8 & 0x3f) | 0x80) / 16 <= 11) by (bit_vector);
    assert(bs[6] == (x6 & 0x0f) | 0x40);
    assert(bs[8] == (x8 & 0x3f) | 0x80);
    let t = uuid_of(seed);
    assert(t[14] == hex_run(bs, 6, 8)[0]);
    assert(t[19] == hex_run(bs, 8, 10)[0]);
}

/// The id for a seed: two splitmix64 words, formatted as a UUIDv4.
pub open spec fn uuid_of(seed: u64) -> Seq<char> {
    uuid_text(uuid_bytes(splitmix(seed), splitmix(seed ^ 0x9E37_79B9_7F4A_7C15)))
}

/// The seed for an id: wall-clock nanos, the process id and a per-process
/// counter, so ids never collide within a process (counter) or across
/// concurrent processes on one repo (pid + nanos).
pub open spec fn uuid_seed(nanos: u64, pid: u32, counter: u64) -> u64 {
    nanos ^ rotl(pid as u64, 32) ^ rotl(counter, 17)
}

fn hex_char(d: u8) -> (c: char)
    requires
        d < 16,
    ensures
        c == hex_digit(d),
{
    if d < 10 {
        (('0' as u8) + d) as char
    } else {
        (('a' as u8) + (d - 10)) as char
    }
}

fn push_hex_run(s: &mut String, bs: &Vec<u8>, from: usize, to: usize)
    requires
        from <= to <= bs@.len(),
    ensures
        final(s)@ == old(s)@ + hex_run(bs@, from as int, to as int),
{
    let ghost s0 = s@;
    let mut i: usize = from;
    assert(hex_run(bs@, from as int, from as int) =~= Seq::<char>::empty());
    while i < to
        invariant
            from <= i <= to <= bs@.len(),
            s@ == s0 + hex_run(bs@, from as int, i as int),
        decreases to - i,
    {
        let b = bs[i];
        push_char(s, hex_char(b / 16));
        push_char(s, hex_char(b % 16));
        proof {
            assert(hex_run(bs@, from as int, i + 1) == hex_run(bs@, from as int, i as int) + hex2(b));
        }
        i = i + 1;
    }
}

fn byte_of(x: u64, i: u64) -> (b: u8)
    requires
        i < 8,
    ensures
        b == be_byte(x, i as int),
{
    ((x >> (56 - 8 * i)) & 0xff) as u8
}

/// A UUIDv4-shaped id for a seed. Not cryptographically random — its only
/// job is per-event uniqueness so a consumer can dedup on replay.
pub fn uuid_v4(nanos: u64, pid: u32, counter: u64) -> (id: String)
    ensures
        id@ == uuid_of(uuid_seed(nanos, pid, counter)),
{
    let seed = nanos ^ rotate_left(pid as u64, 32) ^ rotate_left(counter, 17);
    let hi = splitmix64(seed);
    let lo = splitmix64(seed ^ 0x9E37_79B9_7F4A_7C15);
    let mut b: Vec<u8> = Vec::new();
    let mut i: u64 = 0;
    while i < 16
        invariant
            i <= 16,
            b@.len() == i,
            forall|k: int| 0 <= k < i ==> b@[k] == uuid_bytes(hi, lo)[k],
        decreases 16 - i,
    {
        let v = if i < 8 {
            let x = byte_of(hi, i);
            if i == 6 {
                (x & 0x0f) | 0x40
            } else {
                x
            }
        } else {
            let x = byte_of(lo, i - 8);
            if i == 8 {
                (x & 0x3f) | 0x80
            } else {
                x
            }
        };
        b.push(v);
        i = i + 1;
    }
    assert(b@ =~= uuid_bytes(hi, lo));
    let mut s = String::new();
    push_hex_run(&mut s, &b, 0, 4);
    push_str(&mut s, "-");
    push_hex_run(&mut s, &b, 4, 6);
    push_str(&mut s, "-");
    push_hex_run(&mut s, &b, 6, 8);
    push_str(&mut s, "-");
    push_hex_run(&mut s, &b, 8, 10);
    push_str(&mut s, "-");
    push_hex_run(&mut s, &b, 10, 16);
    s
}

} // verus!
