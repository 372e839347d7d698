//! `sirius doctor` — checks the five contract facts live, plus one ADVISORY
//! check on the editor-plugin half of the install.
//!
//! 1. amt present + schema (the ametrite `meta.schema_version`, read-only;
//!    pragmatic >= 3, NOT a version-string compare).
//! 2. hayven daemon on :7777 (health probe + `hayven daemon status`), serving
//!    THIS workspace.
//! 3. claim exit-code semantics (amt claim JSON shape is parseable).
//! 4. gate exit codes (hayven affected-tests present).
//! 5. fleet-memory write path (hayven remember/recall present).
//! 6. plugin handoff (ADVISORY, never gates `ok`): is the bundle marketplace
//!    added and are the sirius/hayvenhurst/catryna plugins installed?
use vstd::prelude::*;
use crate::amt::Amt;
use crate::gate::{first_line, first_line_spec};
use crate::hayven::{hv_combined, Hayven};
use crate::json::{get, json_parse, lookup, parse_json, Json};
use crate::shell::{argv_of, one_call, Call, OutView, Runner};
use crate::text::{
    chars_of, contains, i64_str, idec, join, join_strings, push_str, starts_with, starts_with_chars,
    str_contains, str_of, string_views, trim, trim_str,
};
use crate::workspace::Workspace;

verus! {

/// One doctor check.
#[derive(Debug, Clone)]
pub struct Check {
    pub name: String,
    pub pass: bool,
    pub detail: String,
    /// A gating check flips the report's `ok` when it fails. An advisory
    /// (non-gating) check reports and recommends but never fails doctor.
    pub gating: bool,
}

pub struct CheckV {
    pub name: Seq<char>,
    pub pass: bool,
    pub detail: Seq<char>,
    pub gating: bool,
}

impl View for Check {
    type V = CheckV;

    open spec fn view(&self) -> CheckV {
        CheckV { name: self.name@, pass: self.pass, detail: self.detail@, gating: self.gating }
    }
}

impl Check {
    /// A passing gating check.
    pub fn ok(name: &str, detail: String) -> (c: Check)
        ensures
            c@ == (CheckV { name: name@, pass: true, detail: detail@, gating: true }),
    {
        Check { name: str_of(name), pass: true, detail, gating: true }
    }

    /// A failing gating check.
    pub fn fail(name: &str, detail: String) -> (c: Check)
        ensures
            c@ == (CheckV { name: name@, pass: false, detail: detail@, gating: true }),
    {
        Check { name: str_of(name), pass: false, detail, gating: true }
    }

    /// An advisory check.
    pub fn advisory(name: &str, pass: bool, detail: String) -> (c: Check)
        ensures
            c@ == (CheckV { name: name@, pass, detail: detail@, gating: false }),
    {
        Check { name: str_of(name), pass, detail, gating: false }
    }
}

/// The report: overall health and each check.
#[derive(Debug, Clone)]
pub struct DoctorReport {
    pub ok: bool,
    pub checks: Vec<Check>,
}

/// Minimum ametrite schema version Sirius depends on.
pub const MIN_AMETRITE_SCHEMA: i64 = 3;

/// The decimal value of a run of ASCII digits.
pub open spec fn digits_value(s: Seq<char>) -> int
    decreases s.len(),
{
    if s.len() == 0 {
        0
    } else {
        digits_value(s.drop_last()) * 10 + (s.last() as int - '0' as int)
    }
}

/// One or more ASCII digits.
pub open spec fn ascii_digits(s: Seq<char>) -> bool {
    s.len() > 0 && forall|i: int| 0 <= i < s.len() ==> '0' <= #[trigger] s[i] <= '9'
}

/// The integer a text writes in the form `i64::from_str` documents: an
/// optional `+` or `-` sign followed by only digits, in base 10.
pub open spec fn signed_decimal(s: Seq<char>) -> Option<int> {
    if s.len() > 0 && (s[0] == '+' || s[0] == '-') {
        if ascii_digits(s.skip(1)) {
            Some(
                if s[0] == '-' {
                    -digits_value(s.skip(1))
                } else {
                    digits_value(s.skip(1))
                },
            )
        } else {
            None
        }
    } else if ascii_digits(s) {
        Some(digits_value(s))
    } else {
        None
    }
}

/// What `str::parse::<i64>` gives for a text: its value, or the parse
/// error's message.
pub uninterp spec fn i64_parse(s: Seq<char>) -> Result<i64, Seq<char>>;

/// `str::parse::<i64>`, the error taken by its `Display` text. As std
/// documents it, the text parses exactly when it is an optional sign and
/// digits whose value fits an `i64`, and then to that value; the error's
/// text is left to the name `i64_parse`.
#[verifier::external_body]
fn parse_i64(s: &str) -> (r: Result<i64, String>)
    ensures
        match r {
            Ok(v) => i64_parse(s@) == Ok::<i64, Seq<char>>(v),
            Err(e) => i64_parse(s@) == Err::<i64, Seq<char>>(e@),
        },
        (r is Ok) == (signed_decimal(s@) matches Some(x) && i64::MIN <= x <= i64::MAX),
        r matches Ok(v) ==> signed_decimal(s@) == Some(v as int),
{
    match s.parse::<i64>() {
        Ok(v) => Ok(v),
        Err(e) => Err(e.to_string()),
    }
}

/// The schema version from the ametrite `meta` row as read (or the read's
/// error), for a workspace that has an ametrite db.
pub open spec fn schema_spec(has_db: bool, meta_value: Result<Seq<char>, Seq<char>>) -> Result<i64, Seq<char>> {
    if !has_db {
        Err("no .ametrite/ametrite.db found (run `amt init`)"@)
    } else {
        match meta_value {
            Err(e) => Err(e),
            Ok(v) => match i64_parse(trim(v)) {
                Ok(n) => Ok(n),
                Err(e) => Err("ametrite schema_version not an integer: "@ + e),
            },
        }
    }
}

pub open spec fn str_result(r: Result<String, String>) -> Result<Seq<char>, Seq<char>> {
    match r {
        Ok(s) => Ok(s@),
        Err(e) => Err(e@),
    }
}

/// The ametrite schema version: the trimmed `meta.schema_version` value the
/// binary read from the db (read-only), parsed as an integer.
pub fn ametrite_schema_version(ws: &Workspace, meta_value: Result<String, String>) -> (r: Result<i64, String>)
    ensures
        match r {
            Ok(n) => schema_spec(ws.ametrite_db is Some, str_result(meta_value)) == Ok::<i64, Seq<char>>(n),
            Err(e) => schema_spec(ws.ametrite_db is Some, str_result(meta_value)) == Err::<i64, Seq<char>>(e@),
        },
        ws.ametrite_db is Some && meta_value is Ok ==> (r is Ok) == (signed_decimal(
            trim(meta_value->Ok_0@),
        ) matches Some(x) && i64::MIN <= x <= i64::MAX),
        ws.ametrite_db is Some && meta_value is Ok ==> (r matches Ok(n) ==> signed_decimal(
            trim(meta_value->Ok_0@),
        ) == Some(n as int)),
{
    if ws.ametrite_db.is_none() {
        return Err(str_of("no .ametrite/ametrite.db found (run `amt init`)"));
    }
    match meta_value {
        Err(e) => Err(e),
        Ok(v) => {
            let t = trim_str(v.as_str());
            match parse_i64(t.as_str()) {
                Ok(n) => Ok(n),
                Err(e) => {
                    let mut m = str_of("ametrite schema_version not an integer: ");
                    push_str(&mut m, e.as_str());
                    Err(m)
                },
            }
        },
    }
}

// ── the checks ──────────────────────────────────────────────────────────────

pub open spec fn gating(name: Seq<char>, pass: bool, detail: Seq<char>) -> CheckV {
    CheckV { name, pass, detail, gating: true }
}

/// Check 1: amt present, and the ametrite schema at least v3.
pub open spec fn amt_check(ver: Result<Seq<char>, Seq<char>>, schema: Result<i64, Seq<char>>) -> CheckV {
    match ver {
        Err(e) => gating("amt_present_and_schema"@, false, "amt not runnable: "@ + e),
        Ok(v) => match schema {
            Ok(s) => if s >= MIN_AMETRITE_SCHEMA {
                gating(
                    "amt_present_and_schema"@,
                    true,
                    v + ", ametrite schema v"@ + idec(s as int) + " (>= v3)"@,
                )
            } else {
                gating(
                    "amt_present_and_schema"@,
                    false,
                    v + " but ametrite schema v"@ + idec(s as int) + " < v3"@,
                )
            },
            Err(e) => gating("amt_present_and_schema"@, false, v + "; "@ + e),
        },
    }
}

/// ASCII lowercase (`str::to_ascii_lowercase`).
pub open spec fn ascii_lower(s: Seq<char>) -> Seq<char> {
    s.map_values(|c: char| if 'A' <= c <= 'Z' { ((c as u8) + 32) as char } else { c })
}

fn ascii_lower_exec(s: &str) -> (r: String)
    ensures
        r@ == ascii_lower(s@),
{
    let cs = chars_of(s);
    let mut out: Vec<char> = Vec::new();
    let mut i: usize = 0;
    while i < cs.len()
        invariant
            i <= cs@.len(),
            cs@ == s@,
            out@ == ascii_lower(cs@.take(i as int)),
        decreases cs@.len() - i,
    {
        let c = cs[i];
        let d = if 'A' <= c && c <= 'Z' {
            ((c as u8) + 32) as char
        } else {
            c
        };
        out.push(d);
        assert(ascii_lower(cs@.take(i + 1)) =~= ascii_lower(cs@.take(i as int)).push(d));
        i = i + 1;
    }
    assert(cs@.take(cs@.len() as int) =~= cs@);
    crate::text::string_of(out.as_slice())
}

/// The workspace note on `.hayven/`.
pub open spec fn hv_ws_note(has_hayven: bool) -> Seq<char> {
    if has_hayven {
        " .hayven/ present"@
    } else {
        " .hayven/ not found (run `hayven init`)"@
    }
}

/// Check 2: the daemon answers 200 on :7777 AND serves this workspace: the
/// workspace has a `.hayven/` and the status line is not an error. A 200
/// from another project's daemon FAILS, since reverse stamps would quietly
/// go one-way.
pub open spec fn daemon_check(http: bool, status: Seq<char>, hv_ver: Seq<char>, has_hayven: bool) -> CheckV {
    let line = first_line_spec(status);
    let note = hv_ws_note(has_hayven);
    if http {
        if has_hayven && !contains(ascii_lower(line), "error"@) && !contains(line, "No .hayven"@) {
            gating(
                "hayven_daemon_7777"@,
                true,
                "hayven "@ + hv_ver + ", daemon healthy on :7777 (status: "@ + line + ");"@ + note,
            )
        } else {
            gating(
                "hayven_daemon_7777"@,
                false,
                "hayven "@ + hv_ver + ", daemon up on :7777 but not serving this workspace (status: "@
                    + line + ");"@ + note + " — run `hayven daemon start` in this repo"@,
            )
        }
    } else {
        gating(
            "hayven_daemon_7777"@,
            false,
            "no 200 from http://localhost:7777 (status: "@ + line + ");"@ + note,
        )
    }
}

/// Check 3: `amt claim --peek` (which takes no lease) answers parseable JSON.
pub open spec fn claim_check(out: Result<OutView, Seq<char>>) -> CheckV {
    match out {
        Ok(o) => if json_parse(o.stdout) is Ok {
            gating("claim_exit_codes"@, true, "amt claim JSON shape parseable; hayven claim: 0/1/3"@)
        } else {
            gating("claim_exit_codes"@, false, "amt claim --peek non-JSON: "@ + first_line_spec(o.stdout))
        },
        Err(e) => gating("claim_exit_codes"@, false, "amt claim --peek failed: "@ + e),
    }
}

/// Check 4: `hayven --help` lists `affected-tests`.
pub open spec fn gate_check(help: Result<OutView, Seq<char>>) -> CheckV {
    match help {
        Ok(o) => if contains(o.stdout, "affected-tests"@) {
            gating("gate_exit_codes"@, true, "hayven affected-tests present (exit 0 pass / non-0 fail)"@)
        } else {
            gating("gate_exit_codes"@, false, "hayven affected-tests not found in help"@)
        },
        Err(e) => gating("gate_exit_codes"@, false, "hayven not runnable: "@ + e),
    }
}

/// Check 5: `hayven --help` lists `remember` and `recall`.
pub open spec fn memory_check(help: Result<OutView, Seq<char>>) -> CheckV {
    match help {
        Ok(o) => if contains(o.stdout, "remember"@) && contains(o.stdout, "recall"@) {
            gating("fleet_memory_write_path"@, true, "hayven remember/recall present"@)
        } else {
            gating("fleet_memory_write_path"@, false, "remember/recall not found in help"@)
        },
        Err(e) => gating("fleet_memory_write_path"@, false, "hayven not runnable: "@ + e),
    }
}

/// The editor plugin files, as read (`None` when absent or unreadable).
#[derive(Debug, Clone)]
pub struct PluginFiles {
    /// `known_marketplaces.json`: an object keyed by marketplace name.
    pub known_marketplaces: Option<String>,
    /// `installed_plugins.json`: `{version, plugins: {"name@mkt": ...}}`.
    pub installed_plugins: Option<String>,
}

/// The bundle marketplace is added: `known_marketplaces.json` is an object
/// with a `sirius-forester` member. Absent or unparseable is the cold state.
pub open spec fn marketplace_added(text: Option<String>) -> bool {
    match text {
        Some(t) => match json_parse(t@) {
            Ok(Json::Object(m)) => lookup(m@, "sirius-forester"@) is Some,
            _ => false,
        },
        None => false,
    }
}

/// The installed plugin keys (`name@marketplace`).
pub open spec fn plugin_keys(text: Option<String>) -> Seq<Seq<char>> {
    match text {
        Some(t) => match json_parse(t@) {
            Ok(v) => match get(v, "plugins"@) {
                Some(Json::Object(m)) => m@.map_values(|kv: (String, Json)| kv.0@),
                _ => seq![],
            },
            Err(_) => seq![],
        },
        None => seq![],
    }
}

/// A plugin is installed from ANY marketplace: some key starts `<name>@`.
pub open spec fn has_plugin(keys: Seq<Seq<char>>, name: Seq<char>) -> bool {
    exists|i: int| 0 <= i < keys.len() && starts_with(#[trigger] keys[i], name + "@"@)
}

pub open spec fn if_missing(missing: bool, item: Seq<char>) -> Seq<Seq<char>> {
    if missing {
        seq![item]
    } else {
        seq![]
    }
}

/// What is missing, in order.
pub open spec fn missing_parts(mk: bool, keys: Seq<Seq<char>>) -> Seq<Seq<char>> {
    if_missing(!mk, "sirius-forester marketplace"@) + if_missing(!has_plugin(keys, "sirius"@), "sirius plugin"@)
        + if_missing(!has_plugin(keys, "hayvenhurst"@), "hayvenhurst plugin"@) + if_missing(
        !has_plugin(keys, "catryna"@),
        "catryna plugin"@,
    )
}

/// The fixes for what is missing, in order.
pub open spec fn fix_steps(mk: bool, keys: Seq<Seq<char>>) -> Seq<Seq<char>> {
    if_missing(!mk, "/plugin marketplace add Davidb3l/Sirius-Forester"@) + if_missing(
        !has_plugin(keys, "sirius"@),
        "/plugin install "@ + "sirius"@ + "@sirius-forester"@,
    ) + if_missing(
        !has_plugin(keys, "hayvenhurst"@),
        "/plugin install "@ + "hayvenhurst"@ + "@sirius-forester"@,
    ) + if_missing(!has_plugin(keys, "catryna"@), "/plugin install "@ + "catryna"@ + "@sirius-forester"@)
}

/// Check 6 (advisory): the plugin half of the install.
pub open spec fn plugin_check(files: Option<PluginFiles>) -> CheckV {
    match files {
        None => CheckV {
            name: "plugin_handoff"@,
            pass: true,
            detail: "no editor plugin dir — not an editor plugin environment, check skipped"@,
            gating: false,
        },
        Some(f) => {
            let mk = marketplace_added(f.known_marketplaces);
            let keys = plugin_keys(f.installed_plugins);
            let missing = missing_parts(mk, keys);
            if missing.len() == 0 {
                CheckV {
                    name: "plugin_handoff"@,
                    pass: true,
                    detail: "bundle marketplace added; sirius/hayvenhurst/catryna plugins installed"@,
                    gating: false,
                }
            } else {
                CheckV {
                    name: "plugin_handoff"@,
                    pass: false,
                    detail: "CLIs alone are half the install — missing: "@ + join(missing, ", "@)
                        + ". Fix in the editor: "@ + join(fix_steps(mk, keys), "  then  "@),
                    gating: false,
                }
            }
        },
    }
}

fn marketplace_added_exec(text: &Option<String>) -> (b: bool)
    ensures
        b == marketplace_added(*text),
{
    match text {
        Some(t) => match parse_json(t.as_str()) {
            Ok(v) => match v {
                Json::Object(_) => v.get("sirius-forester").is_some(),
                _ => false,
            },
            Err(_) => false,
        },
        None => false,
    }
}

fn plugin_keys_exec(text: &Option<String>) -> (keys: Vec<String>)
    ensures
        string_views(keys@) == plugin_keys(*text),
{
    let mut keys: Vec<String> = Vec::new();
    match text {
        Some(t) => match parse_json(t.as_str()) {
            Ok(v) => match v.get("plugins") {
                Some(Json::Object(m)) => {
                    let mut i: usize = 0;
                    while i < m.len()
                        invariant
                            i <= m@.len(),
                            string_views(keys@) == m@.take(i as int).map_values(
                                |kv: (String, Json)| kv.0@,
                            ),
                        decreases m@.len() - i,
                    {
                        let ghost k0 = string_views(keys@);
                        keys.push(str_of(m[i].0.as_str()));
                        assert(string_views(keys@) =~= k0.push(m@[i as int].0@));
                        assert(m@.take(i + 1).map_values(|kv: (String, Json)| kv.0@) =~= m@.take(
                            i as int,
                        ).map_values(|kv: (String, Json)| kv.0@).push(m@[i as int].0@));
                        i = i + 1;
                    }
                    assert(m@.take(m@.len() as int) =~= m@);
                },
                _ => {
                    assert(string_views(keys@) =~= Seq::<Seq<char>>::empty());
                },
            },
            Err(_) => {
                assert(string_views(keys@) =~= Seq::<Seq<char>>::empty());
            },
        },
        None => {
            assert(string_views(keys@) =~= Seq::<Seq<char>>::empty());
        },
    }
    keys
}

fn has_plugin_exec(keys: &Vec<String>, name: &str) -> (b: bool)
    ensures
        b == has_plugin(string_views(keys@), name@),
{
    let mut prefix = str_of(name);
    push_str(&mut prefix, "@");
    let p = chars_of(prefix.as_str());
    let mut i: usize = 0;
    while i < keys.len()
        invariant
            i <= keys@.len(),
            p@ == name@ + "@"@,
            forall|k: int| 0 <= k < i ==> !starts_with(#[trigger] string_views(keys@)[k], name@ + "@"@),
        decreases keys@.len() - i,
    {
        let cs = chars_of(keys[i].as_str());
        if starts_with_chars(cs.as_slice(), p.as_slice()) {
            assert(string_views(keys@)[i as int] == keys@[i as int]@);
            return true;
        }
        assert(string_views(keys@)[i as int] == keys@[i as int]@);
        i = i + 1;
    }
    false
}

fn push_if(v: &mut Vec<String>, missing: bool, item: String)
    ensures
        string_views(final(v)@) == string_views(old(v)@) + if_missing(missing, item@),
{
    let ghost v0 = string_views(v@);
    if missing {
        v.push(item);
        assert(string_views(v@) =~= v0 + if_missing(missing, item@));
    } else {
        assert(string_views(v@) =~= v0 + if_missing(missing, item@));
    }
}

fn install_step(name: &str) -> (s: String)
    ensures
        s@ == "/plugin install "@ + name@ + "@sirius-forester"@,
{
    let mut s = str_of("/plugin install ");
    push_str(&mut s, name);
    push_str(&mut s, "@sirius-forester");
    s
}

/// Check #6 — the plugin handoff (ADVISORY), over the plugin files when the
/// plugin dir exists. Plugins match on the `<name>@` key PREFIX (the same
/// plugin can come from different marketplaces); only the bundle
/// MARKETPLACE is matched by its exact name.
pub fn plugin_handoff_check(files: Option<&PluginFiles>) -> (c: Check)
    ensures
        c@ == plugin_check(
            match files {
                Some(f) => Some(*f),
                None => None,
            },
        ),
{
    let f = match files {
        None => {
            return Check::advisory(
                "plugin_handoff",
                true,
                str_of("no editor plugin dir — not an editor plugin environment, check skipped"),
            );
        },
        Some(f) => f,
    };
    let mk = marketplace_added_exec(&f.known_marketplaces);
    let keys = plugin_keys_exec(&f.installed_plugins);
    let ghost kv = string_views(keys@);
    let has_sirius = has_plugin_exec(&keys, "sirius");
    let has_hayvenhurst = has_plugin_exec(&keys, "hayvenhurst");
    let has_catryna = has_plugin_exec(&keys, "catryna");
    let mut missing: Vec<String> = Vec::new();
    let mut fixes: Vec<String> = Vec::new();
    assert(string_views(missing@) =~= Seq::<Seq<char>>::empty());
    assert(string_views(fixes@) =~= Seq::<Seq<char>>::empty());
    push_if(&mut missing, !mk, str_of("sirius-forester marketplace"));
    push_if(&mut fixes, !mk, str_of("/plugin marketplace add Davidb3l/Sirius-Forester"));
    push_if(&mut missing, !has_sirius, str_of("sirius plugin"));
    push_if(&mut fixes, !has_sirius, install_step("sirius"));
    push_if(&mut missing, !has_hayvenhurst, str_of("hayvenhurst plugin"));
    push_if(&mut fixes, !has_hayvenhurst, install_step("hayvenhurst"));
    push_if(&mut missing, !has_catryna, str_of("catryna plugin"));
    push_if(&mut fixes, !has_catryna, install_step("catryna"));
    assert(string_views(missing@) =~= missing_parts(mk, kv));
    assert(string_views(fixes@) =~= fix_steps(mk, kv));
    if missing.len() == 0 {
        Check::advisory(
            "plugin_handoff",
            true,
            str_of("bundle marketplace added; sirius/hayvenhurst/catryna plugins installed"),
        )
    } else {
        let mut d = str_of("CLIs alone are half the install — missing: ");
        let m = join_strings(missing.as_slice(), ", ");
        push_str(&mut d, m.as_str());
        push_str(&mut d, ". Fix in the editor: ");
        let x = join_strings(fixes.as_slice(), "  then  ");
        push_str(&mut d, x.as_str());
        Check::advisory("plugin_handoff", false, d)
    }
}


// ── running the checks ──────────────────────────────────────────────────────

/// The health probe: `curl -s -o /dev/null -m 3 -w %{http_code}
/// http://localhost:7777/`.
pub open spec fn curl_argv() -> Seq<Seq<char>> {
    seq![
        "curl"@,
        "-s"@,
        "-o"@,
        "/dev/null"@,
        "-m"@,
        "3"@,
        "-w"@,
        "%{http_code}"@,
        "http://localhost:7777/"@,
    ]
}

/// The probe answered HTTP 200.
pub open spec fn http_ok(out: Result<OutView, Seq<char>>) -> bool {
    out matches Ok(o) && trim(o.stdout) == "200"@
}

/// Probe the hayven daemon health on :7777 via a plain HTTP GET (`curl`; a
/// failure is reported, not fatal).
fn daemon_http_ok<R: Runner>(runner: &mut R) -> (b: bool)
    ensures
        one_call(old(runner).calls(), final(runner).calls(), curl_argv()),
        b == http_ok(final(runner).calls().last().out),
{
    broadcast use crate::shell::lemma_push_drop_last;

    let args = ["-s", "-o", "/dev/null", "-m", "3", "-w", "%{http_code}", "http://localhost:7777/"];
    assert(argv_of("curl"@, args@) =~= curl_argv());
    match runner.run("curl", &args) {
        Ok(o) => {
            let t = trim_str(o.stdout.as_str());
            crate::text::str_eq(t.as_str(), "200")
        },
        Err(_) => false,
    }
}

/// What a `--version` call read: the trimmed stdout on exit 0, else the
/// trimmed stderr as the error.
pub open spec fn version_of(out: Result<OutView, Seq<char>>) -> Result<Seq<char>, Seq<char>> {
    match out {
        Err(e) => Err(e),
        Ok(o) => if o.code == Some(0i32) {
            Ok(trim(o.stdout))
        } else {
            Err(trim(o.stderr))
        },
    }
}

/// The daemon status line as read (empty when the call failed).
pub open spec fn status_of(out: Result<OutView, Seq<char>>) -> Seq<char> {
    match out {
        Err(_) => seq![],
        Ok(o) => trim(hv_combined(o)),
    }
}

/// The hayven version as reported, or `unknown`.
pub open spec fn hv_version_of(out: Result<OutView, Seq<char>>) -> Seq<char> {
    match version_of(out) {
        Ok(v) => v,
        Err(_) => "unknown"@,
    }
}

/// `amt --json claim --peek --agent sirius/doctor`.
pub open spec fn peek_argv() -> Seq<Seq<char>> {
    seq!["amt"@, "--json"@, "claim"@, "--peek"@, "--agent"@, "sirius/doctor"@]
}

/// Overall health: every GATING check passes (an advisory failure is a
/// warning).
pub open spec fn all_gating_pass(checks: Seq<Check>) -> bool {
    forall|i: int| 0 <= i < checks.len() ==> !(#[trigger] checks[i]).gating || checks[i].pass
}

/// Run all checks, with the editor plugin files (when the plugin dir
/// exists) and the ametrite `meta.schema_version` read (or the read's error)
/// supplied by the binary.
pub fn run_with_plugins_dir<R: Runner>(
    ws: &Workspace,
    runner: &mut R,
    plugins: Option<&PluginFiles>,
    meta_value: Result<String, String>,
) -> (report: DoctorReport)
    ensures
        ({
            let c = final(runner).calls();
            let n = old(runner).calls().len() as int;
            let ch = report.checks@;
            &&& c.len() == n + 6
            &&& c.take(n) == old(runner).calls()
            &&& c[n].argv == seq!["amt"@, "--version"@]
            &&& c[n + 1].argv == curl_argv()
            &&& c[n + 2].argv == seq!["hayven"@, "daemon"@, "status"@]
            &&& c[n + 3].argv == seq!["hayven"@, "--version"@]
            &&& c[n + 4].argv == peek_argv()
            &&& c[n + 5].argv == seq!["hayven"@, "--help"@]
            &&& ch.len() == 6
            &&& ch[0]@ == amt_check(
                version_of(c[n].out),
                schema_spec(ws.ametrite_db is Some, str_result(meta_value)),
            )
            &&& ch[1]@ == daemon_check(
                http_ok(c[n + 1].out),
                status_of(c[n + 2].out),
                hv_version_of(c[n + 3].out),
                ws.hayven_dir is Some,
            )
            &&& ch[2]@ == claim_check(c[n + 4].out)
            &&& ch[3]@ == gate_check(c[n + 5].out)
            &&& ch[4]@ == memory_check(c[n + 5].out)
            &&& ch[5]@ == plugin_check(
                match plugins {
                    Some(f) => Some(*f),
                    None => None,
                },
            )
            &&& report.ok == all_gating_pass(ch)
            &&& ch[1].gating
            &&& (ch[1].pass <==> (http_ok(c[n + 1].out) && ws.hayven_dir is Some && !contains(
                ascii_lower(first_line_spec(status_of(c[n + 2].out))),
                "error"@,
            ) && !contains(first_line_spec(status_of(c[n + 2].out)), "No .hayven"@)))
            &&& (!ch[1].pass ==> !report.ok)
        }),
{
    let ghost c0 = runner.calls();
    let ghost n = c0.len() as int;
    let amt = Amt::new();
    let hv = Hayven::new();
    let mut checks: Vec<Check> = Vec::new();
    // 1. amt present + schema.
    let ver = amt.version(runner);
    let ghost ca = runner.calls();
    let c1 = match ver {
        Ok(v) => match ametrite_schema_version(ws, meta_value) {
            Ok(s) => if s >= MIN_AMETRITE_SCHEMA {
                let mut d = str_of(v.as_str());
                push_str(&mut d, ", ametrite schema v");
                let t = i64_str(s);
                push_str(&mut d, t.as_str());
                push_str(&mut d, " (>= v3)");
                Check::ok("amt_present_and_schema", d)
            } else {
                let mut d = str_of(v.as_str());
                push_str(&mut d, " but ametrite schema v");
                let t = i64_str(s);
                push_str(&mut d, t.as_str());
                push_str(&mut d, " < v3");
                Check::fail("amt_present_and_schema", d)
            },
            Err(e) => {
                let mut d = str_of(v.as_str());
                push_str(&mut d, "; ");
                push_str(&mut d, e.as_str());
                Check::fail("amt_present_and_schema", d)
            },
        },
        Err(e) => {
            let mut d = str_of("amt not runnable: ");
            push_str(&mut d, e.as_str());
            Check::fail("amt_present_and_schema", d)
        },
    };
    checks.push(c1);
    // 2. hayven daemon on :7777.
    let http = daemon_http_ok(runner);
    let ghost cb = runner.calls();
    let status = match hv.daemon_status(runner) {
        Ok(s) => s,
        Err(_) => String::new(),
    };
    let ghost cc = runner.calls();
    let hv_ver = match hv.version(runner) {
        Ok(v) => v,
        Err(_) => str_of("unknown"),
    };
    let ghost cd = runner.calls();
    let hv_ws: &str = if ws.hayven_dir.is_some() {
        " .hayven/ present"
    } else {
        " .hayven/ not found (run `hayven init`)"
    };
    let line = first_line(status.as_str());
    let c2 = if http {
        let low = ascii_lower_exec(line.as_str());
        let serving = ws.hayven_dir.is_some() && !str_contains(low.as_str(), "error") && !str_contains(
            line.as_str(),
            "No .hayven",
        );
        if serving {
            let mut d = str_of("hayven ");
            push_str(&mut d, hv_ver.as_str());
            push_str(&mut d, ", daemon healthy on :7777 (status: ");
            push_str(&mut d, line.as_str());
            push_str(&mut d, ");");
            push_str(&mut d, hv_ws);
            Check::ok("hayven_daemon_7777", d)
        } else {
            let mut d = str_of("hayven ");
            push_str(&mut d, hv_ver.as_str());
            push_str(&mut d, ", daemon up on :7777 but not serving this workspace (status: ");
            push_str(&mut d, line.as_str());
            push_str(&mut d, ");");
            push_str(&mut d, hv_ws);
            push_str(&mut d, " — run `hayven daemon start` in this repo");
            Check::fail("hayven_daemon_7777", d)
        }
    } else {
        let mut d = str_of("no 200 from http://localhost:7777 (status: ");
        push_str(&mut d, line.as_str());
        push_str(&mut d, ");");
        push_str(&mut d, hv_ws);
        Check::fail("hayven_daemon_7777", d)
    };
    checks.push(c2);
    // 3. claim exit-code semantics — `amt claim --peek` takes no lease.
    let peek = ["--json", "claim", "--peek", "--agent", "sirius/doctor"];
    assert(argv_of("amt"@, peek@) =~= peek_argv());
    let peeked = runner.run("amt", &peek);
    let ghost ce = runner.calls();
    let c3 = match peeked {
        Ok(o) => match parse_json(o.stdout.as_str()) {
            Ok(_) => Check::ok(
                "claim_exit_codes",
                str_of("amt claim JSON shape parseable; hayven claim: 0/1/3"),
            ),
            Err(_) => {
                let mut d = str_of("amt claim --peek non-JSON: ");
                let f = first_line(o.stdout.as_str());
                push_str(&mut d, f.as_str());
                Check::fail("claim_exit_codes", d)
            },
        },
        Err(e) => {
            let mut d = str_of("amt claim --peek failed: ");
            push_str(&mut d, e.as_str());
            Check::fail("claim_exit_codes", d)
        },
    };
    checks.push(c3);
    // Fetch hayven's command surface once, for checks 4 and 5.
    let help_args = ["--help"];
    assert(argv_of("hayven"@, help_args@) =~= seq!["hayven"@, "--help"@]);
    let help = runner.run("hayven", &help_args);
    let ghost cf = runner.calls();
    // 4. gate exit codes.
    let c4 = match &help {
        Ok(o) => if str_contains(o.stdout.as_str(), "affected-tests") {
            Check::ok("gate_exit_codes", str_of("hayven affected-tests present (exit 0 pass / non-0 fail)"))
        } else {
            Check::fail("gate_exit_codes", str_of("hayven affected-tests not found in help"))
        },
        Err(e) => {
            let mut d = str_of("hayven not runnable: ");
            push_str(&mut d, e.as_str());
            Check::fail("gate_exit_codes", d)
        },
    };
    checks.push(c4);
    // 5. fleet-memory write path.
    let c5 = match &help {
        Ok(o) => if str_contains(o.stdout.as_str(), "remember") && str_contains(
            o.stdout.as_str(),
            "recall",
        ) {
            Check::ok("fleet_memory_write_path", str_of("hayven remember/recall present"))
        } else {
            Check::fail("fleet_memory_write_path", str_of("remember/recall not found in help"))
        },
        Err(e) => {
            let mut d = str_of("hayven not runnable: ");
            push_str(&mut d, e.as_str());
            Check::fail("fleet_memory_write_path", d)
        },
    };
    checks.push(c5);
    // 6. plugin handoff — advisory; reports and recommends, never gates.
    checks.push(plugin_handoff_check(plugins));
    // Only GATING checks decide overall health.
    let mut ok = true;
    let mut i: usize = 0;
    while i < checks.len()
        invariant
            i <= checks@.len(),
            ok == forall|k: int| 0 <= k < i ==> !(#[trigger] checks@[k]).gating || checks@[k].pass,
        decreases checks@.len() - i,
    {
        if checks[i].gating && !checks[i].pass {
            ok = false;
        }
        i = i + 1;
    }
    proof {
        let c = runner.calls();
        assert(c == cf);
        assert(cf.drop_last() == ce && ce.drop_last() == cd && cd.drop_last() == cc);
        assert(cc.drop_last() == cb && cb.drop_last() == ca && ca.drop_last() == c0);
        assert(c[n + 5] == cf.last());
        assert(c[n + 4] == ce.last()) by {
            assert(c[n + 4] == cf.drop_last()[n + 4]);
        }
        assert(c[n + 3] == cd.last()) by {
            assert(c[n + 3] == ce[n + 3]);
            assert(ce[n + 3] == ce.drop_last()[n + 3]);
        }
        assert(c[n + 2] == cc.last()) by {
            assert(c[n + 2] == ce[n + 2]);
            assert(ce[n + 2] == cd[n + 2]);
            assert(cd[n + 2] == cd.drop_last()[n + 2]);
        }
        assert(c[n + 1] == cb.last()) by {
            assert(c[n + 1] == ce[n + 1]);
            assert(ce[n + 1] == cd[n + 1]);
            assert(cd[n + 1] == cc[n + 1]);
            assert(cc[n + 1] == cc.drop_last()[n + 1]);
        }
        assert(c[n] == ca.last()) by {
            assert(c[n] == ce[n]);
            assert(ce[n] == cd[n]);
            assert(cd[n] == cc[n]);
            assert(cc[n] == cb[n]);
            assert(cb[n] == cb.drop_last()[n]);
        }
        assert(c.take(n) =~= c0) by {
            assert forall|k: int| 0 <= k < n implies c[k] == c0[k] by {
                assert(c[k] == ce[k]);
                assert(ce[k] == cd[k]);
                assert(cd[k] == cc[k]);
                assert(cc[k] == cb[k]);
                assert(cb[k] == ca[k]);
                assert(ca[k] == ca.drop_last()[k]);
            }
        }
    }
    DoctorReport { ok, checks }
}


/// An advisory check never decides overall health: whatever it reports,
/// replacing it with any other advisory result leaves `ok` unchanged.
pub proof fn law_advisory_never_flips_ok(checks: Seq<Check>, i: int, c: Check)
    requires
        0 <= i < checks.len(),
        !checks[i].gating,
        !c.gating,
    ensures
        all_gating_pass(checks) == all_gating_pass(checks.update(i, c)),
{
    let u = checks.update(i, c);
    if all_gating_pass(checks) {
        assert forall|k: int| 0 <= k < u.len() implies !(#[trigger] u[k]).gating || u[k].pass by {
            if k != i {
                assert(u[k] == checks[k]);
            }
        }
    }
    if all_gating_pass(u) {
        assert forall|k: int| 0 <= k < checks.len() implies !(#[trigger] checks[k]).gating
            || checks[k].pass by {
            if k != i {
                assert(u[k] == checks[k]);
            }
        }
    }
}

/// The daemon check is gating, and it passes exactly when the daemon answered
/// 200 on :7777, the workspace has a `.hayven/`, and the first line of
/// `hayven daemon status` holds neither "error" (in any ASCII case) nor
/// "No .hayven": a daemon that answers but serves another project fails.
pub proof fn law_daemon_serves_this_workspace(
    http: bool,
    status: Seq<char>,
    hv_ver: Seq<char>,
    has_hayven: bool,
)
    ensures
        daemon_check(http, status, hv_ver, has_hayven).gating,
        daemon_check(http, status, hv_ver, has_hayven).pass <==> (http && has_hayven && !contains(
            ascii_lower(first_line_spec(status)),
            "error"@,
        ) && !contains(first_line_spec(status), "No .hayven"@)),
{
}

/// A report that holds a failed gating check is not healthy.
pub proof fn law_failed_gating_check_fails_report(checks: Seq<Check>, i: int)
    requires
        0 <= i < checks.len(),
        checks[i].gating,
        !checks[i].pass,
    ensures
        !all_gating_pass(checks),
{
    assert(!(!checks[i].gating || checks[i].pass));
}

} // verus!
