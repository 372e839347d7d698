//! Resolving a git range to changed files, then to Hayvenhurst symbols.
//!
//! Used by `sirius link ... --changed` and the test gate. `git diff` gives the file
//! list; each changed file maps to symbols via `hayven query`.
use vstd::prelude::*;
use crate::hayven::{hv_json, Hayven};
use crate::json::{as_array, as_str, get, Json};
use crate::shell::{argv_of, one_call, Call, OutView, Runner};
use crate::text::{chars_of, lines, lines_of, str_of, string_of, string_views, trim, trim_chars, trim_str, views};

verus! {

broadcast use crate::shell::lemma_push_drop_last;

/// The trimmed, non-blank lines of a text, in order.
pub open spec fn nonblank(ls: Seq<Seq<char>>) -> Seq<Seq<char>>
    decreases ls.len(),
{
    if ls.len() == 0 {
        seq![]
    } else {
        let r = nonblank(ls.drop_last());
        if trim(ls.last()).len() > 0 {
            r.push(trim(ls.last()))
        } else {
            r
        }
    }
}

/// A git listing: its non-blank lines on exit 0, else stderr (or `fail` when
/// stderr is blank).
pub open spec fn git_list(out: Result<OutView, Seq<char>>, fail: Seq<char>) -> Result<Seq<Seq<char>>, Seq<char>> {
    match out {
        Err(e) => Err(e),
        Ok(o) => if o.code != Some(0i32) {
            Err(
                if trim(o.stderr).len() == 0 {
                    fail
                } else {
                    trim(o.stderr)
                },
            )
        } else {
            Ok(nonblank(lines(o.stdout)))
        },
    }
}

pub open spec fn list_view(r: Result<Vec<String>, String>) -> Result<Seq<Seq<char>>, Seq<char>> {
    match r {
        Ok(v) => Ok(string_views(v@)),
        Err(e) => Err(e@),
    }
}

pub open spec fn diff_argv(range: Option<Seq<char>>) -> Seq<Seq<char>> {
    seq![
        "git"@,
        "diff"@,
        "--name-only"@,
        match range {
            Some(r) => r,
            None => "HEAD"@,
        },
    ]
}

pub open spec fn ls_argv() -> Seq<Seq<char>> {
    seq!["git"@, "ls-files"@, "--others"@, "--exclude-standard"@]
}

/// The trimmed non-blank lines of `text`.
fn nonblank_lines(text: &str) -> (r: Vec<String>)
    ensures
        string_views(r@) == nonblank(lines(text@)),
{
    let cs = chars_of(text);
    let ls = lines_of(cs.as_slice());
    let mut r: Vec<String> = Vec::new();
    let mut i: usize = 0;
    while i < ls.len()
        invariant
            i <= ls@.len(),
            views(ls@) == lines(text@),
            string_views(r@) == nonblank(views(ls@).take(i as int)),
        decreases ls@.len() - i,
    {
        let t = trim_chars(ls[i].as_slice());
        let ghost r0 = string_views(r@);
        proof {
            assert(views(ls@).take(i + 1).drop_last() =~= views(ls@).take(i as int));
            assert(views(ls@).take(i + 1).last() == ls@[i as int]@);
        }
        if t.len() > 0 {
            r.push(string_of(t.as_slice()));
            assert(string_views(r@) =~= r0.push(t@));
        }
        i = i + 1;
    }
    assert(views(ls@).take(ls@.len() as int) =~= views(ls@));
    r
}

fn git_list_exec<R: Runner>(runner: &mut R, args: &[&str], fail: &str) -> (r: Result<
    Vec<String>,
    String,
>)
    ensures
        one_call(old(runner).calls(), final(runner).calls(), argv_of("git"@, args@)),
        list_view(r) == git_list(final(runner).calls().last().out, fail@),
{
    let out = match runner.run("git", args) {
        Ok(o) => o,
        Err(e) => {
            return Err(e);
        },
    };
    if !out.success() {
        let s = trim_str(out.stderr.as_str());
        return Err(
            if s.as_str().unicode_len() == 0 {
                str_of(fail)
            } else {
                s
            },
        );
    }
    Ok(nonblank_lines(out.stdout.as_str()))
}

/// List files changed in a git range (default: working tree vs HEAD).
pub fn changed_files<R: Runner>(runner: &mut R, range: Option<&str>) -> (r: Result<
    Vec<String>,
    String,
>)
    ensures
        one_call(
            old(runner).calls(),
            final(runner).calls(),
            diff_argv(
                match range {
                    Some(s) => Some(s@),
                    None => None,
                },
            ),
        ),
        list_view(r) == git_list(final(runner).calls().last().out, "git diff failed"@),
{
    let rr = match range {
        Some(r) => r,
        None => "HEAD",
    };
    let args = ["diff", "--name-only", rr];
    assert(argv_of("git"@, args@) =~= diff_argv(
        match range {
            Some(s) => Some(s@),
            None => None,
        },
    ));
    git_list_exec(runner, &args, "git diff failed")
}

/// The HEAD commit id: the trimmed stdout of `git rev-parse HEAD`, which must
/// be non-empty.
pub open spec fn head_rev_spec(out: Result<OutView, Seq<char>>) -> Result<Seq<char>, Seq<char>> {
    match out {
        Err(e) => Err(e),
        Ok(o) => if o.code != Some(0i32) || trim(o.stdout).len() == 0 {
            Err(
                if trim(o.stderr).len() == 0 {
                    "git rev-parse HEAD failed"@
                } else {
                    trim(o.stderr)
                },
            )
        } else {
            Ok(trim(o.stdout))
        },
    }
}

/// The current HEAD commit id — captured before an agent runs so the test gate can
/// diff against a fixed baseline.
pub fn head_rev<R: Runner>(runner: &mut R) -> (r: Result<String, String>)
    ensures
        one_call(
            old(runner).calls(),
            final(runner).calls(),
            seq!["git"@, "rev-parse"@, "HEAD"@],
        ),
        crate::hayven::string_result(r) == head_rev_spec(final(runner).calls().last().out),
{
    let args = ["rev-parse", "HEAD"];
    assert(argv_of("git"@, args@) =~= seq!["git"@, "rev-parse"@, "HEAD"@]);
    let out = match runner.run("git", &args) {
        Ok(o) => o,
        Err(e) => {
            return Err(e);
        },
    };
    let rev = trim_str(out.stdout.as_str());
    if !out.success() || rev.as_str().unicode_len() == 0 {
        let s = trim_str(out.stderr.as_str());
        return Err(
            if s.as_str().unicode_len() == 0 {
                str_of("git rev-parse HEAD failed")
            } else {
                s
            },
        );
    }
    Ok(rev)
}

/// Untracked (never `git add`ed) files; `git diff` cannot see these.
pub fn untracked_files<R: Runner>(runner: &mut R) -> (r: Result<Vec<String>, String>)
    ensures
        one_call(old(runner).calls(), final(runner).calls(), ls_argv()),
        list_view(r) == git_list(final(runner).calls().last().out, "git ls-files failed"@),
{
    let args = ["ls-files", "--others", "--exclude-standard"];
    assert(argv_of("git"@, args@) =~= ls_argv());
    git_list_exec(runner, &args, "git ls-files failed")
}

/// `files` plus each untracked file that was not already untracked before the
/// work and is not listed yet, in order.
pub open spec fn merge_untracked(files: Seq<Seq<char>>, us: Seq<Seq<char>>, pre: Seq<Seq<char>>) -> Seq<
    Seq<char>,
>
    decreases us.len(),
{
    if us.len() == 0 {
        files
    } else {
        let a = merge_untracked(files, us.drop_last(), pre);
        let f = us.last();
        if !pre.contains(f) && !a.contains(f) {
            a.push(f)
        } else {
            a
        }
    }
}

pub(crate) fn contains_string(v: &Vec<String>, s: &String) -> (r: bool)
    ensures
        r == string_views(v@).contains(s@),
{
    let mut i: usize = 0;
    while i < v.len()
        invariant
            i <= v@.len(),
            forall|k: int| 0 <= k < i ==> v@[k]@ != s@,
        decreases v@.len() - i,
    {
        if v[i] == *s {
            assert(string_views(v@)[i as int] == s@);
            return true;
        }
        i = i + 1;
    }
    false
}

/// Everything changed since `base` (a commit captured before the work):
/// committed + staged + unstaged (`git diff <base>`) plus the untracked files
/// that are new since `pre_untracked` was taken. With no `base` this is the
/// worktree-vs-HEAD diff plus new untracked files.
pub fn changed_since<R: Runner>(runner: &mut R, base: Option<&str>, pre_untracked: &[String]) -> (r:
    Result<Vec<String>, String>)
    ensures
        ({
            let c = final(runner).calls();
            let n = old(runner).calls().len();
            let d = git_list(c[n as int].out, "git diff failed"@);
            &&& c.len() > n
            &&& c.take(n as int) == old(runner).calls()
            &&& c[n as int].argv == diff_argv(
                match base {
                    Some(s) => Some(s@),
                    None => None,
                },
            )
            &&& match d {
                Err(e) => c.len() == n + 1 && list_view(r) == Err::<Seq<Seq<char>>, Seq<char>>(e),
                Ok(files) => {
                    &&& c.len() == n + 2
                    &&& c[n + 1int].argv == ls_argv()
                    &&& list_view(r) == match git_list(c[n + 1int].out, "git ls-files failed"@) {
                        Err(e) => Err(e),
                        Ok(us) => Ok(merge_untracked(files, us, string_views(pre_untracked@))),
                    }
                },
            }
        }),
{
    let ghost c0 = runner.calls();
    let mut files = match changed_files(runner, base) {
        Ok(f) => f,
        Err(e) => {
            assert(runner.calls().take(c0.len() as int) =~= c0);
            return Err(e);
        },
    };
    let ghost c1 = runner.calls();
    let us = match untracked_files(runner) {
        Ok(u) => u,
        Err(e) => {
            assert(runner.calls().take(c0.len() as int) =~= c0);
            assert(runner.calls()[c0.len() as int] == c1.last());
            return Err(e);
        },
    };
    let ghost fv = string_views(files@);
    let ghost pv = string_views(pre_untracked@);
    let mut i: usize = 0;
    while i < us.len()
        invariant
            i <= us@.len(),
            string_views(files@) == merge_untracked(fv, string_views(us@).take(i as int), pv),
            pv == string_views(pre_untracked@),
        decreases us@.len() - i,
    {
        let ghost uvi = string_views(us@).take(i + 1);
        assert(uvi.drop_last() =~= string_views(us@).take(i as int));
        assert(uvi.last() == us@[i as int]@);
        let mut pre_has = false;
        let mut k: usize = 0;
        while k < pre_untracked.len()
            invariant
                k <= pre_untracked@.len(),
                i < us@.len(),
                pre_has == exists|m: int| 0 <= m < k && pre_untracked@[m]@ == us@[i as int]@,
            decreases pre_untracked@.len() - k,
        {
            if pre_untracked[k] == us[i] {
                pre_has = true;
            }
            k = k + 1;
        }
        assert(pre_has == pv.contains(us@[i as int]@)) by {
            if pre_has {
                let m = choose|m: int| 0 <= m < k && pre_untracked@[m]@ == us@[i as int]@;
                assert(pv[m] == us@[i as int]@);
            }
            if pv.contains(us@[i as int]@) {
                let m = choose|m: int| 0 <= m < pv.len() && pv[m] == us@[i as int]@;
                assert(pre_untracked@[m]@ == us@[i as int]@);
            }
        }
        if !pre_has && !contains_string(&files, &us[i]) {
            let ghost f0 = string_views(files@);
            files.push(us[i].clone());
            assert(string_views(files@) =~= f0.push(us@[i as int]@));
        }
        i = i + 1;
    }
    proof {
        assert(string_views(us@).take(us@.len() as int) =~= string_views(us@));
        let c = runner.calls();
        assert(c.take(c0.len() as int) =~= c0);
        assert(c[c0.len() as int] == c1.last());
    }
    Ok(files)
}

// ── symbols ─────────────────────────────────────────────────────────────────

/// The entries of a `hayven query` result: the `hits` (or else `results`)
/// array, or else the document itself when it is an array.
pub open spec fn id_items(v: Json) -> Seq<Json> {
    let a = if get(v, "hits"@) is Some {
        get(v, "hits"@)
    } else {
        get(v, "results"@)
    };
    match as_array(a) {
        Some(xs) => xs,
        None => match v {
            Json::Array(xs) => xs@,
            _ => Seq::empty(),
        },
    }
}

/// An entry's id: its `id` string, or the entry itself when it is a string.
pub open spec fn item_id(x: Json) -> Option<Seq<char>> {
    match as_str(get(x, "id"@)) {
        Some(s) => Some(s),
        None => as_str(Some(x)),
    }
}

pub open spec fn ids_in(items: Seq<Json>) -> Seq<Seq<char>>
    decreases items.len(),
{
    if items.len() == 0 {
        seq![]
    } else {
        let r = ids_in(items.drop_last());
        match item_id(items.last()) {
            Some(s) => r.push(s),
            None => r,
        }
    }
}

/// The entity ids in a `hayven query` result, in order.
pub open spec fn extract_ids_spec(v: Json) -> Seq<Seq<char>> {
    ids_in(id_items(v))
}

fn item_id_exec(x: &Json) -> (r: Option<String>)
    ensures
        crate::hayven::opt_view(r) == item_id(*x),
{
    match x.get_string("id") {
        Some(s) => Some(s),
        None => x.as_string(),
    }
}

/// Pull entity ids out of a `hayven query` result (`{"hits":[{"id":..}]}`).
pub fn extract_ids(v: &Json) -> (out: Vec<String>)
    ensures
        string_views(out@) == extract_ids_spec(*v),
{
    let a = match v.get("hits") {
        Some(h) => Some(h),
        None => v.get("results"),
    };
    let items: &Vec<Json> = match a {
        Some(Json::Array(xs)) => xs,
        _ => match v {
            Json::Array(xs) => xs,
            _ => {
                let out: Vec<String> = Vec::new();
                return out;
            },
        },
    };
    assert(items@ == id_items(*v));
    let mut out: Vec<String> = Vec::new();
    let mut i: usize = 0;
    while i < items.len()
        invariant
            i <= items@.len(),
            string_views(out@) == ids_in(items@.take(i as int)),
        decreases items@.len() - i,
    {
        assert(items@.take(i + 1).drop_last() =~= items@.take(i as int));
        assert(items@.take(i + 1).last() == items@[i as int]);
        let ghost o0 = string_views(out@);
        match item_id_exec(&items[i]) {
            Some(s) => {
                out.push(s);
                assert(string_views(out@) =~= o0.push(item_id(items@[i as int])->Some_0));
            },
            None => {},
        }
        i = i + 1;
    }
    assert(items@.take(items@.len() as int) =~= items@);
    out
}

/// What `Path::file_stem` returns for a path (`None` for a path with no file
/// name, such as `..`).
pub uninterp spec fn file_stem(path: Seq<char>) -> Option<Seq<char>>;

/// `Path::new(path).file_stem()` as UTF-8 text. The result depends on the
/// path text alone.
#[verifier::external_body]
pub(crate) fn path_file_stem(path: &str) -> (r: Option<String>)
    ensures
        crate::hayven::opt_view(r) == file_stem(path@),
{
    std::path::Path::new(path).file_stem().and_then(|s| s.to_str()).map(|s| s.to_string())
}

/// The query term for a changed file: its stem, or the path itself.
pub open spec fn query_term(path: Seq<char>) -> Seq<char> {
    match file_stem(path) {
        Some(s) => s,
        None => path,
    }
}

/// `acc` extended by each id of `ids` it does not hold yet, in order.
pub open spec fn add_new(acc: Seq<Seq<char>>, ids: Seq<Seq<char>>) -> Seq<Seq<char>>
    decreases ids.len(),
{
    if ids.len() == 0 {
        acc
    } else {
        let a = add_new(acc, ids.drop_last());
        if a.contains(ids.last()) {
            a
        } else {
            a.push(ids.last())
        }
    }
}

/// The symbols gathered from a sequence of query results: each successful
/// query's ids, deduplicated, first occurrence first.
pub open spec fn symbols_from(results: Seq<Result<Json, Seq<char>>>) -> Seq<Seq<char>>
    decreases results.len(),
{
    if results.len() == 0 {
        seq![]
    } else {
        let a = symbols_from(results.drop_last());
        match results.last() {
            Ok(v) => add_new(a, extract_ids_spec(v)),
            Err(_) => a,
        }
    }
}

pub(crate) fn add_new_exec(acc: &mut Vec<String>, ids: Vec<String>)
    ensures
        string_views(final(acc)@) == add_new(string_views(old(acc)@), string_views(ids@)),
{
    let ghost a0 = string_views(acc@);
    let mut i: usize = 0;
    while i < ids.len()
        invariant
            i <= ids@.len(),
            string_views(acc@) == add_new(a0, string_views(ids@).take(i as int)),
        decreases ids@.len() - i,
    {
        let ghost t = string_views(ids@).take(i + 1);
        assert(t.drop_last() =~= string_views(ids@).take(i as int));
        assert(t.last() == ids@[i as int]@);
        if !contains_string(acc, &ids[i]) {
            let ghost b = string_views(acc@);
            acc.push(ids[i].clone());
            assert(string_views(acc@) =~= b.push(ids@[i as int]@));
        }
        i = i + 1;
    }
    assert(string_views(ids@).take(ids@.len() as int) =~= string_views(ids@));
}

/// Resolve changed files to Hayvenhurst symbol ids by querying the index for
/// each file's stem and collecting entity ids. Best-effort and deduplicated.
pub fn changed_symbols<R: Runner>(runner: &mut R, hv: &Hayven, range: Option<&str>) -> (r: Result<
    Vec<String>,
    String,
>)
    ensures
        ({
            let c = final(runner).calls();
            let n = old(runner).calls().len();
            &&& c.len() > n
            &&& c.take(n as int) == old(runner).calls()
            &&& c[n as int].argv == diff_argv(
                match range {
                    Some(s) => Some(s@),
                    None => None,
                },
            )
            &&& match git_list(c[n as int].out, "git diff failed"@) {
                Err(e) => c.len() == n + 1 && list_view(r) == Err::<Seq<Seq<char>>, Seq<char>>(e),
                Ok(files) => {
                    &&& c.len() == n + 1 + files.len()
                    &&& forall|i: int|
                        0 <= i < files.len() ==> #[trigger] c[n + 1 + i].argv == seq![
                            "hayven"@,
                            "query"@,
                            query_term(files[i]),
                            "--json"@,
                        ]
                    &&& list_view(r) == Ok::<Seq<Seq<char>>, Seq<char>>(
                        symbols_from(
                            c.skip(n + 1int).map_values(|x: Call| hv_json(x.out)),
                        ),
                    )
                },
            }
        }),
{
    let ghost c0 = runner.calls();
    let files = match changed_files(runner, range) {
        Ok(f) => f,
        Err(e) => {
            assert(runner.calls().take(c0.len() as int) =~= c0);
            return Err(e);
        },
    };
    let ghost c1 = runner.calls();
    let ghost base = c0.len() + 1;
    let mut symbols: Vec<String> = Vec::new();
    let mut i: usize = 0;
    proof {
        assert(runner.calls().skip(base as int) =~= Seq::<Call>::empty());
        assert(runner.calls().skip(base as int).map_values(|x: Call| hv_json(x.out)) =~= Seq::<
            Result<Json, Seq<char>>,
        >::empty());
    }
    while i < files.len()
        invariant
            i <= files@.len(),
            runner.calls().len() == base + i,
            runner.calls().take(base as int) == c1,
            c1.len() == base,
            forall|k: int|
                0 <= k < i ==> #[trigger] runner.calls()[base + k].argv == seq![
                    "hayven"@,
                    "query"@,
                    query_term(files@[k]@),
                    "--json"@,
                ],
            string_views(symbols@) == symbols_from(
                runner.calls().skip(base as int).map_values(|x: Call| hv_json(x.out)),
            ),
        decreases files@.len() - i,
    {
        let stem = match path_file_stem(files[i].as_str()) {
            Some(s) => s,
            None => files[i].clone(),
        };
        let ghost before = runner.calls();
        let q = hv.query(runner, stem.as_str());
        proof {
            let after = runner.calls();
            assert(after.take(base as int) =~= before.take(base as int));
            assert forall|k: int| 0 <= k < i + 1 implies #[trigger] after[base + k].argv == seq![
                "hayven"@,
                "query"@,
                query_term(files@[k]@),
                "--json"@,
            ] by {
                if k < i {
                    assert(after[base + k] == before[base + k]);
                }
            }
            let m = after.skip(base as int).map_values(|x: Call| hv_json(x.out));
            assert(m.drop_last() =~= before.skip(base as int).map_values(|x: Call| hv_json(x.out)));
            assert(m.last() == hv_json(after.last().out));
        }
        match q {
            Ok(v) => {
                let ids = extract_ids(&v);
                add_new_exec(&mut symbols, ids);
            },
            Err(_) => {},
        }
        i = i + 1;
    }
    proof {
        let c = runner.calls();
        assert(c.take(c0.len() as int) =~= c0);
        assert(c[c0.len() as int] == c1.last());
    }
    Ok(symbols)
}


/// Deduplication keeps each id once and loses none: from a list without
/// repeats, `add_new` gives a list without repeats holding exactly the ids of
/// both.
pub proof fn law_add_new_dedups(acc: Seq<Seq<char>>, ids: Seq<Seq<char>>)
    requires
        acc.no_duplicates(),
    ensures
        add_new(acc, ids).no_duplicates(),
        forall|x: Seq<char>| #[trigger] add_new(acc, ids).contains(x) <==> (acc.contains(x) || ids.contains(x)),
    decreases ids.len(),
{
    if ids.len() > 0 {
        law_add_new_dedups(acc, ids.drop_last());
        let a = add_new(acc, ids.drop_last());
        let x = ids.last();
        assert forall|y: Seq<char>| #[trigger] add_new(acc, ids).contains(y) <==> (acc.contains(y)
            || ids.contains(y)) by {
            if ids.drop_last().contains(y) {
                let k = choose|k: int| 0 <= k < ids.drop_last().len() && ids.drop_last()[k] == y;
                assert(ids[k] == y);
            }
            if ids.contains(y) && y != x {
                let k = choose|k: int| 0 <= k < ids.len() && ids[k] == y;
                assert(k < ids.len() - 1);
                assert(ids.drop_last()[k] == y);
            }
            if !a.contains(x) {
                if a.push(x).contains(y) && y != x {
                    let k = choose|k: int| 0 <= k < a.push(x).len() && a.push(x)[k] == y;
                    assert(a[k] == y);
                }
                if y == x {
                    assert(a.push(x)[a.len() as int] == x);
                }
                if a.contains(y) {
                    let k = choose|k: int| 0 <= k < a.len() && a[k] == y;
                    assert(a.push(x)[k] == y);
                }
            }
            if ids.contains(y) && y == x {
                assert(ids[ids.len() - 1] == y);
            }
        }
        if !a.contains(x) {
            assert forall|i: int, j: int| 0 <= i < j < a.push(x).len() implies a.push(x)[i] != a.push(x)[j] by {
                if j == a.len() {
                    assert(a.push(x)[i] == a[i]);
                }
            }
        }
    }
}

} // verus!
