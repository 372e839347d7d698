//! Workspace discovery.
//!
//! Sirius sits beside `.ametrite/` and `.hayven/`. We walk up from the cwd to
//! find them, and place `.sirius/` next to `.ametrite/` when it exists (else
//! in the cwd). The walk NEVER examines `$HOME` or anything above it: both
//! parents keep their GLOBAL state at `~/.ametrite` and `~/.hayven`, which
//! are tool installations, not workspace markers.
use vstd::prelude::*;

verus! {

/// What `Path::new(base).join(rel)` gives.
pub uninterp spec fn joined(base: Seq<char>, rel: Seq<char>) -> Seq<char>;

/// What `Path::new(p).parent()` gives.
pub uninterp spec fn parent_of(p: Seq<char>) -> Option<Seq<char>>;

/// What `Path::new(a) == Path::new(b)` says (paths compare by components).
pub uninterp spec fn same_path(a: Seq<char>, b: Seq<char>) -> bool;

/// `Path::join`, as text.
#[verifier::external_body]
fn path_join(base: &str, rel: &str) -> (r: String)
    ensures
        r@ == joined(base@, rel@),
{
    std::path::Path::new(base).join(rel).to_string_lossy().into_owned()
}

/// `Path::parent`, as text: the path without its final component, which is
/// shorter than the path.
#[verifier::external_body]
fn path_parent(p: &str) -> (r: Option<String>)
    ensures
        match r {
            Some(q) => parent_of(p@) == Some(q@) && q@.len() < p@.len(),
            None => parent_of(p@) is None,
        },
{
    std::path::Path::new(p).parent().map(|q| q.to_string_lossy().into_owned())
}

/// `Path == Path`.
#[verifier::external_body]
fn paths_equal(a: &str, b: &str) -> (r: bool)
    ensures
        r == same_path(a@, b@),
{
    std::path::Path::new(a) == std::path::Path::new(b)
}

/// `Path::is_dir`: what is on disk now; nothing is claimed of it.
#[verifier::external_body]
fn is_dir(p: &str) -> bool {
    std::path::Path::new(p).is_dir()
}

/// `Path::is_file`: what is on disk now; nothing is claimed of it.
#[verifier::external_body]
fn is_file(p: &str) -> bool {
    std::path::Path::new(p).is_file()
}

/// The `k`th directory up from `start` (`start` itself for 0).
pub open spec fn ancestor(start: Seq<char>, k: nat) -> Option<Seq<char>>
    decreases k,
{
    if k == 0 {
        Some(start)
    } else {
        match ancestor(start, (k - 1) as nat) {
            Some(d) => parent_of(d),
            None => None,
        }
    }
}

/// The first `k + 1` directories up from `start` all exist and none of them
/// is `home`.
pub open spec fn below_home(start: Seq<char>, home: Option<Seq<char>>, k: nat) -> bool {
    forall|j: nat|
        j <= k ==> (#[trigger] ancestor(start, j)) is Some && !(home matches Some(h) && same_path(
            ancestor(start, j).unwrap(),
            h,
        ))
}

/// What a walk found: `rel` joined to a directory at or above `start` and
/// strictly below `home`.
pub open spec fn found_below_home(
    found: Seq<char>,
    start: Seq<char>,
    rel: Seq<char>,
    home: Option<Seq<char>>,
) -> bool {
    exists|k: nat|
        below_home(start, home, k) && found == joined(#[trigger] ancestor(start, k).unwrap(), rel)
}

/// One look at the disk: the path asked about, whether a directory (else a
/// file) was wanted, and the answer.
pub type Probe = (Seq<char>, bool, bool);

/// Asks the disk whether a path is a directory or a file, and keeps a ghost
/// record of every question and answer, in order.
pub struct DiskProbe {
    pub log: Ghost<Seq<Probe>>,
}

impl DiskProbe {
    /// A probe that has asked nothing yet.
    pub fn new() -> (p: DiskProbe)
        ensures
            p.log@ == Seq::<Probe>::empty(),
    {
        DiskProbe { log: Ghost(Seq::empty()) }
    }

    /// `Path::is_dir` (`want_dir`) or `Path::is_file` on `path`; the
    /// question and its answer are appended to the record.
    pub fn has(&mut self, path: &str, want_dir: bool) -> (r: bool)
        ensures
            final(self).log@ == old(self).log@.push((path@, want_dir, r)),
    {
        let r = if want_dir {
            is_dir(path)
        } else {
            is_file(path)
        };
        proof {
            self.log@ = self.log@.push((path@, want_dir, r));
        }
        r
    }
}

/// A walk up from `start` for `rel` asked the disk exactly `probes`, and
/// returned `r`: the `j`th question is about `rel` joined to the `j`th
/// directory up from `start`, which is strictly below `home`, asked for the
/// wanted kind; every question but the last was answered no; the walk
/// returned the last path asked about when its answer was yes, and nothing
/// otherwise, and then only because the next directory up does not exist or
/// is `home`.
pub open spec fn walked(
    start: Seq<char>,
    rel: Seq<char>,
    want_dir: bool,
    home: Option<Seq<char>>,
    probes: Seq<Probe>,
    r: Option<Seq<char>>,
) -> bool {
    &&& forall|j: int|
        0 <= j < probes.len() ==> below_home(start, home, j as nat) && (#[trigger] probes[j]).0 == joined(
            ancestor(start, j as nat).unwrap(),
            rel,
        ) && probes[j].1 == want_dir
    &&& forall|j: int| 0 <= j < probes.len() - 1 ==> !(#[trigger] probes[j]).2
    &&& match r {
        Some(c) => probes.len() > 0 && probes.last().2 && c == probes.last().0,
        None => (probes.len() == 0 || !probes.last().2) && (ancestor(start, probes.len()) is None || (
        home matches Some(h) && same_path(ancestor(start, probes.len()).unwrap(), h))),
    }
}

/// An optional text, taken by its view.
pub open spec fn str_opt_view(o: Option<&str>) -> Option<Seq<char>> {
    match o {
        Some(h) => Some(h@),
        None => None,
    }
}

/// An optional string, taken by its view.
pub open spec fn string_opt_view(o: Option<String>) -> Option<Seq<char>> {
    match o {
        Some(c) => Some(c@),
        None => None,
    }
}

/// Walk up from `start`, asking `probe` for the first `<dir>/<rel>` of the
/// right kind (`want_dir` selects directory vs file — a stray FILE named
/// `.hayven` is not a workspace). The walk stops BEFORE examining `home` or
/// anything above it.
pub fn walk_up_with(
    probe: &mut DiskProbe,
    start: &str,
    rel: &str,
    want_dir: bool,
    home: Option<&str>,
) -> (r: Option<String>)
    ensures
        final(probe).log@.take(old(probe).log@.len() as int) == old(probe).log@,
        final(probe).log@.len() >= old(probe).log@.len(),
        walked(
            start@,
            rel@,
            want_dir,
            match home {
                Some(h) => Some(h@),
                None => None,
            },
            final(probe).log@.skip(old(probe).log@.len() as int),
            match r {
                Some(c) => Some(c@),
                None => None,
            },
        ),
{
    let ghost hv = match home {
        Some(h) => Some(h@),
        None => None::<Seq<char>>,
    };
    let ghost log0 = probe.log@;
    let mut dir: String = crate::text::str_of(start);
    let ghost mut k: nat = 0;
    loop
        invariant
            ancestor(start@, k) == Some(dir@),
            k > 0 ==> below_home(start@, hv, (k - 1) as nat),
            hv == match home {
                Some(h) => Some(h@),
                None => None::<Seq<char>>,
            },
            log0 == old(probe).log@,
            probe.log@.len() == log0.len() + k,
            probe.log@.take(log0.len() as int) == log0,
            forall|j: int|
                0 <= j < k ==> below_home(start@, hv, j as nat) && (#[trigger] probe.log@[log0.len() + j]).0
                    == joined(ancestor(start@, j as nat).unwrap(), rel@) && probe.log@[log0.len() + j].1
                    == want_dir && !probe.log@[log0.len() + j].2,
        decreases dir@.len(),
    {
        let ghost before = probe.log@;
        proof {
            let nw = before.skip(log0.len() as int);
            assert forall|j: int| 0 <= j < nw.len() implies below_home(start@, hv, j as nat)
                && (#[trigger] nw[j]).0 == joined(ancestor(start@, j as nat).unwrap(), rel@) && nw[j].1
                == want_dir && !nw[j].2 by {
                assert(nw[j] == before[log0.len() + j]);
            }
        }
        let at_home = match home {
            Some(h) => paths_equal(dir.as_str(), h),
            None => false,
        };
        if at_home {
            return None;
        }
        proof {
            assert forall|j: nat| j <= k implies (#[trigger] ancestor(start@, j)) is Some && !(hv matches Some(h)
                && same_path(ancestor(start@, j).unwrap(), h)) by {
                if j < k {
                    assert(below_home(start@, hv, (k - 1) as nat));
                }
            }
        }
        let candidate = path_join(dir.as_str(), rel);
        let kind_ok = probe.has(candidate.as_str(), want_dir);
        proof {
            let nw = probe.log@.skip(log0.len() as int);
            assert(probe.log@.take(log0.len() as int) =~= log0);
            assert forall|j: int| 0 <= j < nw.len() implies below_home(start@, hv, j as nat)
                && (#[trigger] nw[j]).0 == joined(ancestor(start@, j as nat).unwrap(), rel@) && nw[j].1
                == want_dir by {
                assert(nw[j] == probe.log@[log0.len() + j]);
                if j < k {
                    assert(probe.log@[log0.len() + j] == before[log0.len() + j]);
                }
            }
            assert forall|j: int| 0 <= j < nw.len() - 1 implies !(#[trigger] nw[j]).2 by {
                assert(nw[j] == probe.log@[log0.len() + j]);
                assert(probe.log@[log0.len() + j] == before[log0.len() + j]);
            }
            assert(nw.last() == (candidate@, want_dir, kind_ok));
        }
        if kind_ok {
            return Some(candidate);
        }
        match path_parent(dir.as_str()) {
            Some(p) => {
                proof {
                    assert forall|j: int| 0 <= j < k + 1 implies below_home(start@, hv, j as nat)
                        && (#[trigger] probe.log@[log0.len() + j]).0 == joined(
                        ancestor(start@, j as nat).unwrap(),
                        rel@,
                    ) && probe.log@[log0.len() + j].1 == want_dir && !probe.log@[log0.len() + j].2 by {
                        let nw = probe.log@.skip(log0.len() as int);
                        assert(nw[j] == probe.log@[log0.len() + j]);
                        if j < k {
                            assert(probe.log@[log0.len() + j] == before[log0.len() + j]);
                        }
                    }
                    k = k + 1;
                }
                dir = p;
            },
            None => {
                return None;
            },
        }
    }
}

/// Walk up from `start`, returning the first `<dir>/<rel>` of the right kind
/// (`want_dir` selects directory vs file — a stray FILE named `.hayven` is not
/// a workspace). The walk stops BEFORE examining `home` or anything above it.
/// What the disk answered is left open; the walk is the one [`walked`]
/// describes for some sequence of answers.
pub fn walk_up(start: &str, rel: &str, want_dir: bool, home: Option<&str>) -> (r: Option<String>)
    ensures
        r matches Some(c) ==> found_below_home(
            c@,
            start@,
            rel@,
            match home {
                Some(h) => Some(h@),
                None => None,
            },
        ),
        exists|probes: Seq<Probe>|
            #[trigger] walked(start@, rel@, want_dir, str_opt_view(home), probes, string_opt_view(r)),
{
    let mut probe = DiskProbe::new();
    let r = walk_up_with(&mut probe, start, rel, want_dir, home);
    proof {
        let probes = probe.log@.skip(0);
        assert(probe.log@.skip(0) =~= probe.log@);
        if r is Some {
            let k = (probes.len() - 1) as nat;
            assert(probes[k as int] == probes.last());
        }
    }
    r
}

/// The walk returns the nearest match. When `start` is not `home`, its first
/// question is about `<start>/<rel>`, and when that answer is yes the walk
/// returns `<start>/<rel>`; a walk that returns nothing was answered no at
/// every directory it asked about.
pub proof fn law_walk_finds_nearest(
    start: Seq<char>,
    rel: Seq<char>,
    want_dir: bool,
    home: Option<Seq<char>>,
    probes: Seq<Probe>,
    r: Option<Seq<char>>,
)
    requires
        walked(start, rel, want_dir, home, probes, r),
        !(home matches Some(h) && same_path(start, h)),
    ensures
        probes.len() >= 1,
        probes[0].0 == joined(start, rel),
        probes[0].1 == want_dir,
        probes[0].2 ==> r == Some(joined(start, rel)),
        r is None ==> forall|j: int| 0 <= j < probes.len() ==> !(#[trigger] probes[j]).2,
{
    assert(ancestor(start, 0) == Some(start));
    if probes.len() == 0 {
        assert(r is None);
        assert(false);
    }
    assert(probes[0].0 == joined(ancestor(start, 0).unwrap(), rel));
    if probes[0].2 && probes.len() > 1 {
        assert(!probes[0].2);
    }
}

/// Locations Sirius cares about, resolved once.
#[derive(Debug, Clone)]
pub struct Workspace {
    /// Directory that will hold (or holds) `.sirius/`.
    pub root: String,
    /// `.ametrite/ametrite.db` if found by walking up.
    pub ametrite_db: Option<String>,
    /// `.hayven/` directory if found by walking up.
    pub hayven_dir: Option<String>,
}

impl Workspace {
    /// Discover from a starting directory with the walk bounded by `home`:
    /// `.sirius/` roots at the directory holding `.ametrite/` when one is
    /// found, else at `start`.
    pub fn discover_bounded(start: &str, home: Option<&str>) -> (ws: Workspace)
        ensures
            ({
                let hv = match home {
                    Some(h) => Some(h@),
                    None => None::<Seq<char>>,
                };
                &&& ws.ametrite_db matches Some(d) ==> found_below_home(
                    d@,
                    start@,
                    ".ametrite/ametrite.db"@,
                    hv,
                )
                &&& ws.hayven_dir matches Some(d) ==> found_below_home(d@, start@, ".hayven"@, hv)
                &&& exists|p: Seq<Probe>|
                    #[trigger] walked(
                        start@,
                        ".ametrite/ametrite.db"@,
                        false,
                        str_opt_view(home),
                        p,
                        string_opt_view(ws.ametrite_db),
                    )
                &&& exists|p: Seq<Probe>|
                    #[trigger] walked(start@, ".hayven"@, true, str_opt_view(home), p, string_opt_view(ws.hayven_dir))
                &&& ws.root@ == match ws.ametrite_db {
                    Some(d) => match parent_of(d@) {
                        Some(p) => match parent_of(p) {
                            Some(q) => q,
                            None => start@,
                        },
                        None => start@,
                    },
                    None => start@,
                }
            }),
    {
        let ametrite_db = walk_up(start, ".ametrite/ametrite.db", false, home);
        let hayven_dir = walk_up(start, ".hayven", true, home);
        let root = match &ametrite_db {
            Some(d) => match path_parent(d.as_str()) {
                Some(p) => match path_parent(p.as_str()) {
                    Some(q) => q,
                    None => crate::text::str_of(start),
                },
                None => crate::text::str_of(start),
            },
            None => crate::text::str_of(start),
        };
        Workspace { root, ametrite_db, hayven_dir }
    }

    /// `<root>/.sirius`.
    pub fn sirius_dir(&self) -> (p: String)
        ensures
            p@ == joined(self.root@, ".sirius"@),
    {
        path_join(self.root.as_str(), ".sirius")
    }

    /// `<root>/.sirius/sirius.db`.
    pub fn ledger_path(&self) -> (p: String)
        ensures
            p@ == joined(joined(self.root@, ".sirius"@), "sirius.db"@),
    {
        let d = self.sirius_dir();
        path_join(d.as_str(), "sirius.db")
    }

    /// `<root>/.sirius/config.json`.
    pub fn config_path(&self) -> (p: String)
        ensures
            p@ == joined(joined(self.root@, ".sirius"@), "config.json"@),
    {
        let d = self.sirius_dir();
        path_join(d.as_str(), "config.json")
    }
}

} // verus!
