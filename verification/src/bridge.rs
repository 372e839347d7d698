//! The Bridge — `sirius link` and `sirius why`.
//!
//! Two-way provenance:
//!   * Forward: `amt issue comment` names the entity ids touched.
//!   * Reverse: `hayven remember --kind decision --node <id> --scope <ids>` on
//!     each touched node, naming the AMT-n / D-n reference.
//!
//! `sirius why <symbol>` recalls fleet memory for the node and resolves the
//! AMT-n / D-n references. `sirius why AMT-n` reads the issue activity.
use vstd::prelude::*;
use crate::amt::{amt_json, amt_unit, comment_argv, opt_str, Amt};
use crate::hayven::{hv_json, hv_unit, remember_argv, Hayven};
use crate::ledger::Ledger;
use crate::shell::{all_run, one_call, Call, Runner};
use crate::gitrange::{add_new, add_new_exec, contains_string};
use crate::json::{as_array, as_str, get, get_str, parsed, Json};
use crate::text::{
    is_ws, lemma_find_first, lemma_one_line, lemma_split_after, lemma_split_plain, lemma_trim_plain,
    chars_of, contains, dec, find, find_chars, join, join_strings, lines, lines_of, push_char,
    push_str, split_char, split_chars, str_contains, str_eq, str_of, string_of, string_views,
    strip_all_prefix, strip_all_prefix_chars, trim, trim_chars, u64_str, views,
};

verus! {

/// What kind of thing a link stamps.
#[derive(Debug, Clone, Copy, PartialEq, Eq, Structural)]
pub enum LinkKind {
    Issue,
    Decision,
}

pub open spec fn kind_name(k: LinkKind) -> Seq<char> {
    match k {
        LinkKind::Issue => "issue"@,
        LinkKind::Decision => "decision"@,
    }
}

impl LinkKind {
    pub fn as_str(&self) -> (r: &'static str)
        ensures
            r@ == kind_name(*self),
    {
        match self {
            LinkKind::Issue => "issue",
            LinkKind::Decision => "decision",
        }
    }
}

/// The forward comment: `sirius: <ref> touches <n> entit(y|ies) — a, b`.
pub open spec fn forward_body(reference: Seq<char>, symbols: Seq<Seq<char>>) -> Seq<char> {
    "sirius: "@ + reference + " touches "@ + dec(symbols.len()) + " entit"@ + (if symbols.len()
        == 1 {
        "y"@
    } else {
        "ies"@
    }) + " — "@ + join(symbols, ", "@)
}

/// Compose the forward comment body naming the stamped entities.
pub fn forward_comment_body(reference: &str, symbols: &[String]) -> (r: String)
    ensures
        r@ == forward_body(reference@, string_views(symbols@)),
{
    let mut r = str_of("sirius: ");
    push_str(&mut r, reference);
    push_str(&mut r, " touches ");
    let n = u64_str(symbols.len() as u64);
    push_str(&mut r, n.as_str());
    push_str(&mut r, " entit");
    if symbols.len() == 1 {
        push_str(&mut r, "y");
    } else {
        push_str(&mut r, "ies");
    }
    push_str(&mut r, " — ");
    let j = join_strings(symbols, ", ");
    push_str(&mut r, j.as_str());
    r
}

/// The reverse fleet-memory note: `Governed by <ref> (recorded by sirius link)`.
pub open spec fn reverse_note(reference: Seq<char>) -> Seq<char> {
    "Governed by "@ + reference + " (recorded by sirius link)"@
}

/// Compose the reverse fleet-memory note naming the reference.
pub fn reverse_note_body(reference: &str) -> (r: String)
    ensures
        r@ == reverse_note(reference@),
{
    let mut r = str_of("Governed by ");
    push_str(&mut r, reference);
    push_str(&mut r, " (recorded by sirius link)");
    r
}

// ── reference extraction ────────────────────────────────────────────────────

/// What `Regex::new(pattern)` followed by `find_iter(text)` yields: the
/// matched substrings in order, or `None` when the pattern does not compile.
pub uninterp spec fn regex_find_all(pattern: Seq<char>, text: Seq<char>) -> Option<Seq<Seq<char>>>;

/// An ASCII capital letter.
pub open spec fn is_capital(c: char) -> bool {
    'A' <= c && c <= 'Z'
}

/// An ASCII digit.
pub open spec fn is_ascii_digit(c: char) -> bool {
    '0' <= c && c <= '9'
}

/// An ASCII character that is no word character (not a letter, a digit or
/// `_`): a space, punctuation, `-`, a control character.
pub open spec fn is_ascii_non_word(c: char) -> bool {
    &&& (c as u32) < 128
    &&& !is_capital(c)
    &&& !is_ascii_digit(c)
    &&& !('a' <= c && c <= 'z')
    &&& c != '_'
}

/// `t[i..j]` is a whole-word issue token: a capital, then one or more
/// capitals or digits up to the dash at `k`, then one or more digits; the
/// characters just before and just after it, where there are any, are ASCII
/// non-word characters.
pub open spec fn issue_token(t: Seq<char>, i: int, k: int, j: int) -> bool {
    &&& 0 <= i && i + 2 <= k && k + 2 <= j && j <= t.len()
    &&& is_capital(t[i])
    &&& forall|m: int| i < m < k ==> is_capital(#[trigger] t[m]) || is_ascii_digit(t[m])
    &&& t[k] == '-'
    &&& forall|m: int| k < m < j ==> is_ascii_digit(#[trigger] t[m])
    &&& (i == 0 || is_ascii_non_word(t[i - 1]))
    &&& (j == t.len() || is_ascii_non_word(t[j]))
}

/// `t[i..j]` is a whole-word decision token: `D-` and one or more digits; the
/// characters just before and just after it, where there are any, are ASCII
/// non-word characters.
pub open spec fn decision_token(t: Seq<char>, i: int, j: int) -> bool {
    &&& 0 <= i && i + 3 <= j && j <= t.len()
    &&& t[i] == 'D'
    &&& t[i + 1] == '-'
    &&& forall|m: int| i + 1 < m < j ==> is_ascii_digit(#[trigger] t[m])
    &&& (i == 0 || is_ascii_non_word(t[i - 1]))
    &&& (j == t.len() || is_ascii_non_word(t[j]))
}

/// `regex::Regex::new(pattern)` and `find_iter(text)`, each match taken as
/// its text. The result is the named one, and every match is a substring of
/// the text.
///
/// For the issue pattern `\b[A-Z][A-Z0-9]+-\d+\b` it also claims that the
/// pattern compiles and that every whole-word token of that shape is among
/// the matches. That follows from the crate's leftmost-first, non-overlapping
/// search: at the token's start the greedy match is exactly the token (the
/// digits run up to a non-word character, where `\b` holds), and no match
/// that starts earlier can reach into it, since the only non-word character
/// inside a match is its dash, which is followed by a digit, while the token
/// starts with a capital after a non-word character. The same holds, by the
/// same argument, of the decision pattern `\bD-\d+\b` and its `D-n` tokens.
#[verifier::external_body]
fn find_all(pattern: &str, text: &str) -> (r: Option<Vec<String>>)
    ensures
        match r {
            Some(v) => regex_find_all(pattern@, text@) == Some(string_views(v@)),
            None => regex_find_all(pattern@, text@) is None,
        },
        r matches Some(v) ==> forall|i: int| 0 <= i < v@.len() ==> contains(text@, #[trigger] v@[i]@),
        pattern@ == "\\b[A-Z][A-Z0-9]+-\\d+\\b"@ ==> (r matches Some(v) && forall|i: int, k: int, j: int|
            #[trigger] issue_token(text@, i, k, j) ==> string_views(v@).contains(text@.subrange(i, j))),
        pattern@ == "\\bD-\\d+\\b"@ ==> (r matches Some(v) && forall|i: int, j: int|
            #[trigger] decision_token(text@, i, j) ==> string_views(v@).contains(text@.subrange(i, j))),
{
    match regex::Regex::new(pattern) {
        Ok(re) => Some(re.find_iter(text).map(|m| m.as_str().to_string()).collect()),
        Err(_) => None,
    }
}

/// Issue references: any `<PREFIX>-n` token with a prefix of two or more
/// capitals and digits, so the single-letter `D-n` namespace never collides.
pub open spec fn issue_pattern() -> Seq<char> {
    "\\b[A-Z][A-Z0-9]+-\\d+\\b"@
}

/// Decision references: `D-n`.
pub open spec fn decision_pattern() -> Seq<char> {
    "\\bD-\\d+\\b"@
}

/// The distinct matches, first occurrence first (none when the pattern does
/// not compile).
pub open spec fn refs_of(found: Option<Seq<Seq<char>>>) -> Seq<Seq<char>> {
    match found {
        Some(ms) => add_new(seq![], ms),
        None => seq![],
    }
}

/// What was collected stays collected: every entry of `ids` is in
/// `add_new(acc, ids)`.
proof fn lemma_add_new_keeps(acc: Seq<Seq<char>>, ids: Seq<Seq<char>>, x: Seq<char>)
    requires
        ids.contains(x) || acc.contains(x),
    ensures
        add_new(acc, ids).contains(x),
    decreases ids.len(),
{
    if ids.len() > 0 {
        let a = add_new(acc, ids.drop_last());
        if x == ids.last() {
            if !a.contains(x) {
                assert(a.push(x)[a.len() as int] == x);
            }
        } else {
            let m = choose|m: int| 0 <= m < ids.len() && ids[m] == x || acc.contains(x);
            if !acc.contains(x) {
                assert(ids.drop_last()[m] == x);
            }
            lemma_add_new_keeps(acc, ids.drop_last(), x);
            if !a.contains(ids.last()) {
                let n = choose|n: int| 0 <= n < a.len() && a[n] == x;
                assert(a.push(ids.last())[n] == x);
            }
        }
    }
}

/// The distinct entries of `matches`, first occurrence first.
pub fn dedup_refs(matches: Vec<String>) -> (r: Vec<String>)
    ensures
        string_views(r@) == add_new(seq![], string_views(matches@)),
{
    let mut r: Vec<String> = Vec::new();
    assert(string_views(r@) =~= Seq::<Seq<char>>::empty());
    add_new_exec(&mut r, matches);
    r
}

/// Extract issue (`<PREFIX>-n`) and decision (`D-n`) references from free
/// text, each list deduplicated. Callers resolve each candidate against
/// Ametrite and drop anything that does not exist, so an over-match (such as
/// `UTF-8`) is harmless.
pub fn extract_refs(text: &str) -> (r: (Vec<String>, Vec<String>))
    ensures
        string_views(r.0@) == refs_of(regex_find_all(issue_pattern(), text@)),
        string_views(r.1@) == refs_of(regex_find_all(decision_pattern(), text@)),
        forall|i: int, k: int, j: int|
            #[trigger] issue_token(text@, i, k, j) ==> string_views(r.0@).contains(text@.subrange(i, j)),
        forall|i: int, j: int|
            #[trigger] decision_token(text@, i, j) ==> string_views(r.1@).contains(text@.subrange(i, j)),
{
    let none: Vec<String> = Vec::new();
    assert(string_views(none@) =~= Seq::<Seq<char>>::empty());
    let issues = match find_all("\\b[A-Z][A-Z0-9]+-\\d+\\b", text) {
        Some(ms) => {
            let ghost found = string_views(ms@);
            let d = dedup_refs(ms);
            proof {
                assert forall|x: Seq<char>| found.contains(x) implies string_views(d@).contains(x) by {
                    lemma_add_new_keeps(seq![], found, x);
                }
            }
            d
        },
        None => none,
    };
    let none: Vec<String> = Vec::new();
    assert(string_views(none@) =~= Seq::<Seq<char>>::empty());
    let decisions = match find_all("\\bD-\\d+\\b", text) {
        Some(ms) => {
            let ghost found = string_views(ms@);
            let d = dedup_refs(ms);
            proof {
                assert forall|x: Seq<char>| found.contains(x) implies string_views(d@).contains(x) by {
                    lemma_add_new_keeps(seq![], found, x);
                }
            }
            d
        },
        None => none,
    };
    (issues, decisions)
}

// ── symbols named in forward comments ───────────────────────────────────────

/// The entity names a forward-comment line lists after its ` — `, when the
/// text before it mentions `sirius:` and `entit`; trimmed, in order.
pub open spec fn line_symbols(line: Seq<char>) -> Seq<Seq<char>> {
    match find(line, " — "@) {
        None => seq![],
        Some(idx) => {
            let head = line.take(idx);
            let tail = line.skip(idx);
            if contains(head, "sirius:"@) && contains(head, "entit"@) {
                split_char(strip_all_prefix(tail, " — "@), ',').map_values(|p: Seq<char>| trim(p))
            } else {
                seq![]
            }
        },
    }
}

/// The candidate names of each line, in order.
pub open spec fn comment_pieces(ls: Seq<Seq<char>>) -> Seq<Seq<char>>
    decreases ls.len(),
{
    if ls.len() == 0 {
        seq![]
    } else {
        comment_pieces(ls.drop_last()) + line_symbols(ls.last())
    }
}

/// `acc` extended by each non-empty name of `items` it does not hold yet.
pub open spec fn keep_symbols(acc: Seq<Seq<char>>, items: Seq<Seq<char>>) -> Seq<Seq<char>>
    decreases items.len(),
{
    if items.len() == 0 {
        acc
    } else {
        let a = keep_symbols(acc, items.drop_last());
        let x = items.last();
        if x.len() > 0 && !a.contains(x) {
            a.push(x)
        } else {
            a
        }
    }
}

/// A join of parts that hold no `c`, by a separator that holds none, holds
/// none.
proof fn lemma_join_free(parts: Seq<Seq<char>>, sep: Seq<char>, c: char)
    requires
        forall|k: int, j: int| 0 <= k < parts.len() && 0 <= j < parts[k].len() ==> parts[k][j] != c,
        forall|j: int| 0 <= j < sep.len() ==> sep[j] != c,
    ensures
        forall|j: int| 0 <= j < join(parts, sep).len() ==> join(parts, sep)[j] != c,
    decreases parts.len(),
{
    if parts.len() >= 2 {
        let d = parts.drop_last();
        assert forall|k: int, j: int| 0 <= k < d.len() && 0 <= j < d[k].len() implies d[k][j] != c by {
            assert(d[k] == parts[k]);
        }
        lemma_join_free(d, sep, c);
        let a = join(d, sep);
        let l = parts.last();
        assert forall|j: int| 0 <= j < join(parts, sep).len() implies join(parts, sep)[j] != c by {
            if j < a.len() {
                assert(join(parts, sep)[j] == a[j]);
            } else if j < a.len() + sep.len() {
                assert(join(parts, sep)[j] == sep[j - a.len()]);
            } else {
                assert(join(parts, sep)[j] == l[j - a.len() - sep.len()]);
                assert(l == parts[parts.len() - 1]);
            }
        }
    } else if parts.len() == 1 {
        assert(join(parts, sep) == parts[0]);
    }
}

/// A join starts as its first part does.
proof fn lemma_join_first(parts: Seq<Seq<char>>, sep: Seq<char>)
    requires
        parts.len() >= 1,
        parts[0].len() > 0,
    ensures
        join(parts, sep).len() > 0,
        join(parts, sep)[0] == parts[0][0],
    decreases parts.len(),
{
    if parts.len() >= 2 {
        let d = parts.drop_last();
        assert(d[0] == parts[0]);
        lemma_join_first(d, sep);
    }
}

/// The joined names split back at the commas: the first as it was, each
/// later one after the space of the separator.
proof fn lemma_split_join(syms: Seq<Seq<char>>)
    requires
        syms.len() >= 1,
        forall|k: int, j: int| 0 <= k < syms.len() && 0 <= j < syms[k].len() ==> syms[k][j] != ',',
    ensures
        split_char(join(syms, ", "@), ',') == Seq::new(
            syms.len(),
            |i: int|
                if i == 0 {
                    syms[0]
                } else {
                    seq![' '] + syms[i]
                },
        ),
    decreases syms.len(),
{
    reveal_strlit(", ");
    if syms.len() == 1 {
        assert forall|j: int| 0 <= j < syms[0].len() implies syms[0][j] != ',' by {}
        lemma_split_plain(syms[0], ',');
        assert(seq![syms[0]] =~= Seq::new(
            1,
            |i: int|
                if i == 0 {
                    syms[0]
                } else {
                    seq![' '] + syms[i]
                },
        ));
    } else {
        let d = syms.drop_last();
        assert forall|k: int, j: int| 0 <= k < d.len() && 0 <= j < d[k].len() implies d[k][j] != ',' by {
            assert(d[k] == syms[k]);
        }
        lemma_split_join(d);
        let l = syms[syms.len() - 1];
        let y = seq![' '] + l;
        assert forall|j: int| 0 <= j < y.len() implies y[j] != ',' by {
            if j > 0 {
                assert(y[j] == l[j - 1]);
            }
        }
        assert(join(syms, ", "@) =~= join(d, ", "@) + seq![','] + y);
        lemma_split_after(join(d, ", "@), y, ',');
        assert(Seq::new(
            d.len(),
            |i: int|
                if i == 0 {
                    d[0]
                } else {
                    seq![' '] + d[i]
                },
        ).push(y) =~= Seq::new(
            syms.len(),
            |i: int|
                if i == 0 {
                    syms[0]
                } else {
                    seq![' '] + syms[i]
                },
        ));
    }
}

/// Distinct non-empty names are each kept, in order.
proof fn lemma_keep_all(syms: Seq<Seq<char>>)
    requires
        syms.no_duplicates(),
        forall|k: int| 0 <= k < syms.len() ==> (#[trigger] syms[k]).len() > 0,
    ensures
        keep_symbols(seq![], syms) == syms,
    decreases syms.len(),
{
    if syms.len() > 0 {
        let d = syms.drop_last();
        assert forall|i: int, j: int| 0 <= i < d.len() && 0 <= j < d.len() && i != j implies d[i] != d[j] by {
            assert(d[i] == syms[i] && d[j] == syms[j]);
        }
        assert forall|k: int| 0 <= k < d.len() implies (#[trigger] d[k]).len() > 0 by {
            assert(d[k] == syms[k]);
        }
        lemma_keep_all(d);
        assert(syms.last().len() > 0);
        assert(!d.contains(syms.last())) by {
            if d.contains(syms.last()) {
                let i = choose|i: int| 0 <= i < d.len() && d[i] == syms.last();
                assert(d[i] == syms[i]);
                assert(syms[i] == syms[syms.len() - 1]);
            }
        }
        assert(d.push(syms.last()) =~= syms);
    } else {
        assert(syms =~= Seq::<Seq<char>>::empty());
    }
}

/// A forward comment reads back as the names it was written with: for a
/// reference with no line break that, set between the blanks around it,
/// forms no ` — ` (so the list's separator is the first), and distinct names
/// that are non-empty, hold no comma and no line break, and have no blank at
/// either end, the symbols extracted from the comment are the names, in
/// order.
pub proof fn law_forward_comment_round_trip(reference: Seq<char>, symbols: Seq<Seq<char>>)
    requires
        forall|i: int| 0 <= i < reference.len() ==> reference[i] != '\n',
        !contains(seq![' '] + reference + seq![' '], " — "@),
        symbols.no_duplicates(),
        forall|k: int|
            0 <= k < symbols.len() ==> (#[trigger] symbols[k]).len() > 0 && !is_ws(symbols[k][0]) && !is_ws(
                symbols[k].last(),
            ),
        forall|k: int, j: int|
            0 <= k < symbols.len() && 0 <= j < symbols[k].len() ==> symbols[k][j] != ',' && symbols[k][j] != '\n',
    ensures
        keep_symbols(seq![], comment_pieces(lines(forward_body(reference, symbols)))) == symbols,
{
    reveal_strlit("sirius: ");
    reveal_strlit(" touches ");
    reveal_strlit(" entit");
    reveal_strlit("y");
    reveal_strlit("ies");
    reveal_strlit(" — ");
    reveal_strlit(", ");
    reveal_strlit("sirius:");
    reveal_strlit("entit");
    let n = symbols.len();
    crate::ledger::lemma_dec_digits(n);
    let dn = dec(n);
    let suf = if n == 1 {
        "y"@
    } else {
        "ies"@
    };
    let a = "sirius: "@;
    let p = a + reference + " touches "@ + dn;
    let h = p + " entit"@ + suf;
    let sep = " — "@;
    let jn = join(symbols, ", "@);
    let t = forward_body(reference, symbols);
    assert(t == h + sep + jn);
    assert forall|i: int| 0 <= i < h.len() implies h[i] != '\n' && (h[i] == '—' ==> 8 <= i < 8
        + reference.len()) by {
        if i < 8 {
            assert(h[i] == a[i]);
        } else if i < 8 + reference.len() {
            assert(h[i] == reference[i - 8]);
        } else if i < 17 + reference.len() {
            assert(h[i] == " touches "@[i - 8 - reference.len()]);
        } else if i < p.len() {
            assert(h[i] == dn[i - 17 - reference.len()]);
            assert(crate::ledger::is_digit(dn[i - 17 - reference.len()]));
        } else if i < p.len() + 6 {
            assert(h[i] == " entit"@[i - p.len()]);
        } else {
            assert(h[i] == suf[i - p.len() - 6]);
        }
    }
    lemma_join_free(symbols, ", "@, '\n');
    assert forall|i: int| 0 <= i < t.len() implies t[i] != '\n' by {
        if i < h.len() {
            assert(t[i] == h[i]);
        } else if i < h.len() + 3 {
            assert(t[i] == sep[i - h.len()]);
        } else {
            assert(t[i] == jn[i - h.len() - 3]);
        }
    }
    lemma_one_line(t);
    assert(seq![t].drop_last() =~= Seq::<Seq<char>>::empty());
    assert(seq![t].last() == t);
    assert(comment_pieces(Seq::<Seq<char>>::empty()) == Seq::<Seq<char>>::empty());
    assert(comment_pieces(seq![t]) =~= Seq::<Seq<char>>::empty() + line_symbols(t));
    assert(comment_pieces(lines(t)) =~= line_symbols(t));
    let k = h.len() as int;
    assert(t.subrange(k, k + 3) =~= sep);
    let u = seq![' '] + reference + seq![' '];
    assert forall|i: int| 0 <= i < k implies !crate::text::occurs_at(t, sep, i) by {
        if crate::text::occurs_at(t, sep, i) {
            assert(t.subrange(i, i + 3)[0] == t[i]);
            assert(t.subrange(i, i + 3)[1] == t[i + 1]);
            assert(t.subrange(i, i + 3)[2] == t[i + 2]);
            assert(sep[0] == ' ' && sep[1] == '—' && sep[2] == ' ');
            if i + 1 < k {
                assert(t[i + 1] == h[i + 1]);
                assert(8 <= i + 1 < 8 + reference.len());
                assert(t[i] == h[i]);
                assert(t[i] == u[i - 7]) by {
                    if i == 7 {
                        assert(h[7] == a[7]);
                    } else {
                        assert(h[i] == reference[i - 8]);
                    }
                }
                assert(t[i + 1] == u[i - 6]) by {
                    assert(h[i + 1] == reference[i - 7]);
                }
                assert(t[i + 2] == u[i - 5]) by {
                    if i + 2 < 8 + reference.len() {
                        assert(t[i + 2] == h[i + 2]);
                        assert(h[i + 2] == reference[i - 6]);
                    } else {
                        assert(t[i + 2] == h[i + 2]);
                        assert(h[i + 2] == " touches "@[0]);
                    }
                }
                assert(u.subrange(i - 7, i - 4) =~= sep);
                assert(crate::text::occurs_at(u, sep, i - 7));
            } else {
                assert(t[i + 1] == sep[0]);
            }
        }
    }
    lemma_find_first(t, sep, k);
    let head = t.take(k);
    let tail = t.skip(k);
    assert(head =~= h);
    assert(h.subrange(0, 7) =~= "sirius:"@);
    assert(crate::text::occurs_at(h, "sirius:"@, 0));
    let e0 = p.len() + 1int;
    assert(h.subrange(e0, e0 + 5) =~= "entit"@);
    assert(crate::text::occurs_at(h, "entit"@, e0));
    assert(tail =~= sep + jn);
    assert(tail.take(3) =~= sep);
    assert(tail.skip(3) =~= jn);
    assert(strip_all_prefix(tail, sep) == strip_all_prefix(jn, sep));
    let ls = line_symbols(t);
    if n == 0 {
        assert(jn =~= Seq::<char>::empty());
        assert(strip_all_prefix(jn, sep) == jn);
        assert(split_char(jn, ',') == seq![Seq::<char>::empty()]);
        assert(ls.len() == 1);
        assert(trim(Seq::<char>::empty()) == Seq::<char>::empty());
        assert(ls[0] == trim(Seq::<char>::empty()));
        assert(ls =~= seq![Seq::<char>::empty()]);
        assert(ls.drop_last() =~= Seq::<Seq<char>>::empty());
        assert(symbols =~= Seq::<Seq<char>>::empty());
        assert(keep_symbols(seq![], ls.drop_last()) == Seq::<Seq<char>>::empty());
        assert(ls.last().len() == 0);
        assert(keep_symbols(seq![], ls) == symbols);
    } else {
        lemma_join_first(symbols, ", "@);
        assert(!is_ws(jn[0]));
        assert(crate::text::is_ws(sep[0])) by {
            assert((sep[0] as u32) == 0x20);
        }
        if jn.len() >= 3 {
            assert(jn.take(3)[0] == jn[0]);
        }
        assert(strip_all_prefix(jn, sep) == jn);
        lemma_split_join(symbols);
        let sp = split_char(jn, ',');
        assert(ls.len() == n);
        assert forall|i: int| 0 <= i < n implies ls[i] == symbols[i] by {
            lemma_trim_plain(symbols[i]);
            assert(ls[i] == trim(sp[i]));
        }
        assert(ls =~= symbols);
        lemma_keep_all(symbols);
        assert(keep_symbols(seq![], ls) == symbols);
    }
    assert(comment_pieces(lines(forward_body(reference, symbols))) == ls);
}

fn line_symbols_exec(line: &Vec<char>) -> (r: Vec<Vec<char>>)
    ensures
        views(r@) == line_symbols(line@),
{
    let sep = chars_of(" — ");
    match find_chars(line.as_slice(), sep.as_slice()) {
        None => Vec::new(),
        Some(idx) => {
            let head = crate::text::slice_chars(line.as_slice(), 0, idx);
            let tail = crate::text::slice_chars(line.as_slice(), idx, line.len());
            assert(head@ =~= line@.take(idx as int));
            assert(tail@ =~= line@.skip(idx as int));
            let h = string_of(head.as_slice());
            if str_contains(h.as_str(), "sirius:") && str_contains(h.as_str(), "entit") {
                let rest = strip_all_prefix_chars(tail.as_slice(), sep.as_slice());
                let pieces = split_chars(rest.as_slice(), ',');
                let mut out: Vec<Vec<char>> = Vec::new();
                let mut i: usize = 0;
                while i < pieces.len()
                    invariant
                        i <= pieces@.len(),
                        out@.len() == i,
                        forall|k: int| 0 <= k < i ==> #[trigger] out@[k]@ == trim(pieces@[k]@),
                    decreases pieces@.len() - i,
                {
                    out.push(trim_chars(pieces[i].as_slice()));
                    i = i + 1;
                }
                proof {
                    let want = split_char(strip_all_prefix(tail@, " — "@), ',').map_values(
                        |p: Seq<char>| trim(p),
                    );
                    assert(views(pieces@) == split_char(rest@, ','));
                    assert(views(out@) =~= want) by {
                        assert forall|k: int| 0 <= k < out@.len() implies views(out@)[k]
                            == want[k] by {
                            assert(views(pieces@)[k] == pieces@[k]@);
                        }
                    }
                }
                out
            } else {
                Vec::new()
            }
        },
    }
}

/// Parse the entity list from sirius forward comments (`... — a, b, c`):
/// each name once, first occurrence first.
pub fn extract_symbols_from_comment(text: &str) -> (r: Vec<String>)
    ensures
        string_views(r@) == keep_symbols(seq![], comment_pieces(lines(text@))),
{
    let cs = chars_of(text);
    let ls = lines_of(cs.as_slice());
    let mut pieces: Vec<Vec<char>> = Vec::new();
    let mut i: usize = 0;
    while i < ls.len()
        invariant
            i <= ls@.len(),
            views(ls@) == lines(text@),
            views(pieces@) == comment_pieces(views(ls@).take(i as int)),
        decreases ls@.len() - i,
    {
        let syms = line_symbols_exec(&ls[i]);
        let ghost p0 = views(pieces@);
        let mut k: usize = 0;
        while k < syms.len()
            invariant
                k <= syms@.len(),
                views(pieces@) == p0 + views(syms@).take(k as int),
            decreases syms@.len() - k,
        {
            let piece = crate::text::slice_chars(syms[k].as_slice(), 0, syms[k].len());
            assert(piece@ =~= syms@[k as int]@);
            let ghost q0 = views(pieces@);
            pieces.push(piece);
            assert(views(pieces@) =~= q0.push(syms@[k as int]@));
            assert(views(syms@).take(k + 1) =~= views(syms@).take(k as int).push(syms@[k as int]@));
            k = k + 1;
        }
        proof {
            assert(views(syms@).take(syms@.len() as int) =~= views(syms@));
            assert(views(ls@).take(i + 1).drop_last() =~= views(ls@).take(i as int));
            assert(views(ls@).take(i + 1).last() == ls@[i as int]@);
        }
        i = i + 1;
    }
    assert(views(ls@).take(ls@.len() as int) =~= views(ls@));
    let mut out: Vec<String> = Vec::new();
    let mut j: usize = 0;
    assert(string_views(out@) =~= Seq::<Seq<char>>::empty());
    while j < pieces.len()
        invariant
            j <= pieces@.len(),
            string_views(out@) == keep_symbols(seq![], views(pieces@).take(j as int)),
        decreases pieces@.len() - j,
    {
        let s = string_of(pieces[j].as_slice());
        proof {
            assert(views(pieces@).take(j + 1).drop_last() =~= views(pieces@).take(j as int));
            assert(views(pieces@).take(j + 1).last() == pieces@[j as int]@);
        }
        if pieces[j].len() > 0 && !contains_string(&out, &s) {
            let ghost o0 = string_views(out@);
            out.push(s);
            assert(string_views(out@) =~= o0.push(pieces@[j as int]@));
        }
        j = j + 1;
    }
    assert(views(pieces@).take(pieces@.len() as int) =~= views(pieces@));
    out
}


// ── link ────────────────────────────────────────────────────────────────────

/// The result of a `link` operation.
#[derive(Debug)]
pub struct LinkReceipt {
    pub receipt_id: i64,
    pub kind: LinkKind,
    pub reference: String,
    pub symbols: Vec<String>,
    pub forward_ok: bool,
    pub reverse_ok: bool,
}

pub struct LinkV {
    pub receipt_id: i64,
    pub kind: LinkKind,
    pub reference: Seq<char>,
    pub symbols: Seq<Seq<char>>,
    pub forward_ok: bool,
    pub reverse_ok: bool,
}

impl View for LinkReceipt {
    type V = LinkV;

    open spec fn view(&self) -> LinkV {
        LinkV {
            receipt_id: self.receipt_id,
            kind: self.kind,
            reference: self.reference@,
            symbols: string_views(self.symbols@),
            forward_ok: self.forward_ok,
            reverse_ok: self.reverse_ok,
        }
    }
}

pub open spec fn link_view(r: Result<LinkReceipt, String>) -> Result<LinkV, Seq<char>> {
    match r {
        Ok(l) => Ok(l@),
        Err(e) => Err(e@),
    }
}

/// How many times one node's reverse note is attempted before giving up.
pub const REVERSE_ATTEMPTS: u64 = 3;

/// The backoff before the second attempt; it doubles after each failure.
pub const REVERSE_BASE_MS: u64 = 250;

/// `seg` is one node's run of reverse-note attempts: the same `remember`
/// command each time, every attempt but the last failed, and the run stops at
/// the first success or after [`REVERSE_ATTEMPTS`] tries. `landed` is whether
/// the last one succeeded.
pub open spec fn attempts(seg: Seq<Call>, argv: Seq<Seq<char>>, landed: bool) -> bool {
    &&& 1 <= seg.len() <= REVERSE_ATTEMPTS
    &&& forall|i: int| 0 <= i < seg.len() ==> (#[trigger] seg[i]).argv == argv
    &&& forall|i: int| 0 <= i < seg.len() - 1 ==> hv_unit((#[trigger] seg[i]).out) is Err
    &&& landed == (hv_unit(seg.last().out) is Ok)
    &&& !landed ==> seg.len() == REVERSE_ATTEMPTS
}

/// Stamp one node's reverse note, retrying a transient failure with backoff.
/// Returns true once the note lands, false if every attempt failed.
fn remember_with_retry<R: Runner>(
    runner: &mut R,
    hv: &Hayven,
    note: &str,
    node: &str,
    scope: &[String],
) -> (landed: bool)
    ensures
        final(runner).calls().len() > old(runner).calls().len(),
        final(runner).calls().take(old(runner).calls().len() as int) == old(runner).calls(),
        attempts(
            final(runner).calls().skip(old(runner).calls().len() as int),
            remember_argv(note@, Some(node@), "decision"@, string_views(scope@)),
            landed,
        ),
{
    let ghost c0 = runner.calls();
    let ghost argv = remember_argv(note@, Some(node@), "decision"@, string_views(scope@));
    let mut attempt: u64 = 0;
    let mut backoff: u64 = REVERSE_BASE_MS;
    loop
        invariant
            attempt < REVERSE_ATTEMPTS,
            attempt == 0 ==> backoff == 250,
            attempt == 1 ==> backoff == 500,
            attempt == 2 ==> backoff == 1000,
            c0 == old(runner).calls(),
            runner.calls().len() == c0.len() + attempt,
            runner.calls().take(c0.len() as int) == c0,
            argv == remember_argv(note@, Some(node@), "decision"@, string_views(scope@)),
            forall|i: int|
                0 <= i < attempt ==> (#[trigger] runner.calls().skip(c0.len() as int)[i]).argv
                    == argv && hv_unit(runner.calls().skip(c0.len() as int)[i].out) is Err,
        decreases REVERSE_ATTEMPTS - attempt,
    {
        let ghost c1 = runner.calls();
        let ok = hv.remember(runner, note, Some(node), "decision", scope).is_ok();
        proof {
            let seg = runner.calls().skip(c0.len() as int);
            assert(runner.calls().drop_last() == c1);
            assert(runner.calls().take(c0.len() as int) =~= c1.take(c0.len() as int));
            assert forall|i: int| 0 <= i < attempt implies (#[trigger] seg[i]).argv == argv
                && hv_unit(seg[i].out) is Err by {
                assert(seg[i] == c1.skip(c0.len() as int)[i]);
            }
            assert(seg[attempt as int] == runner.calls().last());
            assert(seg.len() == attempt + 1);
        }
        if ok {
            return true;
        }
        if attempt + 1 >= REVERSE_ATTEMPTS {
            return false;
        }
        runner.sleep_ms(backoff);
        backoff = backoff * 2;
        attempt = attempt + 1;
    }
}

/// The index bounds `b` split `seg` into one run of attempts per node, in
/// node order; `ok` is whether every node's note landed.
pub open spec fn landed_in(seg: Seq<Call>, b: Seq<int>, i: int) -> bool {
    hv_unit(seg[b[i + 1] - 1].out) is Ok
}

pub open spec fn reverse_split(
    seg: Seq<Call>,
    b: Seq<int>,
    note: Seq<char>,
    nodes: Seq<Seq<char>>,
    scope: Seq<Seq<char>>,
    ok: bool,
) -> bool {
    &&& b.len() == nodes.len() + 1
    &&& b[0] == 0
    &&& b.last() == seg.len()
    &&& forall|i: int| 0 <= i < nodes.len() ==> 0 <= #[trigger] b[i] < b[i + 1] <= seg.len()
    &&& forall|i: int|
        0 <= i < nodes.len() ==> attempts(
            seg.subrange(b[i], b[i + 1]),
            remember_argv(note, Some(nodes[i]), "decision"@, scope),
            #[trigger] landed_in(seg, b, i),
        )
    &&& ok == forall|i: int| 0 <= i < nodes.len() ==> #[trigger] landed_in(seg, b, i)
}

/// The reverse stamps: a run of attempts for each node in turn, each scoped
/// to the whole set.
pub open spec fn reverse_stamps(
    seg: Seq<Call>,
    note: Seq<char>,
    nodes: Seq<Seq<char>>,
    scope: Seq<Seq<char>>,
    ok: bool,
) -> bool {
    exists|b: Seq<int>| reverse_split(seg, b, note, nodes, scope, ok)
}

/// One more node's run of attempts extends a reverse split.
#[verifier::spinoff_prover]
#[verifier::rlimit(40)]
proof fn lemma_reverse_step(
    seg0: Seq<Call>,
    b0: Seq<int>,
    seg: Seq<Call>,
    note: Seq<char>,
    nodes: Seq<Seq<char>>,
    i: int,
    ok0: bool,
    landed: bool,
)
    requires
        0 <= i < nodes.len(),
        reverse_split(seg0, b0, note, nodes.take(i), nodes, ok0),
        seg.len() > seg0.len(),
        seg.take(seg0.len() as int) == seg0,
        attempts(
            seg.skip(seg0.len() as int),
            remember_argv(note, Some(nodes[i]), "decision"@, nodes),
            landed,
        ),
    ensures
        reverse_split(seg, b0.push(seg.len() as int), note, nodes.take(i + 1), nodes, ok0 && landed),
{
    let b = b0.push(seg.len() as int);
    let ns = nodes.take(i + 1);
    assert forall|k: int| 0 <= k < ns.len() implies 0 <= #[trigger] b[k] < b[k + 1] <= seg.len() by {
        if k < i {
            assert(b[k] == b0[k] && b[k + 1] == b0[k + 1]);
        }
    }
    assert forall|k: int| 0 <= k < i implies landed_in(seg, b, k) == landed_in(seg0, b0, k) by {
        assert(b[k + 1] == b0[k + 1]);
        assert(0 <= b0[k] < b0[k + 1] <= seg0.len());
        assert(seg[b[k + 1] - 1] == seg.take(seg0.len() as int)[b0[k + 1] - 1]);
    }
    assert(landed_in(seg, b, i) == landed) by {
        assert(seg[seg.len() - 1] == seg.skip(seg0.len() as int).last());
    }
    assert forall|k: int| 0 <= k < ns.len() implies attempts(
        seg.subrange(b[k], b[k + 1]),
        remember_argv(note, Some(ns[k]), "decision"@, nodes),
        #[trigger] landed_in(seg, b, k),
    ) by {
        if k < i {
            assert(b[k] == b0[k] && b[k + 1] == b0[k + 1]);
            assert(seg.subrange(b[k], b[k + 1]) =~= seg0.subrange(b0[k], b0[k + 1]));
            assert(ns[k] == nodes.take(i)[k]);
        } else {
            assert(seg.subrange(b[k], b[k + 1]) =~= seg.skip(seg0.len() as int));
        }
    }
    assert((ok0 && landed) == forall|k: int| 0 <= k < ns.len() ==> #[trigger] landed_in(seg, b, k)) by {
        if ok0 && landed {
            assert forall|k: int| 0 <= k < ns.len() implies #[trigger] landed_in(seg, b, k) by {
                if k < i {
                    assert(landed_in(seg0, b0, k));
                }
            }
        } else if !landed {
            assert(!landed_in(seg, b, i));
        } else {
            let k = choose|k: int| 0 <= k < i && !#[trigger] landed_in(seg0, b0, k);
            assert(!landed_in(seg, b, k));
        }
    }
}

/// The issue a decision resolves, from `amt decision show`.
pub open spec fn resolves(r: Result<Json, Seq<char>>) -> Option<Seq<char>> {
    match r {
        Ok(v) => as_str(get(v, "resolves"@)),
        Err(_) => None,
    }
}

/// The forward stamp: a comment on the issue (for a decision, on the issue it
/// resolves, found by `amt decision show`; none when that fails).
pub open spec fn forward_spec(
    kind: LinkKind,
    reference: Seq<char>,
    body: Seq<char>,
    before: Seq<Call>,
    after: Seq<Call>,
    fwd: bool,
) -> bool {
    match kind {
        LinkKind::Issue => one_call(before, after, comment_argv(reference, body)) && fwd == (amt_unit(
            after.last().out,
        ) is Ok),
        LinkKind::Decision => {
            let m1 = before.push(after[before.len() as int]);
            &&& after.len() > before.len()
            &&& one_call(before, m1, seq!["amt"@, "--json"@, "decision"@, "show"@, reference])
            &&& match resolves(amt_json(m1.last().out)) {
                Some(issue) => one_call(m1, after, comment_argv(issue, body)) && fwd == (amt_unit(
                    after.last().out,
                ) is Ok),
                None => after == m1 && !fwd,
            }
        },
    }
}

/// The receipt row written for a link, and what `link` returns for it.
pub open spec fn receipt_written(
    l0: Ledger,
    l1: Ledger,
    r: Result<LinkV, Seq<char>>,
    kind: LinkKind,
    reference: Seq<char>,
    symbols: Seq<Seq<char>>,
    fwd: bool,
    rev: bool,
    worker: Option<Seq<char>>,
) -> bool {
    &&& l1.wf()
    &&& l1.workers == l0.workers
    &&& l1.iterations == l0.iterations
    &&& l1.policy_events == l0.policy_events
    &&& l1.meta == l0.meta
    &&& if l0.receipts@.len() < i64::MAX {
        let row = l1.receipts@.last();
        &&& l1.receipts@.len() == l0.receipts@.len() + 1
        &&& l1.receipts@.drop_last() == l0.receipts@
        &&& row.kind@ == kind_name(kind)
        &&& row.reference@ == reference
        &&& string_views(row.symbols@) == symbols
        &&& row.forward_ok == fwd
        &&& row.reverse_ok == rev
        &&& crate::hayven::opt_view(row.worker_id) == worker
        &&& r == Ok::<LinkV, Seq<char>>(
            LinkV {
                receipt_id: (l0.receipts@.len() + 1) as i64,
                kind,
                reference,
                symbols,
                forward_ok: fwd,
                reverse_ok: rev,
            },
        )
    } else {
        &&& l1.receipts == l0.receipts
        &&& r == Err::<LinkV, Seq<char>>("ledger write failed: "@ + "receipt id space exhausted"@)
    }
}

/// From index `from` on, every call is a `hayven remember`.
pub open spec fn all_remember(calls: Seq<Call>, from: int) -> bool {
    forall|i: int|
        from <= i < calls.len() ==> (#[trigger] calls[i]).argv.len() >= 2 && calls[i].argv[1] == "remember"@
}

/// The steps of a link: the forward stamp up to `mid`, then the reverse
/// stamps, then the receipt.
pub open spec fn link_steps(
    kind: LinkKind,
    reference: Seq<char>,
    symbols: Seq<Seq<char>>,
    worker: Option<Seq<char>>,
    before: Seq<Call>,
    mid: Seq<Call>,
    after: Seq<Call>,
    fwd: bool,
    rev: bool,
    l0: Ledger,
    l1: Ledger,
    r: Result<LinkV, Seq<char>>,
) -> bool {
    &&& forward_spec(kind, reference, forward_body(reference, symbols), before, mid, fwd)
    &&& after.len() >= mid.len()
    &&& after.take(mid.len() as int) == mid
    &&& all_run(after, mid.len() as int, "hayven"@)
    &&& all_remember(after, mid.len() as int)
    &&& reverse_stamps(after.skip(mid.len() as int), reverse_note(reference), symbols, symbols, rev)
    &&& receipt_written(l0, l1, r, kind, reference, symbols, fwd, rev, worker)
}

/// Stamp both directions — forward first, then reverse — and write a receipt
/// row. `worker_id` is optional (the bridge is usable outside the loop).
pub fn link<R: Runner>(
    amt: &Amt,
    hv: &Hayven,
    ledger: &mut Ledger,
    runner: &mut R,
    kind: LinkKind,
    reference: &str,
    symbols: &[String],
    worker_id: Option<&str>,
) -> (r: Result<LinkReceipt, String>)
    requires
        old(ledger).wf(),
    ensures
        final(ledger).wf(),
        final(ledger).iterations == old(ledger).iterations,
        final(ledger).workers == old(ledger).workers,
        final(ledger).policy_events == old(ledger).policy_events,
        r matches Ok(rec) ==> 1 <= rec.receipt_id <= final(ledger).receipts@.len(),
        final(runner).calls().len() >= old(runner).calls().len(),
        final(runner).calls().take(old(runner).calls().len() as int) == old(runner).calls(),
        symbols@.len() == 0 ==> link_view(r) == Err::<LinkV, Seq<char>>(
            "no symbols to link (provide --symbols or --changed)"@,
        ) && final(runner).calls() == old(runner).calls() && *final(ledger) == *old(ledger),
        symbols@.len() > 0 ==> exists|mid: Seq<Call>, fwd: bool, rev: bool|
            #[trigger] link_steps(
                kind,
                reference@,
                string_views(symbols@),
                opt_str(worker_id),
                old(runner).calls(),
                mid,
                final(runner).calls(),
                fwd,
                rev,
                *old(ledger),
                *final(ledger),
                link_view(r),
            ),
{
    if symbols.len() == 0 {
        return Err(str_of("no symbols to link (provide --symbols or --changed)"));
    }
    let ghost c0 = runner.calls();
    let body = forward_comment_body(reference, symbols);
    let issue_for_comment: Option<String> = match kind {
        LinkKind::Issue => Some(str_of(reference)),
        LinkKind::Decision => match amt.decision_show(runner, reference) {
            Ok(v) => v.get_string("resolves"),
            Err(_) => None,
        },
    };
    let ghost c1 = runner.calls();
    let forward_ok = match &issue_for_comment {
        Some(issue) => amt.comment(runner, issue.as_str(), body.as_str()).is_ok(),
        None => false,
    };
    let ghost mid = runner.calls();
    proof {
        if kind == LinkKind::Decision {
            assert(c0.push(mid[c0.len() as int]) =~= c1) by {
                if issue_for_comment is Some {
                    assert(mid.drop_last() == c1);
                    assert(mid[c0.len() as int] == mid.drop_last()[c0.len() as int]);
                }
            }
        }
    }
    let note = reverse_note_body(reference);
    let ghost nodes = string_views(symbols@);
    let ghost mut b: Seq<int> = seq![0];
    let mut reverse_all = true;
    let mut i: usize = 0;
    proof {
        assert(runner.calls().take(mid.len() as int) =~= mid);
        assert(nodes.take(0) =~= Seq::<Seq<char>>::empty());
    }
    while i < symbols.len()
        invariant
            i <= symbols@.len(),
            nodes == string_views(symbols@),
            runner.calls().len() >= mid.len(),
            runner.calls().take(mid.len() as int) == mid,
            all_run(runner.calls(), mid.len() as int, "hayven"@),
            all_remember(runner.calls(), mid.len() as int),
            reverse_split(
                runner.calls().skip(mid.len() as int),
                b,
                note@,
                nodes.take(i as int),
                nodes,
                reverse_all,
            ),
        decreases symbols@.len() - i,
    {
        let ghost cb = runner.calls();
        let ghost seg0 = cb.skip(mid.len() as int);
        let ghost b0 = b;
        let ghost ok0 = reverse_all;
        let landed = remember_with_retry(runner, hv, note.as_str(), symbols[i].as_str(), symbols);
        reverse_all = reverse_all && landed;
        proof {
            let c = runner.calls();
            assert(c.take(cb.len() as int) == cb);
            assert(c.take(mid.len() as int) =~= mid) by {
                assert(c.take(mid.len() as int) =~= cb.take(mid.len() as int));
            }
            let seg = c.skip(mid.len() as int);
            assert(seg.take(seg0.len() as int) =~= seg0);
            assert(seg.skip(seg0.len() as int) =~= c.skip(cb.len() as int));
            assert(nodes[i as int] == symbols@[i as int]@);
            lemma_reverse_step(seg0, b0, seg, note@, nodes, i as int, ok0, landed);
            assert forall|k: int| mid.len() <= k < c.len() implies (#[trigger] c[k]).argv.len() >= 2
                && c[k].argv[0] == "hayven"@ && c[k].argv[1] == "remember"@ by {
                if k < cb.len() {
                    assert(c[k] == c.take(cb.len() as int)[k]);
                } else {
                    assert(c[k] == c.skip(cb.len() as int)[k - cb.len()]);
                }
            }
            b = b0.push(seg.len() as int);
        }
        i = i + 1;
    }
    proof {
        assert(nodes.take(symbols@.len() as int) =~= nodes);
        assert(reverse_split(runner.calls().skip(mid.len() as int), b, note@, nodes, nodes, reverse_all));
    }
    let ghost l0 = *ledger;
    let receipt_id = match ledger.insert_receipt(
        kind.as_str(),
        reference,
        symbols,
        forward_ok,
        reverse_all,
        worker_id,
    ) {
        Ok(id) => id,
        Err(e) => {
            let mut m = str_of("ledger write failed: ");
            push_str(&mut m, e.as_str());
            let r: Result<LinkReceipt, String> = Err(m);
            assert(link_steps(
                kind,
                reference@,
                nodes,
                opt_str(worker_id),
                c0,
                mid,
                runner.calls(),
                forward_ok,
                reverse_all,
                l0,
                *ledger,
                link_view(r),
            ));
            return r;
        },
    };
    let mut syms: Vec<String> = Vec::new();
    let mut k: usize = 0;
    while k < symbols.len()
        invariant
            k <= symbols@.len(),
            string_views(syms@) == string_views(symbols@).take(k as int),
        decreases symbols@.len() - k,
    {
        let ghost s0 = string_views(syms@);
        syms.push(str_of(symbols[k].as_str()));
        assert(string_views(syms@) =~= s0.push(symbols@[k as int]@));
        assert(string_views(symbols@).take(k + 1) =~= string_views(symbols@).take(k as int).push(
            symbols@[k as int]@,
        ));
        k = k + 1;
    }
    assert(string_views(symbols@).take(symbols@.len() as int) =~= string_views(symbols@));
    let r: Result<LinkReceipt, String> = Ok(
        LinkReceipt {
            receipt_id,
            kind,
            reference: str_of(reference),
            symbols: syms,
            forward_ok,
            reverse_ok: reverse_all,
        },
    );
    assert(link_steps(
        kind,
        reference@,
        nodes,
        opt_str(worker_id),
        c0,
        mid,
        runner.calls(),
        forward_ok,
        reverse_all,
        l0,
        *ledger,
        link_view(r),
    ));
    r
}


// ── why ─────────────────────────────────────────────────────────────────────

/// The `key` strings of `items` that have one, each followed by a newline.
pub open spec fn field_lines(items: Seq<Json>, key: Seq<char>) -> Seq<char>
    decreases items.len(),
{
    if items.len() == 0 {
        seq![]
    } else {
        field_lines(items.drop_last(), key) + match get_str(items.last(), key) {
            Some(t) => t.push('\n'),
            None => seq![],
        }
    }
}

/// The text of an array member's items: `v[arr][*][key]`, one per line.
pub open spec fn array_text(v: Json, arr: Seq<char>, key: Seq<char>) -> Seq<char> {
    match as_array(get(v, arr)) {
        Some(items) => field_lines(items, key),
        None => seq![],
    }
}

fn array_text_exec(v: &Json, arr: &str, key: &str) -> (s: String)
    ensures
        s@ == array_text(*v, arr@, key@),
{
    let mut s = String::new();
    match v.get(arr) {
        Some(Json::Array(items)) => {
            let mut i: usize = 0;
            while i < items.len()
                invariant
                    i <= items@.len(),
                    s@ == field_lines(items@.take(i as int), key@),
                decreases items@.len() - i,
            {
                proof {
                    assert(items@.take(i + 1).drop_last() =~= items@.take(i as int));
                    assert(items@.take(i + 1).last() == items@[i as int]);
                }
                match items[i].get_string(key) {
                    Some(t) => {
                        push_str(&mut s, t.as_str());
                        push_char(&mut s, '\n');
                    },
                    None => {},
                }
                i = i + 1;
            }
            assert(items@.take(items@.len() as int) =~= items@);
        },
        _ => {},
    }
    s
}

/// Concatenate all note bodies from a `hayven recall` payload.
pub fn collect_note_text(v: &Json) -> (s: String)
    ensures
        s@ == array_text(*v, "notes"@, "note"@),
{
    array_text_exec(v, "notes", "note")
}

/// `sirius why <symbol>`: the issues and decisions its fleet memory names.
#[derive(Debug)]
pub struct WhySymbol {
    pub symbol: String,
    /// `(ref, title)`
    pub issues: Vec<(String, String)>,
    /// `(ref, summary)`
    pub decisions: Vec<(String, String)>,
}

pub open spec fn pair_views(v: Seq<(String, String)>) -> Seq<(Seq<char>, Seq<char>)> {
    v.map_values(|p: (String, String)| (p.0@, p.1@))
}

/// `amt --json <what> show <id>`.
pub open spec fn show_argv(what: Seq<char>, id: Seq<char>) -> Seq<Seq<char>> {
    seq!["amt"@, "--json"@, what, "show"@, id]
}

/// `seg` is one `show` call per reference, in order.
pub open spec fn shows(seg: Seq<Call>, what: Seq<char>, refs: Seq<Seq<char>>) -> bool {
    &&& seg.len() == refs.len()
    &&& forall|i: int| 0 <= i < refs.len() ==> (#[trigger] seg[i]).argv == show_argv(what, refs[i])
}

/// The title of a `show` answer, or empty.
pub open spec fn title_of(r: Result<Json, Seq<char>>) -> Seq<char> {
    match r {
        Ok(v) => match get_str(v, "title"@) {
            Some(t) => t,
            None => seq![],
        },
        Err(_) => seq![],
    }
}

/// The issue references that resolved, with their titles; a reference whose
/// `show` failed is dropped (the pattern may over-match).
pub open spec fn found_issues(refs: Seq<Seq<char>>, seg: Seq<Call>) -> Seq<(Seq<char>, Seq<char>)>
    decreases refs.len(),
{
    if refs.len() == 0 || seg.len() == 0 {
        seq![]
    } else {
        let a = found_issues(refs.drop_last(), seg.drop_last());
        match amt_json(seg.last().out) {
            Ok(v) => a.push((refs.last(), title_of(Ok(v)))),
            Err(_) => a,
        }
    }
}

/// Every decision reference, with its title (empty when it did not resolve).
pub open spec fn found_decisions(refs: Seq<Seq<char>>, seg: Seq<Call>) -> Seq<(Seq<char>, Seq<char>)>
    decreases refs.len(),
{
    if refs.len() == 0 || seg.len() == 0 {
        seq![]
    } else {
        found_decisions(refs.drop_last(), seg.drop_last()).push(
            (refs.last(), title_of(amt_json(seg.last().out))),
        )
    }
}

/// What a recall read gives the text extraction: its JSON, or `null`.
pub open spec fn recalled(r: Result<Json, Seq<char>>) -> Json {
    match r {
        Ok(v) => v,
        Err(_) => Json::Null,
    }
}

fn title_exec(r: Result<Json, String>) -> (t: String)
    ensures
        t@ == title_of(parsed(r)),
{
    match r {
        Ok(v) => match v.get_string("title") {
            Some(t) => t,
            None => String::new(),
        },
        Err(_) => String::new(),
    }
}

/// Resolve each reference with `amt <what> show`, keeping the failures when
/// `keep_missing` is set (decisions) and dropping them otherwise (issues).
fn resolve_refs<R: Runner>(amt: &Amt, runner: &mut R, what: &str, refs: &Vec<String>, keep_missing: bool) -> (out: Vec<(String, String)>)
    requires
        what@ == "issue"@ || what@ == "decision"@,
    ensures
        final(runner).calls().len() == old(runner).calls().len() + refs@.len(),
        final(runner).calls().take(old(runner).calls().len() as int) == old(runner).calls(),
        shows(final(runner).calls().skip(old(runner).calls().len() as int), what@, string_views(refs@)),
        pair_views(out@) == if keep_missing {
            found_decisions(string_views(refs@), final(runner).calls().skip(old(runner).calls().len() as int))
        } else {
            found_issues(string_views(refs@), final(runner).calls().skip(old(runner).calls().len() as int))
        },
{
    let ghost c0 = runner.calls();
    let ghost rv = string_views(refs@);
    let mut out: Vec<(String, String)> = Vec::new();
    let mut i: usize = 0;
    proof {
        assert(runner.calls().take(c0.len() as int) =~= c0);
        assert(pair_views(out@) =~= Seq::<(Seq<char>, Seq<char>)>::empty());
    }
    while i < refs.len()
        invariant
            i <= refs@.len(),
            c0 == old(runner).calls(),
            rv == string_views(refs@),
            what@ == "issue"@ || what@ == "decision"@,
            runner.calls().len() == c0.len() + i,
            runner.calls().take(c0.len() as int) == c0,
            shows(runner.calls().skip(c0.len() as int), what@, rv.take(i as int)),
            pair_views(out@) == if keep_missing {
                found_decisions(rv.take(i as int), runner.calls().skip(c0.len() as int))
            } else {
                found_issues(rv.take(i as int), runner.calls().skip(c0.len() as int))
            },
        decreases refs@.len() - i,
    {
        let ghost c1 = runner.calls();
        let ghost p0 = pair_views(out@);
        let shown = if str_eq(what, "issue") {
            amt.issue_show(runner, refs[i].as_str())
        } else {
            amt.decision_show(runner, refs[i].as_str())
        };
        let ghost sh = parsed(shown);
        let ok = shown.is_ok();
        if ok || keep_missing {
            let t = title_exec(shown);
            out.push((str_of(refs[i].as_str()), t));
            assert(pair_views(out@) =~= p0.push((refs@[i as int]@, title_of(sh))));
        }
        proof {
            let c = runner.calls();
            let seg = c.skip(c0.len() as int);
            assert(c.drop_last() == c1);
            assert(c.take(c0.len() as int) =~= c1.take(c0.len() as int));
            assert(seg.drop_last() =~= c1.skip(c0.len() as int));
            assert(seg.last() == c.last());
            assert(rv.take(i + 1).drop_last() =~= rv.take(i as int));
            assert(rv.take(i + 1).last() == refs@[i as int]@);
            assert forall|k: int| 0 <= k < i + 1 implies (#[trigger] seg[k]).argv == show_argv(
                what@,
                rv.take(i + 1)[k],
            ) by {
                if k < i {
                    assert(seg[k] == c1.skip(c0.len() as int)[k]);
                } else {
                    assert(seg[k] == c.last());
                    if what@ == "issue"@ {
                        assert(c.last().argv == seq!["amt"@, "--json"@, "issue"@, "show"@, refs@[i as int]@]);
                    }
                }
            }
        }
        i = i + 1;
    }
    assert(rv.take(refs@.len() as int) =~= rv);
    out
}

/// `sirius why <symbol>`: recall fleet memory for the node, extract AMT-n /
/// D-n refs, and resolve their titles from Ametrite. A failed recall reads as
/// no notes.
pub fn why_symbol<R: Runner>(amt: &Amt, hv: &Hayven, runner: &mut R, symbol: &str) -> (r: Result<
    WhySymbol,
    String,
>)
    ensures
        ({
            let c = final(runner).calls();
            let n = old(runner).calls().len();
            let text = array_text(recalled(hv_json(c[n as int].out)), "notes"@, "note"@);
            let irefs = refs_of(regex_find_all(issue_pattern(), text));
            let drefs = refs_of(regex_find_all(decision_pattern(), text));
            let seg = c.skip(n + 1int);
            &&& c.len() == n + 1 + irefs.len() + drefs.len()
            &&& c.take(n as int) == old(runner).calls()
            &&& c[n as int].argv == seq!["hayven"@, "recall"@, "--node"@, symbol@, "--json"@]
            &&& shows(seg.take(irefs.len() as int), "issue"@, irefs)
            &&& shows(seg.skip(irefs.len() as int), "decision"@, drefs)
            &&& r matches Ok(w) && w.symbol@ == symbol@
            &&& r matches Ok(w) && pair_views(w.issues@) == found_issues(irefs, seg.take(irefs.len() as int))
            &&& r matches Ok(w) && pair_views(w.decisions@) == found_decisions(drefs, seg.skip(irefs.len() as int))
        }),
{
    let ghost c0 = runner.calls();
    let recall = match hv.recall_node(runner, symbol) {
        Ok(v) => v,
        Err(_) => Json::Null,
    };
    let ghost c1 = runner.calls();
    let text = collect_note_text(&recall);
    let (issue_refs, decision_refs) = extract_refs(text.as_str());
    let issues = resolve_refs(amt, runner, "issue", &issue_refs, false);
    let ghost c2 = runner.calls();
    let decisions = resolve_refs(amt, runner, "decision", &decision_refs, true);
    proof {
        let c = runner.calls();
        let n = c0.len();
        assert(c.take(c2.len() as int) =~= c2);
        assert(c2.take(c1.len() as int) =~= c1);
        assert(c.take(n as int) =~= c0) by {
            assert(c.take(n as int) =~= c1.take(n as int));
            assert(c1.drop_last() == c0);
        }
        assert(c[n as int] == c1.last());
        let seg = c.skip(n + 1int);
        assert(seg.take(issue_refs@.len() as int) =~= c2.skip(c1.len() as int));
        assert(seg.skip(issue_refs@.len() as int) =~= c.skip(c2.len() as int));
    }
    Ok(WhySymbol { symbol: str_of(symbol), issues, decisions })
}

/// `sirius why AMT-n`: the symbols and decisions referenced in the issue's
/// activity.
#[derive(Debug)]
pub struct WhyIssue {
    pub reference: String,
    pub symbols: Vec<String>,
    pub decisions: Vec<String>,
}

/// Read the issue activity and list the symbols (from sirius forward
/// comments) and decisions referenced there.
pub fn why_issue<R: Runner>(amt: &Amt, runner: &mut R, issue: &str) -> (r: Result<WhyIssue, String>)
    ensures
        one_call(old(runner).calls(), final(runner).calls(), show_argv("issue"@, issue@)),
        match amt_json(final(runner).calls().last().out) {
            Err(e) => r matches Err(x) && x@ == e,
            Ok(v) => {
                let text = array_text(v, "activity"@, "body"@);
                &&& r matches Ok(w) && w.reference@ == issue@
                &&& r matches Ok(w) && string_views(w.symbols@) == keep_symbols(
                    seq![],
                    comment_pieces(lines(text)),
                )
                &&& r matches Ok(w) && string_views(w.decisions@) == refs_of(
                    regex_find_all(decision_pattern(), text),
                )
            },
        },
{
    let v = match amt.issue_show(runner, issue) {
        Ok(v) => v,
        Err(e) => {
            return Err(e);
        },
    };
    let activity_text = array_text_exec(&v, "activity", "body");
    let symbols = extract_symbols_from_comment(activity_text.as_str());
    let (_issues, decisions) = extract_refs(activity_text.as_str());
    Ok(WhyIssue { reference: str_of(issue), symbols, decisions })
}

} // verus!
