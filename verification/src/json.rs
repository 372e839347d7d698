//! A plain model of the JSON documents the parents print (`amt --json`,
//! `hayven ... --json`), and of the NDJSON events Sirius emits. Parsing is
//! serde_json's; the lookups the logic makes are verified here.
use vstd::prelude::*;
use crate::text::{str_eq, str_of};

verus! {

/// A JSON value. Numbers keep their integer value when they have one (`None`
/// for a fractional or exponent number, which nothing here reads).
#[derive(Debug)]
pub enum Json {
    Null,
    Bool(bool),
    /// The integer value, if it is one, and the number's JSON text.
    Num(Option<i128>, String),
    Str(String),
    Array(Vec<Json>),
    /// Members in document order.
    Object(Vec<(String, Json)>),
}

/// The value of the first member named `key`.
pub open spec fn lookup(members: Seq<(String, Json)>, key: Seq<char>) -> Option<Json>
    decreases members.len(),
{
    if members.len() == 0 {
        None
    } else if members[0].0@ == key {
        Some(members[0].1)
    } else {
        lookup(members.skip(1), key)
    }
}

/// `Value::get(key)`: a member of an object; `None` for anything else.
pub open spec fn get(j: Json, key: Seq<char>) -> Option<Json> {
    match j {
        Json::Object(m) => lookup(m@, key),
        _ => None,
    }
}

/// `Value::as_str`.
pub open spec fn as_str(j: Option<Json>) -> Option<Seq<char>> {
    match j {
        Some(Json::Str(s)) => Some(s@),
        _ => None,
    }
}

/// `Value::as_bool`.
pub open spec fn as_bool(j: Option<Json>) -> Option<bool> {
    match j {
        Some(Json::Bool(b)) => Some(b),
        _ => None,
    }
}

/// `Value::as_u64`.
pub open spec fn as_u64(j: Option<Json>) -> Option<u64> {
    match j {
        Some(Json::Num(Some(n), _)) => if 0 <= n <= u64::MAX {
            Some(n as u64)
        } else {
            None
        },
        _ => None,
    }
}

/// `Value::as_array`.
pub open spec fn as_array(j: Option<Json>) -> Option<Seq<Json>> {
    match j {
        Some(Json::Array(v)) => Some(v@),
        _ => None,
    }
}

/// `get(key).and_then(as_str)` as an owned string view.
pub open spec fn get_str(j: Json, key: Seq<char>) -> Option<Seq<char>> {
    as_str(get(j, key))
}

impl Json {
    /// `Value::get`.
    pub fn get(&self, key: &str) -> (r: Option<&Json>)
        ensures
            r matches Some(v) ==> get(*self, key@) == Some(*v),
            r is None ==> get(*self, key@) is None,
    {
        match self {
            Json::Object(members) => {
                let mut i: usize = 0;
                assert(members@.skip(0) =~= members@);
                while i < members.len()
                    invariant
                        i <= members@.len(),
                        *self == Json::Object(*members),
                        lookup(members@, key@) == lookup(members@.skip(i as int), key@),
                    decreases members@.len() - i,
                {
                    let ghost rest = members@.skip(i as int);
                    assert(rest[0] == members@[i as int]);
                    if str_eq(members[i].0.as_str(), key) {
                        return Some(&members[i].1);
                    }
                    assert(rest.skip(1) =~= members@.skip(i + 1));
                    i = i + 1;
                }
                None
            },
            _ => None,
        }
    }

    /// `Value::as_str`, owned.
    pub fn as_string(&self) -> (r: Option<String>)
        ensures
            r matches Some(s) ==> as_str(Some(*self)) == Some(s@),
            r is None ==> as_str(Some(*self)) is None,
    {
        match self {
            Json::Str(s) => Some(s.clone()),
            _ => None,
        }
    }

    /// `Value::as_bool`.
    pub fn as_bool(&self) -> (r: Option<bool>)
        ensures
            r == as_bool(Some(*self)),
    {
        match self {
            Json::Bool(b) => Some(*b),
            _ => None,
        }
    }

    /// `Value::as_u64`.
    pub fn as_u64(&self) -> (r: Option<u64>)
        ensures
            r == as_u64(Some(*self)),
    {
        match self {
            Json::Num(Some(n), _) => if 0 <= *n && *n <= u64::MAX as i128 {
                Some(*n as u64)
            } else {
                None
            },
            _ => None,
        }
    }

    /// `get(key).and_then(Value::as_str)`.
    pub fn get_string(&self, key: &str) -> (r: Option<String>)
        ensures
            r matches Some(s) ==> get_str(*self, key@) == Some(s@),
            r is None ==> get_str(*self, key@) is None,
    {
        match self.get(key) {
            Some(v) => v.as_string(),
            None => None,
        }
    }

    /// An unsigned integer value.
    pub fn uint(n: u64) -> (r: Json)
        ensures
            r matches Json::Num(Some(v), t) && v == n && t@ == crate::text::dec(n as nat),
    {
        Json::Num(Some(n as i128), crate::text::u64_str(n))
    }

    /// A signed integer value.
    pub fn signed(n: i64) -> (r: Json)
        ensures
            r matches Json::Num(Some(v), t) && v == n && t@ == crate::text::idec(n as int),
    {
        Json::Num(Some(n as i128), crate::text::i64_str(n))
    }

    /// A string value.
    pub fn string(s: &str) -> (r: Json)
        ensures
            r matches Json::Str(t) && t@ == s@,
    {
        Json::Str(str_of(s))
    }

    /// An array of string values.
    pub fn strings(v: &[String]) -> (r: Json)
        ensures
            r matches Json::Array(a) && a@.len() == v@.len() && forall|i: int|
                0 <= i < v@.len() ==> (#[trigger] a@[i] matches Json::Str(t) && t@ == v@[i]@),
    {
        let mut a: Vec<Json> = Vec::new();
        let mut i: usize = 0;
        while i < v.len()
            invariant
                i <= v@.len(),
                a@.len() == i,
                forall|k: int|
                    0 <= k < i ==> (#[trigger] a@[k] matches Json::Str(t) && t@ == v@[k]@),
            decreases v@.len() - i,
        {
            a.push(Json::string(v[i].as_str()));
            i = i + 1;
        }
        Json::Array(a)
    }
}

/// `Map::insert` on an object's members.
pub fn insert_member(members: &mut Vec<(String, Json)>, key: String, value: Json)
    ensures
        final(members)@.len() >= old(members)@.len(),
        lookup(final(members)@, key@) == Some(value),
        forall|k: Seq<char>| k != key@ ==> lookup(final(members)@, k) == lookup(old(members)@, k),
{
    let ghost m0 = members@;
    let ghost ks = key;
    let ghost vs = value;
    let mut i: usize = 0;
    while i < members.len()
        invariant
            i <= members@.len(),
            members@ == m0,
            m0 == old(members)@,
            ks == key,
            vs == value,
            forall|k: int| 0 <= k < i ==> members@[k].0@ != ks@,
        decreases members@.len() - i,
    {
        if str_eq(members[i].0.as_str(), key.as_str()) {
            members.set(i, (key, value));
            proof {
                assert(members@ == m0.update(i as int, (ks, vs)));
                lemma_lookup_update_one(m0, i as int, ks@, vs, ks);
                assert forall|k: Seq<char>| k != ks@ implies lookup(members@, k) == lookup(m0, k) by {
                    lemma_lookup_update_other(m0, i as int, ks@, vs, ks, k);
                }
            }
            return;
        }
        i = i + 1;
    }
    members.push((key, value));
    proof {
        assert(members@ == m0.push((ks, vs)));
        lemma_lookup_push_one(m0, ks@, vs, ks);
        assert forall|k: Seq<char>| k != ks@ implies lookup(members@, k) == lookup(m0, k) by {
            lemma_lookup_push_other(m0, ks@, vs, ks, k);
        }
    }
}

proof fn lemma_lookup_update_one(m: Seq<(String, Json)>, i: int, key: Seq<char>, v: Json, s: String)
    requires
        0 <= i < m.len(),
        s@ == key,
        forall|k: int| 0 <= k < i ==> m[k].0@ != key,
    ensures
        lookup(m.update(i, (s, v)), key) == Some(v),
    decreases i,
{
    if i > 0 {
        lemma_lookup_update_one(m.skip(1), i - 1, key, v, s);
        assert(m.update(i, (s, v)).skip(1) =~= m.skip(1).update(i - 1, (s, v)));
    }
}

proof fn lemma_lookup_update_other(
    m: Seq<(String, Json)>,
    i: int,
    key: Seq<char>,
    v: Json,
    s: String,
    k: Seq<char>,
)
    requires
        0 <= i < m.len(),
        m[i].0@ == key,
        s@ == key,
        k != key,
    ensures
        lookup(m.update(i, (s, v)), k) == lookup(m, k),
    decreases i,
{
    if i > 0 {
        if m[0].0@ != k {
            lemma_lookup_update_other(m.skip(1), i - 1, key, v, s, k);
            assert(m.update(i, (s, v)).skip(1) =~= m.skip(1).update(i - 1, (s, v)));
        }
    } else {
        assert(m.update(0, (s, v)).skip(1) =~= m.skip(1));
    }
}

proof fn lemma_lookup_push_one(m: Seq<(String, Json)>, key: Seq<char>, v: Json, s: String)
    requires
        forall|k: int| 0 <= k < m.len() ==> m[k].0@ != key,
        s@ == key,
    ensures
        lookup(m.push((s, v)), key) == Some(v),
    decreases m.len(),
{
    if m.len() > 0 {
        lemma_lookup_push_one(m.skip(1), key, v, s);
        assert(m.push((s, v)).skip(1) =~= m.skip(1).push((s, v)));
    }
}

proof fn lemma_lookup_push_other(
    m: Seq<(String, Json)>,
    key: Seq<char>,
    v: Json,
    s: String,
    k: Seq<char>,
)
    requires
        s@ == key,
        k != key,
    ensures
        lookup(m.push((s, v)), k) == lookup(m, k),
    decreases m.len(),
{
    if m.len() > 0 {
        if m[0].0@ != k {
            lemma_lookup_push_other(m.skip(1), key, v, s, k);
            assert(m.push((s, v)).skip(1) =~= m.skip(1).push((s, v)));
        }
    } else {
        assert(m.push((s, v)).skip(1) =~= m);
    }
}

// ── serde_json ───────────────────────────────────────────────────────────────

#[verifier::external_type_specification]
#[verifier::external_body]
pub struct ExValue(serde_json::Value);

/// What `serde_json::from_str::<Value>` makes of a text: the document (its
/// members in key order), or the parse error's message.
pub uninterp spec fn json_parse(text: Seq<char>) -> Result<Json, Seq<char>>;

pub open spec fn parsed(r: Result<Json, String>) -> Result<Json, Seq<char>> {
    match r {
        Ok(j) => Ok(j),
        Err(e) => Err(e@),
    }
}

/// Parse a JSON document.
pub fn parse_json(text: &str) -> (r: Result<Json, String>)
    ensures
        parsed(r) == json_parse(text@),
{
    value_from_str(text)
}

/// `serde_json::from_str::<serde_json::Value>`, converted to [`Json`]; the
/// error is the parse error's `Display` text. The result depends on the text
/// alone; nothing more is claimed of it.
#[verifier::external_body]
fn value_from_str(text: &str) -> (r: Result<Json, String>)
    ensures
        parsed(r) == json_parse(text@),
{
    match serde_json::from_str::<serde_json::Value>(text) {
        Ok(v) => Ok(from_value(v)),
        Err(e) => Err(e.to_string()),
    }
}

/// The compact JSON text serde_json writes for a document (`Value`'s
/// `Display`), members in key order.
pub uninterp spec fn json_render(j: Json) -> Seq<char>;

/// The compact text of a document: one line.
pub fn render(j: &Json) -> (s: String)
    ensures
        s@ == json_render(*j),
        !s@.contains('\n'),
{
    value_to_string(j)
}

/// `serde_json::Value::to_string` of the converted document. It is the
/// compact form: no whitespace between tokens, and a line feed inside a
/// string is written escaped, so the text holds no line feed.
#[verifier::external_body]
fn value_to_string(j: &Json) -> (s: String)
    ensures
        s@ == json_render(*j),
        !s@.contains('\n'),
{
    to_value(j).to_string()
}

/// Converts a [`Json`] back to a `serde_json::Value`, variant by variant.
#[verifier::external_body]
fn to_value(j: &Json) -> serde_json::Value {
    match j {
        Json::Null => serde_json::Value::Null,
        Json::Bool(b) => serde_json::Value::Bool(*b),
        Json::Num(_, t) => t.parse::<serde_json::Number>().map(serde_json::Value::Number).unwrap_or(serde_json::Value::Null),
        Json::Str(s) => serde_json::Value::String(s.clone()),
        Json::Array(a) => serde_json::Value::Array(a.iter().map(to_value).collect()),
        Json::Object(o) => serde_json::Value::Object(o.iter().map(|(k, x)| (k.clone(), to_value(x))).collect()),
    }
}

/// Converts a parsed `serde_json::Value`, variant by variant.
#[verifier::external_body]
fn from_value(v: serde_json::Value) -> Json {
    match v {
        serde_json::Value::Null => Json::Null,
        serde_json::Value::Bool(b) => Json::Bool(b),
        serde_json::Value::Number(n) => Json::Num(n.as_i128(), n.to_string()),
        serde_json::Value::String(s) => Json::Str(s),
        serde_json::Value::Array(a) => Json::Array(a.into_iter().map(from_value).collect()),
        serde_json::Value::Object(o) => Json::Object(o.into_iter().map(|(k, x)| (k, from_value(x))).collect()),
    }
}

} // verus!
