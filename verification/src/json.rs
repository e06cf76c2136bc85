//! JSON values as the library reads them: a tree of plain values, its
//! mathematical view, the parse of stored item JSON, and the lookups that
//! templates make in it.

use crate::text::str_eq;
use vstd::prelude::*;

verus! {

/// A JSON value. A number keeps the text it prints as.
pub enum Json {
    Null,
    Bool(bool),
    Number(String),
    Str(String),
    Array(Vec<Json>),
    Object(Vec<(String, Json)>),
}

/// The mathematical form of a [`Json`] value.
pub ghost enum JsonV {
    Null,
    Bool(bool),
    Number(Seq<char>),
    Str(Seq<char>),
    Array(Seq<JsonV>),
    Object(Seq<(Seq<char>, JsonV)>),
}

pub open spec fn json_view(j: Json) -> JsonV
    decreases j,
{
    match j {
        Json::Null => JsonV::Null,
        Json::Bool(b) => JsonV::Bool(b),
        Json::Number(n) => JsonV::Number(n@),
        Json::Str(s) => JsonV::Str(s@),
        Json::Array(a) => JsonV::Array(items_view(a@)),
        Json::Object(m) => JsonV::Object(entries_view(m@)),
    }
}

pub open spec fn items_view(s: Seq<Json>) -> Seq<JsonV>
    decreases s,
{
    if s.len() == 0 {
        Seq::empty()
    } else {
        items_view(s.drop_last()).push(json_view(s.last()))
    }
}

pub open spec fn entries_view(s: Seq<(String, Json)>) -> Seq<(Seq<char>, JsonV)>
    decreases s,
{
    if s.len() == 0 {
        Seq::empty()
    } else {
        entries_view(s.drop_last()).push((s.last().0@, json_view(s.last().1)))
    }
}

impl View for Json {
    type V = JsonV;

    open spec fn view(&self) -> JsonV {
        json_view(*self)
    }
}

pub proof fn lemma_items_view(s: Seq<Json>)
    ensures
        items_view(s).len() == s.len(),
        forall|i: int| 0 <= i < s.len() ==> #[trigger] items_view(s)[i] == json_view(s[i]),
    decreases s.len(),
{
    if s.len() > 0 {
        lemma_items_view(s.drop_last());
    }
}

pub proof fn lemma_entries_view(s: Seq<(String, Json)>)
    ensures
        entries_view(s).len() == s.len(),
        forall|i: int|
            0 <= i < s.len() ==> #[trigger] entries_view(s)[i] == (s[i].0@, json_view(s[i].1)),
    decreases s.len(),
{
    if s.len() > 0 {
        lemma_entries_view(s.drop_last());
    }
}

// ---------------------------------------------------------------------
// Parsing
// ---------------------------------------------------------------------

/// The value that `serde_json::from_str::<serde_json::Value>` parses from
/// `raw`, in the library's form; `None` where it reports an error.
pub uninterp spec fn json_parse(raw: Seq<char>) -> Option<JsonV>;

/// `serde_json::Value`, carried opaque between the parse and its rewrite.
#[verifier::external_type_specification]
#[verifier::external_body]
pub struct ExJsonValue(serde_json::Value);

/// Rewrites a parsed `serde_json::Value` as a [`Json`], variant for
/// variant: a number as its `to_string`, an object's entries in the order
/// its map yields them. It is the conversion half of [`parse_json`], kept
/// apart only because it recurses; it promises nothing itself.
#[verifier::external_body]
fn json_tree(v: &serde_json::Value) -> Json {
    match v {
        serde_json::Value::Null => Json::Null,
        serde_json::Value::Bool(b) => Json::Bool(*b),
        serde_json::Value::Number(n) => Json::Number(n.to_string()),
        serde_json::Value::String(s) => Json::Str(s.clone()),
        serde_json::Value::Array(a) => Json::Array(a.iter().map(json_tree).collect()),
        serde_json::Value::Object(m) => {
            Json::Object(m.iter().map(|(k, x)| (k.clone(), json_tree(x))).collect())
        },
    }
}

/// Calls `serde_json::from_str::<serde_json::Value>` on `raw`. The
/// contract names its result: the same text always parses to the same
/// value, and the call fails on the same texts.
#[verifier::external_body]
pub(crate) fn parse_json(raw: &str) -> (res: Option<Json>)
    ensures
        match res {
            Some(j) => json_parse(raw@) == Some(j@),
            None => json_parse(raw@) is None,
        },
{
    serde_json::from_str::<serde_json::Value>(raw).ok().map(|v| json_tree(&v))
}

// ---------------------------------------------------------------------
// Lookups
// ---------------------------------------------------------------------

/// The value of the first entry named `key` among `entries`.
pub open spec fn entry_value(entries: Seq<(Seq<char>, JsonV)>, key: Seq<char>) -> Option<JsonV>
    decreases entries.len(),
{
    if entries.len() == 0 {
        None
    } else if entries[0].0 == key {
        Some(entries[0].1)
    } else {
        entry_value(entries.drop_first(), key)
    }
}

/// The member `key` of an object; `None` for any other value.
pub open spec fn member(v: JsonV, key: Seq<char>) -> Option<JsonV> {
    match v {
        JsonV::Object(m) => entry_value(m, key),
        _ => None,
    }
}

/// The text of a value as templates read it: a string, or a number as it
/// prints; nothing for any other value.
pub open spec fn value_text(v: JsonV) -> Option<Seq<char>> {
    match v {
        JsonV::Str(s) => Some(s),
        JsonV::Number(n) => Some(n),
        _ => None,
    }
}

/// The string that a value is, if it is one.
pub open spec fn value_str(v: Option<JsonV>) -> Option<Seq<char>> {
    match v {
        Some(JsonV::Str(s)) => Some(s),
        _ => None,
    }
}

pub open spec fn opt_json_view(o: Option<&Json>) -> Option<JsonV> {
    match o {
        Some(j) => Some(j@),
        None => None,
    }
}

/// The member `key` of `j`, where `j` is an object that has one.
pub fn get_member<'a>(j: &'a Json, key: &str) -> (res: Option<&'a Json>)
    ensures
        opt_json_view(res) == member(j@, key@),
{
    match j {
        Json::Object(m) => {
            proof {
                lemma_entries_view(m@);
            }
            let ghost ev = entries_view(m@);
            assert(j@ == JsonV::Object(ev));
            assert(ev.subrange(0, ev.len() as int) =~= ev);
            let mut i: usize = 0;
            while i < m.len()
                invariant
                    i <= m.len(),
                    ev == entries_view(m@),
                    j@ == JsonV::Object(ev),
                    ev.len() == m@.len(),
                    forall|k: int| 0 <= k < m@.len() ==> #[trigger] ev[k] == (m@[k].0@, json_view(m@[k].1)),
                    entry_value(ev, key@) == entry_value(ev.subrange(i as int, ev.len() as int), key@),
                decreases m.len() - i,
            {
                let ghost rest = ev.subrange(i as int, ev.len() as int);
                assert(rest[0] == ev[i as int]);
                if str_eq(m[i].0.as_str(), key) {
                    assert(entry_value(rest, key@) == Some(json_view(m@[i as int].1)));
                    return Some(&m[i].1);
                }
                assert(rest.drop_first() =~= ev.subrange(i + 1, ev.len() as int));
                i = i + 1;
            }
            assert(ev.subrange(i as int, ev.len() as int).len() == 0);
            None
        },
        _ => None,
    }
}

/// The text of `j`: a string, or a number as it prints.
pub fn text_value(j: &Json) -> (res: Option<String>)
    ensures
        match res {
            Some(s) => value_text(j@) == Some(s@),
            None => value_text(j@) is None,
        },
{
    match j {
        Json::Str(s) => Some(s.clone()),
        Json::Number(n) => Some(n.clone()),
        _ => None,
    }
}

/// The string that `j` is, if it is one.
pub fn str_value(j: Option<&Json>) -> (res: Option<String>)
    ensures
        match res {
            Some(s) => value_str(opt_json_view(j)) == Some(s@),
            None => value_str(opt_json_view(j)) is None,
        },
{
    match j {
        Some(Json::Str(s)) => Some(s.clone()),
        _ => None,
    }
}

} // verus!
