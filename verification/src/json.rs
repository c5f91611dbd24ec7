//! JSON values as the library reads them: parsed by `serde_json`, then
//! walked by verified accessors.
use vstd::prelude::*;
use crate::text::{chars_of, eq_chars, eq_str};

verus! {

broadcast use vstd::string::group_string_axioms;

/// A JSON value. Numbers keep only what the library reads of them: their
/// value when it is a non-negative integer that fits `u64`.
#[derive(Debug)]
pub enum Json {
    Null,
    Bool(bool),
    Number(Option<u64>),
    Str(String),
    Array(Vec<Json>),
    /// Members in the order `serde_json`'s map keeps them (sorted by key),
    /// keys distinct.
    Object(Vec<Member>),
}

/// One member of a JSON object.
#[derive(Debug)]
pub struct Member {
    pub key: String,
    pub value: Json,
}

/// `serde_json::Value`, declared so that the converter below can take one;
/// nothing inside it is visible to proofs.
#[verifier::external_type_specification]
#[verifier::external_body]
pub struct ExJsonValue(serde_json::Value);

/// The JSON value `serde_json` parses from `text`, or its error message.
pub uninterp spec fn json_parse(text: Seq<char>) -> Result<Json, Seq<char>>;

/// Converts a parsed `serde_json::Value`, variant by variant.
#[verifier::external_body]
fn from_value(v: serde_json::Value) -> Json {
    match v {
        serde_json::Value::Null => Json::Null,
        serde_json::Value::Bool(b) => Json::Bool(b),
        serde_json::Value::Number(n) => Json::Number(n.as_u64()),
        serde_json::Value::String(s) => Json::Str(s),
        serde_json::Value::Array(a) => Json::Array(a.into_iter().map(from_value).collect()),
        serde_json::Value::Object(o) => Json::Object(
            o.into_iter().map(|(k, x)| Member { key: k, value: from_value(x) }).collect(),
        ),
    }
}

/// Calls `serde_json::from_str::<serde_json::Value>`. Claimed: the result
/// (value or error message) is `json_parse` of the text.
#[verifier::external_body]
pub(crate) fn parse_json(text: &str) -> (r: Result<Json, String>)
    ensures
        match r {
            Ok(j) => json_parse(text@) == Ok::<Json, Seq<char>>(j),
            Err(e) => json_parse(text@) == Err::<Json, Seq<char>>(e@),
        },
{
    match serde_json::from_str::<serde_json::Value>(text) {
        Ok(v) => Ok(from_value(v)),
        Err(e) => Err(e.to_string()),
    }
}

/// Member lookup in an object's entries: the first entry with that key.
pub open spec fn entry_get(entries: Seq<Member>, key: Seq<char>) -> Option<Json>
    decreases entries.len(),
{
    if entries.len() == 0 {
        None
    } else if entries[0].key@ == key {
        Some(entries[0].value)
    } else {
        entry_get(entries.drop_first(), key)
    }
}

/// `Value::get` with a string key: the member of an object, `None` for
/// anything else.
pub open spec fn json_get(j: Json, key: Seq<char>) -> Option<Json> {
    match j {
        Json::Object(entries) => entry_get(entries@, key),
        _ => None,
    }
}

pub open spec fn json_str(j: Option<Json>) -> Option<Seq<char>> {
    match j {
        Some(Json::Str(s)) => Some(s@),
        _ => None,
    }
}

pub open spec fn json_u64(j: Option<Json>) -> Option<u64> {
    match j {
        Some(Json::Number(n)) => n,
        _ => None,
    }
}

pub open spec fn json_bool(j: Option<Json>) -> Option<bool> {
    match j {
        Some(Json::Bool(b)) => Some(b),
        _ => None,
    }
}

pub open spec fn json_array(j: Option<Json>) -> Option<Seq<Json>> {
    match j {
        Some(Json::Array(a)) => Some(a@),
        _ => None,
    }
}

pub open spec fn json_object(j: Option<Json>) -> Option<Seq<Member>> {
    match j {
        Some(Json::Object(o)) => Some(o@),
        _ => None,
    }
}

proof fn lemma_entry_get_skip(entries: Seq<Member>, key: Seq<char>, i: int)
    requires
        0 <= i <= entries.len(),
        forall|j: int| 0 <= j < i ==> (#[trigger] entries[j]).key@ != key,
    ensures
        entry_get(entries, key) == entry_get(entries.skip(i), key),
    decreases i,
{
    if i == 0 {
        assert(entries.skip(0) =~= entries);
    } else {
        assert(entries[0].key@ != key);
        assert forall|j: int| 0 <= j < i - 1 implies (#[trigger] entries.drop_first()[j]).key@ != key by {
            assert(entries.drop_first()[j] == entries[j + 1]);
        }
        lemma_entry_get_skip(entries.drop_first(), key, i - 1);
        assert(entries.drop_first().skip(i - 1) =~= entries.skip(i));
    }
}

impl Json {
    /// Parses a JSON text.
    pub fn parse(text: &str) -> (r: Result<Json, String>)
        ensures
            match r {
                Ok(j) => json_parse(text@) == Ok::<Json, Seq<char>>(j),
                Err(e) => json_parse(text@) == Err::<Json, Seq<char>>(e@),
            },
    {
        parse_json(text)
    }

    /// `Value::get`: the member `key` of an object.
    pub fn get(&self, key: &str) -> (r: Option<&Json>)
        ensures
            r matches Some(x) ==> json_get(*self, key@) == Some(*x),
            r is None ==> json_get(*self, key@) is None,
    {
        match self {
            Json::Object(entries) => {
                let k = chars_of(key);
                let mut i: usize = 0;
                while i < entries.len()
                    invariant
                        i <= entries.len(),
                        k@ == key@,
                        json_get(*self, key@) == entry_get(entries@, key@),
                        forall|j: int| 0 <= j < i ==> (#[trigger] entries@[j]).key@ != key@,
                    decreases entries.len() - i,
                {
                    let name = chars_of(entries[i].key.as_str());
                    if eq_chars(&name, &k) {
                        proof {
                            lemma_entry_get_skip(entries@, key@, i as int);
                            assert(entries@.skip(i as int)[0] == entries@[i as int]);
                            assert(entries@[i as int].key@ == key@);
                            assert(entry_get(entries@.skip(i as int), key@) == Some(entries@[i as int].value));
                        }
                        return Some(&entries[i].value);
                    }
                    i += 1;
                }
                proof {
                    lemma_entry_get_skip(entries@, key@, i as int);
                    assert(entries@.skip(i as int).len() == 0);
                }
                None
            },
            _ => None,
        }
    }

    pub fn as_str(&self) -> (r: Option<&String>)
        ensures
            r matches Some(s) ==> json_str(Some(*self)) == Some(s@),
            r is None ==> json_str(Some(*self)) is None,
    {
        match self {
            Json::Str(s) => Some(s),
            _ => None,
        }
    }

    pub fn as_u64(&self) -> (r: Option<u64>)
        ensures
            r == json_u64(Some(*self)),
    {
        match self {
            Json::Number(n) => *n,
            _ => None,
        }
    }

    pub fn as_bool(&self) -> (r: Option<bool>)
        ensures
            r == json_bool(Some(*self)),
    {
        match self {
            Json::Bool(b) => Some(*b),
            _ => None,
        }
    }

    pub fn as_array(&self) -> (r: Option<&Vec<Json>>)
        ensures
            r matches Some(a) ==> json_array(Some(*self)) == Some(a@),
            r is None ==> json_array(Some(*self)) is None,
    {
        match self {
            Json::Array(a) => Some(a),
            _ => None,
        }
    }

    pub fn as_object(&self) -> (r: Option<&Vec<Member>>)
        ensures
            r matches Some(o) ==> json_object(Some(*self)) == Some(o@),
            r is None ==> json_object(Some(*self)) is None,
    {
        match self {
            Json::Object(o) => Some(o),
            _ => None,
        }
    }
}

/// String member `key` of `j`.
pub fn get_str<'a>(j: &'a Json, key: &str) -> (r: Option<&'a String>)
    ensures
        r matches Some(s) ==> json_str(json_get(*j, key@)) == Some(s@),
        r is None ==> json_str(json_get(*j, key@)) is None,
{
    match j.get(key) {
        Some(x) => x.as_str(),
        None => None,
    }
}

/// Whether member `key` of `j` is the string `lit`.
pub fn str_member_is(j: &Json, key: &str, lit: &str) -> (r: bool)
    ensures
        r == (json_str(json_get(*j, key@)) == Some(lit@)),
{
    match get_str(j, key) {
        Some(s) => {
            let c = chars_of(s.as_str());
            eq_str(&c, lit)
        },
        None => false,
    }
}

} // verus!
