//! JSON values as Steam's Web API returns them, with the lookups the library makes.

use crate::text::str_eq;
use serde_json::Value;
use vstd::prelude::*;

verus! {

/// A parsed JSON value. An integer that fits a `u64`, or a negative one that fits an `i64`, is
/// kept as that integer; any other number as its text.
#[derive(Debug)]
pub enum Json {
    Null,
    Bool(bool),
    UInt(u64),
    NegInt(i64),
    Float(String),
    Str(String),
    Array(Vec<Json>),
    /// Members in document order, each key once.
    Object(Vec<(String, Json)>),
}

/// The value of the first member named `key`.
pub open spec fn field(fields: Seq<(String, Json)>, key: Seq<char>) -> Option<Json>
    decreases fields.len(),
{
    if fields.len() == 0 {
        None
    } else if fields[0].0@ == key {
        Some(fields[0].1)
    } else {
        field(fields.drop_first(), key)
    }
}

impl Json {
    /// `value[key]`: the member's value, or `Null` when there is none.
    pub open spec fn at(self, key: Seq<char>) -> Json {
        match self {
            Json::Object(f) => match field(f@, key) {
                Some(v) => v,
                None => Json::Null,
            },
            _ => Json::Null,
        }
    }

    /// `value[i]`: the array's element, or `Null` when there is none.
    pub open spec fn nth(self, i: int) -> Json {
        match self {
            Json::Array(a) => if 0 <= i < a@.len() {
                a@[i]
            } else {
                Json::Null
            },
            _ => Json::Null,
        }
    }

    pub open spec fn str_of(self) -> Option<Seq<char>> {
        match self {
            Json::Str(s) => Some(s@),
            _ => None,
        }
    }

    pub open spec fn u64_of(self) -> Option<u64> {
        match self {
            Json::UInt(u) => Some(u),
            _ => None,
        }
    }

    pub open spec fn i64_of(self) -> Option<i64> {
        match self {
            Json::UInt(u) => if u <= i64::MAX {
                Some(u as i64)
            } else {
                None
            },
            Json::NegInt(i) => Some(i),
            _ => None,
        }
    }

    pub open spec fn array_of(self) -> Option<Seq<Json>> {
        match self {
            Json::Array(a) => Some(a@),
            _ => None,
        }
    }

    /// The value of member `key`, when this is an object that has one.
    pub fn get(&self, key: &str) -> (r: Option<&Json>)
        ensures
            match r {
                Some(v) => self.at(key@) == *v && (self matches Json::Object(f) && field(
                    f@,
                    key@,
                ) == Some(*v)),
                None => self.at(key@) == Json::Null,
            },
    {
        match self {
            Json::Object(fields) => {
                let mut i: usize = 0;
                assert(fields@.skip(0) =~= fields@);
                while i < fields.len()
                    invariant
                        i <= fields@.len(),
                        *self == Json::Object(*fields),
                        field(fields@, key@) == field(fields@.skip(i as int), key@),
                    decreases fields.len() - i,
                {
                    assert(fields@.skip(i as int).drop_first() =~= fields@.skip(i + 1));
                    assert(fields@.skip(i as int)[0] == fields@[i as int]);
                    if str_eq(fields[i].0.as_str(), key) {
                        return Some(&fields[i].1);
                    }
                    i = i + 1;
                }
                None
            },
            _ => None,
        }
    }

    /// The element at `i`, when this is an array that long.
    pub fn get_index(&self, i: usize) -> (r: Option<&Json>)
        ensures
            match r {
                Some(v) => self.nth(i as int) == *v,
                None => self.nth(i as int) == Json::Null,
            },
    {
        match self {
            Json::Array(a) => if i < a.len() {
                Some(&a[i])
            } else {
                None
            },
            _ => None,
        }
    }

    pub fn as_str(&self) -> (r: Option<&str>)
        ensures
            match r {
                Some(s) => self.str_of() == Some(s@),
                None => self.str_of() is None,
            },
    {
        match self {
            Json::Str(s) => Some(s.as_str()),
            _ => None,
        }
    }

    pub fn as_u64(&self) -> (r: Option<u64>)
        ensures
            r == self.u64_of(),
    {
        match self {
            Json::UInt(u) => Some(*u),
            _ => None,
        }
    }

    pub fn as_i64(&self) -> (r: Option<i64>)
        ensures
            r == self.i64_of(),
    {
        match self {
            Json::UInt(u) => if *u <= 0x7fff_ffff_ffff_ffff {
                Some(*u as i64)
            } else {
                None
            },
            Json::NegInt(i) => Some(*i),
            _ => None,
        }
    }

    pub fn as_array(&self) -> (r: Option<&Vec<Json>>)
        ensures
            match r {
                Some(a) => self.array_of() == Some(a@),
                None => self.array_of() is None,
            },
    {
        match self {
            Json::Array(a) => Some(a),
            _ => None,
        }
    }
}

#[verifier::external_type_specification]
#[verifier::external_body]
pub struct ExJsonValue(serde_json::Value);

/// What `serde_json::from_str::<serde_json::Value>` makes of a text, as a `Json`, or the text of
/// its error.
pub uninterp spec fn json_text(text: Seq<char>) -> Result<Json, Seq<char>>;

/// What `serde_json::from_slice::<serde_json::Map<String, Value>>` makes of bytes:
/// the object's members, or the text of its error.
pub uninterp spec fn json_members(bytes: Seq<u8>) -> Result<Seq<(String, Json)>, Seq<char>>;

/// What `serde_json::to_vec_pretty` prints for a value; the error is the text of a number that
/// does not read back, or the printer's.
pub uninterp spec fn json_pretty(value: Json) -> Result<Seq<u8>, Seq<char>>;

pub open spec fn parsed_view(r: Result<Json, String>) -> Result<Json, Seq<char>> {
    match r {
        Ok(j) => Ok(j),
        Err(e) => Err(e@),
    }
}

pub open spec fn members_view(r: Result<Vec<(String, Json)>, String>) -> Result<
    Seq<(String, Json)>,
    Seq<char>,
> {
    match r {
        Ok(m) => Ok(m@),
        Err(e) => Err(e@),
    }
}

pub open spec fn printed_view(r: Result<Vec<u8>, String>) -> Result<Seq<u8>, Seq<char>> {
    match r {
        Ok(b) => Ok(b@),
        Err(e) => Err(e@),
    }
}

/// A `serde_json::Value` as a `Json`, member for member; a number that is no `u64` or `i64` keeps
/// its text.
#[verifier::external_body]
fn json_of_value(value: Value) -> Json {
    match value {
        Value::Null => Json::Null,
        Value::Bool(b) => Json::Bool(b),
        Value::Number(n) => match (n.as_u64(), n.as_i64()) {
            (Some(u), _) => Json::UInt(u),
            (None, Some(i)) => Json::NegInt(i),
            (None, None) => Json::Float(n.to_string()),
        },
        Value::String(s) => Json::Str(s),
        Value::Array(a) => Json::Array(a.into_iter().map(json_of_value).collect()),
        Value::Object(m) => Json::Object(m.into_iter().map(|(k, v)| (k, json_of_value(v))).collect()),
    }
}

/// A `Json` as a `serde_json::Value`, member for member; a number's text is read back as JSON
/// with `serde_json::Value`'s `FromStr`, and a text that does not read is the error.
#[verifier::external_body]
fn value_of_json(value: &Json) -> Result<Value, String> {
    Ok(match value {
        Json::Null => Value::Null,
        Json::Bool(b) => Value::Bool(*b),
        Json::UInt(u) => Value::from(*u),
        Json::NegInt(i) => Value::from(*i),
        Json::Float(t) => t.parse().map_err(|_| t.clone())?,
        Json::Str(s) => Value::String(s.clone()),
        Json::Array(a) => Value::Array(a.iter().map(value_of_json).collect::<Result<_, _>>()?),
        Json::Object(m) => Value::Object(m.iter().map(|(k, v)| Ok((k.clone(), value_of_json(v)?))).collect::<Result<_, String>>()?),
    })
}

/// `serde_json::from_str` into a `serde_json::Value`, converted to a `Json`; the result is named
/// by `json_text`.
#[verifier::external_body]
pub(crate) fn parse_json(text: &str) -> (r: Result<Json, String>)
    ensures
        parsed_view(r) == json_text(text@),
{
    match serde_json::from_str::<Value>(text) {
        Ok(v) => Ok(json_of_value(v)),
        Err(e) => Err(e.to_string()),
    }
}

/// `serde_json::from_slice` into a `serde_json::Map`, its members converted to `Json`; the result
/// is named by `json_members`.
#[verifier::external_body]
pub(crate) fn parse_json_members(bytes: &[u8]) -> (r: Result<Vec<(String, Json)>, String>)
    ensures
        members_view(r) == json_members(bytes@),
{
    match serde_json::from_slice::<serde_json::Map<String, Value>>(bytes) {
        Ok(m) => Ok(m.into_iter().map(|(k, v)| (k, json_of_value(v))).collect()),
        Err(e) => Err(e.to_string()),
    }
}

/// `serde_json::to_vec_pretty` of the value converted to a `serde_json::Value`; the result is
/// named by `json_pretty`.
#[verifier::external_body]
pub(crate) fn pretty_json(value: &Json) -> (r: Result<Vec<u8>, String>)
    ensures
        printed_view(r) == json_pretty(*value),
{
    match value_of_json(value) {
        Ok(v) => serde_json::to_vec_pretty(&v).map_err(|e| e.to_string()),
        Err(e) => Err(e),
    }
}

/// An answer to a request, read as JSON: the request's error, or what its text parses to.
pub open spec fn answer_json(answer: Result<String, String>) -> Result<Json, Seq<char>> {
    match answer {
        Err(e) => Err(e@),
        Ok(t) => json_text(t@),
    }
}

/// Reads the answer to a request as JSON; a failed request keeps its error.
pub fn read_answer(answer: Result<String, String>) -> (r: Result<Json, String>)
    ensures
        parsed_view(r) == answer_json(answer),
{
    match answer {
        Err(e) => Err(e),
        Ok(t) => parse_json(t.as_str()),
    }
}

} // verus!
