//! JSON documents as plain values, read from text with `serde_json`, and
//! lookups in them.
use vstd::prelude::*;
use crate::text::{chars_eq, to_chars};

verus! {

/// A JSON value: numbers are kept as the text `serde_json` renders them
/// with, objects as their fields in order.
#[derive(Debug)]
pub enum Json {
    Null,
    Bool(bool),
    Num(String),
    Str(String),
    Arr(Vec<Json>),
    Obj(Vec<(String, Json)>),
}

#[verifier::external_type_specification]
#[verifier::external_body]
pub struct ExSerdeJsonValue(serde_json::Value);

/// What `serde_json::from_str::<serde_json::Value>` reads from a text, as a
/// [`Json`], or the message of its error.
pub uninterp spec fn json_of(text: Seq<char>) -> Result<Json, Seq<char>>;

/// A `serde_json::Value` as a [`Json`]: one arm per variant, numbers by
/// their `Display` text, object fields in the map's order. It is a part of
/// [`parse_json`]'s conversion and states nothing of its own.
#[verifier::external_body]
fn json_from_value(v: &serde_json::Value) -> Json {
    match v {
        serde_json::Value::Null => Json::Null,
        serde_json::Value::Bool(b) => Json::Bool(*b),
        serde_json::Value::Number(n) => Json::Num(n.to_string()),
        serde_json::Value::String(s) => Json::Str(s.clone()),
        serde_json::Value::Array(a) => Json::Arr(a.iter().map(json_from_value).collect()),
        serde_json::Value::Object(o) => Json::Obj(o.iter().map(|(k, x)| (k.clone(), json_from_value(x))).collect()),
    }
}

/// Calls `serde_json::from_str::<serde_json::Value>` on `text` and converts
/// the value to a [`Json`], or its error to the error's message. The result
/// is named [`json_of`].
#[verifier::external_body]
pub(crate) fn parse_json(text: &str) -> (r: Result<Json, String>)
    ensures
        match r {
            Ok(j) => json_of(text@) == Ok::<Json, Seq<char>>(j),
            Err(e) => json_of(text@) == Err::<Json, Seq<char>>(e@),
        },
{
    match serde_json::from_str::<serde_json::Value>(text) {
        Ok(v) => Ok(json_from_value(&v)),
        Err(e) => Err(e.to_string()),
    }
}

/// The value under `k` in the fields `fs`: the first field with that key.
pub open spec fn field_of(fs: Seq<(String, Json)>, k: Seq<char>) -> Option<Json>
    decreases fs.len(),
{
    if fs.len() == 0 {
        None
    } else if fs[0].0@ == k {
        Some(fs[0].1)
    } else {
        field_of(fs.drop_first(), k)
    }
}

/// The value under `k` when `j` is an object.
pub open spec fn get(j: Json, k: Seq<char>) -> Option<Json> {
    match j {
        Json::Obj(fs) => field_of(fs@, k),
        _ => None,
    }
}

/// The value under `k` when `j` is an object, see [`get`].
pub fn json_get<'a>(j: &'a Json, k: &str) -> (r: Option<&'a Json>)
    ensures
        match r {
            Some(v) => get(*j, k@) == Some(*v),
            None => get(*j, k@) is None,
        },
{
    match j {
        Json::Obj(fs) => {
            assert(get(*j, k@) == field_of(fs@, k@));
            let kv = to_chars(k);
            let mut i: usize = 0;
            assert(fs@.skip(0) =~= fs@);
            while i < fs.len()
                invariant
                    i <= fs@.len(),
                    kv@ == k@,
                    get(*j, k@) == field_of(fs@, k@),
                    field_of(fs@, k@) == field_of(fs@.skip(i as int), k@),
                decreases fs.len() - i,
            {
                let ghost rest = fs@.skip(i as int);
                assert(rest[0] == fs@[i as int]);
                assert(rest.drop_first() =~= fs@.skip(i + 1));
                let kc = to_chars(fs[i].0.as_str());
                if chars_eq(kc.as_slice(), kv.as_slice()) {
                    assert(rest[0].0@ == k@);
                    assert(field_of(rest, k@) == Some(rest[0].1));
                    let v = &fs[i].1;
                    assert(*v == fs@[i as int].1);
                    return Some(v);
                }
                i += 1;
            }
            None
        },
        _ => None,
    }
}

} // verus!
