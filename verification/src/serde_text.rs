//! JSON, YAML and TOML text, read and written by the serde crates
//! (serde_json, serde_yaml, toml) through `serde_json::Value`. What each
//! crate reads from a text, or writes for a value, depends on its argument
//! alone and takes the crate's grammar to state, so each result is named
//! here, and the library's own logic ([`Format`](crate::formats::Format)'s
//! `parse` and `dump`) is stated over those names.

use crate::json::{Json, JsonV, json_is};
use vstd::prelude::*;

verus! {

#[verifier::external_type_specification]
#[verifier::external_body]
pub struct ExSerdeValue(serde_json::Value);

// ---- what the serde crates read and write ----------------------------------------------

/// What `serde_json::from_str` reads from `text` as a `serde_json::Value`,
/// in the library's form (see `json_of_serde`), or the text of its error.
pub uninterp spec fn json_text_value(text: Seq<char>) -> Result<JsonV, Seq<char>>;

/// What `serde_yaml::from_str` reads from `text` as a `serde_json::Value`,
/// in the library's form, or the text of its error.
pub uninterp spec fn yaml_text_value(text: Seq<char>) -> Result<JsonV, Seq<char>>;

/// What `toml::from_str` reads from `text` as a `serde_json::Value`, in the
/// library's form, or the text of its error.
pub uninterp spec fn toml_text_value(text: Seq<char>) -> Result<JsonV, Seq<char>>;

/// What `serde_json::to_string` writes for the `serde_json::Value` that `v`
/// stands for (see `serde_of_json`), or the text of its error.
pub uninterp spec fn json_compact_text(v: JsonV) -> Result<Seq<char>, Seq<char>>;

/// What `serde_json::to_string_pretty` writes for the `serde_json::Value`
/// that `v` stands for, or the text of its error.
pub uninterp spec fn json_pretty_text(v: JsonV) -> Result<Seq<char>, Seq<char>>;

/// What `serde_yaml::to_string` writes for the `serde_json::Value` that `v`
/// stands for, or the text of its error.
pub uninterp spec fn yaml_text_of(v: JsonV) -> Result<Seq<char>, Seq<char>>;

/// What `toml::to_string_pretty` writes for the `serde_json::Value` that `v`
/// stands for, or the text of its error (TOML has no `null`, and a document
/// is a table).
pub uninterp spec fn toml_text_of(v: JsonV) -> Result<Seq<char>, Seq<char>>;

// ---- between `serde_json::Value` and the library's value -------------------------------

/// A `serde_json::Value` as the library's value: integers that fit `i64`
/// (`Number::as_i64`) as `Int`, other numbers as their text, members in the
/// map's order (sorted by key, as serde_json's default map keeps them).
#[verifier::external_body]
fn json_of_serde(v: &serde_json::Value) -> Json {
    match v {
        serde_json::Value::Null => Json::Null,
        serde_json::Value::Bool(b) => Json::Bool(*b),
        serde_json::Value::Number(n) => match n.as_i64() {
            Some(i) => Json::Int(i),
            None => Json::Num(n.to_string()),
        },
        serde_json::Value::String(s) => Json::Str(s.clone()),
        serde_json::Value::Array(a) => Json::Array(a.iter().map(json_of_serde).collect()),
        serde_json::Value::Object(m) => Json::Object(m.iter().map(|(k, x)| (k.clone(), json_of_serde(x))).collect()),
    }
}

/// The library's value as a `serde_json::Value`: `Int` by `Value::from`, a
/// `Num` by serde_json's reading of its text (a string when that text is no
/// JSON value), members inserted into serde_json's map.
#[verifier::external_body]
fn serde_of_json(j: &Json) -> serde_json::Value {
    match j {
        Json::Null => serde_json::Value::Null,
        Json::Bool(b) => serde_json::Value::Bool(*b),
        Json::Int(n) => serde_json::Value::from(*n),
        Json::Num(s) => serde_json::from_str(s).unwrap_or_else(|_| serde_json::Value::String(s.clone())),
        Json::Str(s) => serde_json::Value::String(s.clone()),
        Json::Array(a) => serde_json::Value::Array(a.iter().map(serde_of_json).collect()),
        Json::Object(m) => serde_json::Value::Object(m.iter().map(|(k, x)| (k.clone(), serde_of_json(x))).collect()),
    }
}

// ---- reading ---------------------------------------------------------------------------

/// `serde_json::from_str` of `text` as a `serde_json::Value`, converted by
/// `json_of_serde`; its error as text. The result depends on `text` alone,
/// so it is named [`json_text_value`] of it.
#[verifier::external_body]
pub(crate) fn parse_json_text(text: &str) -> (r: Result<Json, String>)
    ensures
        match json_text_value(text@) {
            Ok(v) => r matches Ok(j) && json_is(j, v),
            Err(e) => r matches Err(m) && m@ == e,
        },
{
    match serde_json::from_str::<serde_json::Value>(text) {
        Ok(v) => Ok(json_of_serde(&v)),
        Err(e) => Err(e.to_string()),
    }
}

/// `serde_yaml::from_str` of `text` as a `serde_json::Value`, converted by
/// `json_of_serde`; its error as text. Named [`yaml_text_value`] of `text`.
#[verifier::external_body]
pub(crate) fn parse_yaml_text(text: &str) -> (r: Result<Json, String>)
    ensures
        match yaml_text_value(text@) {
            Ok(v) => r matches Ok(j) && json_is(j, v),
            Err(e) => r matches Err(m) && m@ == e,
        },
{
    match serde_yaml::from_str::<serde_json::Value>(text) {
        Ok(v) => Ok(json_of_serde(&v)),
        Err(e) => Err(e.to_string()),
    }
}

/// `toml::from_str` of `text` as a `serde_json::Value`, converted by
/// `json_of_serde`; its error as text. Named [`toml_text_value`] of `text`.
#[verifier::external_body]
pub(crate) fn parse_toml_text(text: &str) -> (r: Result<Json, String>)
    ensures
        match toml_text_value(text@) {
            Ok(v) => r matches Ok(j) && json_is(j, v),
            Err(e) => r matches Err(m) && m@ == e,
        },
{
    match toml::from_str::<serde_json::Value>(text) {
        Ok(v) => Ok(json_of_serde(&v)),
        Err(e) => Err(e.to_string()),
    }
}

// ---- writing ---------------------------------------------------------------------------

/// `serde_json::to_string` of the value, converted by `serde_of_json`; its
/// error as text. Named [`json_compact_text`] of the value.
#[verifier::external_body]
pub(crate) fn write_json_compact(value: &Json) -> (r: Result<String, String>)
    ensures
        forall|v: JsonV| #[trigger] json_is(*value, v) ==> match json_compact_text(v) {
            Ok(t) => r matches Ok(s) && s@ == t,
            Err(e) => r matches Err(m) && m@ == e,
        },
{
    match serde_json::to_string(&serde_of_json(value)) {
        Ok(s) => Ok(s),
        Err(e) => Err(e.to_string()),
    }
}

/// `serde_json::to_string_pretty` of the value, converted by
/// `serde_of_json`; its error as text. Named [`json_pretty_text`] of the
/// value.
#[verifier::external_body]
pub(crate) fn write_json_pretty(value: &Json) -> (r: Result<String, String>)
    ensures
        forall|v: JsonV| #[trigger] json_is(*value, v) ==> match json_pretty_text(v) {
            Ok(t) => r matches Ok(s) && s@ == t,
            Err(e) => r matches Err(m) && m@ == e,
        },
{
    match serde_json::to_string_pretty(&serde_of_json(value)) {
        Ok(s) => Ok(s),
        Err(e) => Err(e.to_string()),
    }
}

/// `serde_yaml::to_string` of the value, converted by `serde_of_json`; its
/// error as text. Named [`yaml_text_of`] of the value.
#[verifier::external_body]
pub(crate) fn write_yaml(value: &Json) -> (r: Result<String, String>)
    ensures
        forall|v: JsonV| #[trigger] json_is(*value, v) ==> match yaml_text_of(v) {
            Ok(t) => r matches Ok(s) && s@ == t,
            Err(e) => r matches Err(m) && m@ == e,
        },
{
    match serde_yaml::to_string(&serde_of_json(value)) {
        Ok(s) => Ok(s),
        Err(e) => Err(e.to_string()),
    }
}

/// `toml::to_string_pretty` of the value, converted by `serde_of_json`; its
/// error as text. Named [`toml_text_of`] of the value.
#[verifier::external_body]
pub(crate) fn write_toml(value: &Json) -> (r: Result<String, String>)
    ensures
        forall|v: JsonV| #[trigger] json_is(*value, v) ==> match toml_text_of(v) {
            Ok(t) => r matches Ok(s) && s@ == t,
            Err(e) => r matches Err(m) && m@ == e,
        },
{
    match toml::to_string_pretty(&serde_of_json(value)) {
        Ok(s) => Ok(s),
        Err(e) => Err(e.to_string()),
    }
}

} // verus!
